//! Tokens of the Water language.
use vstd::prelude::*;

verus! {

/// A byte range `start..end` of the source text.
#[derive(Clone, Copy, Debug, PartialEq, Eq, Structural)]
pub struct Span {
    pub start: usize,
    pub end: usize,
}

/// The tokens. Names, string contents and float literals keep their bytes;
/// `Indent` and `Dedent` mark a deeper and a shallower indentation level.
#[derive(Clone, Debug, PartialEq, Eq)]
pub enum Token {
    And,
    Or,
    Not,
    For,
    In,
    If,
    Then,
    Else,
    While,
    Return,
    Break,
    Continue,
    From,
    Import,
    As,
    True,
    False,
    Newline,
    EqEq,
    NotEq,
    Bang,
    RArrow,
    Eq,
    PlusEq,
    MinusEq,
    StarEq,
    SlashEq,
    PercentEq,
    StarStar,
    DoubleQuotedString(Vec<u8>),
    SingleQuotedString(Vec<u8>),
    Identifier(Vec<u8>),
    Integer(i64),
    Float(Vec<u8>),
    Colon,
    Comma,
    Dot,
    Plus,
    Minus,
    Star,
    LParen,
    RParen,
    LBracket,
    RBracket,
    Slash,
    Percent,
    Range,
    LEq,
    GEq,
    Lt,
    Gt,
    DollarSign,
    Whitespace,
    Indent,
    Dedent,
    Error,
    Eof,
}

/// The kind of a token: the token without its payload.
#[derive(Clone, Copy, Debug, PartialEq, Eq, Structural)]
pub enum TokenKind {
    And,
    Or,
    Not,
    For,
    In,
    If,
    Then,
    Else,
    While,
    Return,
    Break,
    Continue,
    From,
    Import,
    As,
    True,
    False,
    Newline,
    EqEq,
    NotEq,
    Bang,
    RArrow,
    Eq,
    PlusEq,
    MinusEq,
    StarEq,
    SlashEq,
    PercentEq,
    StarStar,
    DoubleQuotedString,
    SingleQuotedString,
    Identifier,
    Integer,
    Float,
    Colon,
    Comma,
    Dot,
    Plus,
    Minus,
    Star,
    LParen,
    RParen,
    LBracket,
    RBracket,
    Slash,
    Percent,
    Range,
    LEq,
    GEq,
    Lt,
    Gt,
    DollarSign,
    Whitespace,
    Indent,
    Dedent,
    Error,
    Eof,
}

impl Token {
    pub open spec fn spec_kind(&self) -> TokenKind {
        match self {
            Token::And => TokenKind::And,
            Token::Or => TokenKind::Or,
            Token::Not => TokenKind::Not,
            Token::For => TokenKind::For,
            Token::In => TokenKind::In,
            Token::If => TokenKind::If,
            Token::Then => TokenKind::Then,
            Token::Else => TokenKind::Else,
            Token::While => TokenKind::While,
            Token::Return => TokenKind::Return,
            Token::Break => TokenKind::Break,
            Token::Continue => TokenKind::Continue,
            Token::From => TokenKind::From,
            Token::Import => TokenKind::Import,
            Token::As => TokenKind::As,
            Token::True => TokenKind::True,
            Token::False => TokenKind::False,
            Token::Newline => TokenKind::Newline,
            Token::EqEq => TokenKind::EqEq,
            Token::NotEq => TokenKind::NotEq,
            Token::Bang => TokenKind::Bang,
            Token::RArrow => TokenKind::RArrow,
            Token::Eq => TokenKind::Eq,
            Token::PlusEq => TokenKind::PlusEq,
            Token::MinusEq => TokenKind::MinusEq,
            Token::StarEq => TokenKind::StarEq,
            Token::SlashEq => TokenKind::SlashEq,
            Token::PercentEq => TokenKind::PercentEq,
            Token::StarStar => TokenKind::StarStar,
            Token::DoubleQuotedString(_) => TokenKind::DoubleQuotedString,
            Token::SingleQuotedString(_) => TokenKind::SingleQuotedString,
            Token::Identifier(_) => TokenKind::Identifier,
            Token::Integer(_) => TokenKind::Integer,
            Token::Float(_) => TokenKind::Float,
            Token::Colon => TokenKind::Colon,
            Token::Comma => TokenKind::Comma,
            Token::Dot => TokenKind::Dot,
            Token::Plus => TokenKind::Plus,
            Token::Minus => TokenKind::Minus,
            Token::Star => TokenKind::Star,
            Token::LParen => TokenKind::LParen,
            Token::RParen => TokenKind::RParen,
            Token::LBracket => TokenKind::LBracket,
            Token::RBracket => TokenKind::RBracket,
            Token::Slash => TokenKind::Slash,
            Token::Percent => TokenKind::Percent,
            Token::Range => TokenKind::Range,
            Token::LEq => TokenKind::LEq,
            Token::GEq => TokenKind::GEq,
            Token::Lt => TokenKind::Lt,
            Token::Gt => TokenKind::Gt,
            Token::DollarSign => TokenKind::DollarSign,
            Token::Whitespace => TokenKind::Whitespace,
            Token::Indent => TokenKind::Indent,
            Token::Dedent => TokenKind::Dedent,
            Token::Error => TokenKind::Error,
            Token::Eof => TokenKind::Eof,
        }
    }

    /// The kind of this token.
    #[verifier::when_used_as_spec(spec_kind)]
    pub fn kind(&self) -> (r: TokenKind)
        ensures
            r == self.spec_kind(),
    {
        match self {
            Token::And => TokenKind::And,
            Token::Or => TokenKind::Or,
            Token::Not => TokenKind::Not,
            Token::For => TokenKind::For,
            Token::In => TokenKind::In,
            Token::If => TokenKind::If,
            Token::Then => TokenKind::Then,
            Token::Else => TokenKind::Else,
            Token::While => TokenKind::While,
            Token::Return => TokenKind::Return,
            Token::Break => TokenKind::Break,
            Token::Continue => TokenKind::Continue,
            Token::From => TokenKind::From,
            Token::Import => TokenKind::Import,
            Token::As => TokenKind::As,
            Token::True => TokenKind::True,
            Token::False => TokenKind::False,
            Token::Newline => TokenKind::Newline,
            Token::EqEq => TokenKind::EqEq,
            Token::NotEq => TokenKind::NotEq,
            Token::Bang => TokenKind::Bang,
            Token::RArrow => TokenKind::RArrow,
            Token::Eq => TokenKind::Eq,
            Token::PlusEq => TokenKind::PlusEq,
            Token::MinusEq => TokenKind::MinusEq,
            Token::StarEq => TokenKind::StarEq,
            Token::SlashEq => TokenKind::SlashEq,
            Token::PercentEq => TokenKind::PercentEq,
            Token::StarStar => TokenKind::StarStar,
            Token::DoubleQuotedString(_) => TokenKind::DoubleQuotedString,
            Token::SingleQuotedString(_) => TokenKind::SingleQuotedString,
            Token::Identifier(_) => TokenKind::Identifier,
            Token::Integer(_) => TokenKind::Integer,
            Token::Float(_) => TokenKind::Float,
            Token::Colon => TokenKind::Colon,
            Token::Comma => TokenKind::Comma,
            Token::Dot => TokenKind::Dot,
            Token::Plus => TokenKind::Plus,
            Token::Minus => TokenKind::Minus,
            Token::Star => TokenKind::Star,
            Token::LParen => TokenKind::LParen,
            Token::RParen => TokenKind::RParen,
            Token::LBracket => TokenKind::LBracket,
            Token::RBracket => TokenKind::RBracket,
            Token::Slash => TokenKind::Slash,
            Token::Percent => TokenKind::Percent,
            Token::Range => TokenKind::Range,
            Token::LEq => TokenKind::LEq,
            Token::GEq => TokenKind::GEq,
            Token::Lt => TokenKind::Lt,
            Token::Gt => TokenKind::Gt,
            Token::DollarSign => TokenKind::DollarSign,
            Token::Whitespace => TokenKind::Whitespace,
            Token::Indent => TokenKind::Indent,
            Token::Dedent => TokenKind::Dedent,
            Token::Error => TokenKind::Error,
            Token::Eof => TokenKind::Eof,
        }
    }
}

/// A copy of a byte string.
pub fn copy_bytes(v: &Vec<u8>) -> (r: Vec<u8>)
    ensures
        r@ == v@,
{
    let mut r: Vec<u8> = Vec::new();
    let mut i: usize = 0;
    while i < v.len()
        invariant
            0 <= i <= v@.len(),
            r@ == v@.take(i as int),
        decreases v@.len() - i,
    {
        r.push(v[i]);
        i = i + 1;
        assert(r@ =~= v@.take(i as int));
    }
    assert(v@.take(i as int) =~= v@);
    r
}

/// The bytes a token carries: a name, the contents of a string or the text
/// of a float; empty for the other tokens.
pub open spec fn token_bytes(t: Token) -> Seq<u8> {
    match t {
        Token::DoubleQuotedString(s) => s@,
        Token::SingleQuotedString(s) => s@,
        Token::Identifier(s) => s@,
        Token::Float(s) => s@,
        _ => seq![],
    }
}

/// The integer a token carries; 0 for tokens other than integers.
pub open spec fn token_int(t: Token) -> i64 {
    match t {
        Token::Integer(i) => i,
        _ => 0,
    }
}

/// Two tokens are the same: same kind and same payload.
pub open spec fn same_token(a: Token, b: Token) -> bool {
    &&& a.spec_kind() == b.spec_kind()
    &&& token_bytes(a) == token_bytes(b)
    &&& token_int(a) == token_int(b)
}

impl Token {
    /// A copy of this token.
    pub fn duplicate(&self) -> (r: Token)
        ensures
            same_token(r, *self),
    {
        match self {
            Token::DoubleQuotedString(s) => Token::DoubleQuotedString(copy_bytes(s)),
            Token::SingleQuotedString(s) => Token::SingleQuotedString(copy_bytes(s)),
            Token::Identifier(s) => Token::Identifier(copy_bytes(s)),
            Token::Float(s) => Token::Float(copy_bytes(s)),
            Token::Integer(i) => Token::Integer(*i),
            Token::And => Token::And,
            Token::Or => Token::Or,
            Token::Not => Token::Not,
            Token::For => Token::For,
            Token::In => Token::In,
            Token::If => Token::If,
            Token::Then => Token::Then,
            Token::Else => Token::Else,
            Token::While => Token::While,
            Token::Return => Token::Return,
            Token::Break => Token::Break,
            Token::Continue => Token::Continue,
            Token::From => Token::From,
            Token::Import => Token::Import,
            Token::As => Token::As,
            Token::True => Token::True,
            Token::False => Token::False,
            Token::Newline => Token::Newline,
            Token::EqEq => Token::EqEq,
            Token::NotEq => Token::NotEq,
            Token::Bang => Token::Bang,
            Token::RArrow => Token::RArrow,
            Token::Eq => Token::Eq,
            Token::PlusEq => Token::PlusEq,
            Token::MinusEq => Token::MinusEq,
            Token::StarEq => Token::StarEq,
            Token::SlashEq => Token::SlashEq,
            Token::PercentEq => Token::PercentEq,
            Token::StarStar => Token::StarStar,
            Token::Colon => Token::Colon,
            Token::Comma => Token::Comma,
            Token::Dot => Token::Dot,
            Token::Plus => Token::Plus,
            Token::Minus => Token::Minus,
            Token::Star => Token::Star,
            Token::LParen => Token::LParen,
            Token::RParen => Token::RParen,
            Token::LBracket => Token::LBracket,
            Token::RBracket => Token::RBracket,
            Token::Slash => Token::Slash,
            Token::Percent => Token::Percent,
            Token::Range => Token::Range,
            Token::LEq => Token::LEq,
            Token::GEq => Token::GEq,
            Token::Lt => Token::Lt,
            Token::Gt => Token::Gt,
            Token::DollarSign => Token::DollarSign,
            Token::Whitespace => Token::Whitespace,
            Token::Indent => Token::Indent,
            Token::Dedent => Token::Dedent,
            Token::Error => Token::Error,
            Token::Eof => Token::Eof,
        }
    }
}

} // verus!
