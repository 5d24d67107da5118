//! A cursor over a token list, with one saved position for backtracking and
//! a counter that hands out node identifiers.
use vstd::prelude::*;
use vstd::string::StringExecFns;
use crate::token::{Span, Token, TokenKind, same_token};

verus! {

/// A parse error: what was expected, and where, when that is known.
#[derive(Debug)]
pub struct ParsingError {
    pub message: String,
    pub span: Option<Span>,
}

impl ParsingError {
    pub fn new(message: &str, span: Option<Span>) -> (r: Self)
        ensures
            r.message@ == message@,
            r.span == span,
    {
        Self { message: message.to_owned(), span }
    }
}

/// The name of each token kind.
pub open spec fn kind_text(k: TokenKind) -> &'static str {
    match k {
        TokenKind::And => "And",
        TokenKind::Or => "Or",
        TokenKind::Not => "Not",
        TokenKind::For => "For",
        TokenKind::In => "In",
        TokenKind::If => "If",
        TokenKind::Then => "Then",
        TokenKind::Else => "Else",
        TokenKind::While => "While",
        TokenKind::Return => "Return",
        TokenKind::Break => "Break",
        TokenKind::Continue => "Continue",
        TokenKind::From => "From",
        TokenKind::Import => "Import",
        TokenKind::As => "As",
        TokenKind::True => "True",
        TokenKind::False => "False",
        TokenKind::Newline => "Newline",
        TokenKind::EqEq => "EqEq",
        TokenKind::NotEq => "NotEq",
        TokenKind::Bang => "Bang",
        TokenKind::RArrow => "RArrow",
        TokenKind::Eq => "Eq",
        TokenKind::PlusEq => "PlusEq",
        TokenKind::MinusEq => "MinusEq",
        TokenKind::StarEq => "StarEq",
        TokenKind::SlashEq => "SlashEq",
        TokenKind::PercentEq => "PercentEq",
        TokenKind::StarStar => "StarStar",
        TokenKind::DoubleQuotedString => "DoubleQuotedString",
        TokenKind::SingleQuotedString => "SingleQuotedString",
        TokenKind::Identifier => "Identifier",
        TokenKind::Integer => "Integer",
        TokenKind::Float => "Float",
        TokenKind::Colon => "Colon",
        TokenKind::Comma => "Comma",
        TokenKind::Dot => "Dot",
        TokenKind::Plus => "Plus",
        TokenKind::Minus => "Minus",
        TokenKind::Star => "Star",
        TokenKind::LParen => "LParen",
        TokenKind::RParen => "RParen",
        TokenKind::LBracket => "LBracket",
        TokenKind::RBracket => "RBracket",
        TokenKind::Slash => "Slash",
        TokenKind::Percent => "Percent",
        TokenKind::Range => "Range",
        TokenKind::LEq => "LEq",
        TokenKind::GEq => "GEq",
        TokenKind::Lt => "Lt",
        TokenKind::Gt => "Gt",
        TokenKind::DollarSign => "DollarSign",
        TokenKind::Whitespace => "Whitespace",
        TokenKind::Indent => "Indent",
        TokenKind::Dedent => "Dedent",
        TokenKind::Error => "Error",
        TokenKind::Eof => "Eof",
    }
}

/// The name of a token kind, as error messages spell it.
pub fn kind_name(k: TokenKind) -> (r: &'static str)
    ensures
        r == kind_text(k),
{
    match k {
        TokenKind::And => "And",
        TokenKind::Or => "Or",
        TokenKind::Not => "Not",
        TokenKind::For => "For",
        TokenKind::In => "In",
        TokenKind::If => "If",
        TokenKind::Then => "Then",
        TokenKind::Else => "Else",
        TokenKind::While => "While",
        TokenKind::Return => "Return",
        TokenKind::Break => "Break",
        TokenKind::Continue => "Continue",
        TokenKind::From => "From",
        TokenKind::Import => "Import",
        TokenKind::As => "As",
        TokenKind::True => "True",
        TokenKind::False => "False",
        TokenKind::Newline => "Newline",
        TokenKind::EqEq => "EqEq",
        TokenKind::NotEq => "NotEq",
        TokenKind::Bang => "Bang",
        TokenKind::RArrow => "RArrow",
        TokenKind::Eq => "Eq",
        TokenKind::PlusEq => "PlusEq",
        TokenKind::MinusEq => "MinusEq",
        TokenKind::StarEq => "StarEq",
        TokenKind::SlashEq => "SlashEq",
        TokenKind::PercentEq => "PercentEq",
        TokenKind::StarStar => "StarStar",
        TokenKind::DoubleQuotedString => "DoubleQuotedString",
        TokenKind::SingleQuotedString => "SingleQuotedString",
        TokenKind::Identifier => "Identifier",
        TokenKind::Integer => "Integer",
        TokenKind::Float => "Float",
        TokenKind::Colon => "Colon",
        TokenKind::Comma => "Comma",
        TokenKind::Dot => "Dot",
        TokenKind::Plus => "Plus",
        TokenKind::Minus => "Minus",
        TokenKind::Star => "Star",
        TokenKind::LParen => "LParen",
        TokenKind::RParen => "RParen",
        TokenKind::LBracket => "LBracket",
        TokenKind::RBracket => "RBracket",
        TokenKind::Slash => "Slash",
        TokenKind::Percent => "Percent",
        TokenKind::Range => "Range",
        TokenKind::LEq => "LEq",
        TokenKind::GEq => "GEq",
        TokenKind::Lt => "Lt",
        TokenKind::Gt => "Gt",
        TokenKind::DollarSign => "DollarSign",
        TokenKind::Whitespace => "Whitespace",
        TokenKind::Indent => "Indent",
        TokenKind::Dedent => "Dedent",
        TokenKind::Error => "Error",
        TokenKind::Eof => "Eof",
    }
}

/// A token list and a position in it. The position is that of the last
/// token consumed; the first token of the list is never handed out, so a
/// fresh stream hands out the second token first.
pub struct TokenStream {
    tokens: Vec<(Token, Span)>,
    pos: usize,
    save_pos: usize,
    next_id: usize,
}

impl TokenStream {
    pub closed spec fn tokens(&self) -> Seq<(Token, Span)> {
        self.tokens@
    }

    pub closed spec fn pos(&self) -> nat {
        self.pos as nat
    }

    pub closed spec fn saved(&self) -> nat {
        self.save_pos as nat
    }

    /// The identifier that the next node gets.
    pub closed spec fn id_counter(&self) -> nat {
        self.next_id as nat
    }

    pub closed spec fn wf(&self) -> bool {
        &&& self.pos <= self.tokens@.len()
        &&& self.save_pos <= self.tokens@.len()
    }

    /// How many tokens are left to hand out.
    pub open spec fn remaining(&self) -> nat {
        if self.pos() + 1 < self.tokens().len() {
            (self.tokens().len() - self.pos() - 1) as nat
        } else {
            0
        }
    }

    /// The token that [`TokenStream::next`] hands out next.
    pub open spec fn spec_peek(&self) -> Option<(Token, Span)> {
        if self.pos() + 1 < self.tokens().len() {
            Some(self.tokens()[self.pos() + 1int])
        } else {
            None
        }
    }

    /// The kind of the token that comes next.
    pub open spec fn peek_kind_spec(&self) -> Option<TokenKind> {
        match self.spec_peek() {
            Some(t) => Some(t.0.spec_kind()),
            None => None,
        }
    }

    pub fn new(tokens: Vec<(Token, Span)>) -> (r: Self)
        ensures
            r.wf(),
            r.tokens() == tokens@,
            r.pos() == 0,
            r.saved() == 0,
            r.id_counter() == 0,
    {
        Self { tokens, pos: 0, save_pos: 0, next_id: 0 }
    }

    /// Hands out the next token, or `None` at the end.
    pub fn next(&mut self) -> (r: Option<(Token, Span)>)
        requires
            old(self).wf(),
        ensures
            final(self).wf(),
            final(self).tokens() == old(self).tokens(),
            final(self).saved() == old(self).saved(),
            final(self).id_counter() == old(self).id_counter(),
            match old(self).spec_peek() {
                Some(t) => {
                    &&& r matches Some(got) && same_token(got.0, t.0) && got.1 == t.1
                    &&& final(self).pos() == old(self).pos() + 1
                    &&& final(self).remaining() + 1 == old(self).remaining()
                },
                None => r is None && final(self).pos() == old(self).pos() && old(self).remaining() == 0,
            },
    {
        if self.tokens.len() - self.pos > 1 {
            self.pos = self.pos + 1;
            let tok = self.tokens[self.pos].0.duplicate();
            let span = self.tokens[self.pos].1;
            Some((tok, span))
        } else {
            None
        }
    }

    /// The next token, without handing it out.
    pub fn peek(&self) -> (r: Option<(Token, Span)>)
        requires
            self.wf(),
        ensures
            match self.spec_peek() {
                Some(t) => r matches Some(got) && same_token(got.0, t.0) && got.1 == t.1,
                None => r is None,
            },
    {
        if self.tokens.len() - self.pos > 1 {
            let tok = self.tokens[self.pos + 1].0.duplicate();
            let span = self.tokens[self.pos + 1].1;
            Some((tok, span))
        } else {
            None
        }
    }

    /// The kind of the next token, without copying it.
    pub fn peek_kind(&self) -> (r: Option<TokenKind>)
        requires
            self.wf(),
        ensures
            r == self.peek_kind_spec(),
    {
        if self.tokens.len() - self.pos > 1 {
            Some(self.tokens[self.pos + 1].0.kind())
        } else {
            None
        }
    }

    /// Whether the next token is of kind `k`.
    pub fn peek_is(&self, k: TokenKind) -> (r: bool)
        requires
            self.wf(),
        ensures
            r == (self.peek_kind_spec() == Some(k)),
    {
        match self.peek_kind() {
            Some(pk) => pk == k,
            None => false,
        }
    }

    /// The span of the next token.
    pub fn peek_span(&self) -> (r: Option<Span>)
        requires
            self.wf(),
        ensures
            match self.spec_peek() {
                Some(t) => r == Some(t.1),
                None => r is None,
            },
    {
        if self.tokens.len() - self.pos > 1 {
            Some(self.tokens[self.pos + 1].1)
        } else {
            None
        }
    }

    /// Remembers the current position.
    pub fn save_pos(&mut self)
        requires
            old(self).wf(),
        ensures
            final(self).wf(),
            final(self).tokens() == old(self).tokens(),
            final(self).pos() == old(self).pos(),
            final(self).saved() == old(self).pos(),
            final(self).id_counter() == old(self).id_counter(),
    {
        self.save_pos = self.pos;
    }

    /// Returns to the remembered position.
    pub fn backtrack(&mut self)
        requires
            old(self).wf(),
        ensures
            final(self).wf(),
            final(self).tokens() == old(self).tokens(),
            final(self).pos() == old(self).saved(),
            final(self).saved() == old(self).saved(),
            final(self).id_counter() == old(self).id_counter(),
    {
        self.pos = self.save_pos;
    }

    /// Hands out line ends until the next token is something else.
    pub fn skip_newlines(&mut self)
        requires
            old(self).wf(),
        ensures
            final(self).wf(),
            final(self).tokens() == old(self).tokens(),
            final(self).saved() == old(self).saved(),
            final(self).id_counter() == old(self).id_counter(),
            final(self).pos() >= old(self).pos(),
            final(self).remaining() <= old(self).remaining(),
            final(self).peek_kind_spec() != Some(TokenKind::Newline),
            final(self).pos() <= final(self).tokens().len(),
            final(self).pos() == old(self).pos() || final(self).pos() < final(self).tokens().len(),
            forall|i: int|
                old(self).pos() < i <= final(self).pos() ==> #[trigger] final(self).tokens()[i].0
                    is Newline,
    {
        while self.peek_is(TokenKind::Newline)
            invariant
                self.pos() == old(self).pos() || self.pos() < self.tokens().len(),
                self.wf(),
                self.tokens() == old(self).tokens(),
                self.saved() == old(self).saved(),
                self.id_counter() == old(self).id_counter(),
                self.pos() >= old(self).pos(),
                self.remaining() <= old(self).remaining(),
                forall|i: int|
                    old(self).pos() < i <= self.pos() ==> #[trigger] self.tokens()[i].0 is Newline,
            decreases self.remaining(),
        {
            self.next();
        }
    }

    /// Hands out the next token when it is of kind `expected`; otherwise an
    /// error `Expected KIND` at the token found, or with no place at the end.
    pub fn expect(&mut self, expected: TokenKind) -> (r: Result<(Token, Span), ParsingError>)
        requires
            old(self).wf(),
        ensures
            final(self).wf(),
            final(self).tokens() == old(self).tokens(),
            final(self).saved() == old(self).saved(),
            final(self).id_counter() == old(self).id_counter(),
            match old(self).spec_peek() {
                Some(t) => {
                    &&& final(self).pos() == old(self).pos() + 1
                    &&& final(self).remaining() + 1 == old(self).remaining()
                    &&& if t.0.spec_kind() == expected {
                        r matches Ok(got) && same_token(got.0, t.0) && got.1 == t.1
                    } else {
                        r is Err && r->Err_0.span == Some(t.1)
                    }
                },
                None => r is Err && r->Err_0.span is None && final(self).pos() == old(self).pos(),
            },
    {
        match self.next() {
            Some((tok, span)) => {
                if tok.kind() == expected {
                    Ok((tok, span))
                } else {
                    let message = "Expected ".to_owned().concat(kind_name(expected));
                    Err(ParsingError { message, span: Some(span) })
                }
            },
            None => {
                let message = "Expected ".to_owned().concat(kind_name(expected));
                Err(ParsingError { message, span: None })
            },
        }
    }

    /// Hands out a fresh node identifier.
    pub fn next_id(&mut self) -> (r: usize)
        requires
            old(self).wf(),
        ensures
            final(self).wf(),
            final(self).tokens() == old(self).tokens(),
            final(self).pos() == old(self).pos(),
            final(self).saved() == old(self).saved(),
            r == old(self).id_counter(),
            final(self).id_counter() == if old(self).id_counter() < usize::MAX {
                old(self).id_counter() + 1
            } else {
                old(self).id_counter()
            },
    {
        let id = self.next_id;
        if self.next_id < usize::MAX {
            self.next_id = self.next_id + 1;
        }
        id
    }

    /// A statement ends at a line end, at the end of a block, at the end of
    /// the text, or at the end of the tokens; line ends that follow are
    /// passed over. Anything else is an error at that token.
    pub fn expect_statement_end(&mut self) -> (r: Result<(), ParsingError>)
        requires
            old(self).wf(),
        ensures
            final(self).wf(),
            final(self).tokens() == old(self).tokens(),
            final(self).saved() == old(self).saved(),
            final(self).id_counter() == old(self).id_counter(),
            final(self).pos() >= old(self).pos(),
            final(self).remaining() <= old(self).remaining(),
            r is Ok <==> match old(self).peek_kind_spec() {
                None => true,
                Some(k) => k == TokenKind::Newline || k == TokenKind::Dedent || k == TokenKind::Eof,
            },
            r is Ok ==> final(self).peek_kind_spec() != Some(TokenKind::Newline),
            final(self).pos() <= final(self).tokens().len(),
            r is Ok ==> final(self).pos() == old(self).pos() || final(self).pos() < final(self).tokens().len(),
            r is Ok ==> forall|i: int|
                old(self).pos() < i <= final(self).pos() ==> #[trigger] final(self).tokens()[i].0 is Newline,
            r is Err ==> final(self).pos() == old(self).pos() && r->Err_0.span
                == Some(old(self).spec_peek().unwrap().1),
    {
        match self.peek_kind() {
            None => {
                self.skip_newlines();
                Ok(())
            },
            Some(k) => {
                if k == TokenKind::Newline || k == TokenKind::Dedent || k == TokenKind::Eof {
                    self.skip_newlines();
                    Ok(())
                } else {
                    let span = self.peek_span();
                    Err(ParsingError::new("Expected newline or end of file after statement.", span))
                }
            },
        }
    }
}

/// The span from the start of `start` to the end of `end`.
pub fn span_from_to(start: Span, end: Span) -> (r: Span)
    ensures
        r == (Span { start: start.start, end: end.end }),
{
    Span { start: start.start, end: end.end }
}

} // verus!
