//! The lexer: source bytes to tokens, with indentation turned into
//! `Indent` and `Dedent` tokens.
use vstd::prelude::*;
use vstd::string::StringSliceAdditionalSpecFns;
use crate::token::{Span, Token, TokenKind};

verus! {

#[derive(Clone, Copy, Debug, PartialEq, Eq, Structural)]
pub enum LexingError {
    /// An integer literal that does not fit in 64 bits.
    NumberParseError,
    /// Text that starts no token, or an indentation that matches no
    /// enclosing level.
    Other,
}

pub open spec fn is_digit(b: u8) -> bool {
    48 <= b <= 57
}

pub open spec fn is_alpha(b: u8) -> bool {
    (65 <= b <= 90) || (97 <= b <= 122) || b == 95
}

pub open spec fn is_ident_byte(b: u8) -> bool {
    is_alpha(b) || is_digit(b)
}

/// A name: a letter or underscore, then letters, digits and underscores.
pub open spec fn is_ident_text(t: Seq<u8>) -> bool {
    &&& t.len() >= 1
    &&& is_alpha(t[0])
    &&& forall|i: int| 0 <= i < t.len() ==> is_ident_byte(#[trigger] t[i])
}

/// The keyword that `t` spells, if any.
pub open spec fn keyword_of(t: Seq<u8>) -> Option<Token> {
    if t == seq![97u8, 110, 100] {
        Some(Token::And)
    } else if t == seq![111u8, 114] {
        Some(Token::Or)
    } else if t == seq![110u8, 111, 116] {
        Some(Token::Not)
    } else if t == seq![102u8, 111, 114] {
        Some(Token::For)
    } else if t == seq![105u8, 110] {
        Some(Token::In)
    } else if t == seq![105u8, 102] {
        Some(Token::If)
    } else if t == seq![116u8, 104, 101, 110] {
        Some(Token::Then)
    } else if t == seq![101u8, 108, 115, 101] {
        Some(Token::Else)
    } else if t == seq![119u8, 104, 105, 108, 101] {
        Some(Token::While)
    } else if t == seq![114u8, 101, 116, 117, 114, 110] {
        Some(Token::Return)
    } else if t == seq![98u8, 114, 101, 97, 107] {
        Some(Token::Break)
    } else if t == seq![99u8, 111, 110, 116, 105, 110, 117, 101] {
        Some(Token::Continue)
    } else if t == seq![102u8, 114, 111, 109] {
        Some(Token::From)
    } else if t == seq![105u8, 109, 112, 111, 114, 116] {
        Some(Token::Import)
    } else if t == seq![97u8, 115] {
        Some(Token::As)
    } else if t == seq![116u8, 114, 117, 101] {
        Some(Token::True)
    } else if t == seq![102u8, 97, 108, 115, 101] {
        Some(Token::False)
    } else {
        None
    }
}

/// The value of a string of decimal digits.
pub open spec fn digits_value(t: Seq<u8>) -> int
    decreases t.len(),
{
    if t.len() == 0 {
        0
    } else {
        digits_value(t.drop_last()) * 10 + (t.last() - 48)
    }
}

pub open spec fn all_digits(t: Seq<u8>) -> bool {
    forall|i: int| 0 <= i < t.len() ==> is_digit(#[trigger] t[i])
}

/// An integer literal: an optional `-`, then one or more digits.
pub open spec fn is_int_text(t: Seq<u8>) -> bool {
    if t.len() >= 1 && t[0] == 45 {
        t.len() >= 2 && all_digits(t.skip(1))
    } else {
        t.len() >= 1 && all_digits(t)
    }
}

/// The value of an integer literal.
pub open spec fn int_text_value(t: Seq<u8>) -> int {
    if t.len() >= 1 && t[0] == 45 {
        -digits_value(t.skip(1))
    } else {
        digits_value(t)
    }
}

/// A float literal: an integer literal, `.`, and one or more digits.
pub open spec fn is_float_text(t: Seq<u8>) -> bool {
    exists|k: int|
        0 < k < t.len() - 1 && #[trigger] t[k] == 46 && is_int_text(t.take(k)) && all_digits(
            t.skip(k + 1),
        )
}

/// The character that an escape `\c` stands for.
pub open spec fn escaped(c: u8) -> u8 {
    if c == 110 {
        10
    } else if c == 116 {
        9
    } else {
        c
    }
}

/// The contents of a string literal after escapes are resolved: `\n` and
/// `\t` stand for newline and tab, `\` before any other character for that
/// character.
pub open spec fn unescape(t: Seq<u8>) -> Seq<u8>
    decreases t.len(),
{
    if t.len() == 0 {
        seq![]
    } else if t[0] == 92 && t.len() >= 2 {
        seq![escaped(t[1])] + unescape(t.skip(2))
    } else {
        seq![t[0]] + unescape(t.skip(1))
    }
}

/// A string literal between `quote` bytes: no bare `quote` inside, and a
/// backslash always escapes the next character (a newline cannot be escaped).
pub open spec fn is_string_text(t: Seq<u8>, quote: u8) -> bool {
    &&& t.len() >= 2
    &&& t[0] == quote
    &&& t.last() == quote
    &&& string_body_ok(t.subrange(1, t.len() - 1), quote)
}

pub open spec fn string_body_ok(t: Seq<u8>, quote: u8) -> bool
    decreases t.len(),
{
    if t.len() == 0 {
        true
    } else if t[0] == 92 {
        t.len() >= 2 && t[1] != 10 && string_body_ok(t.skip(2), quote)
    } else {
        t[0] != quote && string_body_ok(t.skip(1), quote)
    }
}

/// The fixed spelling of a punctuation token.
pub open spec fn punct_text(k: TokenKind) -> Seq<u8> {
    match k {
        TokenKind::EqEq => seq![61u8, 61],
        TokenKind::NotEq => seq![33u8, 61],
        TokenKind::Bang => seq![33u8],
        TokenKind::RArrow => seq![61u8, 62],
        TokenKind::Eq => seq![61u8],
        TokenKind::PlusEq => seq![43u8, 61],
        TokenKind::MinusEq => seq![45u8, 61],
        TokenKind::StarEq => seq![42u8, 61],
        TokenKind::SlashEq => seq![47u8, 61],
        TokenKind::PercentEq => seq![37u8, 61],
        TokenKind::StarStar => seq![42u8, 42],
        TokenKind::Colon => seq![58u8],
        TokenKind::Comma => seq![44u8],
        TokenKind::Dot => seq![46u8],
        TokenKind::Plus => seq![43u8],
        TokenKind::Minus => seq![45u8],
        TokenKind::Star => seq![42u8],
        TokenKind::LParen => seq![40u8],
        TokenKind::RParen => seq![41u8],
        TokenKind::LBracket => seq![91u8],
        TokenKind::RBracket => seq![93u8],
        TokenKind::Slash => seq![47u8],
        TokenKind::Percent => seq![37u8],
        TokenKind::Range => seq![46u8, 46],
        TokenKind::LEq => seq![60u8, 61],
        TokenKind::GEq => seq![62u8, 61],
        TokenKind::Lt => seq![60u8],
        TokenKind::Gt => seq![62u8],
        TokenKind::DollarSign => seq![36u8],
        _ => seq![],
    }
}

pub open spec fn is_punct(k: TokenKind) -> bool {
    punct_text(k).len() > 0
}

/// `t` is the source text of token `tok`.
pub open spec fn token_spells(tok: Token, t: Seq<u8>) -> bool {
    match tok {
        Token::Identifier(name) => is_ident_text(t) && keyword_of(t) is None && name@ == t,
        Token::Integer(v) => is_int_text(t) && int_text_value(t) == v as int,
        Token::Float(text) => is_float_text(t) && text@ == t,
        Token::DoubleQuotedString(s) => is_string_text(t, 34) && s@ == unescape(
            t.subrange(1, t.len() - 1),
        ),
        Token::SingleQuotedString(s) => is_string_text(t, 39) && s@ == unescape(
            t.subrange(1, t.len() - 1),
        ),
        Token::Newline => t == seq![10u8] || t == seq![13u8, 10] || t == seq![59u8],
        Token::And => t == seq![97u8, 110, 100] || t == seq![38u8, 38],
        Token::Or => t == seq![111u8, 114] || t == seq![124u8, 124],
        _ => if is_punct(tok.spec_kind()) {
            t == punct_text(tok.spec_kind())
        } else {
            keyword_of(t) == Some(tok)
        },
    }
}

/// The token ends where it must: a name or number is not followed by a byte
/// that would continue it.
pub open spec fn ends_cleanly(tok: Token, code: Seq<u8>, start: int, end: int) -> bool {
    match tok.spec_kind() {
        TokenKind::Identifier | TokenKind::And | TokenKind::Or | TokenKind::Not | TokenKind::For
        | TokenKind::In | TokenKind::If | TokenKind::Then | TokenKind::Else | TokenKind::While
        | TokenKind::Return | TokenKind::Break | TokenKind::Continue | TokenKind::From
        | TokenKind::Import | TokenKind::As | TokenKind::True | TokenKind::False => !is_alpha(
            code[start],
        ) || end == code.len() || !is_ident_byte(code[end]),
        TokenKind::Integer => end == code.len() || (!is_digit(code[end]) && !(code[end] == 46
            && end + 1 < code.len() && is_digit(code[end + 1]))),
        TokenKind::Float => end == code.len() || !is_digit(code[end]),
        _ => true,
    }
}

/// Leading-space columns: a space counts one, a tab moves to the next
/// multiple of 8; counting stops at the first other byte.
pub open spec fn columns(s: Seq<u8>) -> int
    decreases s.len(),
{
    if s.len() == 0 {
        0
    } else {
        let c = columns(s.drop_last());
        if !all_blank(s.drop_last()) {
            c
        } else if s.last() == 32 {
            c + 1
        } else if s.last() == 9 {
            (c / 8 + 1) * 8
        } else {
            c
        }
    }
}

pub open spec fn all_blank(s: Seq<u8>) -> bool {
    forall|i: int| 0 <= i < s.len() ==> (#[trigger] s[i] == 32 || s[i] == 9)
}

proof fn lemma_columns_bound(s: Seq<u8>)
    ensures
        0 <= columns(s) <= 8 * s.len(),
    decreases s.len(),
{
    if s.len() > 0 {
        lemma_columns_bound(s.drop_last());
    }
}

/// The indentation width of the leading blanks of `s`.
pub fn count_columns(s: &[u8]) -> (r: usize)
    requires
        s@.len() <= usize::MAX / 8,
    ensures
        r == columns(s@),
{
    let mut column: usize = 0;
    let mut i: usize = 0;
    let mut blank = true;
    while i < s.len()
        invariant
            0 <= i <= s@.len(),
            s@.len() <= usize::MAX / 8,
            column == columns(s@.take(i as int)),
            blank == all_blank(s@.take(i as int)),
            column <= 8 * i,
        decreases s@.len() - i,
    {
        proof {
            lemma_columns_bound(s@.take(i as int));
            assert(s@.take(i as int + 1).drop_last() =~= s@.take(i as int));
            assert(s@.take(i as int + 1).last() == s@[i as int]);
        }
        let c = s[i];
        if blank {
            if c == 32u8 {
                column = column + 1;
            } else if c == 9u8 {
                column = (column / 8 + 1) * 8;
            } else {
                blank = false;
            }
        }
        proof {
            let t = s@.take(i as int + 1);
            if all_blank(t) {
                assert(all_blank(s@.take(i as int))) by {
                    assert forall|j: int| 0 <= j < i implies (#[trigger] s@.take(i as int)[j] == 32 || s@.take(i as int)[j] == 9) by {
                        assert(t[j] == s@.take(i as int)[j]);
                    }
                }
                assert(t[i as int] == c);
            } else {
                let j = choose|j: int| 0 <= j < t.len() && !(#[trigger] t[j] == 32 || t[j] == 9);
                if j < i {
                    assert(s@.take(i as int)[j] == t[j]);
                }
            }
        }
        i = i + 1;
    }
    assert(s@.take(i as int) =~= s@);
    column
}

/// The end of the run of name bytes (letters, digits, underscores) that
/// starts at `j`.
pub open spec fn word_end(code: Seq<u8>, j: int) -> int
    decreases code.len() - j,
{
    if 0 <= j < code.len() && is_ident_byte(code[j]) {
        word_end(code, j + 1)
    } else {
        j
    }
}

/// The end of the run of digits that starts at `j`.
pub open spec fn digit_end(code: Seq<u8>, j: int) -> int
    decreases code.len() - j,
{
    if 0 <= j < code.len() && is_digit(code[j]) {
        digit_end(code, j + 1)
    } else {
        j
    }
}

/// Where a string literal whose body continues at `j` ends (after its
/// closing `quote`), or `None` when it is not closed: a backslash escapes
/// the next byte unless that is a line feed or the end.
pub open spec fn string_scan(code: Seq<u8>, j: int, quote: u8) -> Option<int>
    decreases code.len() - j,
{
    if j < 0 || j >= code.len() {
        None
    } else if code[j] == quote {
        Some(j + 1)
    } else if code[j] == 92 {
        if j + 1 < code.len() && code[j + 1] != 10 {
            string_scan(code, j + 2, quote)
        } else {
            None
        }
    } else {
        string_scan(code, j + 1, quote)
    }
}

/// The width in bytes of the UTF-8 character whose first byte is `b`.
pub open spec fn width_of(b: u8) -> int {
    if b < 0xc0 {
        1
    } else if b < 0xe0 {
        2
    } else if b < 0xf0 {
        3
    } else {
        4
    }
}

/// The punctuation token that byte `c`, followed by `n`, starts: the
/// longest spelling.
pub open spec fn punct_kind(c: u8, n: u8) -> Option<TokenKind> {
    if c == 61 {
        Some(if n == 61 { TokenKind::EqEq } else if n == 62 { TokenKind::RArrow } else { TokenKind::Eq })
    } else if c == 33 {
        Some(if n == 61 { TokenKind::NotEq } else { TokenKind::Bang })
    } else if c == 43 {
        Some(if n == 61 { TokenKind::PlusEq } else { TokenKind::Plus })
    } else if c == 45 {
        Some(if n == 61 { TokenKind::MinusEq } else { TokenKind::Minus })
    } else if c == 42 {
        Some(if n == 42 { TokenKind::StarStar } else if n == 61 { TokenKind::StarEq } else { TokenKind::Star })
    } else if c == 47 {
        Some(if n == 61 { TokenKind::SlashEq } else { TokenKind::Slash })
    } else if c == 37 {
        Some(if n == 61 { TokenKind::PercentEq } else { TokenKind::Percent })
    } else if c == 60 {
        Some(if n == 61 { TokenKind::LEq } else { TokenKind::Lt })
    } else if c == 62 {
        Some(if n == 61 { TokenKind::GEq } else { TokenKind::Gt })
    } else if c == 46 {
        Some(if n == 46 { TokenKind::Range } else { TokenKind::Dot })
    } else if c == 38 && n == 38 {
        Some(TokenKind::And)
    } else if c == 124 && n == 124 {
        Some(TokenKind::Or)
    } else if c == 58 {
        Some(TokenKind::Colon)
    } else if c == 44 {
        Some(TokenKind::Comma)
    } else if c == 40 {
        Some(TokenKind::LParen)
    } else if c == 41 {
        Some(TokenKind::RParen)
    } else if c == 91 {
        Some(TokenKind::LBracket)
    } else if c == 93 {
        Some(TokenKind::RBracket)
    } else if c == 36 {
        Some(TokenKind::DollarSign)
    } else {
        None
    }
}

/// What one scan gives, by kind: a token of some kind, blanks, or an error.
pub enum ScanKind {
    Tok(TokenKind),
    Skip,
    Failed(LexingError),
}

/// A number at `i` (an optional `-`, digits): a float when a `.` and a
/// digit follow the digits, else an integer, which is an error when its
/// value does not fit in 64 bits.
pub open spec fn number_scan(code: Seq<u8>, i: int) -> (ScanKind, int) {
    let ds = if code[i] == 45 { i + 1 } else { i };
    let de = digit_end(code, ds);
    if de + 1 < code.len() && code[de] == 46 && is_digit(code[de + 1]) {
        (ScanKind::Tok(TokenKind::Float), digit_end(code, de + 2))
    } else {
        let v = int_text_value(code.subrange(i, de));
        if i64::MIN <= v <= i64::MAX {
            (ScanKind::Tok(TokenKind::Integer), de)
        } else {
            (ScanKind::Failed(LexingError::NumberParseError), de)
        }
    }
}

/// One scan at `i`: what it gives and where it ends. Blanks run to the next
/// other byte; `\n`, `;` and `\r\n` end a line (a lone `\r` is an error); a
/// name runs over name bytes and may be a keyword; a number as in
/// [`number_scan`]; a string literal to its closing quote (an unclosed one
/// is an error on its quote); punctuation takes its longest spelling; any
/// other character is an error over its UTF-8 bytes.
pub open spec fn scan_spec(code: Seq<u8>, i: int) -> (ScanKind, int) {
    let c = code[i];
    let n = byte_after(code, i);
    if c == 32 || c == 9 {
        (ScanKind::Skip, blank_run_end(code, i))
    } else if c == 10 || c == 59 {
        (ScanKind::Tok(TokenKind::Newline), i + 1)
    } else if c == 13 {
        if n == 10 {
            (ScanKind::Tok(TokenKind::Newline), i + 2)
        } else {
            (ScanKind::Failed(LexingError::Other), i + 1)
        }
    } else if is_alpha(c) {
        let e = word_end(code, i + 1);
        (ScanKind::Tok(match keyword_of(code.subrange(i, e)) {
            Some(t) => t.spec_kind(),
            None => TokenKind::Identifier,
        }), e)
    } else if is_digit(c) || (c == 45 && i + 1 < code.len() && is_digit(n)) {
        number_scan(code, i)
    } else if c == 34 || c == 39 {
        match string_scan(code, i + 1, c) {
            Some(e) => (ScanKind::Tok(
                if c == 34 {
                    TokenKind::DoubleQuotedString
                } else {
                    TokenKind::SingleQuotedString
                },
            ), e),
            None => (ScanKind::Failed(LexingError::Other), i + 1),
        }
    } else {
        match punct_kind(c, n) {
            Some(k) => (ScanKind::Tok(k), if double_punct(c, n) { i + 2 } else { i + 1 }),
            None => (ScanKind::Failed(LexingError::Other), if i + width_of(c) <= code.len() {
                i + width_of(c)
            } else {
                code.len() as int
            }),
        }
    }
}

/// The kind of what a scan gave.
pub open spec fn scan_kind_of(s: Scanned) -> ScanKind {
    match s {
        Scanned::Tok(t) => ScanKind::Tok(t.spec_kind()),
        Scanned::Skip => ScanKind::Skip,
        Scanned::Failed(e) => ScanKind::Failed(e),
    }
}

/// What one scan of the source produced.
pub enum Scanned {
    Tok(Token),
    Skip,
    Failed(LexingError),
}

/// `t` equals the literal bytes `lit`.
fn bytes_eq(t: &[u8], lit: &[u8]) -> (r: bool)
    ensures
        r == (t@ == lit@),
{
    if t.len() != lit.len() {
        return false;
    }
    let mut i: usize = 0;
    while i < t.len()
        invariant
            0 <= i <= t@.len(),
            t@.len() == lit@.len(),
            forall|j: int| 0 <= j < i ==> t@[j] == lit@[j],
        decreases t@.len() - i,
    {
        if t[i] != lit[i] {
            return false;
        }
        i = i + 1;
    }
    assert(t@ =~= lit@);
    true
}

/// The keyword that `t` spells, if any.
fn keyword(t: &[u8]) -> (r: Option<Token>)
    ensures
        r == keyword_of(t@),
{
    if bytes_eq(t, &[97u8, 110, 100]) {
        assert(t@ =~= seq![97u8, 110, 100]);
        Some(Token::And)
    } else if bytes_eq(t, &[111u8, 114]) {
        assert(t@ =~= seq![111u8, 114]);
        Some(Token::Or)
    } else if bytes_eq(t, &[110u8, 111, 116]) {
        assert(t@ =~= seq![110u8, 111, 116]);
        Some(Token::Not)
    } else if bytes_eq(t, &[102u8, 111, 114]) {
        assert(t@ =~= seq![102u8, 111, 114]);
        Some(Token::For)
    } else if bytes_eq(t, &[105u8, 110]) {
        assert(t@ =~= seq![105u8, 110]);
        Some(Token::In)
    } else if bytes_eq(t, &[105u8, 102]) {
        assert(t@ =~= seq![105u8, 102]);
        Some(Token::If)
    } else if bytes_eq(t, &[116u8, 104, 101, 110]) {
        assert(t@ =~= seq![116u8, 104, 101, 110]);
        Some(Token::Then)
    } else if bytes_eq(t, &[101u8, 108, 115, 101]) {
        assert(t@ =~= seq![101u8, 108, 115, 101]);
        Some(Token::Else)
    } else if bytes_eq(t, &[119u8, 104, 105, 108, 101]) {
        assert(t@ =~= seq![119u8, 104, 105, 108, 101]);
        Some(Token::While)
    } else if bytes_eq(t, &[114u8, 101, 116, 117, 114, 110]) {
        assert(t@ =~= seq![114u8, 101, 116, 117, 114, 110]);
        Some(Token::Return)
    } else if bytes_eq(t, &[98u8, 114, 101, 97, 107]) {
        assert(t@ =~= seq![98u8, 114, 101, 97, 107]);
        Some(Token::Break)
    } else if bytes_eq(t, &[99u8, 111, 110, 116, 105, 110, 117, 101]) {
        assert(t@ =~= seq![99u8, 111, 110, 116, 105, 110, 117, 101]);
        Some(Token::Continue)
    } else if bytes_eq(t, &[102u8, 114, 111, 109]) {
        assert(t@ =~= seq![102u8, 114, 111, 109]);
        Some(Token::From)
    } else if bytes_eq(t, &[105u8, 109, 112, 111, 114, 116]) {
        assert(t@ =~= seq![105u8, 109, 112, 111, 114, 116]);
        Some(Token::Import)
    } else if bytes_eq(t, &[97u8, 115]) {
        assert(t@ =~= seq![97u8, 115]);
        Some(Token::As)
    } else if bytes_eq(t, &[116u8, 114, 117, 101]) {
        assert(t@ =~= seq![116u8, 114, 117, 101]);
        Some(Token::True)
    } else if bytes_eq(t, &[102u8, 97, 108, 115, 101]) {
        assert(t@ =~= seq![102u8, 97, 108, 115, 101]);
        Some(Token::False)
    } else {
        proof {
            assert(t@ != seq![97u8, 110, 100]);
        }
        None
    }
}

/// The bytes `code[start..end]`.
fn slice_copy(code: &[u8], start: usize, end: usize) -> (r: Vec<u8>)
    requires
        start <= end <= code@.len(),
    ensures
        r@ == code@.subrange(start as int, end as int),
{
    let mut r: Vec<u8> = Vec::new();
    let mut j = start;
    while j < end
        invariant
            start <= j <= end <= code@.len(),
            r@ == code@.subrange(start as int, j as int),
        decreases end - j,
    {
        r.push(code[j]);
        j = j + 1;
        assert(r@ =~= code@.subrange(start as int, j as int));
    }
    r
}

fn is_digit_byte(b: u8) -> (r: bool)
    ensures
        r == is_digit(b),
{
    48 <= b && b <= 57
}

fn is_alpha_byte(b: u8) -> (r: bool)
    ensures
        r == is_alpha(b),
{
    (65 <= b && b <= 90) || (97 <= b && b <= 122) || b == 95
}

/// A name or keyword starting at `i`.
fn scan_word(code: &[u8], i: usize) -> (r: (Token, usize))
    requires
        i < code@.len(),
        is_alpha(code@[i as int]),
    ensures
        i < r.1 <= code@.len(),
        token_spells(r.0, code@.subrange(i as int, r.1 as int)),
        ends_cleanly(r.0, code@, i as int, r.1 as int),
        r.1 == word_end(code@, i + 1),
        r.0.spec_kind() == match keyword_of(code@.subrange(i as int, r.1 as int)) {
            Some(t) => t.spec_kind(),
            None => TokenKind::Identifier,
        },
{
    let n = code.len();
    let mut j = i + 1;
    while j < n && (is_alpha_byte(code[j]) || is_digit_byte(code[j]))
        invariant
            n == code@.len(),
            i < j <= code@.len(),
            is_alpha(code@[i as int]),
            forall|k: int| i <= k < j ==> is_ident_byte(#[trigger] code@[k]),
            word_end(code@, j as int) == word_end(code@, i + 1),
        decreases code@.len() - j,
    {
        j = j + 1;
    }
    assert(word_end(code@, j as int) == j);
    let text = &code[i..j];
    let ghost t = code@.subrange(i as int, j as int);
    assert(text@ == t);
    assert(is_ident_text(t)) by {
        assert forall|k: int| 0 <= k < t.len() implies is_ident_byte(#[trigger] t[k]) by {
            assert(t[k] == code@[i + k]);
        }
    }
    match keyword(text) {
        Some(kw) => {
            proof {
                assert(keyword_of(t) == Some(kw));
                assert(!is_punct(kw.spec_kind()));
            }
            (kw, j)
        },
        None => (Token::Identifier(slice_copy(code, i, j)), j),
    }
}

proof fn lemma_digits_value_push(t: Seq<u8>, d: u8)
    ensures
        digits_value(t.push(d)) == digits_value(t) * 10 + (d - 48),
{
    assert(t.push(d).drop_last() =~= t);
}

/// A number starting at `i`: an integer, or a float when a `.` and a digit
/// follow the digits.
fn scan_number(code: &[u8], i: usize) -> (r: (Scanned, usize))
    requires
        i < code@.len(),
        is_digit(code@[i as int]) || (code@[i as int] == 45 && i + 1 < code@.len() && is_digit(
            code@[i + 1],
        )),
    ensures
        i < r.1 <= code@.len(),
        r.0 matches Scanned::Tok(t) ==> token_spells(t, code@.subrange(i as int, r.1 as int))
            && ends_cleanly(t, code@, i as int, r.1 as int),
        r.0 matches Scanned::Tok(t) ==> t is Integer || t is Float,
        !(r.0 is Skip),
        scan_kind_of(r.0) == number_scan(code@, i as int).0,
        r.1 == number_scan(code@, i as int).1,
{
    let neg = code[i] == 45u8;
    let ds = if neg { i + 1 } else { i };
    let mut j = ds;
    let mut mag: u64 = 0;
    let mut overflow = false;
    while j < code.len() && is_digit_byte(code[j])
        invariant
            ds <= j <= code@.len(),
            ds < code@.len(),
            is_digit(code@[ds as int]),
            all_digits(code@.subrange(ds as int, j as int)),
            !overflow ==> mag == digits_value(code@.subrange(ds as int, j as int)),
            overflow ==> digits_value(code@.subrange(ds as int, j as int)) > u64::MAX,
            digit_end(code@, j as int) == digit_end(code@, ds as int),
            ds == (if code@[i as int] == 45 { i + 1 } else { i as int }),
        decreases code@.len() - j,
    {
        let d = (code[j] - 48) as u64;
        proof {
            assert(code@.subrange(ds as int, j + 1) =~= code@.subrange(ds as int, j as int).push(code@[j as int]));
            lemma_digits_value_push(code@.subrange(ds as int, j as int), code@[j as int]);
            lemma_digits_value_nonneg(code@.subrange(ds as int, j as int));
        }
        if !overflow {
            match mag.checked_mul(10) {
                Some(m) => match m.checked_add(d) {
                    Some(m2) => mag = m2,
                    None => overflow = true,
                },
                None => overflow = true,
            }
        }
        j = j + 1;
        assert(all_digits(code@.subrange(ds as int, j as int))) by {
            assert forall|k: int| 0 <= k < j - ds implies is_digit(#[trigger] code@.subrange(ds as int, j as int)[k]) by {
                if k < j - 1 - ds {
                    assert(code@.subrange(ds as int, j as int)[k] == code@.subrange(ds as int, j - 1)[k]);
                }
            }
        }
    }
    assert(j > ds) by {
        assert(code@.subrange(ds as int, ds as int + 1)[0] == code@[ds as int]);
    }
    assert(digit_end(code@, j as int) == j);
    if j < code.len() && j + 1 < code.len() && code[j] == 46u8 && is_digit_byte(code[j + 1]) {
        let mut k = j + 2;
        while k < code.len() && is_digit_byte(code[k])
            invariant
                j + 2 <= k <= code@.len(),
                forall|m: int| j + 1 <= m < k ==> is_digit(#[trigger] code@[m]),
                digit_end(code@, k as int) == digit_end(code@, j + 2),
            decreases code@.len() - k,
        {
            k = k + 1;
        }
        assert(digit_end(code@, k as int) == k);
        let ghost t = code@.subrange(i as int, k as int);
        proof {
            let kk = (j - i) as int;
            assert(t[kk] == 46);
            assert(t.take(kk) =~= code@.subrange(i as int, j as int));
            assert(all_digits(t.skip(kk + 1))) by {
                assert forall|m: int| 0 <= m < t.skip(kk + 1).len() implies is_digit(#[trigger] t.skip(kk + 1)[m]) by {
                    assert(t.skip(kk + 1)[m] == code@[j + 1 + m]);
                }
            }
            assert(is_int_text(t.take(kk))) by {
                if neg {
                    assert(t.take(kk).skip(1) =~= code@.subrange(ds as int, j as int));
                } else {
                    assert(t.take(kk) =~= code@.subrange(ds as int, j as int));
                }
            }
        }
        return (Scanned::Tok(Token::Float(slice_copy(code, i, k))), k);
    }
    let ghost t = code@.subrange(i as int, j as int);
    proof {
        if neg {
            assert(t.skip(1) =~= code@.subrange(ds as int, j as int));
        } else {
            assert(t =~= code@.subrange(ds as int, j as int));
        }
    }
    if overflow {
        return (Scanned::Failed(LexingError::NumberParseError), j);
    }
    if neg {
        if mag > 0x8000_0000_0000_0000u64 {
            return (Scanned::Failed(LexingError::NumberParseError), j);
        }
        let v: i64 = if mag == 0x8000_0000_0000_0000u64 { i64::MIN } else { -(mag as i64) };
        (Scanned::Tok(Token::Integer(v)), j)
    } else {
        if mag > 0x7fff_ffff_ffff_ffffu64 {
            return (Scanned::Failed(LexingError::NumberParseError), j);
        }
        (Scanned::Tok(Token::Integer(mag as i64)), j)
    }
}

proof fn lemma_digits_value_nonneg(t: Seq<u8>)
    requires
        all_digits(t),
    ensures
        digits_value(t) >= 0,
    decreases t.len(),
{
    if t.len() > 0 {
        assert(all_digits(t.drop_last())) by {
            assert forall|k: int| 0 <= k < t.drop_last().len() implies is_digit(#[trigger] t.drop_last()[k]) by {
                assert(t.drop_last()[k] == t[k]);
            }
        }
        lemma_digits_value_nonneg(t.drop_last());
        assert(is_digit(t[t.len() - 1]));
    }
}

/// A well-formed string body can be extended piece by piece: resolving the
/// escapes of `p + q` resolves those of `p`, then those of `q`.
proof fn lemma_unescape_append(p: Seq<u8>, q: Seq<u8>, quote: u8)
    requires
        string_body_ok(p, quote),
    ensures
        unescape(p + q) == unescape(p) + unescape(q),
        string_body_ok(p + q, quote) == string_body_ok(q, quote),
    decreases p.len(),
{
    if p.len() == 0 {
        assert(p + q =~= q);
        assert(unescape(p) + unescape(q) =~= unescape(q));
    } else if p[0] == 92 {
        lemma_unescape_append(p.skip(2), q, quote);
        assert((p + q).skip(2) =~= p.skip(2) + q);
        assert((p + q)[0] == 92 && (p + q)[1] == p[1]);
        assert(seq![escaped(p[1])] + (unescape(p.skip(2)) + unescape(q)) =~= (seq![escaped(p[1])]
            + unescape(p.skip(2))) + unescape(q));
    } else {
        lemma_unescape_append(p.skip(1), q, quote);
        assert((p + q).skip(1) =~= p.skip(1) + q);
        assert((p + q)[0] == p[0]);
        assert(seq![p[0]] + (unescape(p.skip(1)) + unescape(q)) =~= (seq![p[0]] + unescape(
            p.skip(1),
        )) + unescape(q));
    }
}

/// Where a well-formed string body and a well-formed prefix of it agree: the
/// byte after the prefix starts a piece of the body, so it is no bare quote,
/// and a backslash there has an escaped character after it.
proof fn lemma_body_prefix(s: Seq<u8>, k: int, quote: u8)
    requires
        string_body_ok(s, quote),
        0 <= k < s.len(),
        string_body_ok(s.take(k), quote),
        quote != 92,
    ensures
        s[k] != quote,
        s[k] == 92 ==> k + 1 < s.len() && s[k + 1] != 10,
    decreases s.len(),
{
    if k == 0 {
    } else if s[0] == 92 {
        assert(s.take(k)[0] == 92);
        assert(s.take(k).skip(2) =~= s.skip(2).take(k - 2));
        lemma_body_prefix(s.skip(2), k - 2, quote);
    } else {
        assert(s.take(k)[0] == s[0]);
        assert(s.take(k).skip(1) =~= s.skip(1).take(k - 1));
        lemma_body_prefix(s.skip(1), k - 1, quote);
    }
}

/// The text at `i` is a closed string literal: some end makes it one.
pub open spec fn string_closes(code: Seq<u8>, i: int, quote: u8) -> bool {
    exists|end: int| i < end <= code.len() && #[trigger] is_string_text(code.subrange(i, end), quote)
}

/// A string literal starting at `i` (whose byte is `quote`); `None` when it
/// is not closed.
fn scan_string(code: &[u8], i: usize, quote: u8) -> (r: Option<(Vec<u8>, usize)>)
    requires
        i < code@.len(),
        code@[i as int] == quote,
        quote != 92,
    ensures
        r is Some <==> string_closes(code@, i as int, quote),
        match string_scan(code@, i + 1, quote) {
            Some(e) => r matches Some((_, end)) && end == e,
            None => r is None,
        },
        r matches Some((s, end)) ==> {
            &&& i < end <= code@.len()
            &&& is_string_text(code@.subrange(i as int, end as int), quote)
            &&& s@ == unescape(code@.subrange(i + 1, end - 1))
        },
{
    let n = code.len();
    let mut out: Vec<u8> = Vec::new();
    let mut j = i + 1;
    loop
        invariant
            n == code@.len(),
            i < j <= code@.len(),
            code@[i as int] == quote,
            quote != 92,
            string_body_ok(code@.subrange(i + 1, j as int), quote),
            out@ == unescape(code@.subrange(i + 1, j as int)),
            string_scan(code@, j as int, quote) == string_scan(code@, i + 1, quote),
        decreases code@.len() - j,
    {
        let ghost p = code@.subrange(i + 1, j as int);
        if j >= n {
            proof {
                assert forall|end: int| i < end <= code@.len() implies !#[trigger] is_string_text(
                    code@.subrange(i as int, end),
                    quote,
                ) by {
                    if end >= i + 2 && is_string_text(code@.subrange(i as int, end), quote) {
                        let t = code@.subrange(i as int, end);
                        assert(t.subrange(1, t.len() - 1) =~= p.take(end - i - 2));
                        lemma_body_prefix(p, end - i - 2, quote);
                    }
                }
            }
            return None;
        }
        let b = code[j];
        if b == quote {
            let ghost t = code@.subrange(i as int, j + 1);
            assert(t.subrange(1, t.len() - 1) =~= p);
            assert(is_string_text(t, quote));
            return Some((out, j + 1));
        } else if b == 92u8 {
            if j + 1 < code.len() && code[j + 1] != 10u8 {
                let c = code[j + 1];
                let e: u8 = if c == 110u8 { 10 } else if c == 116u8 { 9 } else { c };
                out.push(e);
                proof {
                    let q = seq![92u8, c];
                    lemma_unescape_append(p, q, quote);
                    assert(code@.subrange(i + 1, j + 2) =~= p + q);
                    let empty = Seq::<u8>::empty();
                    assert(q.skip(2) =~= empty);
                    assert(unescape(empty) == empty);
                    assert(string_body_ok(empty, quote));
                    assert(e == escaped(c));
                    assert(unescape(q) == seq![escaped(q[1])] + unescape(q.skip(2)));
                    assert(unescape(q) =~= seq![e]);
                    assert(string_body_ok(q, quote));
                }
                j = j + 2;
            } else {
                proof {
                    assert forall|end: int| i < end <= code@.len() implies !#[trigger] is_string_text(
                        code@.subrange(i as int, end),
                        quote,
                    ) by {
                        if end >= i + 2 && is_string_text(code@.subrange(i as int, end), quote) {
                            let t = code@.subrange(i as int, end);
                            let body = t.subrange(1, t.len() - 1);
                            if end - 1 <= j {
                                if end - 1 < j {
                                    assert(body =~= p.take(end - i - 2));
                                    lemma_body_prefix(p, end - i - 2, quote);
                                }
                            } else {
                                assert(body.take(j - i - 1) =~= p);
                                lemma_body_prefix(body, j - i - 1, quote);
                            }
                        }
                    }
                }
                return None;
            }
        } else {
            out.push(b);
            proof {
                let q = seq![b];
                lemma_unescape_append(p, q, quote);
                assert(code@.subrange(i + 1, j + 1) =~= p + q);
                let empty = Seq::<u8>::empty();
                assert(q.skip(1) =~= empty);
                assert(unescape(empty) == empty);
                assert(string_body_ok(empty, quote));
                assert(unescape(q) == seq![q[0]] + unescape(q.skip(1)));
                assert(unescape(q) =~= seq![b]);
                assert(string_body_ok(q, quote));
            }
            j = j + 1;
        }
    }
}

/// The next byte after `i`, or 0 at the end.
fn next_byte(code: &[u8], i: usize) -> (r: u8)
    requires
        i < code@.len(),
    ensures
        i + 1 < code@.len() ==> r == code@[i + 1],
        i + 1 >= code@.len() ==> r == 0,
{
    if code.len() - i > 1 {
        code[i + 1]
    } else {
        0
    }
}

/// A byte that is a punctuation token by itself.
pub open spec fn single_punct(c: u8) -> bool {
    c == 61 || c == 33 || c == 43 || c == 45 || c == 42 || c == 47 || c == 37 || c == 60 || c == 62
        || c == 46 || c == 58 || c == 44 || c == 40 || c == 41 || c == 91 || c == 93 || c == 36
}

/// Two bytes that together spell a punctuation token.
pub open spec fn double_punct(c: u8, n: u8) -> bool {
    ||| c == 61 && (n == 61 || n == 62)
    ||| (c == 33 || c == 43 || c == 45 || c == 47 || c == 37 || c == 60 || c == 62) && n == 61
    ||| c == 42 && (n == 42 || n == 61)
    ||| c == 46 && n == 46
    ||| c == 38 && n == 38
    ||| c == 124 && n == 124
}

/// The byte after `i`, or 0 at the end of `code`.
pub open spec fn byte_after(code: Seq<u8>, i: int) -> u8 {
    if i + 1 < code.len() {
        code[i + 1]
    } else {
        0
    }
}

/// A punctuation token starting at `i`: the longest spelling that matches.
fn scan_punct(code: &[u8], i: usize) -> (r: Option<(Token, usize)>)
    requires
        i < code@.len(),
    ensures
        r is Some <==> single_punct(code@[i as int]) || double_punct(
            code@[i as int],
            byte_after(code@, i as int),
        ),
        r matches Some((t, end)) ==> (end == i + 2 <==> double_punct(
            code@[i as int],
            byte_after(code@, i as int),
        )),
        r matches Some((t, end)) ==> punct_kind(code@[i as int], byte_after(code@, i as int)) == Some(
            t.spec_kind(),
        ),
        r is None ==> punct_kind(code@[i as int], byte_after(code@, i as int)) is None,
        r matches Some((t, end)) ==> i < end <= code@.len() && token_spells(
            t,
            code@.subrange(i as int, end as int),
        ) && ends_cleanly(t, code@, i as int, end as int),
{
    let c = code[i];
    let n = next_byte(code, i);
    let (tok, len): (Token, usize) = if c == 61u8 {
        if n == 61u8 {
            (Token::EqEq, 2)
        } else if n == 62u8 {
            (Token::RArrow, 2)
        } else {
            (Token::Eq, 1)
        }
    } else if c == 33u8 {
        if n == 61u8 {
            (Token::NotEq, 2)
        } else {
            (Token::Bang, 1)
        }
    } else if c == 43u8 {
        if n == 61u8 {
            (Token::PlusEq, 2)
        } else {
            (Token::Plus, 1)
        }
    } else if c == 45u8 {
        if n == 61u8 {
            (Token::MinusEq, 2)
        } else {
            (Token::Minus, 1)
        }
    } else if c == 42u8 {
        if n == 42u8 {
            (Token::StarStar, 2)
        } else if n == 61u8 {
            (Token::StarEq, 2)
        } else {
            (Token::Star, 1)
        }
    } else if c == 47u8 {
        if n == 61u8 {
            (Token::SlashEq, 2)
        } else {
            (Token::Slash, 1)
        }
    } else if c == 37u8 {
        if n == 61u8 {
            (Token::PercentEq, 2)
        } else {
            (Token::Percent, 1)
        }
    } else if c == 60u8 {
        if n == 61u8 {
            (Token::LEq, 2)
        } else {
            (Token::Lt, 1)
        }
    } else if c == 62u8 {
        if n == 61u8 {
            (Token::GEq, 2)
        } else {
            (Token::Gt, 1)
        }
    } else if c == 46u8 {
        if n == 46u8 {
            (Token::Range, 2)
        } else {
            (Token::Dot, 1)
        }
    } else if c == 38u8 && n == 38u8 {
        (Token::And, 2)
    } else if c == 124u8 && n == 124u8 {
        (Token::Or, 2)
    } else if c == 58u8 {
        (Token::Colon, 1)
    } else if c == 44u8 {
        (Token::Comma, 1)
    } else if c == 40u8 {
        (Token::LParen, 1)
    } else if c == 41u8 {
        (Token::RParen, 1)
    } else if c == 91u8 {
        (Token::LBracket, 1)
    } else if c == 93u8 {
        (Token::RBracket, 1)
    } else if c == 36u8 {
        (Token::DollarSign, 1)
    } else {
        return None;
    };
    proof {
        let t = code@.subrange(i as int, i + len);
        assert(len == 1 ==> t =~= seq![c]);
        assert(len == 2 ==> t =~= seq![c, n]);
    }
    Some((tok, i + len))
}

/// The width in bytes of the UTF-8 character whose first byte is `b`.
fn char_width(b: u8) -> (r: usize)
    ensures
        b < 0xc0 ==> r == 1,
        0xc0 <= b < 0xe0 ==> r == 2,
        0xe0 <= b < 0xf0 ==> r == 3,
        0xf0 <= b ==> r == 4,
        r == width_of(b),
{
    if b < 0xc0 {
        1
    } else if b < 0xe0 {
        2
    } else if b < 0xf0 {
        3
    } else {
        4
    }
}

/// Scans one token, a run of blanks, or an error at `i`.
pub fn scan_token(code: &[u8], i: usize) -> (r: (Scanned, usize))
    requires
        i < code@.len(),
    ensures
        i < r.1 <= code@.len(),
        r.0 matches Scanned::Tok(t) ==> token_spells(t, code@.subrange(i as int, r.1 as int))
            && ends_cleanly(t, code@, i as int, r.1 as int),
        r.0 is Skip ==> all_blank(code@.subrange(i as int, r.1 as int)),
        scan_kind_of(r.0) == scan_spec(code@, i as int).0,
        r.1 == scan_spec(code@, i as int).1,
{
    let c = code[i];
    let n = next_byte(code, i);
    if c == 32u8 || c == 9u8 {
        let mut j = i + 1;
        while j < code.len() && (code[j] == 32u8 || code[j] == 9u8)
            invariant
                i < j <= code@.len(),
                forall|k: int| i <= k < j ==> (#[trigger] code@[k] == 32 || code@[k] == 9),
                blank_run_end(code@, j as int) == blank_run_end(code@, i as int),
            decreases code@.len() - j,
        {
            j = j + 1;
        }
        assert(blank_run_end(code@, j as int) == j);
        assert(all_blank(code@.subrange(i as int, j as int))) by {
            assert forall|k: int| 0 <= k < j - i implies (#[trigger] code@.subrange(i as int, j as int)[k] == 32 || code@.subrange(i as int, j as int)[k] == 9) by {
                assert(code@.subrange(i as int, j as int)[k] == code@[i + k]);
            }
        }
        return (Scanned::Skip, j);
    }
    if c == 10u8 || c == 59u8 {
        assert(code@.subrange(i as int, i + 1) =~= seq![c]);
        return (Scanned::Tok(Token::Newline), i + 1);
    }
    if c == 13u8 {
        if n == 10u8 {
            assert(code@.subrange(i as int, i + 2) =~= seq![13u8, 10]);
            return (Scanned::Tok(Token::Newline), i + 2);
        }
        return (Scanned::Failed(LexingError::Other), i + 1);
    }
    if is_alpha_byte(c) {
        let (t, end) = scan_word(code, i);
        return (Scanned::Tok(t), end);
    }
    if is_digit_byte(c) || (c == 45u8 && i + 1 < code.len() && is_digit_byte(n)) {
        return scan_number(code, i);
    }
    if c == 34u8 || c == 39u8 {
        return match scan_string(code, i, c) {
            Some((s, end)) => {
                assert(code@.subrange(i as int, end as int).subrange(1, end - i - 1) =~= code@.subrange(i + 1, end - 1));
                let t = if c == 34u8 { Token::DoubleQuotedString(s) } else { Token::SingleQuotedString(s) };
                (Scanned::Tok(t), end)
            },
            None => (Scanned::Failed(LexingError::Other), i + 1),
        };
    }
    match scan_punct(code, i) {
        Some((t, end)) => (Scanned::Tok(t), end),
        None => {
            let w = char_width(c);
            let end = if w <= code.len() - i { i + w } else { code.len() };
            (Scanned::Failed(LexingError::Other), end)
        },
    }
}

/// The tokens of a source text, and the errors met on the way.
pub struct LexingArtifacts {
    pub tokens: Vec<(Token, Span)>,
    pub errors: Vec<(LexingError, Span)>,
}

/// How many tokens of kind `k` there are.
pub open spec fn count_kind(toks: Seq<(Token, Span)>, k: TokenKind) -> nat
    decreases toks.len(),
{
    if toks.len() == 0 {
        0
    } else {
        count_kind(toks.drop_last(), k) + if toks.last().0.spec_kind() == k {
            1nat
        } else {
            0nat
        }
    }
}

proof fn lemma_count_push(toks: Seq<(Token, Span)>, x: (Token, Span), k: TokenKind)
    ensures
        count_kind(toks.push(x), k) == count_kind(toks, k) + if x.0.spec_kind() == k {
            1nat
        } else {
            0nat
        },
{
    assert(toks.push(x).drop_last() =~= toks);
}

/// A token of the result is an indentation mark, a line end added at the
/// end of the text, or the token that its span of the source spells.
pub open spec fn token_from_source(t: Token, sp: Span, code: Seq<u8>) -> bool {
    &&& sp.start <= sp.end <= code.len()
    &&& {
        ||| t is Indent
        ||| t is Dedent
        ||| (t is Newline && sp.start == code.len())
        ||| (token_spells(t, code.subrange(sp.start as int, sp.end as int)) && ends_cleanly(
            t,
            code,
            sp.start as int,
            sp.end as int,
        ))
    }
}

/// The indentation stack starts at column 0 and grows strictly.
pub open spec fn indent_stack_ok(st: Seq<usize>) -> bool {
    &&& st.len() >= 1
    &&& st[0] == 0
    &&& forall|a: int, b: int| 0 <= a < b < st.len() ==> st[a] < st[b]
}

/// The properties of a token list that [`tokenize_bytes`] establishes.
#[verifier::opaque]
pub open spec fn tokens_ok(toks: Seq<(Token, Span)>, code: Seq<u8>) -> bool {
    &&& toks.len() >= 1
    &&& toks[0].0 is LParen
    &&& toks[0].1 == Span { start: 2, end: 3 }
    &&& forall|j: int| 1 <= j < toks.len() ==> token_from_source(#[trigger] toks[j].0, toks[j].1, code)
    &&& forall|j: int| 1 <= j < toks.len() - 1 ==> #[trigger] toks[j].1.start <= toks[j + 1].1.start
}

/// Tokenizes `code`: blanks are skipped, a line break outside brackets
/// ends a line, and a change of indentation at the start of a non-blank line
/// gives `Indent` or as many `Dedent`s (then a line end) as levels are left;
/// the levels still open at the end are closed the same way. The first token
/// is a start marker that the token stream passes over.
pub fn tokenize_bytes(code: &[u8]) -> (r: LexingArtifacts)
    ensures
        tokens_ok(r.tokens@, code@),
        count_kind(r.tokens@, TokenKind::Indent) == count_kind(r.tokens@, TokenKind::Dedent),
        errors_ok(r.errors@, code@.len()),
        kinds_of(r.tokens@) == lex_spec(code@).toks,
        r.errors@ == lex_spec(code@).errs,
{
    let n = code.len();
    let mut tokens: Vec<(Token, Span)> = Vec::new();
    tokens.push((Token::LParen, Span { start: 2, end: 3 }));
    let mut errors: Vec<(LexingError, Span)> = Vec::new();
    let mut indent_stack: Vec<usize> = Vec::new();
    indent_stack.push(0);
    let mut bracket_depth: usize = 0;
    let mut i: usize = 0;
    proof {
        lemma_count_push(Seq::empty(), (Token::LParen, Span { start: 2, end: 3 }), TokenKind::Indent);
        lemma_count_push(Seq::empty(), (Token::LParen, Span { start: 2, end: 3 }), TokenKind::Dedent);
        assert(Seq::<(Token, Span)>::empty().push((Token::LParen, Span { start: 2, end: 3 })) =~= tokens@);
        reveal(tokens_ok);
        assert(kinds_of(tokens@) =~= lex_init().toks);
        assert(errors@ =~= lex_init().errs);
        assert(indent_stack@ =~= lex_init().stack);
    }
    while i < n
        invariant
            lex_from(
                code@,
                i as int,
                LexModel { toks: kinds_of(tokens@), errs: errors@, stack: indent_stack@, depth: bracket_depth },
            ) == lex_from(code@, 0, lex_init()),
            n == code@.len(),
            0 <= i <= n,
            tokens_ok(tokens@, code@),
            tokens@.len() >= 2 ==> tokens@.last().1.start <= i,
            indent_stack_ok(indent_stack@),
            count_kind(tokens@, TokenKind::Indent) == count_kind(tokens@, TokenKind::Dedent)
                + indent_stack@.len() - 1,
            errors_ok(errors@, n as nat),
        decreases n - i,
    {
        let (scanned, end) = scan_token(code, i);
        let span = Span { start: i, end };
        let ghost cur = LexModel { toks: kinds_of(tokens@), errs: errors@, stack: indent_stack@, depth: bracket_depth };
        let ghost kind = scan_kind_of(scanned);
        match scanned {
            Scanned::Skip => {},
            Scanned::Failed(e) => {
                push_error(&mut errors, e, span, n);
            },
            Scanned::Tok(token) => {
                bracket_depth = self::place_token(code, token, span, bracket_depth, &mut tokens, &mut errors, &mut indent_stack);
            },
        }
        proof {
            let next = LexModel { toks: kinds_of(tokens@), errs: errors@, stack: indent_stack@, depth: bracket_depth };
            let s2 = match kind {
                ScanKind::Skip => cur,
                ScanKind::Failed(err) => LexModel { errs: cur.errs.push((err, span)), ..cur },
                ScanKind::Tok(t) => place_spec(code@, t, span, cur),
            };
            assert(next == s2);
            assert(lex_from(code@, i as int, cur) == lex_from(code@, end as int, s2));
        }
        i = end;
    }
    let ghost lexed = LexModel { toks: kinds_of(tokens@), errs: errors@, stack: indent_stack@, depth: bracket_depth };
    assert(lexed == lex_from(code@, 0, lex_init()));
    let eof = Span { start: n, end: n };
    let mut closed = false;
    while indent_stack.len() > 1
        invariant
            n == code@.len(),
            tokens_ok(tokens@, code@),
            tokens@.len() >= 2 ==> tokens@.last().1.start <= n,
            indent_stack_ok(indent_stack@),
            count_kind(tokens@, TokenKind::Indent) == count_kind(tokens@, TokenKind::Dedent)
                + indent_stack@.len() - 1,
            eof.start == n && eof.end == n,
            1 <= indent_stack@.len() <= lexed.stack.len(),
            kinds_of(tokens@) == lexed.toks + dedent_kinds((lexed.stack.len() - indent_stack@.len()) as nat, eof),
            closed == (indent_stack@.len() < lexed.stack.len()),
            errors@ == lexed.errs,
        decreases indent_stack@.len(),
    {
        let ghost before = tokens@;
        indent_stack.pop();
        self::push_layout(&mut tokens, Token::Dedent, eof, code);
        assert(kinds_of(tokens@) =~= kinds_of(before).push((TokenKind::Dedent, eof)));
        assert(kinds_of(tokens@) =~= lexed.toks + dedent_kinds((lexed.stack.len() - indent_stack@.len()) as nat, eof));
        closed = true;
    }
    let ghost before = tokens@;
    if closed {
        self::push_layout(&mut tokens, Token::Newline, eof, code);
        assert(kinds_of(tokens@) =~= kinds_of(before).push((TokenKind::Newline, eof)));
    }
    assert(kinds_of(tokens@) =~= finish_spec(lexed, n as nat).toks);
    LexingArtifacts { tokens, errors }
}

/// Places a scanned token: brackets change the nesting depth, and a line
/// break inside brackets is dropped; outside it ends the line and the
/// indentation of the next line is measured. Gives the new depth.
fn place_token(
    code: &[u8],
    token: Token,
    span: Span,
    bracket_depth: usize,
    tokens: &mut Vec<(Token, Span)>,
    errors: &mut Vec<(LexingError, Span)>,
    indent_stack: &mut Vec<usize>,
) -> (depth: usize)
    requires
        span.start <= span.end <= code@.len(),
        token_spells(token, code@.subrange(span.start as int, span.end as int)),
        ends_cleanly(token, code@, span.start as int, span.end as int),
        tokens_ok(old(tokens)@, code@),
        old(tokens)@.len() >= 2 ==> old(tokens)@.last().1.start <= span.start,
        indent_stack_ok(old(indent_stack)@),
        count_kind(old(tokens)@, TokenKind::Indent) == count_kind(old(tokens)@, TokenKind::Dedent)
            + old(indent_stack)@.len() - 1,
        errors_ok(old(errors)@, code@.len()),
    ensures
        tokens_ok(final(tokens)@, code@),
        final(tokens)@.len() >= 2 ==> final(tokens)@.last().1.start <= span.start,
        indent_stack_ok(final(indent_stack)@),
        count_kind(final(tokens)@, TokenKind::Indent) == count_kind(final(tokens)@, TokenKind::Dedent)
            + final(indent_stack)@.len() - 1,
        errors_ok(final(errors)@, code@.len()),
        depth == if token.spec_kind() == TokenKind::LBracket || token.spec_kind() == TokenKind::LParen {
            if bracket_depth < usize::MAX {
                (bracket_depth + 1) as usize
            } else {
                bracket_depth
            }
        } else if token.spec_kind() == TokenKind::RBracket || token.spec_kind() == TokenKind::RParen {
            if bracket_depth > 0 {
                (bracket_depth - 1) as usize
            } else {
                0
            }
        } else {
            bracket_depth
        },
        token.spec_kind() != TokenKind::Newline ==> final(tokens)@ == old(tokens)@.push((token, span))
            && final(errors)@ == old(errors)@ && final(indent_stack)@ == old(indent_stack)@,
        token.spec_kind() == TokenKind::Newline && bracket_depth > 0 ==> final(tokens)@ == old(
            tokens,
        )@ && final(errors)@ == old(errors)@ && final(indent_stack)@ == old(indent_stack)@,
        token.spec_kind() == TokenKind::Newline && bracket_depth == 0 ==> line_break_effect(
            code@,
            span.end as int,
            span,
            old(tokens)@.push((token, span)),
            final(tokens)@,
            old(errors)@,
            final(errors)@,
            old(indent_stack)@,
            final(indent_stack)@,
        ),
        (LexModel {
            toks: kinds_of(final(tokens)@),
            errs: final(errors)@,
            stack: final(indent_stack)@,
            depth,
        }) == place_spec(
            code@,
            token.spec_kind(),
            span,
            LexModel {
                toks: kinds_of(old(tokens)@),
                errs: old(errors)@,
                stack: old(indent_stack)@,
                depth: bracket_depth,
            },
        ),
{
    let kind = token.kind();
    if kind == TokenKind::LBracket || kind == TokenKind::LParen {
        push_token(tokens, token, span, code);
        assert(kinds_of(tokens@) =~= kinds_of(old(tokens)@).push((token.spec_kind(), span)));
        if bracket_depth < usize::MAX { bracket_depth + 1 } else { bracket_depth }
    } else if kind == TokenKind::RBracket || kind == TokenKind::RParen {
        push_token(tokens, token, span, code);
        assert(kinds_of(tokens@) =~= kinds_of(old(tokens)@).push((token.spec_kind(), span)));
        if bracket_depth > 0 { bracket_depth - 1 } else { 0 }
    } else if kind == TokenKind::Newline {
        if bracket_depth == 0 {
            push_token(tokens, token, span, code);
            let ghost pushed = tokens@;
            assert(kinds_of(pushed) =~= kinds_of(old(tokens)@).push((token.spec_kind(), span)));
            indentation(code, span.end, span, tokens, errors, indent_stack);
            proof {
                lemma_effect_spec(
                    code@,
                    span.end as int,
                    span,
                    pushed,
                    tokens@,
                    old(errors)@,
                    errors@,
                    old(indent_stack)@,
                    indent_stack@,
                    bracket_depth,
                );
            }
        }
        bracket_depth
    } else {
        push_token(tokens, token, span, code);
        assert(kinds_of(tokens@) =~= kinds_of(old(tokens)@).push((token.spec_kind(), span)));
        bracket_depth
    }
}

/// Every error span lies within the text.
pub open spec fn errors_ok(errs: Seq<(LexingError, Span)>, n: nat) -> bool {
    forall|j: int| 0 <= j < errs.len() ==> #[trigger] errs[j].1.start <= errs[j].1.end <= n
}

fn push_error(errors: &mut Vec<(LexingError, Span)>, e: LexingError, span: Span, n: usize)
    requires
        errors_ok(old(errors)@, n as nat),
        span.start <= span.end <= n,
    ensures
        errors_ok(final(errors)@, n as nat),
        final(errors)@ == old(errors)@.push((e, span)),
{
    errors.push((e, span));
    assert forall|j: int| 0 <= j < errors@.len() implies #[trigger] errors@[j].1.start <= errors@[j].1.end <= n by {
        if j < old(errors)@.len() {
            assert(errors@[j] == old(errors)@[j]);
        }
    }
}

/// Appends a token that its span spells.
fn push_token(tokens: &mut Vec<(Token, Span)>, token: Token, span: Span, code: &[u8])
    requires
        tokens_ok(old(tokens)@, code@),
        old(tokens)@.len() >= 2 ==> old(tokens)@.last().1.start <= span.start,
        span.start <= span.end <= code@.len(),
        token_spells(token, code@.subrange(span.start as int, span.end as int)),
        ends_cleanly(token, code@, span.start as int, span.end as int),
    ensures
        tokens_ok(final(tokens)@, code@),
        final(tokens)@ == old(tokens)@.push((token, span)),
        final(tokens)@.last().1.start == span.start,
        count_kind(final(tokens)@, TokenKind::Indent) == count_kind(old(tokens)@, TokenKind::Indent)
            + if token is Indent { 1nat } else { 0nat },
        count_kind(final(tokens)@, TokenKind::Dedent) == count_kind(old(tokens)@, TokenKind::Dedent)
            + if token is Dedent { 1nat } else { 0nat },
{
    proof {
        lemma_count_push(old(tokens)@, (token, span), TokenKind::Indent);
        lemma_count_push(old(tokens)@, (token, span), TokenKind::Dedent);
        reveal(tokens_ok);
    }
    tokens.push((token, span));
    assert forall|j: int| 1 <= j < tokens@.len() implies token_from_source(#[trigger] tokens@[j].0, tokens@[j].1, code@) by {
        if j < old(tokens)@.len() {
            assert(tokens@[j] == old(tokens)@[j]);
        }
    }
    assert forall|j: int| 1 <= j < tokens@.len() - 1 implies #[trigger] tokens@[j].1.start <= tokens@[j + 1].1.start by {
        assert(tokens@[j] == old(tokens)@[j]);
        if j + 1 < old(tokens)@.len() {
            assert(tokens@[j + 1] == old(tokens)@[j + 1]);
        }
    }
}

/// Appends an `Indent`, a `Dedent`, or a line end at the end of the text.
fn push_layout(tokens: &mut Vec<(Token, Span)>, token: Token, span: Span, code: &[u8])
    requires
        tokens_ok(old(tokens)@, code@),
        old(tokens)@.len() >= 2 ==> old(tokens)@.last().1.start <= span.start,
        span.start <= span.end <= code@.len(),
        token is Indent || token is Dedent || (token is Newline && span.start == code@.len()),
    ensures
        tokens_ok(final(tokens)@, code@),
        final(tokens)@ == old(tokens)@.push((token, span)),
        final(tokens)@.last().1.start == span.start,
        count_kind(final(tokens)@, TokenKind::Indent) == count_kind(old(tokens)@, TokenKind::Indent)
            + if token is Indent { 1nat } else { 0nat },
        count_kind(final(tokens)@, TokenKind::Dedent) == count_kind(old(tokens)@, TokenKind::Dedent)
            + if token is Dedent { 1nat } else { 0nat },
{
    proof {
        lemma_count_push(old(tokens)@, (token, span), TokenKind::Indent);
        lemma_count_push(old(tokens)@, (token, span), TokenKind::Dedent);
        reveal(tokens_ok);
    }
    tokens.push((token, span));
    assert forall|j: int| 1 <= j < tokens@.len() implies token_from_source(#[trigger] tokens@[j].0, tokens@[j].1, code@) by {
        if j < old(tokens)@.len() {
            assert(tokens@[j] == old(tokens)@[j]);
        }
    }
    assert forall|j: int| 1 <= j < tokens@.len() - 1 implies #[trigger] tokens@[j].1.start <= tokens@[j + 1].1.start by {
        assert(tokens@[j] == old(tokens)@[j]);
        if j + 1 < old(tokens)@.len() {
            assert(tokens@[j + 1] == old(tokens)@[j + 1]);
        }
    }
}

/// The end of the run of spaces and tabs that starts at `j`.
pub open spec fn blank_run_end(code: Seq<u8>, j: int) -> int
    decreases code.len() - j,
{
    if 0 <= j < code.len() && (code[j] == 32 || code[j] == 9) {
        blank_run_end(code, j + 1)
    } else {
        j
    }
}

/// `k` `Dedent` tokens at `span`.
pub open spec fn dedents(k: nat, span: Span) -> Seq<(Token, Span)> {
    Seq::new(k, |_j: int| (Token::Dedent, span))
}

/// What a line break ending at `end` does to the tokens, the errors and the
/// indentation levels, given as their values before and after. A line that
/// is blank or at the end of the text changes nothing; an indentation too
/// wide to count is an error; a deeper one opens a level with `Indent`; a
/// shallower one closes the deeper levels with one `Dedent` each and ends the
/// line, and is an error when it matches none of the levels left.
pub open spec fn line_break_effect(
    code: Seq<u8>,
    end: int,
    span: Span,
    toks0: Seq<(Token, Span)>,
    toks1: Seq<(Token, Span)>,
    errs0: Seq<(LexingError, Span)>,
    errs1: Seq<(LexingError, Span)>,
    st0: Seq<usize>,
    st1: Seq<usize>,
) -> bool {
    let j = blank_run_end(code, end);
    if j == code.len() || code[j] == 10 || code[j] == 13 {
        toks1 == toks0 && errs1 == errs0 && st1 == st0
    } else if j - end > usize::MAX / 8 {
        toks1 == toks0 && errs1 == errs0.push((LexingError::Other, span)) && st1 == st0
    } else {
        let c = columns(code.subrange(end, j));
        let m = st1.len();
        if c > st0.last() {
            toks1 == toks0.push((Token::Indent, span)) && errs1 == errs0 && st1 == st0.push(
                c as usize,
            )
        } else if c == st0.last() {
            toks1 == toks0 && errs1 == errs0 && st1 == st0
        } else {
            &&& 1 <= m < st0.len()
            &&& st1 == st0.take(m as int)
            &&& st0[m - 1] <= c < st0[m as int]
            &&& toks1 == (toks0 + dedents((st0.len() - m) as nat, span)).push((Token::Newline, span))
            &&& errs1 == if st0[m - 1] == c {
                errs0
            } else {
                errs0.push((LexingError::Other, span))
            }
        }
    }
}

/// The lexer's state, by kind: the tokens so far (kind and span), the
/// errors, the open indentation levels and the bracket depth.
pub struct LexModel {
    pub toks: Seq<(TokenKind, Span)>,
    pub errs: Seq<(LexingError, Span)>,
    pub stack: Seq<usize>,
    pub depth: usize,
}

/// A token list by kind and span.
pub open spec fn kinds_of(toks: Seq<(Token, Span)>) -> Seq<(TokenKind, Span)> {
    toks.map_values(|t: (Token, Span)| (t.0.spec_kind(), t.1))
}

/// `k` `Dedent` kinds at `span`.
pub open spec fn dedent_kinds(k: nat, span: Span) -> Seq<(TokenKind, Span)> {
    Seq::new(k, |_j: int| (TokenKind::Dedent, span))
}

/// The levels left after closing every level deeper than column `c`.
pub open spec fn pop_levels(st: Seq<usize>, c: int) -> Seq<usize>
    decreases st.len(),
{
    if st.len() > 1 && st.last() > c {
        pop_levels(st.drop_last(), c)
    } else {
        st
    }
}

/// What a line break ending at `end` does to the state (see
/// [`line_break_effect`]): nothing at a blank line or the end of the text;
/// an error when the indentation is too wide to count; a deeper one opens a
/// level with `Indent`; a shallower one closes the deeper levels, one
/// `Dedent` each, ends the line, and is an error when it matches no level.
pub open spec fn indent_spec(code: Seq<u8>, end: int, span: Span, s: LexModel) -> LexModel {
    let j = blank_run_end(code, end);
    if j == code.len() || code[j] == 10 || code[j] == 13 {
        s
    } else if j - end > usize::MAX / 8 {
        LexModel { errs: s.errs.push((LexingError::Other, span)), ..s }
    } else {
        let c = columns(code.subrange(end, j));
        if c > s.stack.last() {
            LexModel {
                toks: s.toks.push((TokenKind::Indent, span)),
                stack: s.stack.push(c as usize),
                ..s
            }
        } else if c == s.stack.last() {
            s
        } else {
            let st1 = pop_levels(s.stack, c);
            LexModel {
                toks: (s.toks + dedent_kinds((s.stack.len() - st1.len()) as nat, span)).push(
                    (TokenKind::Newline, span),
                ),
                errs: if st1.last() == c {
                    s.errs
                } else {
                    s.errs.push((LexingError::Other, span))
                },
                stack: st1,
                depth: s.depth,
            }
        }
    }
}

/// Placing a token of kind `k` at `span` (see [`place_token`]).
pub open spec fn place_spec(code: Seq<u8>, k: TokenKind, span: Span, s: LexModel) -> LexModel {
    if k == TokenKind::LBracket || k == TokenKind::LParen {
        LexModel {
            toks: s.toks.push((k, span)),
            depth: if s.depth < usize::MAX { (s.depth + 1) as usize } else { s.depth },
            ..s
        }
    } else if k == TokenKind::RBracket || k == TokenKind::RParen {
        LexModel {
            toks: s.toks.push((k, span)),
            depth: if s.depth > 0 { (s.depth - 1) as usize } else { 0 },
            ..s
        }
    } else if k == TokenKind::Newline {
        if s.depth == 0 {
            indent_spec(code, span.end as int, span, LexModel { toks: s.toks.push((k, span)), ..s })
        } else {
            s
        }
    } else {
        LexModel { toks: s.toks.push((k, span)), ..s }
    }
}

/// The state after scanning `code` from `i` on, starting in state `s`.
pub open spec fn lex_from(code: Seq<u8>, i: int, s: LexModel) -> LexModel
    decreases code.len() - i,
{
    if i < 0 || i >= code.len() {
        s
    } else {
        let (k, e) = scan_spec(code, i);
        if e <= i || e > code.len() {
            s
        } else {
            let sp = Span { start: i as usize, end: e as usize };
            let s2 = match k {
                ScanKind::Skip => s,
                ScanKind::Failed(err) => LexModel { errs: s.errs.push((err, sp)), ..s },
                ScanKind::Tok(t) => place_spec(code, t, sp, s),
            };
            lex_from(code, e, s2)
        }
    }
}

/// The state before the first byte: the start marker, no errors, one level
/// at column 0, no open bracket.
pub open spec fn lex_init() -> LexModel {
    LexModel {
        toks: seq![(TokenKind::LParen, Span { start: 2, end: 3 })],
        errs: seq![],
        stack: seq![0usize],
        depth: 0,
    }
}

/// The end of a text of `n` bytes: every level still open is closed with a
/// `Dedent`, and then, when there was one, the line is ended.
pub open spec fn finish_spec(s: LexModel, n: nat) -> LexModel {
    let eof = Span { start: n as usize, end: n as usize };
    let k = (s.stack.len() - 1) as nat;
    LexModel {
        toks: s.toks + dedent_kinds(k, eof) + if k > 0 {
            seq![(TokenKind::Newline, eof)]
        } else {
            seq![]
        },
        stack: seq![0usize],
        ..s
    }
}

/// The tokens (by kind and span) and errors of `code`.
pub open spec fn lex_spec(code: Seq<u8>) -> LexModel {
    finish_spec(lex_from(code, 0, lex_init()), code.len())
}

/// Closing levels deeper than `c` in a growing stack keeps its first `m`
/// levels, those at or below `c`.
proof fn lemma_pop_levels(st: Seq<usize>, c: int, m: int)
    requires
        indent_stack_ok(st),
        1 <= m <= st.len(),
        st[m - 1] <= c,
        m < st.len() ==> st[m] > c,
    ensures
        pop_levels(st, c) == st.take(m),
    decreases st.len(),
{
    if m == st.len() {
        assert(st.take(m) =~= st);
    } else {
        assert(st.last() >= st[m]);
        let d = st.drop_last();
        assert(indent_stack_ok(d)) by {
            assert forall|a: int, b: int| 0 <= a < b < d.len() implies d[a] < d[b] by {
                assert(d[a] == st[a] && d[b] == st[b]);
            }
        }
        lemma_pop_levels(d, c, m);
        assert(d.take(m) =~= st.take(m));
    }
}

/// The relation [`line_break_effect`] is the function [`indent_spec`], on
/// token kinds.
proof fn lemma_effect_spec(
    code: Seq<u8>,
    end: int,
    span: Span,
    toks0: Seq<(Token, Span)>,
    toks1: Seq<(Token, Span)>,
    errs0: Seq<(LexingError, Span)>,
    errs1: Seq<(LexingError, Span)>,
    st0: Seq<usize>,
    st1: Seq<usize>,
    d: usize,
)
    requires
        indent_stack_ok(st0),
        line_break_effect(code, end, span, toks0, toks1, errs0, errs1, st0, st1),
    ensures
        (LexModel { toks: kinds_of(toks1), errs: errs1, stack: st1, depth: d }) == indent_spec(
            code,
            end,
            span,
            LexModel { toks: kinds_of(toks0), errs: errs0, stack: st0, depth: d },
        ),
{
    let j = blank_run_end(code, end);
    if j == code.len() || code[j] == 10 || code[j] == 13 {
    } else if j - end > usize::MAX / 8 {
    } else {
        let c = columns(code.subrange(end, j));
        if c > st0.last() {
            assert(kinds_of(toks1) =~= kinds_of(toks0).push((TokenKind::Indent, span)));
        } else if c == st0.last() {
        } else {
            let m = st1.len() as int;
            lemma_pop_levels(st0, c, m);
            assert(kinds_of(toks1) =~= (kinds_of(toks0) + dedent_kinds((st0.len() - m) as nat, span)).push(
                (TokenKind::Newline, span),
            ));
        }
    }
}

/// After a line break ending at `end` (spanning `span`): measures the
/// indentation of the next non-blank line and opens or closes levels.
fn indentation(
    code: &[u8],
    end: usize,
    span: Span,
    tokens: &mut Vec<(Token, Span)>,
    errors: &mut Vec<(LexingError, Span)>,
    indent_stack: &mut Vec<usize>,
)
    requires
        span.start <= span.end == end <= code@.len(),
        token_spells(Token::Newline, code@.subrange(span.start as int, span.end as int)),
        tokens_ok(old(tokens)@, code@),
        old(tokens)@.len() >= 2 ==> old(tokens)@.last().1.start <= span.start,
        indent_stack_ok(old(indent_stack)@),
        count_kind(old(tokens)@, TokenKind::Indent) == count_kind(old(tokens)@, TokenKind::Dedent)
            + old(indent_stack)@.len() - 1,
        errors_ok(old(errors)@, code@.len()),
    ensures
        tokens_ok(final(tokens)@, code@),
        final(tokens)@.len() >= 2 ==> final(tokens)@.last().1.start <= span.start,
        indent_stack_ok(final(indent_stack)@),
        count_kind(final(tokens)@, TokenKind::Indent) == count_kind(final(tokens)@, TokenKind::Dedent)
            + final(indent_stack)@.len() - 1,
        errors_ok(final(errors)@, code@.len()),
        line_break_effect(
            code@,
            end as int,
            span,
            old(tokens)@,
            final(tokens)@,
            old(errors)@,
            final(errors)@,
            old(indent_stack)@,
            final(indent_stack)@,
        ),
{
    let n = code.len();
    let mut j = end;
    while j < n && (code[j] == 32u8 || code[j] == 9u8)
        invariant
            end <= j <= n,
            n == code@.len(),
            blank_run_end(code@, j as int) == blank_run_end(code@, end as int),
        decreases n - j,
    {
        j = j + 1;
    }
    assert(blank_run_end(code@, j as int) == j);
    if j == n || code[j] == 10u8 || code[j] == 13u8 {
        return;
    }
    if j - end > usize::MAX / 8 {
        push_error(errors, LexingError::Other, span, n);
        return;
    }
    let new_indent = count_columns(&code[end..j]);
    let current = indent_stack[indent_stack.len() - 1];
    if new_indent > current {
        indent_stack.push(new_indent);
        assert forall|a: int, b: int| 0 <= a < b < indent_stack@.len() implies indent_stack@[a] < indent_stack@[b] by {
            if b < indent_stack@.len() - 1 {
                assert(indent_stack@[a] == old(indent_stack)@[a]);
                assert(indent_stack@[b] == old(indent_stack)@[b]);
            } else {
                assert(indent_stack@[a] == old(indent_stack)@[a]);
                if a < old(indent_stack)@.len() - 1 {
                    assert(old(indent_stack)@[a] < old(indent_stack)@[old(indent_stack)@.len() - 1]);
                }
            }
        }
        push_layout(tokens, Token::Indent, span, code);
    } else if new_indent < current {
        let ghost st0 = old(indent_stack)@;
        let ghost toks0 = old(tokens)@;
        assert(toks0 + dedents(0, span) =~= toks0);
        while indent_stack[indent_stack.len() - 1] > new_indent
            invariant
                st0 == old(indent_stack)@,
                toks0 == old(tokens)@,
                indent_stack_ok(st0),
                1 <= indent_stack@.len() <= st0.len(),
                indent_stack@ == st0.take(indent_stack@.len() as int),
                indent_stack@.len() < st0.len() ==> st0[indent_stack@.len() as int] > new_indent,
                tokens@ == toks0 + dedents((st0.len() - indent_stack@.len()) as nat, span),
                indent_stack_ok(indent_stack@),
                tokens_ok(tokens@, code@),
                tokens@.len() >= 2 ==> tokens@.last().1.start <= span.start,
                span.start <= span.end <= code@.len(),
                count_kind(tokens@, TokenKind::Indent) == count_kind(tokens@, TokenKind::Dedent)
                    + indent_stack@.len() - 1,
            decreases indent_stack@.len(),
        {
            let ghost before = indent_stack@;
            let ghost toks_before = tokens@;
            indent_stack.pop();
            assert(indent_stack@ =~= before.drop_last());
            assert(indent_stack@ =~= st0.take(indent_stack@.len() as int));
            assert(st0[indent_stack@.len() as int] == before.last());
            assert forall|a: int, b: int| 0 <= a < b < indent_stack@.len() implies indent_stack@[a] < indent_stack@[b] by {
                assert(indent_stack@[a] == before[a]);
                assert(indent_stack@[b] == before[b]);
            }
            push_layout(tokens, Token::Dedent, span, code);
            assert(tokens@ =~= toks0 + dedents((st0.len() - indent_stack@.len()) as nat, span));
        }
        push_token(tokens, Token::Newline, span, code);
        if indent_stack[indent_stack.len() - 1] != new_indent {
            push_error(errors, LexingError::Other, span, n);
        }
    }
}

/// Tokenizes a source text; see [`tokenize_bytes`].
pub fn tokenize(code: &str) -> (r: LexingArtifacts)
    ensures
        tokens_ok(r.tokens@, code.spec_bytes()),
        count_kind(r.tokens@, TokenKind::Indent) == count_kind(r.tokens@, TokenKind::Dedent),
        kinds_of(r.tokens@) == lex_spec(code.spec_bytes()).toks,
        r.errors@ == lex_spec(code.spec_bytes()).errs,
{
    tokenize_bytes(code.as_bytes())
}

} // verus!
