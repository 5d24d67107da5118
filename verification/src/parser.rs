//! The parser: statements by keyword, expressions by precedence climbing.
//!
//! Every parsing function moves the token stream forward, never back past
//! where it was called, and keeps the token list as it is; those that start
//! on a token always consume at least one. That is what makes parsing
//! terminate, and what the contracts below state.
use vstd::prelude::*;
use crate::ast::{
    BinaryOp, Expression, FunctionSignature, ImportItem, Module, Node, Pattern, Return, Statement,
    Type, UnaryOp, pattern_matches,
};
use crate::token::{Span, Token, TokenKind, same_token, token_bytes};
use crate::token_stream::{ParsingError, TokenStream, span_from_to};
use crate::vm::append_bytes;

verus! {

/// What parsing a module gives: the statements that parsed, and an error
/// for each one that did not.
pub struct ParsingArtifacts {
    pub ast: Module,
    pub errors: Vec<ParsingError>,
}

/// `b` is the stream `a` after some tokens were handed out and some
/// identifiers given: same tokens, no fewer consumed, no identifier reused.
pub open spec fn kept(a: TokenStream, b: TokenStream) -> bool {
    &&& b.wf()
    &&& b.tokens() == a.tokens()
    &&& b.remaining() <= a.remaining()
    &&& b.id_counter() >= a.id_counter()
}

/// When `a` had tokens left, `b` has fewer.
pub open spec fn progressed(a: TokenStream, b: TokenStream) -> bool {
    a.remaining() > 0 ==> b.remaining() < a.remaining()
}

/// A node with the next identifier.
pub fn create_node<T>(ts: &mut TokenStream, span: Span, kind: T) -> (r: Node<T>)
    requires
        old(ts).wf(),
    ensures
        kept(*old(ts), *final(ts)),
        final(ts).remaining() == old(ts).remaining(),
        final(ts).pos() == old(ts).pos(),
        final(ts).saved() == old(ts).saved(),
        r.id == old(ts).id_counter(),
        r.span == span,
        r.kind == kind,
{
    let id = ts.next_id();
    Node::new(id, span, kind)
}

/// The span from the start of `start` to the end of `end`.
pub fn span_from_to_node<T, U>(start: &Node<T>, end: &Node<U>) -> (r: Span)
    ensures
        r == (Span { start: start.span.start, end: end.span.end }),
{
    Span { start: start.span.start, end: end.span.end }
}

/// The binding powers of an infix operator, left and right, and the
/// operation; `=` and the compound assignments bind weakest and group to
/// the right, as does `**`.
pub open spec fn infix_power(k: TokenKind) -> Option<(u8, u8, BinaryOp)> {
    match k {
        TokenKind::Or => Some((2, 3, BinaryOp::Or)),
        TokenKind::And => Some((3, 4, BinaryOp::And)),
        TokenKind::EqEq => Some((4, 5, BinaryOp::Eq)),
        TokenKind::NotEq => Some((4, 5, BinaryOp::NEq)),
        TokenKind::Lt => Some((5, 6, BinaryOp::Lt)),
        TokenKind::Gt => Some((5, 6, BinaryOp::Gt)),
        TokenKind::LEq => Some((5, 6, BinaryOp::LEq)),
        TokenKind::GEq => Some((5, 6, BinaryOp::GEq)),
        TokenKind::Plus => Some((10, 11, BinaryOp::Add)),
        TokenKind::Minus => Some((10, 11, BinaryOp::Sub)),
        TokenKind::Star => Some((20, 21, BinaryOp::Mul)),
        TokenKind::Slash => Some((20, 21, BinaryOp::Div)),
        TokenKind::Percent => Some((20, 21, BinaryOp::Mod)),
        TokenKind::StarStar => Some((26, 25, BinaryOp::Pow)),
        TokenKind::Eq => Some((1, 0, BinaryOp::Assign)),
        TokenKind::PlusEq => Some((1, 0, BinaryOp::Add)),
        TokenKind::MinusEq => Some((1, 0, BinaryOp::Sub)),
        TokenKind::StarEq => Some((1, 0, BinaryOp::Mul)),
        TokenKind::SlashEq => Some((1, 0, BinaryOp::Div)),
        TokenKind::PercentEq => Some((1, 0, BinaryOp::Mod)),
        _ => None,
    }
}

pub fn infix_binding_power(k: TokenKind) -> (r: Option<(u8, u8, BinaryOp)>)
    ensures
        r == infix_power(k),
{
    match k {
        TokenKind::Or => Some((2, 3, BinaryOp::Or)),
        TokenKind::And => Some((3, 4, BinaryOp::And)),
        TokenKind::EqEq => Some((4, 5, BinaryOp::Eq)),
        TokenKind::NotEq => Some((4, 5, BinaryOp::NEq)),
        TokenKind::Lt => Some((5, 6, BinaryOp::Lt)),
        TokenKind::Gt => Some((5, 6, BinaryOp::Gt)),
        TokenKind::LEq => Some((5, 6, BinaryOp::LEq)),
        TokenKind::GEq => Some((5, 6, BinaryOp::GEq)),
        TokenKind::Plus => Some((10, 11, BinaryOp::Add)),
        TokenKind::Minus => Some((10, 11, BinaryOp::Sub)),
        TokenKind::Star => Some((20, 21, BinaryOp::Mul)),
        TokenKind::Slash => Some((20, 21, BinaryOp::Div)),
        TokenKind::Percent => Some((20, 21, BinaryOp::Mod)),
        TokenKind::StarStar => Some((26, 25, BinaryOp::Pow)),
        TokenKind::Eq => Some((1, 0, BinaryOp::Assign)),
        TokenKind::PlusEq => Some((1, 0, BinaryOp::Add)),
        TokenKind::MinusEq => Some((1, 0, BinaryOp::Sub)),
        TokenKind::StarEq => Some((1, 0, BinaryOp::Mul)),
        TokenKind::SlashEq => Some((1, 0, BinaryOp::Div)),
        TokenKind::PercentEq => Some((1, 0, BinaryOp::Mod)),
        _ => None,
    }
}

/// The binding power of the prefix operators `-`, `+`, `!` and `not`.
pub const PREFIX_BP: u8 = 30;

/// What an expression that starts with token `t` is: a unary operation
/// for `-`, `+`, `!` and `not`, the literal or name that `t` is, an array
/// for `[`, a conditional for `if`, a loop for `while`; after `(` a
/// grouping, a tuple or a function. No other token starts an expression.
pub open spec fn prefix_result(t: Token, sp: Span, n: Node<Expression>) -> bool {
    match t {
        Token::Minus => n.kind matches Expression::Unary { op: UnaryOp::Neg, .. },
        Token::Plus => n.kind matches Expression::Unary { op: UnaryOp::Plus, .. },
        Token::Bang => n.kind matches Expression::Unary { op: UnaryOp::Not, .. },
        Token::Not => n.kind matches Expression::Unary { op: UnaryOp::Not, .. },
        Token::Integer(i) => n.kind == Expression::Integer(i) && n.span == sp,
        Token::Float(f) => n.kind matches Expression::Float(g) && g@ == f@ && n.span == sp,
        Token::DoubleQuotedString(v) => n.kind matches Expression::String(w) && w@ == v@ && n.span == sp,
        Token::SingleQuotedString(v) => n.kind matches Expression::String(w) && w@ == v@ && n.span == sp,
        Token::True => n.kind == Expression::Boolean(true) && n.span == sp,
        Token::False => n.kind == Expression::Boolean(false) && n.span == sp,
        Token::Identifier(v) => n.kind matches Expression::Identifier(w) && w@ == v@ && n.span == sp,
        Token::LBracket => n.kind is Array,
        Token::If => n.kind is Conditional,
        Token::While => n.kind is While,
        Token::LParen => true,
        _ => false,
    }
}

/// Whether a token of kind `k` continues an expression as a postfix
/// operation: indexing, call or member access.
pub open spec fn is_postfix(k: TokenKind) -> bool {
    k == TokenKind::LBracket || k == TokenKind::LParen || k == TokenKind::Dot
}

/// An expression parsed with minimum binding power `min_bp` ends where
/// the next token neither starts a postfix operation nor is an infix
/// operator that binds at least as tightly as `min_bp`.
pub open spec fn stops(next: Option<TokenKind>, min_bp: u8) -> bool {
    match next {
        Some(k) => !is_postfix(k) && match infix_power(k) {
            Some(p) => p.0 < min_bp,
            None => true,
        },
        None => true,
    }
}

/// The node that infix operator `k` (operation `op`) makes of its left
/// operand `lhs`: an assignment for `=`, a compound assignment for `OP=`,
/// a binary operation with `lhs` on the left otherwise.
pub open spec fn infix_node(k: TokenKind, op: BinaryOp, lhs: Node<Expression>, n: Node<Expression>) -> bool {
    if k == TokenKind::Eq {
        n.kind is Assignment
    } else if k == TokenKind::PlusEq || k == TokenKind::MinusEq || k == TokenKind::StarEq || k
        == TokenKind::SlashEq || k == TokenKind::PercentEq {
        n.kind matches Expression::CompoundAssignment { op: o, .. } && o == op
    } else {
        n.kind matches Expression::Binary { lhs: l, op: o, .. } && *l == lhs && o == op
    }
}

/// The kind of the token at position `i`, if there is one.
pub open spec fn kind_at(toks: Seq<(Token, Span)>, i: int) -> Option<TokenKind> {
    if 0 <= i < toks.len() {
        Some(toks[i].0.spec_kind())
    } else {
        None
    }
}

/// A literal or a name: a token that is an expression by itself.
pub open spec fn is_atom(t: Token) -> bool {
    t is Integer || t is Float || t is DoubleQuotedString || t is SingleQuotedString || t is True
        || t is False || t is Identifier
}

/// The token at position `i` is a literal or a name, and the token after
/// it ends an expression of binding power `min_bp`.
pub open spec fn atom_stop_at(toks: Seq<(Token, Span)>, i: int, min_bp: u8) -> bool {
    &&& 0 <= i < toks.len()
    &&& is_atom(toks[i].0)
    &&& stops(kind_at(toks, i + 1), min_bp)
}

/// An infix operator that builds a binary operation (not an assignment).
pub open spec fn binary_kind(k: Option<TokenKind>) -> bool {
    &&& k matches Some(kk)
    &&& infix_power(kk) is Some
    &&& kk != TokenKind::Eq && kk != TokenKind::PlusEq && kk != TokenKind::MinusEq
    &&& kk != TokenKind::StarEq && kk != TokenKind::SlashEq && kk != TokenKind::PercentEq
}

/// The left binding power of operator `k`.
pub open spec fn left_bp(k: Option<TokenKind>) -> u8 {
    infix_power(k.unwrap()).unwrap().0
}

/// The right binding power of operator `k`.
pub open spec fn right_bp(k: Option<TokenKind>) -> u8 {
    infix_power(k.unwrap()).unwrap().1
}

/// The operation of operator `k`.
pub open spec fn op_of(k: Option<TokenKind>) -> BinaryOp {
    infix_power(k.unwrap()).unwrap().2
}

/// `n` is the node of the literal or name at position `i`.
pub open spec fn atom_node(toks: Seq<(Token, Span)>, i: int, n: Node<Expression>) -> bool {
    prefix_result(toks[i].0, toks[i].1, n)
}

/// `n` is the operation `OP` of operator `k` on `l` and `r`.
pub open spec fn op_node(n: Node<Expression>, k: Option<TokenKind>, l: Node<Expression>, r: Node<Expression>) -> bool {
    n.kind matches Expression::Binary { lhs, op, rhs } && op == op_of(k) && *lhs == l && *rhs == r
}

/// `n` is `a K b` for the literals or names at positions `i` and `i + 2`
/// and the operator at `i + 1`.
pub open spec fn simple_op_node(toks: Seq<(Token, Span)>, i: int, n: Node<Expression>) -> bool {
    n.kind matches Expression::Binary { lhs, op, rhs } && op == op_of(kind_at(toks, i + 1))
        && atom_node(toks, i, *lhs) && atom_node(toks, i + 2, *rhs)
}

/// `a K1 b` followed by a token that ends it at `min_bp` (positions from
/// `i` on): one operation.
pub open spec fn two_operands(toks: Seq<(Token, Span)>, i: int, min_bp: u8) -> bool {
    let k1 = kind_at(toks, i + 1);
    &&& 0 <= i < toks.len() && is_atom(toks[i].0)
    &&& binary_kind(k1) && left_bp(k1) >= min_bp
    &&& atom_stop_at(toks, i + 2, right_bp(k1))
    &&& stops(kind_at(toks, i + 3), min_bp)
}

/// `a K1 b K2 c` where `K2` binds tighter on its left than `K1` on its
/// right: `a K1 (b K2 c)`.
pub open spec fn three_right(toks: Seq<(Token, Span)>, i: int, min_bp: u8) -> bool {
    let k1 = kind_at(toks, i + 1);
    let k2 = kind_at(toks, i + 3);
    &&& 0 <= i < toks.len() && is_atom(toks[i].0)
    &&& binary_kind(k1) && left_bp(k1) >= min_bp
    &&& is_atom(toks[i + 2].0)
    &&& binary_kind(k2) && left_bp(k2) >= right_bp(k1)
    &&& atom_stop_at(toks, i + 4, right_bp(k2))
    &&& stops(kind_at(toks, i + 5), right_bp(k1))
    &&& stops(kind_at(toks, i + 5), min_bp)
}

/// `a K1 b K2 c` where `K2` binds less tightly on its left than `K1` on
/// its right: `(a K1 b) K2 c`.
pub open spec fn three_left(toks: Seq<(Token, Span)>, i: int, min_bp: u8) -> bool {
    let k1 = kind_at(toks, i + 1);
    let k2 = kind_at(toks, i + 3);
    &&& 0 <= i < toks.len() && is_atom(toks[i].0)
    &&& binary_kind(k1) && left_bp(k1) >= min_bp
    &&& is_atom(toks[i + 2].0)
    &&& binary_kind(k2) && left_bp(k2) < right_bp(k1) && left_bp(k2) >= min_bp
    &&& atom_stop_at(toks, i + 4, right_bp(k2))
    &&& stops(kind_at(toks, i + 5), min_bp)
}

/// The shape of an expression made of literals, names, prefix operators,
/// binary operators, parentheses and assignments to a name: each literal or
/// name by the position of its token.
pub enum ExprShape {
    Atom(int),
    Unary(UnaryOp, Box<ExprShape>),
    Binary(BinaryOp, Box<ExprShape>, Box<ExprShape>),
    Assign(int, Box<ExprShape>),
}

/// The operation of a prefix operator token.
pub open spec fn prefix_op(t: Token) -> Option<UnaryOp> {
    match t {
        Token::Minus => Some(UnaryOp::Neg),
        Token::Plus => Some(UnaryOp::Plus),
        Token::Bang => Some(UnaryOp::Not),
        Token::Not => Some(UnaryOp::Not),
        _ => None,
    }
}

/// What an expression starting at position `i` begins with, and where that
/// ends: a literal or name; a prefix operator and an expression of binding
/// power [`PREFIX_BP`]; or a parenthesized expression (not followed by `=>`).
pub open spec fn pprefix(toks: Seq<(Token, Span)>, i: int) -> Option<(ExprShape, int)>
    decreases toks.len() - i, 1nat,
{
    if i < 0 || i >= toks.len() {
        None
    } else if is_atom(toks[i].0) {
        Some((ExprShape::Atom(i), i + 1))
    } else if prefix_op(toks[i].0) is Some {
        match pexpr(toks, i + 1, PREFIX_BP) {
            Some((o, j)) => Some((ExprShape::Unary(prefix_op(toks[i].0).unwrap(), Box::new(o)), j)),
            None => None,
        }
    } else if toks[i].0 is LParen {
        match pexpr(toks, i + 1, 0) {
            Some((o, j)) => if kind_at(toks, j) == Some(TokenKind::RParen) && kind_at(toks, j + 1)
                != Some(TokenKind::RArrow) {
                Some((o, j + 1))
            } else {
                None
            },
            None => None,
        }
    } else {
        None
    }
}

/// Binding-power parsing from position `i`: a prefix part, then binary
/// operators as long as they bind at least as tightly as `min_bp`, each
/// taking as its right operand the expression of its right binding power.
/// The shape and the position after it; `None` outside this fragment.
pub open spec fn pexpr(toks: Seq<(Token, Span)>, i: int, min_bp: u8) -> Option<(ExprShape, int)>
    decreases toks.len() - i, 2nat,
{
    if i < 0 || i >= toks.len() {
        None
    } else {
        match pprefix(toks, i) {
            Some((s, j)) => if i < j <= toks.len() {
                ploop(toks, s, j, min_bp)
            } else {
                None
            },
            None => None,
        }
    }
}

/// `sh` is a single name: the target of an assignment.
pub open spec fn name_atom(toks: Seq<(Token, Span)>, sh: ExprShape) -> bool {
    sh matches ExprShape::Atom(a) && 0 <= a < toks.len() && toks[a].0 is Identifier
}

/// The binary operators after `lhs`, which ends at `j` (see [`pexpr`]).
pub open spec fn ploop(toks: Seq<(Token, Span)>, lhs: ExprShape, j: int, min_bp: u8) -> Option<(ExprShape, int)>
    decreases toks.len() - j, 0nat,
{
    let k = kind_at(toks, j);
    if stops(k, min_bp) {
        Some((lhs, j))
    } else if 0 <= j < toks.len() && binary_kind(k) && left_bp(k) >= min_bp {
        match pexpr(toks, j + 1, right_bp(k)) {
            Some((r, j2)) => if j + 1 < j2 <= toks.len() {
                ploop(toks, ExprShape::Binary(op_of(k), Box::new(lhs), Box::new(r)), j2, min_bp)
            } else {
                None
            },
            None => None,
        }
    } else if 0 <= j < toks.len() && k == Some(TokenKind::Eq) && name_atom(toks, lhs) {
        match pexpr(toks, j + 1, 0) {
            Some((r, j2)) => if j + 1 < j2 <= toks.len() {
                ploop(toks, ExprShape::Assign(lhs->Atom_0, Box::new(r)), j2, min_bp)
            } else {
                None
            },
            None => None,
        }
    } else {
        None
    }
}

/// The arguments of a call from position `j`: expressions (see
/// [`pexpr`]) separated by commas, up to `)`. Their shapes and the position
/// of the `)`.
pub open spec fn pargs(toks: Seq<(Token, Span)>, j: int) -> Option<(Seq<ExprShape>, int)>
    decreases toks.len() - j,
{
    if j < 0 || j >= toks.len() {
        None
    } else {
        match pexpr(toks, j, 0) {
            Some((sh, e)) => if e <= j || e >= toks.len() {
                None
            } else if kind_at(toks, e) == Some(TokenKind::Comma) {
                match pargs(toks, e + 1) {
                    Some((rest, e2)) => Some((seq![sh] + rest, e2)),
                    None => None,
                }
            } else if kind_at(toks, e) == Some(TokenKind::RParen) {
                Some((seq![sh], e))
            } else {
                None
            },
            None => None,
        }
    }
}

/// The arguments end at a `)`.
proof fn lemma_pargs_end(toks: Seq<(Token, Span)>, j: int)
    requires
        pargs(toks, j) is Some,
    ensures
        kind_at(toks, pargs(toks, j).unwrap().1) == Some(TokenKind::RParen),
    decreases toks.len() - j,
{
    let e = pexpr(toks, j, 0).unwrap().1;
    if kind_at(toks, e) == Some(TokenKind::Comma) {
        lemma_pargs_end(toks, e + 1);
    }
}

/// Node `n` has shape `sh` over the tokens `toks`.
pub open spec fn matches_shape(n: Node<Expression>, toks: Seq<(Token, Span)>, sh: ExprShape) -> bool
    decreases sh,
{
    match sh {
        ExprShape::Atom(i) => 0 <= i < toks.len() && is_atom(toks[i].0) && atom_node(toks, i, n),
        ExprShape::Unary(op, o) => n.kind matches Expression::Unary { op: o2, expression } && o2 == op
            && matches_shape(*expression, toks, *o),
        ExprShape::Binary(op, l, r) => n.kind matches Expression::Binary { lhs, op: o2, rhs } && o2 == op
            && matches_shape(*lhs, toks, *l) && matches_shape(*rhs, toks, *r),
        ExprShape::Assign(a, v) => n.kind matches Expression::Assignment { lhs, rhs } && 0 <= a < toks.len()
            && toks[a].0 is Identifier && (lhs.kind matches Pattern::Identifier(name) && name@ == token_bytes(toks[a].0))
            && matches_shape(*rhs, toks, *v),
    }
}

/// An expression whose operators bind at least as tightly as `min_bp`: a
/// prefix, then indexings, calls, member accesses and infix operators for
/// as long as they come.
pub fn parse_expression(ts: &mut TokenStream, min_bp: u8) -> (r: Result<Node<Expression>, ParsingError>)
    requires
        old(ts).wf(),
    ensures
        kept(*old(ts), *final(ts)),
        progressed(*old(ts), *final(ts)),
        r is Ok ==> old(ts).remaining() > 0,
        r is Ok ==> stops(final(ts).peek_kind_spec(), min_bp),
        atom_stop_at(old(ts).tokens(), old(ts).pos() + 1int, min_bp) ==> (r matches Ok(n) && prefix_result(
            old(ts).spec_peek().unwrap().0,
            old(ts).spec_peek().unwrap().1,
            n,
        ) && final(ts).pos() == old(ts).pos() + 1),
        pexpr(old(ts).tokens(), old(ts).pos() + 1int, min_bp) matches Some((sh, e)) ==> (r matches Ok(n)
            && matches_shape(n, old(ts).tokens(), sh) && final(ts).pos() + 1 == e),
        two_operands(old(ts).tokens(), old(ts).pos() + 1int, min_bp) ==> (r matches Ok(n) && simple_op_node(
            old(ts).tokens(),
            old(ts).pos() + 1int,
            n,
        ) && final(ts).pos() == old(ts).pos() + 3),
        three_right(old(ts).tokens(), old(ts).pos() + 1int, min_bp) ==> (r matches Ok(n) && (n.kind matches Expression::Binary {
            lhs,
            op,
            rhs,
        } && op == op_of(kind_at(old(ts).tokens(), old(ts).pos() + 2int)) && atom_node(
            old(ts).tokens(),
            old(ts).pos() + 1int,
            *lhs,
        ) && simple_op_node(old(ts).tokens(), old(ts).pos() + 3int, *rhs)) && final(ts).pos() == old(ts).pos()
            + 5),
        three_left(old(ts).tokens(), old(ts).pos() + 1int, min_bp) ==> (r matches Ok(n) && (n.kind matches Expression::Binary {
            lhs,
            op,
            rhs,
        } && op == op_of(kind_at(old(ts).tokens(), old(ts).pos() + 4int)) && simple_op_node(
            old(ts).tokens(),
            old(ts).pos() + 1int,
            *lhs,
        ) && atom_node(old(ts).tokens(), old(ts).pos() + 5int, *rhs)) && final(ts).pos() == old(ts).pos()
            + 5),
    decreases old(ts).remaining(), 8nat,
{
    let ghost entry = *ts;
    let mut lhs = match parse_prefix(ts) {
        Ok(e) => e,
        Err(e) => return Err(e),
    };
    let ghost first = lhs;
    let ghost tt = entry.tokens();
    let ghost whole = pexpr(tt, entry.pos() + 1int, min_bp);
    let ghost mut cur: ExprShape = ExprShape::Atom(0);
    proof {
        if whole is Some {
            cur = pprefix(tt, entry.pos() + 1int).unwrap().0;
        }
    }
    let mut going = true;
    while going
        invariant
            tt == entry.tokens(),
            whole == pexpr(tt, entry.pos() + 1int, min_bp),
            whole is Some ==> matches_shape(lhs, tt, cur) && ploop(tt, cur, ts.pos() + 1int, min_bp) == whole,
            whole is Some && !going ==> whole == Some((cur, ts.pos() + 1int)),
            kept(entry, *ts),
            progressed(entry, *ts),
            entry.remaining() > 0,
            entry == *old(ts),
            !going ==> stops(ts.peek_kind_spec(), min_bp),
            atom_stop_at(entry.tokens(), entry.pos() + 1int, min_bp) ==> lhs == first && ts.pos()
                == entry.pos() + 1,
            prefix_result(entry.spec_peek().unwrap().0, entry.spec_peek().unwrap().1, first),
            two_operands(entry.tokens(), entry.pos() + 1int, min_bp) ==> (ts.pos() == entry.pos() + 1
                && lhs == first && going) || (ts.pos() == entry.pos() + 3 && simple_op_node(
                entry.tokens(),
                entry.pos() + 1int,
                lhs,
            )),
            three_right(entry.tokens(), entry.pos() + 1int, min_bp) ==> (ts.pos() == entry.pos() + 1
                && lhs == first && going) || (ts.pos() == entry.pos() + 5 && (lhs.kind matches Expression::Binary {
                lhs: l,
                op,
                rhs,
            } && op == op_of(kind_at(entry.tokens(), entry.pos() + 2int)) && atom_node(
                entry.tokens(),
                entry.pos() + 1int,
                *l,
            ) && simple_op_node(entry.tokens(), entry.pos() + 3int, *rhs))),
            three_left(entry.tokens(), entry.pos() + 1int, min_bp) ==> (ts.pos() == entry.pos() + 1
                && lhs == first && going) || (ts.pos() == entry.pos() + 3 && going && simple_op_node(
                entry.tokens(),
                entry.pos() + 1int,
                lhs,
            )) || (ts.pos() == entry.pos() + 5 && (lhs.kind matches Expression::Binary {
                lhs: l,
                op,
                rhs,
            } && op == op_of(kind_at(entry.tokens(), entry.pos() + 4int)) && simple_op_node(
                entry.tokens(),
                entry.pos() + 1int,
                *l,
            ) && atom_node(entry.tokens(), entry.pos() + 5int, *rhs))),
        decreases ts.remaining(), if going { 1int } else { 0int },
    {
        let ghost before = ts.pos() + 1int;
        proof {
            if whole is Some {
                let k = kind_at(tt, before);
                if !stops(k, min_bp) {
                    assert(binary_kind(k) || k == Some(TokenKind::Eq));
                }
            }
        }
        let (l, grew) = match parse_postfix(ts, lhs) {
            Ok(res) => res,
            Err(e) => return Err(e),
        };
        if grew {
            lhs = l;
        } else {
            let (l2, grew2) = match parse_infix(ts, l, min_bp) {
                Ok(res) => res,
                Err(e) => return Err(e),
            };
            proof {
                if whole is Some && grew2 {
                    let k = kind_at(tt, before);
                    let rsh = pexpr(tt, before + 1, right_bp(k)).unwrap().0;
                    if binary_kind(k) {
                        cur = ExprShape::Binary(op_of(k), Box::new(cur), Box::new(rsh));
                    } else {
                        cur = ExprShape::Assign(cur->Atom_0, Box::new(rsh));
                    }
                }
            }
            lhs = l2;
            going = grew2;
        }
    }
    Ok(lhs)
}

/// What an expression starts with: a prefix operator, a literal, a name,
/// an array, `if`, `while`, or a parenthesis (a grouping, a tuple, or a
/// function's parameters).
fn parse_prefix(ts: &mut TokenStream) -> (r: Result<Node<Expression>, ParsingError>)
    requires
        old(ts).wf(),
    ensures
        kept(*old(ts), *final(ts)),
        progressed(*old(ts), *final(ts)),
        r is Ok ==> old(ts).remaining() > 0,
        r matches Ok(n) ==> prefix_result(old(ts).spec_peek().unwrap().0, old(ts).spec_peek().unwrap().1, n),
        old(ts).remaining() == 0 ==> (r matches Err(e) && e.message@ == "Unexpected end of input"@),
        old(ts).spec_peek() matches Some(t) && is_atom(t.0) ==> (r is Ok && final(ts).pos() == old(
            ts,
        ).pos() + 1),
        pprefix(old(ts).tokens(), old(ts).pos() + 1int) matches Some((sh, e)) ==> (r matches Ok(n)
            && matches_shape(n, old(ts).tokens(), sh) && final(ts).pos() + 1 == e),
        ({
            let toks = old(ts).tokens();
            let i = old(ts).pos() + 2int;
            kind_at(toks, i - 1) == Some(TokenKind::LParen) ==> (name_count(toks, i) matches Some(c) ==> (kind_at(
                toks,
                i + 2 * (c - 1) + 2,
            ) == Some(TokenKind::RArrow) ==> (r matches Ok(n) ==> params_are_names(toks, i, c, n.kind))))
        }),
    decreases old(ts).remaining(), 7nat,
{
    match ts.next() {
        Some((tok, span)) => match tok {
            Token::Minus => parse_prefix_unary(ts, span, UnaryOp::Neg),
            Token::Plus => parse_prefix_unary(ts, span, UnaryOp::Plus),
            Token::Bang => parse_prefix_unary(ts, span, UnaryOp::Not),
            Token::Not => parse_prefix_unary(ts, span, UnaryOp::Not),
            Token::Integer(i) => Ok(create_node(ts, span, Expression::Integer(i))),
            Token::Float(f) => Ok(create_node(ts, span, Expression::Float(f))),
            Token::DoubleQuotedString(s) => Ok(create_node(ts, span, Expression::String(s))),
            Token::SingleQuotedString(s) => Ok(create_node(ts, span, Expression::String(s))),
            Token::True => Ok(create_node(ts, span, Expression::Boolean(true))),
            Token::False => Ok(create_node(ts, span, Expression::Boolean(false))),
            Token::Identifier(name) => Ok(create_node(ts, span, Expression::Identifier(name))),
            Token::LBracket => parse_array(ts, span),
            Token::If => parse_conditional(ts),
            Token::While => parse_while(ts),
            Token::LParen => {
                let expr = match parse_paren_expr(ts, span) {
                    Ok(e) => e,
                    Err(e) => return Err(e),
                };
                proof {
                    let toks = old(ts).tokens();
                    let i = old(ts).pos() + 2int;
                    if name_count(toks, i) is Some {
                        lemma_name_count(toks, i);
                        let c = name_count(toks, i).unwrap() as int;
                        if c == 1 {
                            assert(toks[i + 2 * 0].0 is Identifier);
                            assert(pexpr(toks, i, 0) == Some((ExprShape::Atom(i), i + 1)));
                        }
                    }
                }
                if ts.peek_is(TokenKind::RArrow) {
                    let ghost params = expr;
                    let r = parse_lambda_after_paren(ts, expr, span);
                    proof {
                        let toks = old(ts).tokens();
                        let i = old(ts).pos() + 2int;
                        if name_count(toks, i) is Some && r is Ok {
                            lemma_name_count(toks, i);
                            let c = name_count(toks, i).unwrap() as int;
                            let f = r->Ok_0.kind;
                            assert(params_in_order(params.kind, f));
                            if c == 1 {
                                assert(matches_shape(params, toks, ExprShape::Atom(i)));
                                assert(params.kind matches Expression::Identifier(w) && w@ == token_bytes(toks[i].0));
                                assert(params_are_names(toks, i, 1, f));
                            } else {
                                let v = params.kind->Tuple_0;
                                assert forall|k: int| 0 <= k < c implies (#[trigger] f->signature.args@[k].kind matches Pattern::Identifier(
                                    w,
                                ) && w@ == token_bytes(toks[i + 2 * k].0)) by {
                                    assert(atom_node(toks, i + 2 * k, v@[k]));
                                    assert(toks[i + 2 * k].0 is Identifier);
                                    assert(pattern_matches(v@[k].kind, f->signature.args@[k].kind));
                                }
                            }
                        }
                    }
                    r
                } else {
                    Ok(expr)
                }
            },
            _ => Err(ParsingError::new("Unexpected token {:?} in prefix", Some(span))),
        },
        None => {
            proof {
                reveal_strlit("Unexpected end of input");
            }
            Err(ParsingError::new("Unexpected end of input", None))
        },
    }
}

fn parse_prefix_unary(ts: &mut TokenStream, op_span: Span, op: UnaryOp) -> (r: Result<
    Node<Expression>,
    ParsingError,
>)
    requires
        old(ts).wf(),
    ensures
        kept(*old(ts), *final(ts)),
        r matches Ok(n) ==> n.kind matches Expression::Unary { op: o, .. } && o == op,
        r matches Ok(n) ==> n.span.start == op_span.start,
        atom_stop_at(old(ts).tokens(), old(ts).pos() + 1int, PREFIX_BP) ==> (r matches Ok(n) && (n.kind matches Expression::Unary {
            expression,
            ..
        } && prefix_result(old(ts).spec_peek().unwrap().0, old(ts).spec_peek().unwrap().1, *expression))),
        pexpr(old(ts).tokens(), old(ts).pos() + 1int, PREFIX_BP) matches Some((sh, e)) ==> (r matches Ok(n)
            && (n.kind matches Expression::Unary { op: o, expression } && o == op && matches_shape(
            *expression,
            old(ts).tokens(),
            sh,
        )) && final(ts).pos() + 1 == e),
    decreases old(ts).remaining(), 10nat,
{
    let rhs = match parse_expression(ts, PREFIX_BP) {
        Ok(e) => e,
        Err(e) => return Err(e),
    };
    let span = span_from_to(op_span, rhs.span);
    Ok(create_node(ts, span, Expression::Unary { op, expression: Box::new(rhs) }))
}

/// An indexing `[..]`, a call `(..)` or a member access `.name` after
/// `lhs`; the flag says whether one was there (and `lhs` is handed back
/// unchanged when not).
fn parse_postfix(ts: &mut TokenStream, lhs: Node<Expression>) -> (r: Result<
    (Node<Expression>, bool),
    ParsingError,
>)
    requires
        old(ts).wf(),
    ensures
        kept(*old(ts), *final(ts)),
        r matches Ok(res) ==> (if res.1 {
            final(ts).remaining() < old(ts).remaining()
        } else {
            final(ts).pos() == old(ts).pos() && res.0 == lhs
        }),
        r matches Ok(res) ==> (if res.1 {
            match old(ts).peek_kind_spec() {
                Some(TokenKind::LBracket) => res.0.kind matches Expression::Index { target, .. } && *target == lhs,
                Some(TokenKind::LParen) => res.0.kind matches Expression::FunctionCall { callee, .. } && *callee == lhs,
                Some(TokenKind::Dot) => res.0.kind matches Expression::Member { target, .. } && *target == lhs,
                _ => false,
            }
        } else {
            !(old(ts).peek_kind_spec() matches Some(k) && is_postfix(k))
        }),
        !(old(ts).peek_kind_spec() matches Some(k) && is_postfix(k)) ==> (r matches Ok(res)
            && !res.1),
        old(ts).peek_kind_spec() == Some(TokenKind::Dot) ==> (kind_at(
            old(ts).tokens(),
            old(ts).pos() + 2int,
        ) == Some(TokenKind::Identifier) <==> r is Ok),
        old(ts).peek_kind_spec() == Some(TokenKind::Dot) && kind_at(old(ts).tokens(), old(ts).pos() + 2int)
            != Some(TokenKind::Identifier) ==> (r matches Err(e) && e.message@
            == "Expected member name after '.'"@),
        old(ts).peek_kind_spec() == Some(TokenKind::LParen) && kind_at(
            old(ts).tokens(),
            old(ts).pos() + 2int,
        ) == Some(TokenKind::RParen) ==> (r matches Ok(res) && res.1 && (res.0.kind matches Expression::FunctionCall {
            arguments,
            ..
        } && arguments@.len() == 0)),
        ({
            let toks = old(ts).tokens();
            let p = old(ts).pos() as int;
            let args = pargs(toks, p + 2);
            old(ts).peek_kind_spec() == Some(TokenKind::LParen) && kind_at(toks, p + 2) != Some(TokenKind::RParen)
                && args is Some ==> (r matches Ok(res) && res.1 && final(ts).pos() == args.unwrap().1
                && res.0.span == (Span { start: lhs.span.start, end: toks[args.unwrap().1].1.end })
                && (res.0.kind matches Expression::FunctionCall { callee, arguments } && *callee == lhs
                && arguments@.len() == args.unwrap().0.len() && forall|a: int|
                0 <= a < arguments@.len() ==> matches_shape(
                #[trigger] arguments@[a],
                toks,
                args.unwrap().0[a],
            )))
        }),
    decreases old(ts).remaining(), 6nat,
{
    match ts.peek_kind() {
        Some(TokenKind::LBracket) => {
            ts.next();
            let index = match parse_expression(ts, 0) {
                Ok(e) => e,
                Err(e) => return Err(e),
            };
            let end_span = match ts.next() {
                Some((Token::RBracket, sp)) => sp,
                Some((_, sp)) => return Err(ParsingError::new("Expected ']'", Some(sp))),
                None => return Err(ParsingError::new("Unexpected EOF", None)),
            };
            let span = span_from_to(lhs.span, end_span);
            let node = create_node(
                ts,
                span,
                Expression::Index { target: Box::new(lhs), index: Box::new(index) },
            );
            Ok((node, true))
        },
        Some(TokenKind::LParen) => {
            ts.next();
            let mut args: Vec<Node<Expression>> = Vec::new();
            let ghost tt = old(ts).tokens();
            let ghost full = pargs(tt, old(ts).pos() + 2int);
            let ghost mut done: Seq<ExprShape> = seq![];
            proof {
                assert(done + pargs(tt, ts.pos() + 1int).unwrap().0 =~= pargs(tt, ts.pos() + 1int).unwrap().0);
            }
            if !ts.peek_is(TokenKind::RParen) {
                loop
                    invariant_except_break
                        full is Some ==> args@.len() == done.len() && (forall|a: int|
                            0 <= a < args@.len() ==> matches_shape(#[trigger] args@[a], tt, done[a]))
                            && pargs(tt, ts.pos() + 1int) is Some && full == Some((
                            done + pargs(tt, ts.pos() + 1int).unwrap().0,
                            pargs(tt, ts.pos() + 1int).unwrap().1,
                        )),
                    invariant
                        kept(*old(ts), *ts),
                        tt == old(ts).tokens(),
                        full == pargs(tt, old(ts).pos() + 2int),
                        ts.remaining() < old(ts).remaining(),
                        old(ts).peek_kind_spec() == Some(TokenKind::LParen),
                        kind_at(old(ts).tokens(), old(ts).pos() + 2int) != Some(TokenKind::RParen),
                    ensures
                        full is Some ==> args@.len() == full.unwrap().0.len() && (forall|a: int|
                            0 <= a < args@.len() ==> matches_shape(
                                #[trigger] args@[a],
                                tt,
                                full.unwrap().0[a],
                            )) && ts.pos() + 1 == full.unwrap().1,
                    decreases ts.remaining(),
                {
                    let ghost at = ts.pos() + 1int;
                    let ghost rest = pargs(tt, at);
                    proof {
                        if full is Some {
                            assert(pexpr(tt, at, 0) is Some);
                            let e = pexpr(tt, at, 0).unwrap().1;
                            assert(kind_at(tt, e) == Some(TokenKind::Comma) || kind_at(tt, e) == Some(TokenKind::RParen));
                        }
                    }
                    let arg = match parse_expression(ts, 0) {
                        Ok(e) => e,
                        Err(e) => return Err(e),
                    };
                    let ghost argv = args@;
                    args.push(arg);
                    proof {
                        if full is Some {
                            let sh = pexpr(tt, at, 0).unwrap().0;
                            assert forall|a: int| 0 <= a < args@.len() implies matches_shape(
                                #[trigger] args@[a],
                                tt,
                                done.push(sh)[a],
                            ) by {
                                if a < argv.len() {
                                    assert(args@[a] == argv[a]);
                                }
                            }
                            let e = pexpr(tt, at, 0).unwrap().1;
                            if kind_at(tt, e) == Some(TokenKind::Comma) {
                                assert(done + rest.unwrap().0 =~= done.push(sh) + pargs(tt, e + 1).unwrap().0);
                            } else {
                                assert(done + rest.unwrap().0 =~= done.push(sh));
                            }
                            done = done.push(sh);
                        }
                    }
                    match ts.peek_kind() {
                        Some(TokenKind::Comma) => {
                            ts.next();
                        },
                        Some(TokenKind::RParen) => break,
                        Some(_) => {
                            let sp = ts.peek_span();
                            return Err(ParsingError::new("Expected ',' or ')'", sp));
                        },
                        None => return Err(ParsingError::new("Unexpected EOF in function call", None)),
                    }
                }
            }
            proof {
                if full is Some && kind_at(tt, old(ts).pos() + 2int) != Some(TokenKind::RParen) {
                    lemma_pargs_end(tt, old(ts).pos() + 2int);
                }
            }
            let end_span = match ts.next() {
                Some((Token::RParen, sp)) => sp,
                Some((_, sp)) => return Err(ParsingError::new("Expected ')'", Some(sp))),
                None => return Err(ParsingError::new("Unexpected EOF in function call", None)),
            };
            let span = span_from_to(lhs.span, end_span);
            let node = create_node(
                ts,
                span,
                Expression::FunctionCall { callee: Box::new(lhs), arguments: args },
            );
            Ok((node, true))
        },
        Some(TokenKind::Dot) => {
            ts.next();
            match ts.next() {
                Some((Token::Identifier(name), sp)) => {
                    let span = span_from_to(lhs.span, sp);
                    let node = create_node(
                        ts,
                        span,
                        Expression::Member { target: Box::new(lhs), name },
                    );
                    Ok((node, true))
                },
                Some((_, sp)) => Err(ParsingError::new("Expected member name after '.'", Some(sp))),
                None => Err(ParsingError::new("Expected member name after '.'", None)),
            }
        },
        _ => Ok((lhs, false)),
    }
}

/// An infix operator after `lhs` that binds at least as tightly as
/// `min_bp`, with its right operand; `=` and `OP=` turn `lhs` into an
/// assignment target.
fn parse_infix(ts: &mut TokenStream, lhs: Node<Expression>, min_bp: u8) -> (r: Result<
    (Node<Expression>, bool),
    ParsingError,
>)
    requires
        old(ts).wf(),
    ensures
        kept(*old(ts), *final(ts)),
        r matches Ok(res) ==> (if res.1 {
            final(ts).remaining() < old(ts).remaining()
        } else {
            final(ts).pos() == old(ts).pos() && res.0 == lhs
        }),
        r matches Ok(res) ==> (if res.1 {
            old(ts).peek_kind_spec() matches Some(k) && infix_power(k) matches Some(p) && p.0 >= min_bp
                && infix_node(k, p.2, lhs, res.0)
        } else {
            match old(ts).peek_kind_spec() {
                Some(k) => match infix_power(k) {
                    Some(p) => p.0 < min_bp,
                    None => true,
                },
                None => true,
            }
        }),
        stops(old(ts).peek_kind_spec(), min_bp) ==> (r matches Ok(res) && !res.1),
        ({
            let toks = old(ts).tokens();
            let p = old(ts).pos() as int;
            let k = kind_at(toks, p + 1);
            binary_kind(k) && left_bp(k) >= min_bp && pexpr(toks, p + 2, right_bp(k)) is Some ==> (r matches Ok(
                res,
            ) && res.1 && final(ts).pos() + 1 == pexpr(toks, p + 2, right_bp(k)).unwrap().1 && (res.0.kind matches Expression::Binary {
                lhs: l,
                op,
                rhs,
            } && *l == lhs && op == op_of(k) && matches_shape(*rhs, toks, pexpr(toks, p + 2, right_bp(k)).unwrap().0)))
        }),
        ({
            let toks = old(ts).tokens();
            let p = old(ts).pos() as int;
            let k = kind_at(toks, p + 1);
            binary_kind(k) && left_bp(k) >= min_bp && atom_stop_at(toks, p + 2, right_bp(k)) ==> (r matches Ok(
                res,
            ) && res.1 && final(ts).pos() == p + 2 && (res.0.kind matches Expression::Binary {
                lhs: l,
                op,
                rhs,
            } && *l == lhs && op == op_of(k) && atom_node(toks, p + 2, *rhs)))
        }),
        ({
            let toks = old(ts).tokens();
            let p = old(ts).pos() as int;
            let k1 = kind_at(toks, p + 1);
            let k2 = kind_at(toks, p + 3);
            binary_kind(k1) && left_bp(k1) >= min_bp && 0 <= p + 2 < toks.len() && is_atom(toks[p + 2].0)
                && binary_kind(k2) && left_bp(k2) >= right_bp(k1) && atom_stop_at(toks, p + 4, right_bp(k2))
                && stops(kind_at(toks, p + 5), right_bp(k1)) ==> (r matches Ok(res) && res.1 && final(ts).pos()
                == p + 4 && (res.0.kind matches Expression::Binary { lhs: l, op, rhs } && *l == lhs && op
                == op_of(k1) && simple_op_node(toks, p + 2, *rhs)))
        }),
        ({
            let toks = old(ts).tokens();
            let p = old(ts).pos() as int;
            kind_at(toks, p + 1) == Some(TokenKind::Eq) && 1 >= min_bp && lhs.kind is Identifier ==> (pexpr(
                toks,
                p + 2,
                0,
            ) matches Some((sh, e)) ==> (r matches Ok(res) && res.1 && final(ts).pos() + 1 == e && (res.0.kind matches Expression::Assignment {
                lhs: pat,
                rhs,
            } && (pat.kind matches Pattern::Identifier(name) && name@ == lhs.kind->Identifier_0@)
                && matches_shape(*rhs, toks, sh))))
        }),
    decreases old(ts).remaining(), 6nat,
{
    let k = match ts.peek_kind() {
        Some(k) => k,
        None => return Ok((lhs, false)),
    };
    let (left_bp, right_bp, op) = match infix_binding_power(k) {
        Some(info) => info,
        None => return Ok((lhs, false)),
    };
    if left_bp < min_bp {
        return Ok((lhs, false));
    }
    ts.next();
    let rhs = match parse_expression(ts, right_bp) {
        Ok(e) => e,
        Err(e) => return Err(e),
    };
    let span = span_from_to_node(&lhs, &rhs);
    let compound = k == TokenKind::PlusEq || k == TokenKind::MinusEq || k == TokenKind::StarEq
        || k == TokenKind::SlashEq || k == TokenKind::PercentEq;
    if op == BinaryOp::Assign || compound {
        let pattern = match lhs.into_pattern() {
            Ok(p) => p,
            Err(e) => return Err(e),
        };
        let kind = if compound {
            Expression::CompoundAssignment { lhs: pattern, op, rhs: Box::new(rhs) }
        } else {
            Expression::Assignment { lhs: pattern, rhs: Box::new(rhs) }
        };
        Ok((create_node(ts, span, kind), true))
    } else {
        let node = create_node(
            ts,
            span,
            Expression::Binary { lhs: Box::new(lhs), op, rhs: Box::new(rhs) },
        );
        Ok((node, true))
    }
}

/// The statements of a block from position `i` on (just after its
/// `Indent`) when each is an expression of the binding-power fragment
/// (see [`pexpr`]) that ends its line: the shape of each, in order, and the
/// position of the `Dedent` that closes the block. `None` when some
/// statement is not of that kind, or the tokens end first.
pub open spec fn block_lines(toks: Seq<(Token, Span)>, i: int) -> Option<(Seq<ExprShape>, int)>
    decreases toks.len() - i,
{
    let q = significant_index(toks, i);
    if i < 0 || q >= toks.len() {
        None
    } else if toks[q].0 is Dedent {
        Some((seq![], q))
    } else {
        match pexpr(toks, q, 0) {
            Some((sh, e)) => {
                let n = significant_index(toks, e);
                if at_statement_end(toks, e) && i < n <= toks.len() {
                    match block_lines(toks, n) {
                        Some((rest, d)) => Some((seq![sh] + rest, d)),
                        None => None,
                    }
                } else {
                    None
                }
            },
            None => None,
        }
    }
}

/// The block node `n` holds the expression lines `shapes` (at least one):
/// all but the last as its statements, the last as its value.
pub open spec fn block_holds(n: Node<Expression>, toks: Seq<(Token, Span)>, shapes: Seq<ExprShape>) -> bool {
    n.kind matches Expression::Block { statements, final_expr } && {
        &&& statements@.len() + 1 == shapes.len()
        &&& forall|k: int|
            0 <= k < statements@.len() ==> (#[trigger] statements@[k] matches Statement::Expression(x)
                && matches_shape(x, toks, shapes[k]))
        &&& final_expr matches Some(f) && matches_shape(*f, toks, shapes.last())
    }
}

/// An indented block: its statements, the last one taken as the block's
/// value when it is an expression.
fn parse_block(ts: &mut TokenStream) -> (r: Result<Node<Expression>, ParsingError>)
    requires
        old(ts).wf(),
    ensures
        kept(*old(ts), *final(ts)),
        r matches Ok(n) ==> n.kind is Block,
        r matches Ok(n) ==> (n.kind matches Expression::Block { statements, final_expr } && (
        final_expr is None ==> statements@.len() == 0 || !(statements@.last() is Expression))),
        first_significant(old(ts).tokens(), old(ts).pos() + 1int) != Some(TokenKind::Indent) ==> r is Err,
        kind_at(old(ts).tokens(), old(ts).pos() + 1int) == Some(TokenKind::Indent) && first_significant(
            old(ts).tokens(),
            old(ts).pos() + 2int,
        ) == Some(TokenKind::Dedent) ==> (r matches Ok(n) && (n.kind matches Expression::Block {
            statements,
            final_expr,
        } && statements@.len() == 0 && final_expr is None)),
        ({
            let toks = old(ts).tokens();
            let b = significant_index(toks, old(ts).pos() + 1int);
            kind_at(toks, b) == Some(TokenKind::Indent) ==> (block_lines(toks, b + 1) matches Some((shapes, d)) ==> (
            shapes.len() > 0 ==> (r matches Ok(n) && block_holds(n, toks, shapes) && n.span == (Span {
                start: toks[b].1.start,
                end: toks[d].1.end,
            }) && final(ts).pos() == d)))
        }),
    decreases old(ts).remaining(), 10nat,
{
    let ghost empty_block = kind_at(old(ts).tokens(), old(ts).pos() + 1int) == Some(TokenKind::Indent)
        && first_significant(old(ts).tokens(), old(ts).pos() + 2int) == Some(TokenKind::Dedent);
    ts.skip_newlines();
    proof {
        lemma_skip_newlines(ts.tokens(), old(ts).pos() as int, ts.pos() as int);
        if empty_block && ts.pos() > old(ts).pos() {
            assert(ts.tokens()[old(ts).pos() + 1int].0 is Newline);
        }
    }
    let start_span = match ts.expect(TokenKind::Indent) {
        Ok((_, sp)) => sp,
        Err(e) => return Err(e),
    };
    let ghost toks = ts.tokens();
    assert(ts.pos() == significant_index(toks, old(ts).pos() + 1int));
    let ghost all = block_lines(toks, ts.pos() + 1int);
    let ghost mut done: Seq<ExprShape> = seq![];
    proof {
        if all is Some {
            assert(done + all.unwrap().0 =~= all.unwrap().0);
        }
    }
    let mut statements: Vec<Statement> = Vec::new();
    let mut end_span = start_span;
    let mut open = true;
    while open
        invariant
            kept(*old(ts), *ts),
            toks == ts.tokens(),
            toks == old(ts).tokens(),
            all == block_lines(toks, significant_index(toks, old(ts).pos() + 1int) + 1),
            0 <= significant_index(toks, old(ts).pos() + 1int) < toks.len(),
            start_span == toks[significant_index(toks, old(ts).pos() + 1int)].1,
            all matches Some((shapes, d)) ==> {
                &&& statements@.len() == done.len()
                &&& forall|k: int|
                    0 <= k < done.len() ==> (#[trigger] statements@[k] matches Statement::Expression(x)
                        && matches_shape(x, toks, done[k]))
                &&& open ==> (block_lines(toks, ts.pos() + 1int) matches Some((rest, d2)) && d2 == d
                    && shapes == done + rest)
                &&& !open ==> shapes == done && ts.pos() == d && end_span == toks[d].1
            },
            ts.remaining() < old(ts).remaining(),
            empty_block ==> statements@.len() == 0 && (open ==> ts.pos() == old(ts).pos() + 1),
            empty_block == (kind_at(old(ts).tokens(), old(ts).pos() + 1int) == Some(TokenKind::Indent)
                && first_significant(old(ts).tokens(), old(ts).pos() + 2int) == Some(TokenKind::Dedent)),
        decreases ts.remaining(), if open { 1int } else { 0int },
    {
        let ghost before = ts.pos();
        ts.skip_newlines();
        proof {
            lemma_skip_newlines(ts.tokens(), before as int, ts.pos() as int);
        }
        match ts.peek_kind() {
            Some(TokenKind::Dedent) => {
                let sp = ts.peek_span();
                ts.next();
                match sp {
                    Some(s) => end_span = s,
                    None => {},
                }
                open = false;
            },
            None => {
                return Err(ParsingError::new("Unexpected EOF", None));
            },
            Some(_) => {
                let ghost stmts0 = statements@;
                let ghost at = ts.pos() + 1int;
                proof {
                    lemma_skip_newlines(ts.tokens(), ts.pos() as int, ts.pos() as int);
                }
                let stmt = match parse_statement(ts) {
                    Ok(s) => s,
                    Err(e) => return Err(e),
                };
                statements.push(stmt);
                proof {
                    if all is Some {
                        let (sh, e) = pexpr(toks, at, 0).unwrap();
                        let rest = block_lines(toks, significant_index(toks, e)).unwrap().0;
                        assert(done + block_lines(toks, at).unwrap().0 =~= done.push(sh) + rest);
                        assert forall|k: int|
                            0 <= k < done.len() + 1 implies (#[trigger] statements@[k] matches Statement::Expression(x)
                                && matches_shape(x, toks, done.push(sh)[k])) by {
                            if k < done.len() {
                                assert(statements@[k] == stmts0[k]);
                            }
                        }
                        done = done.push(sh);
                    }
                }
            },
        }
    }
    let ghost full = statements@;
    let final_expr = match statements.pop() {
        Some(Statement::Expression(e)) => Some(Box::new(e)),
        Some(other) => {
            statements.push(other);
            None
        },
        None => None,
    };
    let span = span_from_to(start_span, end_span);
    proof {
        if all is Some {
            let shapes = all.unwrap().0;
            if shapes.len() > 0 {
                assert forall|k: int| 0 <= k < statements@.len() implies (#[trigger] statements@[k] matches Statement::Expression(x)
                    && matches_shape(x, toks, shapes[k])) by {
                    assert(statements@[k] == full[k]);
                }
            }
        }
    }
    Ok(create_node(ts, span, Expression::Block { statements, final_expr }))
}

/// `CONDITION then VALUE`, with an optional `else VALUE` on a later line
/// too, from position `p` on, where each part is an expression of the
/// binding-power fragment (see [`pexpr`]): the shapes of the parts.
pub open spec fn then_else_parts(toks: Seq<(Token, Span)>, p: int) -> Option<(ExprShape, ExprShape, Option<ExprShape>)> {
    match pexpr(toks, p, 0) {
        Some((sc, e1)) => if kind_at(toks, e1) == Some(TokenKind::Then) {
            match pexpr(toks, e1 + 1, 0) {
                Some((sa, e2)) => {
                    let q = significant_index(toks, e2);
                    if kind_at(toks, q) == Some(TokenKind::Else) {
                        if kind_at(toks, q + 1) == Some(TokenKind::Indent) || kind_at(toks, q + 1) == Some(
                            TokenKind::Newline,
                        ) {
                            None
                        } else {
                            match pexpr(toks, q + 1, 0) {
                                Some((sb, _e3)) => Some((sc, sa, Some(sb))),
                                None => None,
                            }
                        }
                    } else {
                        Some((sc, sa, None))
                    }
                },
                None => None,
            }
        } else {
            None
        },
        None => None,
    }
}

/// Node `n` is the conditional of the parts `sc`, `sa` and `sb`.
pub open spec fn conditional_holds(
    n: Node<Expression>,
    toks: Seq<(Token, Span)>,
    sc: ExprShape,
    sa: ExprShape,
    sb: Option<ExprShape>,
) -> bool {
    n.kind matches Expression::Conditional { condition, then_branch, else_branch } && {
        &&& matches_shape(*condition, toks, sc)
        &&& matches_shape(*then_branch, toks, sa)
        &&& match sb {
            Some(b) => else_branch matches Some(x) && matches_shape(*x, toks, b),
            None => else_branch is None,
        }
    }
}

/// `if CONDITION` then a block, or `then` and an expression; then an
/// optional `else` (on a later line too) with a block or an expression.
fn parse_conditional(ts: &mut TokenStream) -> (r: Result<Node<Expression>, ParsingError>)
    requires
        old(ts).wf(),
    ensures
        kept(*old(ts), *final(ts)),
        r matches Ok(n) ==> n.kind is Conditional,
        atom_stop_at(old(ts).tokens(), old(ts).pos() + 1int, 0) && kind_at(
            old(ts).tokens(),
            old(ts).pos() + 2int,
        ) == Some(TokenKind::Then) && atom_stop_at(old(ts).tokens(), old(ts).pos() + 3int, 0)
            && first_significant(old(ts).tokens(), old(ts).pos() + 4int) != Some(TokenKind::Else) ==> (
        r matches Ok(n) && (n.kind matches Expression::Conditional { else_branch, .. }
            && else_branch is None)),
        then_else_parts(old(ts).tokens(), old(ts).pos() + 1int) matches Some((sc, sa, sb)) ==> (r matches Ok(
            n,
        ) && conditional_holds(n, old(ts).tokens(), sc, sa, sb)),
    decreases old(ts).remaining(), 10nat,
{
    let condition = match parse_expression(ts, 0) {
        Ok(e) => e,
        Err(e) => return Err(e),
    };
    let then_branch = if ts.peek_is(TokenKind::Then) {
        ts.next();
        match parse_expression(ts, 0) {
            Ok(e) => e,
            Err(e) => return Err(e),
        }
    } else {
        match parse_block(ts) {
            Ok(e) => e,
            Err(e) => return Err(e),
        }
    };
    ts.save_pos();
    let ghost before = ts.pos();
    ts.skip_newlines();
    proof {
        lemma_skip_newlines(ts.tokens(), before as int, ts.pos() as int);
    }
    let else_branch = if ts.peek_is(TokenKind::Else) {
        ts.next();
        if ts.peek_is(TokenKind::Indent) || ts.peek_is(TokenKind::Newline) {
            match parse_block(ts) {
                Ok(e) => Some(Box::new(e)),
                Err(e) => return Err(e),
            }
        } else {
            match parse_expression(ts, 0) {
                Ok(e) => Some(Box::new(e)),
                Err(e) => return Err(e),
            }
        }
    } else {
        ts.backtrack();
        None
    };
    let span = match &else_branch {
        Some(e) => span_from_to_node(&condition, &**e),
        None => span_from_to_node(&condition, &then_branch),
    };
    Ok(
        create_node(
            ts,
            span,
            Expression::Conditional {
                condition: Box::new(condition),
                then_branch: Box::new(then_branch),
                else_branch,
            },
        ),
    )
}

/// `while CONDITION` and a block.
fn parse_while(ts: &mut TokenStream) -> (r: Result<Node<Expression>, ParsingError>)
    requires
        old(ts).wf(),
    ensures
        kept(*old(ts), *final(ts)),
        r matches Ok(n) ==> n.kind is While,
        atom_stop_at(old(ts).tokens(), old(ts).pos() + 1int, 0) && kind_at(
            old(ts).tokens(),
            old(ts).pos() + 2int,
        ) == Some(TokenKind::Indent) && first_significant(old(ts).tokens(), old(ts).pos() + 3int)
            == Some(TokenKind::Dedent) ==> r is Ok,
    decreases old(ts).remaining(), 10nat,
{
    let condition = match parse_expression(ts, 0) {
        Ok(e) => e,
        Err(e) => return Err(e),
    };
    let body = match parse_block(ts) {
        Ok(e) => e,
        Err(e) => return Err(e),
    };
    let span = span_from_to_node(&condition, &body);
    Ok(create_node(ts, span, Expression::While { condition: Box::new(condition), body: Box::new(body) }))
}

/// The elements of an array literal from position `i` on (just after its
/// `[`), each an expression of the binding-power fragment (see [`pexpr`]),
/// separated by commas, with line ends allowed before an element or the
/// closing `]`, and a comma allowed before it: the shape of each element,
/// in order, and the position of the `]`.
pub open spec fn parray(toks: Seq<(Token, Span)>, i: int) -> Option<(Seq<ExprShape>, int)>
    decreases toks.len() - i,
{
    let q = significant_index(toks, i);
    if i < 0 || i > q {
        None
    } else if kind_at(toks, q) == Some(TokenKind::RBracket) {
        Some((seq![], q))
    } else {
        match pexpr(toks, q, 0) {
            Some((sh, e)) => if q < e && kind_at(toks, e) == Some(TokenKind::Comma) {
                match parray(toks, e + 1) {
                    Some((rest, end)) => Some((seq![sh] + rest, end)),
                    None => None,
                }
            } else if q < e && kind_at(toks, e) == Some(TokenKind::RBracket) {
                Some((seq![sh], e))
            } else {
                None
            },
            None => None,
        }
    }
}

/// The elements of an array literal after `[`, up to `]`; line ends
/// between elements are passed over.
fn parse_array(ts: &mut TokenStream, start_span: Span) -> (r: Result<Node<Expression>, ParsingError>)
    requires
        old(ts).wf(),
    ensures
        kept(*old(ts), *final(ts)),
        r matches Ok(n) ==> n.kind is Array,
        first_significant(old(ts).tokens(), old(ts).pos() + 1int) == Some(TokenKind::RBracket) ==> (
        r matches Ok(n) && (n.kind matches Expression::Array(v) && v@.len() == 0)),
        first_significant(old(ts).tokens(), old(ts).pos() + 1int) is None ==> (r matches Err(e)
            && e.message@ == "Unexpected EOF in array"@),
        parray(old(ts).tokens(), old(ts).pos() + 1int) matches Some((shapes, end)) ==> (r matches Ok(n) && (
        n.kind matches Expression::Array(v) && v@.len() == shapes.len() && forall|k: int|
            0 <= k < shapes.len() ==> matches_shape(#[trigger] v@[k], old(ts).tokens(), shapes[k]))
            && final(ts).pos() == end),
    decreases old(ts).remaining(), 10nat,
{
    let mut elements: Vec<Node<Expression>> = Vec::new();
    let ghost toks = old(ts).tokens();
    let ghost full = parray(toks, old(ts).pos() + 1int);
    let ghost mut done: Seq<ExprShape> = seq![];
    proof {
        if full is Some {
            assert(done + full.unwrap().0 =~= full.unwrap().0);
        }
    }
    loop
        invariant
            kept(*old(ts), *ts),
            toks == old(ts).tokens(),
            full == parray(toks, old(ts).pos() + 1int),
            full is Some ==> (parray(toks, ts.pos() + 1int) matches Some((rest, end)) && end == full.unwrap().1
                && full.unwrap().0 == done + rest && elements@.len() == done.len() && forall|k: int|
                0 <= k < done.len() ==> matches_shape(#[trigger] elements@[k], toks, done[k])),
            first_significant(old(ts).tokens(), old(ts).pos() + 1int) == Some(TokenKind::RBracket)
                || first_significant(old(ts).tokens(), old(ts).pos() + 1int) is None ==> elements@.len()
                == 0 && ts.pos() == old(ts).pos(),
        decreases ts.remaining(),
    {
        let ghost before = ts.pos();
        ts.skip_newlines();
        proof {
            lemma_skip_newlines(ts.tokens(), before as int, ts.pos() as int);
        }
        match ts.peek_kind() {
            Some(TokenKind::RBracket) => {
                let end_span = match ts.next() {
                    Some((_, sp)) => sp,
                    None => start_span,
                };
                let span = span_from_to(start_span, end_span);
                return Ok(create_node(ts, span, Expression::Array(elements)));
            },
            None => return Err(ParsingError::new("Unexpected EOF in array", None)),
            Some(_) => {
                let ghost at = ts.pos() + 1int;
                let ghost els0 = elements@;
                let e = match parse_expression(ts, 0) {
                    Ok(e) => e,
                    Err(e) => return Err(e),
                };
                elements.push(e);
                proof {
                    if full is Some {
                        let (sh, ee) = pexpr(toks, at, 0).unwrap();
                        assert forall|k: int| 0 <= k < done.len() + 1 implies matches_shape(
                            #[trigger] elements@[k],
                            toks,
                            done.push(sh)[k],
                        ) by {
                            if k < done.len() {
                                assert(elements@[k] == els0[k]);
                            }
                        }
                        if kind_at(toks, ee) == Some(TokenKind::Comma) {
                            let rest = parray(toks, ee + 1).unwrap().0;
                            assert(full.unwrap().0 =~= done.push(sh) + rest);
                        } else {
                            assert(full.unwrap().0 =~= done.push(sh));
                            assert(parray(toks, ee) == Some((Seq::<ExprShape>::empty(), ee)));
                            assert(full.unwrap().0 =~= done.push(sh) + Seq::<ExprShape>::empty());
                        }
                        done = done.push(sh);
                    }
                }
                match ts.peek_kind() {
                    Some(TokenKind::Comma) => {
                        ts.next();
                    },
                    Some(TokenKind::RBracket) => {},
                    Some(_) => {
                        let sp = ts.peek_span();
                        return Err(ParsingError::new("Expected ',' or ']'", sp));
                    },
                    None => return Err(ParsingError::new("Unexpected EOF in array", None)),
                }
            },
        }
    }
}

/// How many names, separated by commas and closed by `)`, stand from
/// position `i` on: `a, b, c)` holds three.
pub open spec fn name_count(toks: Seq<(Token, Span)>, i: int) -> Option<nat>
    decreases toks.len() - i,
{
    if 0 <= i < toks.len() && toks[i].0 is Identifier {
        if kind_at(toks, i + 1) == Some(TokenKind::Comma) {
            match name_count(toks, i + 2) {
                Some(n) => Some(n + 1),
                None => None,
            }
        } else if kind_at(toks, i + 1) == Some(TokenKind::RParen) {
            Some(1)
        } else {
            None
        }
    } else {
        None
    }
}

/// The names that [`name_count`] counts: the `j`-th lies at `i + 2 j`,
/// each but the last is followed by a comma, and the last by `)`.
pub proof fn lemma_name_count(toks: Seq<(Token, Span)>, i: int)
    requires
        name_count(toks, i) is Some,
    ensures
        ({
            let n = name_count(toks, i).unwrap() as int;
            &&& n >= 1
            &&& forall|j: int| 0 <= j < n ==> 0 <= #[trigger] (i + 2 * j) < toks.len() && toks[i + 2 * j].0 is Identifier
            &&& forall|j: int| 0 <= j < n - 1 ==> kind_at(toks, #[trigger] (i + 2 * j + 1)) == Some(TokenKind::Comma)
            &&& kind_at(toks, i + 2 * (n - 1) + 1) == Some(TokenKind::RParen)
        }),
    decreases toks.len() - i,
{
    if kind_at(toks, i + 1) == Some(TokenKind::Comma) {
        lemma_name_count(toks, i + 2);
        let n = name_count(toks, i).unwrap() as int;
        assert forall|j: int| 0 <= j < n implies 0 <= #[trigger] (i + 2 * j) < toks.len() && toks[i + 2 * j].0 is Identifier by {
            if j > 0 {
                assert(i + 2 * j == (i + 2) + 2 * (j - 1));
            }
        }
        assert forall|j: int| 0 <= j < n - 1 implies kind_at(toks, #[trigger] (i + 2 * j + 1)) == Some(TokenKind::Comma) by {
            if j > 0 {
                assert(i + 2 * j + 1 == (i + 2) + 2 * (j - 1) + 1);
            }
        }
        assert(i + 2 * (n - 1) + 1 == (i + 2) + 2 * (n - 2) + 1);
    }
}

/// The parameter list of function `f` is the names that stand at positions
/// `i`, `i + 2`, ... (see [`name_count`]), in that order.
pub open spec fn params_are_names(toks: Seq<(Token, Span)>, i: int, n: nat, f: Expression) -> bool {
    f matches Expression::Function { signature, .. } && signature.args@.len() == n && forall|k: int|
        0 <= k < n ==> (#[trigger] signature.args@[k].kind matches Pattern::Identifier(w) && w@ == token_bytes(
            toks[i + 2 * k].0,
        ))
}

/// What follows `(`: `)` alone is the empty tuple, one expression is a
/// grouping, several separated by commas a tuple.
fn parse_paren_expr(ts: &mut TokenStream, start_span: Span) -> (r: Result<Node<Expression>, ParsingError>)
    requires
        old(ts).wf(),
    ensures
        kept(*old(ts), *final(ts)),
        old(ts).peek_kind_spec() == Some(TokenKind::RParen) ==> (r matches Ok(n) && (n.kind matches Expression::Tuple(
            v,
        ) && v@.len() == 0)),
        atom_stop_at(old(ts).tokens(), old(ts).pos() + 1int, 0) && kind_at(
            old(ts).tokens(),
            old(ts).pos() + 2int,
        ) == Some(TokenKind::RParen) ==> (r matches Ok(n) && prefix_result(
            old(ts).spec_peek().unwrap().0,
            old(ts).spec_peek().unwrap().1,
            n,
        )),
        pexpr(old(ts).tokens(), old(ts).pos() + 1int, 0) is Some && kind_at(
            old(ts).tokens(),
            pexpr(old(ts).tokens(), old(ts).pos() + 1int, 0).unwrap().1,
        ) == Some(TokenKind::RParen) ==> (r matches Ok(n) && matches_shape(
            n,
            old(ts).tokens(),
            pexpr(old(ts).tokens(), old(ts).pos() + 1int, 0).unwrap().0,
        ) && final(ts).pos() == pexpr(old(ts).tokens(), old(ts).pos() + 1int, 0).unwrap().1),
        ({
            let toks = old(ts).tokens();
            let i = old(ts).pos() + 1int;
            name_count(toks, i) matches Some(c) ==> (c >= 2 ==> (r matches Ok(n) && (n.kind matches Expression::Tuple(
                v,
            ) && v@.len() == c && forall|k: int| 0 <= k < c ==> atom_node(toks, i + 2 * k, #[trigger] v@[k]))
                && final(ts).pos() == i + 2 * (c - 1) + 1))
        }),
    decreases old(ts).remaining(), 10nat,
{
    if ts.peek_is(TokenKind::RParen) {
        let end_span = match ts.next() {
            Some((_, sp)) => sp,
            None => start_span,
        };
        let span = span_from_to(start_span, end_span);
        return Ok(create_node(ts, span, Expression::Tuple(Vec::new())));
    }
    let mut elements: Vec<Node<Expression>> = Vec::new();
    let ghost toks = old(ts).tokens();
    let ghost i0 = old(ts).pos() + 1int;
    let ghost names = name_count(toks, i0) matches Some(c) && c >= 2;
    proof {
        if names {
            lemma_name_count(toks, i0);
            assert(toks[i0 + 2 * 0].0 is Identifier);
            assert(kind_at(toks, i0 + 2 * 0 + 1) == Some(TokenKind::Comma));
            assert(atom_stop_at(toks, i0, 0));
        }
    }
    let first = match parse_expression(ts, 0) {
        Ok(e) => e,
        Err(e) => return Err(e),
    };
    let ghost first_node = first;
    let ghost grouped = pexpr(old(ts).tokens(), old(ts).pos() + 1int, 0) is Some && kind_at(
        old(ts).tokens(),
        pexpr(old(ts).tokens(), old(ts).pos() + 1int, 0).unwrap().1,
    ) == Some(TokenKind::RParen);
    elements.push(first);
    while ts.peek_is(TokenKind::Comma)
        invariant
            kept(*old(ts), *ts),
            grouped == (pexpr(old(ts).tokens(), old(ts).pos() + 1int, 0) is Some && kind_at(
                old(ts).tokens(),
                pexpr(old(ts).tokens(), old(ts).pos() + 1int, 0).unwrap().1,
            ) == Some(TokenKind::RParen)),
            grouped ==> ts.pos() + 1 == pexpr(old(ts).tokens(), old(ts).pos() + 1int, 0).unwrap().1
                && elements@ == seq![first_node] && matches_shape(
                first_node,
                old(ts).tokens(),
                pexpr(old(ts).tokens(), old(ts).pos() + 1int, 0).unwrap().0,
            ),
            atom_stop_at(old(ts).tokens(), old(ts).pos() + 1int, 0) && kind_at(
                old(ts).tokens(),
                old(ts).pos() + 2int,
            ) == Some(TokenKind::RParen) ==> ts.pos() == old(ts).pos() + 1 && elements@ == seq![
                first_node,
            ],
            old(ts).peek_kind_spec() != Some(TokenKind::RParen),
            toks == old(ts).tokens(),
            i0 == old(ts).pos() + 1int,
            names == (name_count(toks, i0) matches Some(c) && c >= 2),
            names ==> {
                let c = name_count(toks, i0).unwrap() as int;
                &&& 1 <= elements@.len() <= c
                &&& ts.pos() == i0 + 2 * (elements@.len() - 1)
                &&& forall|k: int| 0 <= k < elements@.len() ==> atom_node(toks, i0 + 2 * k, #[trigger] elements@[k])
            },
        decreases ts.remaining(),
    {
        let ghost before = elements@;
        proof {
            if names {
                let c = name_count(toks, i0).unwrap() as int;
                lemma_name_count(toks, i0);
                let l = elements@.len() as int;
                if l >= c {
                    assert(kind_at(toks, i0 + 2 * (c - 1) + 1) == Some(TokenKind::RParen));
                }
                assert(l < c);
                assert(toks[i0 + 2 * l].0 is Identifier);
                if l < c - 1 {
                    assert(kind_at(toks, i0 + 2 * l + 1) == Some(TokenKind::Comma));
                } else {
                    assert(kind_at(toks, i0 + 2 * (c - 1) + 1) == Some(TokenKind::RParen));
                }
                assert(atom_stop_at(toks, i0 + 2 * l, 0));
            }
        }
        ts.next();
        let e = match parse_expression(ts, 0) {
            Ok(e) => e,
            Err(e) => return Err(e),
        };
        elements.push(e);
        proof {
            if names {
                assert forall|k: int| 0 <= k < elements@.len() implies atom_node(toks, i0 + 2 * k, #[trigger] elements@[k]) by {
                    if k < before.len() {
                        assert(elements@[k] == before[k]);
                    }
                }
            }
        }
    }
    proof {
        if names {
            let c = name_count(toks, i0).unwrap() as int;
            lemma_name_count(toks, i0);
            let l = elements@.len() as int;
            if l < c {
                assert(kind_at(toks, i0 + 2 * (l - 1) + 1) == Some(TokenKind::Comma));
            }
        }
    }
    let end_span = match ts.next() {
        Some((Token::RParen, sp)) => sp,
        _ => return Err(ParsingError::new("Expected ')'", None)),
    };
    let span = span_from_to(start_span, end_span);
    if elements.len() == 1 {
        match elements.pop() {
            Some(e) => Ok(e),
            None => Ok(create_node(ts, span, Expression::Tuple(Vec::new()))),
        }
    } else {
        Ok(create_node(ts, span, Expression::Tuple(elements)))
    }
}

/// The function `f` takes the parameters that `params` lists, in the order
/// they are written: parameter `k` is the pattern of the `k`-th entry of a
/// parenthesized list, or the one name when there are no parentheses.
pub open spec fn params_in_order(params: Expression, f: Expression) -> bool {
    f matches Expression::Function { signature, .. } && match params {
        Expression::Tuple(v) => signature.args@.len() == v@.len() && forall|k: int|
            0 <= k < v@.len() ==> pattern_matches(#[trigger] v@[k].kind, signature.args@[k].kind),
        Expression::Identifier(x) => signature.args@.len() == 1 && (signature.args@[0].kind matches Pattern::Identifier(
            y,
        ) && y@ == x@),
        _ => false,
    }
}

/// Parameters keep their order: when a function's parameter list is the
/// names `n_0, ..., n_(c-1)`, its `k`-th parameter is the name `n_k`.
pub proof fn law_parameters_in_written_order(params: Expression, f: Expression)
    requires
        params_in_order(params, f),
        params is Tuple,
        forall|k: int| 0 <= k < params->Tuple_0@.len() ==> (#[trigger] params->Tuple_0@[k]).kind is Identifier,
    ensures
        f matches Expression::Function { signature, .. } && signature.args@.len() == params->Tuple_0@.len()
            && forall|k: int|
            0 <= k < params->Tuple_0@.len() ==> (#[trigger] signature.args@[k].kind matches Pattern::Identifier(w)
                && w@ == params->Tuple_0@[k].kind->Identifier_0@),
{
    let v = params->Tuple_0@;
    let args = f->signature.args@;
    assert forall|k: int| 0 <= k < v.len() implies (#[trigger] args[k].kind matches Pattern::Identifier(w) && w@
        == v[k].kind->Identifier_0@) by {
        assert(pattern_matches(v[k].kind, args[k].kind));
    }
}

/// A function `(PARAMS) => BODY` once the parameters are parsed: the body
/// is a block when a line break follows `=>`, an expression otherwise. The
/// parameters must be names.
fn parse_lambda_after_paren(
    ts: &mut TokenStream,
    params_expr: Node<Expression>,
    start_span: Span,
) -> (r: Result<Node<Expression>, ParsingError>)
    requires
        old(ts).wf(),
    ensures
        kept(*old(ts), *final(ts)),
        r is Ok ==> params_expr.kind is Identifier || params_expr.kind is Tuple,
        r matches Ok(n) ==> (n.kind matches Expression::Function { signature, .. } && (
        params_expr.kind is Identifier ==> signature.args@.len() == 1) && (params_expr.kind matches Expression::Tuple(
            v,
        ) ==> signature.args@.len() == v@.len())),
        r matches Ok(n) ==> params_in_order(params_expr.kind, n.kind),
        params_expr.kind is Identifier && atom_stop_at(old(ts).tokens(), old(ts).pos() + 2int, 0) ==> r is Ok,
    decreases old(ts).remaining(), 10nat,
{
    ts.next();
    let body = if ts.peek_is(TokenKind::Newline) || ts.peek_is(TokenKind::Indent) {
        match parse_block(ts) {
            Ok(e) => e,
            Err(e) => return Err(e),
        }
    } else {
        match parse_expression(ts, 0) {
            Ok(e) => e,
            Err(e) => return Err(e),
        }
    };
    let Node { id, span: params_span, kind } = params_expr;
    let params: Vec<Node<Pattern>> = match kind {
        Expression::Tuple(elements) => {
            let ghost n0 = elements@.len();
            let ghost elems0 = elements@;
            let mut rest = elements;
            let mut out: Vec<Node<Pattern>> = Vec::new();
            while rest.len() > 0
                invariant
                    kept(*old(ts), *ts),
                    out@.len() + rest@.len() == n0,
                    elems0.len() == n0,
                    rest@ == elems0.subrange(out@.len() as int, n0 as int),
                    forall|k: int| 0 <= k < out@.len() ==> pattern_matches(#[trigger] elems0[k].kind, out@[k].kind),
                    !(params_expr.kind is Identifier),
                decreases rest@.len(),
            {
                let ghost out0 = out@;
                let e = rest.remove(0);
                match e.into_pattern() {
                    Ok(p) => out.push(p),
                    Err(err) => return Err(err),
                }
                assert forall|k: int| 0 <= k < out@.len() implies pattern_matches(#[trigger] elems0[k].kind, out@[k].kind) by {
                    if k < out0.len() {
                        assert(out@[k] == out0[k]);
                    }
                }
                assert(rest@ =~= elems0.subrange(out@.len() as int, n0 as int));
            }
            out
        },
        Expression::Identifier(name) => {
            let mut out: Vec<Node<Pattern>> = Vec::new();
            out.push(Node::new(id, params_span, Pattern::Identifier(name)));
            out
        },
        _ => {
            return Err(ParsingError::new("Invalid lambda parameter list", Some(params_span)));
        },
    };
    let span = span_from_to(start_span, body.span);
    let return_type = create_node(ts, span, Type::Inferred);
    Ok(
        create_node(
            ts,
            span,
            Expression::Function {
                signature: FunctionSignature { args: params, return_type },
                body: Box::new(body),
            },
        ),
    )
}

/// The kind of the first token from position `i` on that is not a line
/// end.
pub open spec fn first_significant(toks: Seq<(Token, Span)>, i: int) -> Option<TokenKind>
    decreases toks.len() - i,
{
    if i < 0 || i >= toks.len() {
        None
    } else if toks[i].0 is Newline {
        first_significant(toks, i + 1)
    } else {
        Some(toks[i].0.spec_kind())
    }
}

/// The statement that a statement's first token announces: `return`,
/// `break`, `continue`, `from`, `import`, or else an expression.
pub open spec fn statement_starts(s: Statement, k: Option<TokenKind>) -> bool {
    match k {
        Some(TokenKind::Return) => s is Return,
        Some(TokenKind::Break) => s is Break,
        Some(TokenKind::Continue) => s is Continue,
        Some(TokenKind::From) => s is ImportFrom,
        Some(TokenKind::Import) => s is ImportModule,
        _ => s is Expression,
    }
}

/// The position of the first token from position `i` on that is not a
/// line end (the end of the list when there is none).
pub open spec fn significant_index(toks: Seq<(Token, Span)>, i: int) -> int
    decreases toks.len() - i,
{
    if 0 <= i < toks.len() && toks[i].0 is Newline {
        significant_index(toks, i + 1)
    } else {
        i
    }
}

/// A statement may end before the token at `i`: at a line end, at the end
/// of a block, at the end of the text, or past the last token.
pub open spec fn at_statement_end(toks: Seq<(Token, Span)>, i: int) -> bool {
    match kind_at(toks, i) {
        None => true,
        Some(k) => k == TokenKind::Newline || k == TokenKind::Dedent || k == TokenKind::Eof,
    }
}

/// From `i` on: a module path, `import`, the items, and the statement's end.
pub open spec fn from_import_well_formed(toks: Seq<(Token, Span)>, i: int) -> bool {
    match module_path_at(toks, i) {
        Some((_p, e)) => kind_at(toks, e) == Some(TokenKind::Import) && match items_at(
            toks,
            e + 1,
            seq![],
        ) {
            Some((_its, end)) => at_statement_end(toks, end),
            None => false,
        },
        None => false,
    }
}

/// From `i` on: a module path, an optional `as` and a name, and the
/// statement's end.
pub open spec fn module_import_well_formed(toks: Seq<(Token, Span)>, i: int) -> bool {
    match module_path_at(toks, i) {
        Some((_p, e)) => if kind_at(toks, e) == Some(TokenKind::As) {
            kind_at(toks, e + 1) == Some(TokenKind::Identifier) && at_statement_end(toks, e + 2)
        } else {
            at_statement_end(toks, e)
        },
        None => false,
    }
}

/// After line ends are passed over, the next token is the first
/// significant one.
proof fn lemma_skip_newlines(toks: Seq<(Token, Span)>, p: int, q: int)
    requires
        0 <= p <= q,
        q <= toks.len(),
        forall|i: int| p < i <= q ==> #[trigger] toks[i].0 is Newline,
        q + 1 < toks.len() ==> !(toks[q + 1].0 is Newline),
    ensures
        first_significant(toks, p + 1) == (if q + 1 < toks.len() {
            Some(toks[q + 1].0.spec_kind())
        } else {
            None::<TokenKind>
        }),
        q + 1 <= toks.len() ==> significant_index(toks, p + 1) == q + 1,
        q + 1 > toks.len() ==> significant_index(toks, p + 1) >= toks.len(),
    decreases q - p,
{
    if p < q {
        assert(toks[p + 1].0 is Newline);
        lemma_skip_newlines(toks, p + 1, q);
    }
}

/// One statement: `return [VALUE]`, `break`, `continue`, an import, or an
/// expression; each must end the line.
pub fn parse_statement(ts: &mut TokenStream) -> (r: Result<Statement, ParsingError>)
    requires
        old(ts).wf(),
    ensures
        kept(*old(ts), *final(ts)),
        progressed(*old(ts), *final(ts)),
        r matches Ok(s) ==> statement_starts(s, first_significant(old(ts).tokens(), old(ts).pos() + 1int)),
        ({
            let toks = old(ts).tokens();
            let q = significant_index(toks, old(ts).pos() + 1int);
            kind_at(toks, q) == Some(TokenKind::From) ==> {
                &&& r is Ok <==> from_import_well_formed(toks, q + 1)
                &&& r matches Ok(s) ==> {
                    &&& s matches Statement::ImportFrom { path, items }
                    &&& module_path_at(toks, q + 1) matches Some((p, e))
                    &&& path@ == p
                    &&& kind_at(toks, e) == Some(TokenKind::Import)
                    &&& items_at(toks, e + 1, seq![]) matches Some((its, _end))
                    &&& items@.map_values(|it: ImportItem| item_model(it)) == its
                }
            }
        }),
        ({
            let toks = old(ts).tokens();
            let q = significant_index(toks, old(ts).pos() + 1int);
            kind_at(toks, q) == Some(TokenKind::Import) ==> {
                &&& r is Ok <==> module_import_well_formed(toks, q + 1)
                &&& r matches Ok(s) ==> {
                    &&& s matches Statement::ImportModule { path, alias }
                    &&& module_path_at(toks, q + 1) matches Some((p, e))
                    &&& path@ == p
                    &&& if kind_at(toks, e) == Some(TokenKind::As) {
                        alias matches Some(a) && a@ == token_bytes(toks[e + 1].0)
                    } else {
                        alias is None
                    }
                }
            }
        }),
        ({
            let toks = old(ts).tokens();
            let q = significant_index(toks, old(ts).pos() + 1int);
            kind_at(toks, q) == Some(TokenKind::Break) || kind_at(toks, q) == Some(TokenKind::Continue)
                ==> {
                &&& r is Ok <==> at_statement_end(toks, q + 1)
                &&& r matches Ok(s) ==> if kind_at(toks, q) == Some(TokenKind::Break) {
                    s is Break
                } else {
                    s is Continue
                }
            }
        }),
        ({
            let toks = old(ts).tokens();
            let q = significant_index(toks, old(ts).pos() + 1int);
            pexpr(toks, q, 0) matches Some((sh, e)) ==> (at_statement_end(toks, e) ==> (
            r matches Ok(s) && (s matches Statement::Expression(n) && matches_shape(n, toks, sh))
                && final(ts).pos() + 1 == significant_index(toks, e)))
        }),
    decreases old(ts).remaining(), 9nat,
{
    ts.skip_newlines();
    proof {
        lemma_skip_newlines(ts.tokens(), old(ts).pos() as int, ts.pos() as int);
    }
    ts.save_pos();
    match ts.peek_kind() {
        Some(TokenKind::Return) => {
            ts.next();
            let value = match ts.peek_kind() {
                None | Some(TokenKind::Newline) | Some(TokenKind::Dedent) | Some(TokenKind::Eof) => None,
                _ => match parse_expression(ts, 0) {
                    Ok(e) => Some(e),
                    Err(e) => return Err(e),
                },
            };
            match ts.expect_statement_end() {
                Ok(()) => Ok(Statement::Return(Return { value })),
                Err(e) => Err(e),
            }
        },
        Some(TokenKind::Break) => {
            ts.next();
            match ts.expect_statement_end() {
                Ok(()) => Ok(Statement::Break),
                Err(e) => Err(e),
            }
        },
        Some(TokenKind::Continue) => {
            ts.next();
            match ts.expect_statement_end() {
                Ok(()) => Ok(Statement::Continue),
                Err(e) => Err(e),
            }
        },
        Some(TokenKind::From) => {
            ts.next();
            let path = match parse_module_path(ts) {
                Ok(p) => p,
                Err(e) => return Err(e),
            };
            match ts.expect(TokenKind::Import) {
                Ok(_) => {},
                Err(e) => return Err(e),
            }
            let items = match parse_import_items(ts) {
                Ok(i) => i,
                Err(e) => return Err(e),
            };
            match ts.expect_statement_end() {
                Ok(()) => Ok(Statement::ImportFrom { path, items }),
                Err(e) => Err(e),
            }
        },
        Some(TokenKind::Import) => {
            ts.next();
            let path = match parse_module_path(ts) {
                Ok(p) => p,
                Err(e) => return Err(e),
            };
            let alias = if ts.peek_is(TokenKind::As) {
                ts.next();
                match ts.next() {
                    Some((Token::Identifier(s), _)) => Some(s),
                    _ => return Err(ParsingError::new("Expected alias after 'as'", None)),
                }
            } else {
                None
            };
            match ts.expect_statement_end() {
                Ok(()) => Ok(Statement::ImportModule { path, alias }),
                Err(e) => Err(e),
            }
        },
        _ => {
            let expression = match parse_expression(ts, 0) {
                Ok(e) => e,
                Err(e) => return Err(e),
            };
            let ghost after = ts.pos();
            match ts.expect_statement_end() {
                Ok(()) => {
                    proof {
                        lemma_skip_newlines(ts.tokens(), after as int, ts.pos() as int);
                    }
                    Ok(Statement::Expression(expression))
                },
                Err(e) => Err(e),
            }
        },
    }
}

/// The path that the tokens from index `i` on add to `acc`: each `/` and
/// the name after it add `/NAME`; `None` when a `/` is not followed by a
/// name. With the path, the index of the first token after it.
pub open spec fn path_rest(toks: Seq<(Token, Span)>, i: int, acc: Seq<u8>) -> Option<(Seq<u8>, int)>
    decreases toks.len() - i,
{
    if 0 <= i < toks.len() && toks[i].0 is Slash {
        if i + 1 < toks.len() && toks[i + 1].0 is Identifier {
            path_rest(toks, i + 2, acc + seq![47u8] + token_bytes(toks[i + 1].0))
        } else {
            None
        }
    } else {
        Some((acc, i))
    }
}

/// The module path that starts at index `i`: a name, then `/NAME` for as
/// long as such follow.
pub open spec fn module_path_at(toks: Seq<(Token, Span)>, i: int) -> Option<(Seq<u8>, int)> {
    if 0 <= i < toks.len() && toks[i].0 is Identifier {
        path_rest(toks, i + 1, token_bytes(toks[i].0))
    } else {
        None
    }
}

/// A module path: names joined by `/`.
fn parse_module_path(ts: &mut TokenStream) -> (r: Result<Vec<u8>, ParsingError>)
    requires
        old(ts).wf(),
    ensures
        kept(*old(ts), *final(ts)),
        match module_path_at(old(ts).tokens(), old(ts).pos() + 1int) {
            Some((p, end)) => r matches Ok(v) && v@ == p && final(ts).pos() + 1 == end,
            None => r is Err,
        },
{
    let ghost toks = ts.tokens();
    let mut path = match ts.next() {
        Some((Token::Identifier(s), _)) => s,
        _ => return Err(ParsingError::new("Expected module path", None)),
    };
    while ts.peek_is(TokenKind::Slash)
        invariant
            kept(*old(ts), *ts),
            toks == ts.tokens(),
            module_path_at(toks, old(ts).pos() + 1int) == path_rest(toks, ts.pos() + 1int, path@),
        decreases ts.remaining(),
    {
        let ghost at = ts.pos() + 1int;
        ts.next();
        match ts.next() {
            Some((Token::Identifier(s), _)) => {
                let ghost before = path@;
                path.push(47u8);
                append_bytes(&mut path, s.as_slice());
                assert(path@ =~= before + seq![47u8] + token_bytes(toks[at + 1].0));
            },
            _ => return Err(ParsingError::new("Expected path segment after '/'", None)),
        }
    }
    Ok(path)
}

/// An import item as plain values: the name and the alias.
pub open spec fn item_model(it: ImportItem) -> (Seq<u8>, Option<Seq<u8>>) {
    (it.name@, match it.alias {
        Some(a) => Some(a@),
        None => None,
    })
}

/// The items of an import list from index `i` on, after those in `acc`:
/// a name, then `as` and an alias when `as` follows, then after a comma
/// the next item; with the index after the last item. `None` when a name
/// is missing.
pub open spec fn items_at(
    toks: Seq<(Token, Span)>,
    i: int,
    acc: Seq<(Seq<u8>, Option<Seq<u8>>)>,
) -> Option<(Seq<(Seq<u8>, Option<Seq<u8>>)>, int)>
    decreases toks.len() - i,
{
    if 0 <= i < toks.len() && toks[i].0 is Identifier {
        let name = token_bytes(toks[i].0);
        if i + 1 < toks.len() && toks[i + 1].0 is As {
            if i + 2 < toks.len() && toks[i + 2].0 is Identifier {
                let acc2 = acc.push((name, Some(token_bytes(toks[i + 2].0))));
                if i + 3 < toks.len() && toks[i + 3].0 is Comma {
                    items_at(toks, i + 4, acc2)
                } else {
                    Some((acc2, i + 3))
                }
            } else {
                None
            }
        } else {
            let acc2 = acc.push((name, None));
            if i + 1 < toks.len() && toks[i + 1].0 is Comma {
                items_at(toks, i + 2, acc2)
            } else {
                Some((acc2, i + 1))
            }
        }
    } else {
        None
    }
}

/// `NAME [as ALIAS], ...` after `import`.
fn parse_import_items(ts: &mut TokenStream) -> (r: Result<Vec<ImportItem>, ParsingError>)
    requires
        old(ts).wf(),
    ensures
        kept(*old(ts), *final(ts)),
        match items_at(old(ts).tokens(), old(ts).pos() + 1int, seq![]) {
            Some((its, end)) => r matches Ok(v) && v@.map_values(|it: ImportItem| item_model(it)) == its
                && final(ts).pos() + 1 == end,
            None => r is Err,
        },
{
    let ghost toks = ts.tokens();
    let ghost start = ts.pos() + 1int;
    let mut items: Vec<ImportItem> = Vec::new();
    assert(items@.map_values(|it: ImportItem| item_model(it)) =~= seq![]);
    let mut more = true;
    while more
        invariant
            kept(*old(ts), *ts),
            toks == ts.tokens(),
            start == old(ts).pos() + 1int,
            more ==> items_at(toks, start, seq![]) == items_at(
                toks,
                ts.pos() + 1int,
                items@.map_values(|it: ImportItem| item_model(it)),
            ),
            !more ==> items_at(toks, start, seq![]) == Some(
                (items@.map_values(|it: ImportItem| item_model(it)), ts.pos() + 1int),
            ),
        decreases ts.remaining(),
    {
        let ghost at = ts.pos() + 1int;
        let ghost before = items@.map_values(|it: ImportItem| item_model(it));
        let name = match ts.next() {
            Some((Token::Identifier(s), _)) => s,
            _ => return Err(ParsingError::new("Expected import name", None)),
        };
        let alias = if ts.peek_is(TokenKind::As) {
            ts.next();
            match ts.next() {
                Some((Token::Identifier(s), _)) => Some(s),
                _ => return Err(ParsingError::new("Expected alias after 'as'", None)),
            }
        } else {
            None
        };
        let item = ImportItem { name, alias };
        let ghost m = item_model(item);
        items.push(item);
        assert(items@.map_values(|it: ImportItem| item_model(it)) =~= before.push(m));
        if ts.peek_is(TokenKind::Comma) {
            ts.next();
        } else {
            more = false;
        }
    }
    Ok(items)
}

/// A copy of a byte string.
fn copy_slice(b: &[u8]) -> (r: Vec<u8>)
    ensures
        r@ == b@,
{
    let mut out: Vec<u8> = Vec::new();
    append_bytes(&mut out, b);
    assert(out@ =~= b@);
    out
}

/// A copy of a token list.
fn copy_tokens(tokens: &[(Token, Span)]) -> (r: Vec<(Token, Span)>)
    ensures
        same_tokens(r@, tokens@),
        r@.len() == tokens@.len(),
        forall|i: int|
            0 <= i < tokens@.len() ==> crate::token::same_token(#[trigger] r@[i].0, tokens@[i].0)
                && r@[i].1 == tokens@[i].1,
{
    let mut out: Vec<(Token, Span)> = Vec::new();
    let mut i: usize = 0;
    while i < tokens.len()
        invariant
            i <= tokens@.len(),
            out@.len() == i,
            forall|j: int|
                0 <= j < i ==> crate::token::same_token(#[trigger] out@[j].0, tokens@[j].0)
                    && out@[j].1 == tokens@[j].1,
        decreases tokens@.len() - i,
    {
        out.push((tokens[i].0.duplicate(), tokens[i].1));
        i = i + 1;
    }
    assert(same_tokens(out@, tokens@));
    out
}

/// A module's statements from position `i` on when each of them is an
/// expression of the binding-power fragment (see [`pexpr`]) that ends its
/// line: the shape of each, in order. `None` when some statement is not of
/// that kind.
pub open spec fn expr_lines(toks: Seq<(Token, Span)>, i: int) -> Option<Seq<ExprShape>>
    decreases toks.len() - i,
{
    if i >= toks.len() {
        Some(seq![])
    } else {
        match pexpr(toks, significant_index(toks, i), 0) {
            Some((sh, e)) => {
                let n = significant_index(toks, e);
                if (e >= toks.len() || toks[e].0 is Newline) && i < n <= toks.len() {
                    match expr_lines(toks, n) {
                        Some(rest) => Some(seq![sh] + rest),
                        None => None,
                    }
                } else {
                    None
                }
            },
            None => None,
        }
    }
}

/// Two token lists that hold the same tokens at the same places.
pub open spec fn same_tokens(a: Seq<(Token, Span)>, b: Seq<(Token, Span)>) -> bool {
    &&& a.len() == b.len()
    &&& forall|i: int| 0 <= i < a.len() ==> same_token(#[trigger] a[i].0, b[i].0) && a[i].1 == b[i].1
}

/// Tokens of one kind are alike to every test that the parse fragment makes.
proof fn lemma_same_token_alike(x: Token, y: Token, sp: Span, n: Node<Expression>)
    requires
        same_token(x, y),
    ensures
        is_atom(x) == is_atom(y),
        prefix_op(x) == prefix_op(y),
        (x is LParen) == (y is LParen),
        (x is Newline) == (y is Newline),
        prefix_result(x, sp, n) == prefix_result(y, sp, n),
{
    match x {
        Token::Identifier(_) => assert(y is Identifier),
        Token::Integer(_) => assert(y is Integer),
        Token::Float(_) => assert(y is Float),
        Token::DoubleQuotedString(_) => assert(y is DoubleQuotedString),
        Token::SingleQuotedString(_) => assert(y is SingleQuotedString),
        _ => {},
    }
}

/// Binding-power parsing sees only what tokens hold.
proof fn lemma_same_pexpr(a: Seq<(Token, Span)>, b: Seq<(Token, Span)>, i: int, min_bp: u8)
    requires
        same_tokens(a, b),
    ensures
        pexpr(a, i, min_bp) == pexpr(b, i, min_bp),
    decreases a.len() - i, 2nat,
{
    if 0 <= i < a.len() {
        lemma_same_pprefix(a, b, i);
        match pprefix(a, i) {
            Some((s, j)) => if i < j <= a.len() {
                lemma_same_ploop(a, b, s, j, min_bp);
            },
            None => {},
        }
    }
}

proof fn lemma_same_pprefix(a: Seq<(Token, Span)>, b: Seq<(Token, Span)>, i: int)
    requires
        same_tokens(a, b),
    ensures
        pprefix(a, i) == pprefix(b, i),
    decreases a.len() - i, 1nat,
{
    if 0 <= i < a.len() {
        assert(same_token(a[i].0, b[i].0));
        lemma_same_token_alike(a[i].0, b[i].0, a[i].1, arbitrary());
        if !is_atom(a[i].0) {
            if prefix_op(a[i].0) is Some {
                lemma_same_pexpr(a, b, i + 1, PREFIX_BP);
            } else if a[i].0 is LParen {
                lemma_same_pexpr(a, b, i + 1, 0);
                if let Some((o, j)) = pexpr(a, i + 1, 0) {
                    assert(kind_at(a, j) == kind_at(b, j));
                    assert(kind_at(a, j + 1) == kind_at(b, j + 1));
                }
            }
        }
    }
}

proof fn lemma_same_ploop(a: Seq<(Token, Span)>, b: Seq<(Token, Span)>, lhs: ExprShape, j: int, min_bp: u8)
    requires
        same_tokens(a, b),
    ensures
        ploop(a, lhs, j, min_bp) == ploop(b, lhs, j, min_bp),
    decreases a.len() - j, 0nat,
{
    assert(kind_at(a, j) == kind_at(b, j));
    let k = kind_at(a, j);
    if !stops(k, min_bp) && 0 <= j < a.len() && binary_kind(k) && left_bp(k) >= min_bp {
        lemma_same_pexpr(a, b, j + 1, right_bp(k));
        if let Some((r, j2)) = pexpr(a, j + 1, right_bp(k)) {
            if j + 1 < j2 <= a.len() {
                lemma_same_ploop(a, b, ExprShape::Binary(op_of(k), Box::new(lhs), Box::new(r)), j2, min_bp);
            }
        }
    } else if !stops(k, min_bp) && 0 <= j < a.len() && k == Some(TokenKind::Eq) {
        if let ExprShape::Atom(x) = lhs {
            if 0 <= x < a.len() {
                lemma_same_token_alike(a[x].0, b[x].0, a[x].1, arbitrary());
                assert((a[x].0 is Identifier) == (b[x].0 is Identifier));
            }
        }
        lemma_same_pexpr(a, b, j + 1, 0);
        if let Some((r, j2)) = pexpr(a, j + 1, 0) {
            if j + 1 < j2 <= a.len() {
                if let ExprShape::Atom(x) = lhs {
                    lemma_same_ploop(a, b, ExprShape::Assign(x, Box::new(r)), j2, min_bp);
                }
            }
        }
    }
}

/// Line ends are found alike in the same tokens.
proof fn lemma_same_significant(a: Seq<(Token, Span)>, b: Seq<(Token, Span)>, i: int)
    requires
        same_tokens(a, b),
    ensures
        significant_index(a, i) == significant_index(b, i),
    decreases a.len() - i,
{
    if 0 <= i < a.len() {
        lemma_same_token_alike(a[i].0, b[i].0, a[i].1, arbitrary());
        if a[i].0 is Newline {
            lemma_same_significant(a, b, i + 1);
        }
    }
}

/// A node has the same shape over the same tokens.
proof fn lemma_same_shape(a: Seq<(Token, Span)>, b: Seq<(Token, Span)>, n: Node<Expression>, sh: ExprShape)
    requires
        same_tokens(a, b),
    ensures
        matches_shape(n, a, sh) == matches_shape(n, b, sh),
    decreases sh,
{
    match sh {
        ExprShape::Atom(i) => if 0 <= i < a.len() {
            lemma_same_token_alike(a[i].0, b[i].0, a[i].1, n);
        },
        ExprShape::Unary(op, o) => {
            if let Expression::Unary { op: o2, expression } = n.kind {
                lemma_same_shape(a, b, *expression, *o);
            }
        },
        ExprShape::Binary(op, l, r) => {
            if let Expression::Binary { lhs, op: o2, rhs } = n.kind {
                lemma_same_shape(a, b, *lhs, *l);
                lemma_same_shape(a, b, *rhs, *r);
            }
        },
        ExprShape::Assign(x, v) => {
            if let Expression::Assignment { lhs, rhs } = n.kind {
                lemma_same_shape(a, b, *rhs, *v);
            }
        },
    }
}

/// The expression lines of the same tokens are the same.
proof fn lemma_same_lines(a: Seq<(Token, Span)>, b: Seq<(Token, Span)>, i: int)
    requires
        same_tokens(a, b),
    ensures
        expr_lines(a, i) == expr_lines(b, i),
    decreases a.len() - i,
{
    if i < a.len() {
        lemma_same_significant(a, b, i);
        lemma_same_pexpr(a, b, significant_index(a, i), 0);
        if let Some((sh, e)) = pexpr(a, significant_index(a, i), 0) {
            lemma_same_significant(a, b, e);
            let n = significant_index(a, e);
            if 0 <= e < a.len() {
                lemma_same_token_alike(a[e].0, b[e].0, a[e].1, arbitrary());
            }
            if i < n <= a.len() {
                lemma_same_lines(a, b, n);
            }
        }
    }
}

/// When the statements after the start marker of `toks` are expression
/// lines (see [`expr_lines`]), `stmts` are those expressions, in order, each
/// of its line's shape.
pub open spec fn lines_parsed(toks: Seq<(Token, Span)>, stmts: Seq<Statement>) -> bool {
    expr_lines(toks, 1) matches Some(shapes) ==> {
        &&& stmts.len() == shapes.len()
        &&& forall|k: int|
            0 <= k < shapes.len() ==> (#[trigger] stmts[k] matches Statement::Expression(n) && matches_shape(
                n,
                toks,
                shapes[k],
            ))
    }
}

/// Parses the statements of module `name` until the tokens run out; a
/// statement that does not parse gives an error, and parsing goes on after
/// the tokens it consumed.
pub fn parse_module(tokens: &[(Token, Span)], name: &[u8]) -> (r: ParsingArtifacts)
    ensures
        r.ast.name@ == name@,
        r.ast.statements@.len() + r.errors@.len() <= tokens@.len(),
        expr_lines(tokens@, 1) is Some ==> r.errors@.len() == 0,
        lines_parsed(tokens@, r.ast.statements@),
{
    let mut artifacts = ParsingArtifacts {
        ast: Module { name: copy_slice(name), statements: Vec::new() },
        errors: Vec::new(),
    };
    let copied = copy_tokens(tokens);
    let ghost ct = copied@;
    assert(same_tokens(ct, tokens@));
    let mut ts = TokenStream::new(copied);
    proof {
        lemma_same_lines(ct, tokens@, 1);
    }
    let ghost all = expr_lines(ct, 1);
    let ghost mut done: Seq<ExprShape> = seq![];
    assert(done + all.unwrap() =~= all.unwrap());
    while ts.peek_kind().is_some()
        invariant
            ts.wf(),
            ts.tokens() == ct,
            same_tokens(ct, tokens@),
            artifacts.ast.name@ == name@,
            artifacts.ast.statements@.len() + artifacts.errors@.len() + ts.remaining()
                <= tokens@.len(),
            all == expr_lines(ct, 1),
            all matches Some(shapes) ==> {
                &&& expr_lines(ct, ts.pos() + 1int) is Some
                &&& shapes == done + expr_lines(ct, ts.pos() + 1int).unwrap()
                &&& artifacts.errors@.len() == 0
                &&& artifacts.ast.statements@.len() == done.len()
                &&& forall|k: int|
                    0 <= k < done.len() ==> (#[trigger] artifacts.ast.statements@[k] matches Statement::Expression(n)
                        && matches_shape(n, ct, done[k]))
            },
        decreases ts.remaining(),
    {
        let ghost at = ts.pos() + 1int;
        let ghost stmts0 = artifacts.ast.statements@;
        match parse_statement(&mut ts) {
            Ok(statement) => {
                artifacts.ast.statements.push(statement);
                proof {
                    if all is Some {
                        let (sh, e) = pexpr(ct, significant_index(ct, at), 0).unwrap();
                        let rest = expr_lines(ct, significant_index(ct, e)).unwrap();
                        assert(expr_lines(ct, at).unwrap() == seq![sh] + rest);
                        assert(done + expr_lines(ct, at).unwrap() =~= done.push(sh) + rest);
                        assert forall|k: int|
                            0 <= k < done.len() + 1 implies (#[trigger] artifacts.ast.statements@[k] matches Statement::Expression(n)
                                && matches_shape(n, ct, done.push(sh)[k])) by {
                            if k < done.len() {
                                assert(artifacts.ast.statements@[k] == stmts0[k]);
                            }
                        }
                        done = done.push(sh);
                    }
                }
            },
            Err(error) => artifacts.errors.push(error),
        }
    }
    proof {
        if all is Some {
            assert(done + expr_lines(ct, ts.pos() + 1int).unwrap() =~= done);
            assert forall|k: int| 0 <= k < done.len() implies (#[trigger] artifacts.ast.statements@[k] matches Statement::Expression(n)
                && matches_shape(n, tokens@, done[k])) by {
                if let Statement::Expression(n) = artifacts.ast.statements@[k] {
                    lemma_same_shape(ct, tokens@, n, done[k]);
                }
            }
        }
    }
    artifacts
}

} // verus!
