//! The abstract syntax tree.
use vstd::prelude::*;
use crate::token::Span;
use crate::token_stream::ParsingError;

verus! {

/// A tree node: an identifier unique within its module, the source span,
/// and the node's contents.
#[derive(Debug)]
pub struct Node<T> {
    pub id: usize,
    pub span: Span,
    pub kind: T,
}

impl<T> Node<T> {
    pub fn new(id: usize, span: Span, kind: T) -> (r: Self)
        ensures
            r.id == id,
            r.span == span,
            r.kind == kind,
    {
        Self { id, span, kind }
    }
}

/// A parsed module: its name and its statements in order.
#[derive(Debug)]
pub struct Module {
    pub name: Vec<u8>,
    pub statements: Vec<Statement>,
}

/// One name brought in by `from PATH import NAME [as ALIAS], ...`.
#[derive(Debug)]
pub struct ImportItem {
    pub name: Vec<u8>,
    pub alias: Option<Vec<u8>>,
}

#[derive(Debug)]
pub enum Statement {
    Expression(Node<Expression>),
    Return(Return),
    Break,
    Continue,
    /// `from PATH import ITEMS`
    ImportFrom { path: Vec<u8>, items: Vec<ImportItem> },
    /// `import PATH [as ALIAS]`
    ImportModule { path: Vec<u8>, alias: Option<Vec<u8>> },
}

/// `return [VALUE]`
#[derive(Debug)]
pub struct Return {
    pub value: Option<Node<Expression>>,
}

#[derive(Debug)]
pub enum Expression {
    Integer(i64),
    /// A float literal, kept as its source text.
    Float(Vec<u8>),
    String(Vec<u8>),
    Boolean(bool),
    Identifier(Vec<u8>),
    Tuple(Vec<Node<Expression>>),
    Array(Vec<Node<Expression>>),
    Assignment { lhs: Node<Pattern>, rhs: Box<Node<Expression>> },
    /// `lhs OP= rhs`
    CompoundAssignment { lhs: Node<Pattern>, op: BinaryOp, rhs: Box<Node<Expression>> },
    Function { signature: FunctionSignature, body: Box<Node<Expression>> },
    Unary { op: UnaryOp, expression: Box<Node<Expression>> },
    Binary { lhs: Box<Node<Expression>>, op: BinaryOp, rhs: Box<Node<Expression>> },
    Conditional {
        condition: Box<Node<Expression>>,
        then_branch: Box<Node<Expression>>,
        else_branch: Option<Box<Node<Expression>>>,
    },
    While { condition: Box<Node<Expression>>, body: Box<Node<Expression>> },
    /// Statements and an optional last expression, whose value the block
    /// takes.
    Block { statements: Vec<Statement>, final_expr: Option<Box<Node<Expression>>> },
    Index { target: Box<Node<Expression>>, index: Box<Node<Expression>> },
    /// `target.name`
    Member { target: Box<Node<Expression>>, name: Vec<u8> },
    FunctionCall { callee: Box<Node<Expression>>, arguments: Vec<Node<Expression>> },
}

/// Whether an expression can stand on the left of `=`: a name, an
/// indexing, or a tuple of such.
pub open spec fn assignable(e: Expression) -> bool
    decreases e,
{
    match e {
        Expression::Identifier(_) => true,
        Expression::Index { .. } => true,
        Expression::Tuple(elems) => forall|i: int|
            0 <= i < elems@.len() ==> assignable(#[trigger] elems@[i].kind),
        _ => false,
    }
}

/// The pattern that an assignable expression becomes.
pub open spec fn pattern_matches(e: Expression, p: Pattern) -> bool {
    match e {
        Expression::Identifier(n) => p matches Pattern::Identifier(m) && m@ == n@,
        Expression::Index { .. } => p is Index,
        Expression::Tuple(elems) => p matches Pattern::Tuple(ps) && ps@.len() == elems@.len(),
        _ => false,
    }
}

impl Node<Expression> {
    /// The pattern that this expression denotes as an assignment target:
    /// a name, an indexing, or a tuple of targets; anything else is the
    /// error `Invalid assignment target` at the offending expression.
    pub fn into_pattern(self) -> (r: Result<Node<Pattern>, ParsingError>)
        ensures
            r is Ok <==> assignable(self.kind),
            r matches Ok(p) ==> p.id == self.id && p.span == self.span && pattern_matches(
                self.kind,
                p.kind,
            ),
            r matches Err(e) ==> e.message@ == "Invalid assignment target"@,
        decreases self,
    {
        let ghost whole = self;
        let Node { id, span, kind } = self;
        match kind {
            Expression::Identifier(name) => Ok(Node::new(id, span, Pattern::Identifier(name))),
            Expression::Index { target, index } => Ok(Node::new(id, span, Pattern::Index { target, index })),
            Expression::Tuple(elements) => {
                let ghost elems = elements@;
                let mut rest = elements;
                let mut out: Vec<Node<Pattern>> = Vec::new();
                let mut k: usize = 0;
                while rest.len() > 0
                    invariant
                        whole == self,
                        whole.kind == Expression::Tuple(elements),
                        elems == elements@,
                        k + rest@.len() == elems.len(),
                        out@.len() == k,
                        forall|i: int| 0 <= i < rest@.len() ==> rest@[i] == elems[i + k],
                        forall|i: int| 0 <= i < k ==> assignable(#[trigger] elems[i].kind),
                    decreases rest@.len(),
                {
                    let e = rest.remove(0);
                    assert(e == elems[k as int]);
                    assert(decreases_to!(whole => whole.kind));
                    assert(decreases_to!(whole.kind => whole.kind->Tuple_0));
                    assert(decreases_to!(elements => elements@));
                    assert(decreases_to!(elements@ => elements@[k as int]));
                    assert(decreases_to!(whole => e));
                    match e.into_pattern() {
                        Ok(pat) => out.push(pat),
                        Err(err) => {
                            assert(!assignable(elems[k as int].kind));
                            assert(!assignable(whole.kind));
                            proof {
                                reveal_strlit("Invalid assignment target");
                            }
                            return Err(err);
                        },
                    }
                    k = k + 1;
                }
                Ok(Node::new(id, span, Pattern::Tuple(out)))
            },
            _ => Err(ParsingError::new("Invalid assignment target", Some(span))),
        }
    }
}

/// What an assignment can assign to.
#[derive(Debug)]
pub enum Pattern {
    Identifier(Vec<u8>),
    Tuple(Vec<Node<Pattern>>),
    Index { target: Box<Node<Expression>>, index: Box<Node<Expression>> },
}

#[derive(Clone, Copy, Debug, PartialEq, Eq, Structural)]
pub enum UnaryOp {
    Neg,
    Not,
    Plus,
}

#[derive(Clone, Copy, Debug, PartialEq, Eq, Structural)]
pub enum BinaryOp {
    Add,
    Sub,
    Mul,
    Div,
    Mod,
    Pow,
    Lt,
    Gt,
    GEq,
    LEq,
    Eq,
    NEq,
    And,
    Or,
    Assign,
    TypeAnnotation,
}

/// A function's parameters and declared result type.
#[derive(Debug)]
pub struct FunctionSignature {
    pub args: Vec<Node<Pattern>>,
    pub return_type: Node<Type>,
}

#[derive(Debug)]
pub enum Type {
    Named(Vec<u8>),
    Tuple(Vec<Type>),
    Array(Box<Type>),
    Function { params: Vec<Type>, return_type: Box<Type> },
    /// No type was written; it is left to inference.
    Inferred,
}

} // verus!
