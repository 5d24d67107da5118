//! A tree rendering of a module's syntax, one node per line.
use vstd::prelude::*;
use vstd::string::StringSliceAdditionalSpecFns;
use crate::ast::{BinaryOp, Expression, Module, Node, Pattern, Statement};
use crate::format::{decimal, decimal_bytes};
use crate::vm::append_bytes;

verus! {

/// The name of each binary operation.
pub open spec fn binary_op_text(op: BinaryOp) -> &'static str {
    match op {
        BinaryOp::Add => "Add",
        BinaryOp::Sub => "Sub",
        BinaryOp::Mul => "Mul",
        BinaryOp::Div => "Div",
        BinaryOp::Mod => "Mod",
        BinaryOp::Pow => "Pow",
        BinaryOp::Lt => "Lt",
        BinaryOp::Gt => "Gt",
        BinaryOp::GEq => "GEq",
        BinaryOp::LEq => "LEq",
        BinaryOp::Eq => "Eq",
        BinaryOp::NEq => "NEq",
        BinaryOp::And => "And",
        BinaryOp::Or => "Or",
        BinaryOp::Assign => "Assign",
        BinaryOp::TypeAnnotation => "TypeAnnotation",
    }
}

/// The name of a binary operation.
pub fn binary_op_name(op: BinaryOp) -> (r: &'static str)
    ensures
        r == binary_op_text(op),
{
    match op {
        BinaryOp::Add => "Add",
        BinaryOp::Sub => "Sub",
        BinaryOp::Mul => "Mul",
        BinaryOp::Div => "Div",
        BinaryOp::Mod => "Mod",
        BinaryOp::Pow => "Pow",
        BinaryOp::Lt => "Lt",
        BinaryOp::Gt => "Gt",
        BinaryOp::GEq => "GEq",
        BinaryOp::LEq => "LEq",
        BinaryOp::Eq => "Eq",
        BinaryOp::NEq => "NEq",
        BinaryOp::And => "And",
        BinaryOp::Or => "Or",
        BinaryOp::Assign => "Assign",
        BinaryOp::TypeAnnotation => "TypeAnnotation",
    }
}

/// The branch that leads to a node: `prefix`, then a corner for the last
/// of its siblings or a tee for the others.
pub open spec fn branch_text(prefix: Seq<u8>, is_last: bool) -> Seq<u8> {
    prefix + if is_last {
        "\u{2514}\u{2500}\u{2500} ".spec_bytes()
    } else {
        "\u{251c}\u{2500}\u{2500} ".spec_bytes()
    }
}

/// The prefix of a node's children: `prefix`, then blanks under the last of
/// its siblings or a vertical bar under the others.
pub open spec fn child_text(prefix: Seq<u8>, is_last: bool) -> Seq<u8> {
    prefix + if is_last {
        "    ".spec_bytes()
    } else {
        "\u{2502}   ".spec_bytes()
    }
}

/// The line of a pattern: names have one, other patterns none.
pub open spec fn pattern_text(pat: Pattern, prefix: Seq<u8>) -> Seq<u8> {
    match pat {
        Pattern::Identifier(name) => branch_text(prefix, false) + "Identifier(".spec_bytes() + name@
            + ")\n".spec_bytes(),
        _ => seq![],
    }
}

/// The lines of the first `n` patterns of `ps`.
pub open spec fn patterns_text(ps: Seq<Node<Pattern>>, prefix: Seq<u8>, n: nat) -> Seq<u8>
    decreases n,
{
    if n == 0 || n > ps.len() {
        seq![]
    } else {
        patterns_text(ps, prefix, (n - 1) as nat) + pattern_text(ps[n - 1].kind, prefix)
    }
}

/// The rendering of an expression node and its children.
pub open spec fn expr_text(e: Expression, prefix: Seq<u8>, is_last: bool) -> Seq<u8>
    decreases e, 0nat,
{
    let inner = child_text(prefix, is_last);
    branch_text(prefix, is_last) + match e {
        Expression::Assignment { lhs, rhs } => "Assignment\n".spec_bytes() + pattern_text(
            lhs.kind,
            prefix,
        ) + expr_text(rhs.kind, inner, true),
        Expression::Integer(i) => "Integer(".spec_bytes() + decimal(i as int) + ")\n".spec_bytes(),
        Expression::Array(items) => "Array\n".spec_bytes() + items_text(
            items@,
            inner,
            is_last,
            items@.len(),
        ),
        Expression::Tuple(items) => "Tuple\n".spec_bytes() + items_text(
            items@,
            inner,
            is_last,
            items@.len(),
        ),
        Expression::Index { target, index } => "Index\n".spec_bytes() + expr_text(
            target.kind,
            inner,
            false,
        ) + expr_text(index.kind, inner, true),
        Expression::Float(text) => "Float(".spec_bytes() + text@ + ")\n".spec_bytes(),
        Expression::String(text) => "String(\"".spec_bytes() + text@ + "\")\n".spec_bytes(),
        Expression::Identifier(name) => "Identifier(".spec_bytes() + name@ + ")\n".spec_bytes(),
        Expression::Binary { lhs, op, rhs } => "Binary(".spec_bytes() + binary_op_text(
            op,
        ).spec_bytes() + ")\n".spec_bytes() + expr_text(lhs.kind, inner, false) + expr_text(
            rhs.kind,
            inner,
            true,
        ),
        Expression::Block { statements, final_expr } => "Block\n".spec_bytes() + stmts_text(
            statements@,
            inner,
            final_expr is None,
            statements@.len(),
        ) + match final_expr {
            Some(f) => expr_text(f.kind, inner, true),
            None => seq![],
        },
        Expression::Conditional { condition, then_branch, else_branch } => "If\n".spec_bytes()
            + expr_text(condition.kind, inner, false) + expr_text(
            then_branch.kind,
            inner,
            else_branch is None,
        ) + match else_branch {
            Some(f) => expr_text(f.kind, inner, true),
            None => seq![],
        },
        Expression::FunctionCall { callee, arguments } => "Functioncall\n".spec_bytes()
            + expr_text(callee.kind, inner, is_last) + items_text(
            arguments@,
            inner,
            is_last,
            arguments@.len(),
        ),
        Expression::Function { signature, body } => "Function\n".spec_bytes() + patterns_text(
            signature.args@,
            inner,
            signature.args@.len(),
        ) + expr_text(body.kind, inner, is_last),
        _ => seq![],
    }
}

/// The renderings of the first `n` expressions of `items`, each with the
/// same prefix and the same `is_last`.
pub open spec fn items_text(items: Seq<Node<Expression>>, prefix: Seq<u8>, is_last: bool, n: nat) -> Seq<u8>
    decreases items, n,
{
    if n == 0 || n > items.len() {
        seq![]
    } else {
        items_text(items, prefix, is_last, (n - 1) as nat) + expr_text(items[n - 1].kind, prefix, is_last)
    }
}

/// The rendering of a statement node and its children.
pub open spec fn stmt_text(stmt: Statement, prefix: Seq<u8>, is_last: bool) -> Seq<u8>
    decreases stmt, 0nat,
{
    branch_text(prefix, is_last) + match stmt {
        Statement::Expression(e) => "Expression\n".spec_bytes() + expr_text(
            e.kind,
            child_text(prefix, is_last),
            true,
        ),
        _ => "Other\n".spec_bytes(),
    }
}

/// The renderings of the first `n` statements of a block's `stmts`: the
/// last statement is the last child when the block has no final
/// expression.
pub open spec fn stmts_text(stmts: Seq<Statement>, prefix: Seq<u8>, final_none: bool, n: nat) -> Seq<u8>
    decreases stmts, n,
{
    if n == 0 || n > stmts.len() {
        seq![]
    } else {
        stmts_text(stmts, prefix, final_none, (n - 1) as nat) + stmt_text(
            stmts[n - 1],
            prefix,
            n == stmts.len() && final_none,
        )
    }
}

/// The renderings of the first `n` statements of a module, each a last
/// child of the root.
pub open spec fn module_stmts_text(stmts: Seq<Statement>, n: nat) -> Seq<u8>
    decreases n,
{
    if n == 0 || n > stmts.len() {
        seq![]
    } else {
        module_stmts_text(stmts, (n - 1) as nat) + stmt_text(stmts[n - 1], seq![], true)
    }
}

/// The tree of a module.
pub open spec fn ast_text(module: Module) -> Seq<u8> {
    "\nModule: ".spec_bytes() + module.name@ + seq![10u8] + module_stmts_text(
        module.statements@,
        module.statements@.len(),
    )
}

/// `prefix` followed by the indentation under a node: blank when the node
/// is the last of its siblings, a vertical bar otherwise.
fn child_prefix(prefix: &Vec<u8>, is_last: bool) -> (r: Vec<u8>)
    ensures
        r@ == child_text(prefix@, is_last),
{
    let mut p: Vec<u8> = Vec::new();
    append_bytes(&mut p, prefix.as_slice());
    if is_last {
        append_bytes(&mut p, "    ".as_bytes());
    } else {
        append_bytes(&mut p, "\u{2502}   ".as_bytes());
    }
    p
}

/// Starts a node's line: the prefix and the branch that leads to it.
fn start_line(out: &mut Vec<u8>, prefix: &Vec<u8>, is_last: bool)
    ensures
        final(out)@ == old(out)@ + branch_text(prefix@, is_last),
{
    append_bytes(out, prefix.as_slice());
    if is_last {
        append_bytes(out, "\u{2514}\u{2500}\u{2500} ".as_bytes());
    } else {
        append_bytes(out, "\u{251c}\u{2500}\u{2500} ".as_bytes());
    }
    assert(out@ =~= old(out)@ + branch_text(prefix@, is_last));
}

fn render_pattern(out: &mut Vec<u8>, pat: &Pattern, prefix: &Vec<u8>)
    ensures
        final(out)@ == old(out)@ + pattern_text(*pat, prefix@),
{
    match pat {
        Pattern::Identifier(name) => {
            start_line(out, prefix, false);
            append_bytes(out, "Identifier(".as_bytes());
            append_bytes(out, name.as_slice());
            append_bytes(out, ")\n".as_bytes());
            assert(out@ =~= old(out)@ + pattern_text(*pat, prefix@));
        },
        _ => {
            assert(out@ =~= old(out)@ + pattern_text(*pat, prefix@));
        },
    }
}

/// Renders an expression node and its children. Nodes without a
/// rendering of their own (unary operations among them) leave their
/// line unfinished.
#[verifier::spinoff_prover]
#[verifier::rlimit(100)]
fn render_expression(out: &mut Vec<u8>, expr: &Expression, prefix: &Vec<u8>, is_last: bool)
    ensures
        final(out)@ == old(out)@ + expr_text(*expr, prefix@, is_last),
    decreases expr, 0nat,
{
    start_line(out, prefix, is_last);
    let inner = child_prefix(prefix, is_last);
    let ghost whole = old(out)@ + expr_text(*expr, prefix@, is_last);
    match expr {
        Expression::Assignment { lhs, rhs } => {
            append_bytes(out, "Assignment\n".as_bytes());
            render_pattern(out, &lhs.kind, prefix);
            render_expression(out, &rhs.kind, &inner, true);
            assert(out@ =~= whole);
        },
        Expression::Integer(i) => {
            append_bytes(out, "Integer(".as_bytes());
            let digits = decimal_bytes(*i);
            append_bytes(out, digits.as_slice());
            append_bytes(out, ")\n".as_bytes());
            assert(out@ =~= whole);
        },
        Expression::Array(items) => {
            append_bytes(out, "Array\n".as_bytes());
            let ghost mid = out@;
            assert(mid == old(out)@ + branch_text(prefix@, is_last) + "Array\n".spec_bytes());
            let mut i: usize = 0;
            while i < items.len()
                invariant
                    expr is Array,
                    expr->Array_0 == *items,
                    i <= items@.len(),
                    out@ == mid + items_text(items@, inner@, is_last, i as nat),
                decreases items@.len() - i,
            {
                proof {
                    assert(decreases_to!(expr => expr->Array_0));
                    assert(decreases_to!(expr->Array_0 => expr->Array_0@));
                    assert(decreases_to!(expr->Array_0@ => expr->Array_0@[i as int]));
                    assert(decreases_to!(expr->Array_0@[i as int] => expr->Array_0@[i as int].kind));
                }
                render_expression(out, &items[i].kind, &inner, is_last);
                assert(out@ =~= mid + items_text(items@, inner@, is_last, (i + 1) as nat));
                i = i + 1;
            }
            assert(out@ =~= whole);
        },
        Expression::Tuple(items) => {
            append_bytes(out, "Tuple\n".as_bytes());
            let ghost mid = out@;
            assert(mid == old(out)@ + branch_text(prefix@, is_last) + "Tuple\n".spec_bytes());
            let mut i: usize = 0;
            while i < items.len()
                invariant
                    expr is Tuple,
                    expr->Tuple_0 == *items,
                    i <= items@.len(),
                    out@ == mid + items_text(items@, inner@, is_last, i as nat),
                decreases items@.len() - i,
            {
                proof {
                    assert(decreases_to!(expr => expr->Tuple_0));
                    assert(decreases_to!(expr->Tuple_0 => expr->Tuple_0@));
                    assert(decreases_to!(expr->Tuple_0@ => expr->Tuple_0@[i as int]));
                    assert(decreases_to!(expr->Tuple_0@[i as int] => expr->Tuple_0@[i as int].kind));
                }
                render_expression(out, &items[i].kind, &inner, is_last);
                assert(out@ =~= mid + items_text(items@, inner@, is_last, (i + 1) as nat));
                i = i + 1;
            }
            assert(out@ =~= whole);
        },
        Expression::Index { target, index } => {
            append_bytes(out, "Index\n".as_bytes());
            render_expression(out, &target.kind, &inner, false);
            render_expression(out, &index.kind, &inner, true);
            assert(out@ =~= whole);
        },
        Expression::Float(text) => {
            append_bytes(out, "Float(".as_bytes());
            append_bytes(out, text.as_slice());
            append_bytes(out, ")\n".as_bytes());
            assert(out@ =~= whole);
        },
        Expression::String(text) => {
            append_bytes(out, "String(\"".as_bytes());
            append_bytes(out, text.as_slice());
            append_bytes(out, "\")\n".as_bytes());
            assert(out@ =~= whole);
        },
        Expression::Identifier(name) => {
            append_bytes(out, "Identifier(".as_bytes());
            append_bytes(out, name.as_slice());
            append_bytes(out, ")\n".as_bytes());
            assert(out@ =~= whole);
        },
        Expression::Binary { lhs, op, rhs } => {
            append_bytes(out, "Binary(".as_bytes());
            append_bytes(out, binary_op_name(*op).as_bytes());
            append_bytes(out, ")\n".as_bytes());
            render_expression(out, &lhs.kind, &inner, false);
            render_expression(out, &rhs.kind, &inner, true);
            assert(out@ =~= whole);
        },
        Expression::Block { statements, final_expr } => {
            append_bytes(out, "Block\n".as_bytes());
            let ghost mid = out@;
            assert(mid == old(out)@ + branch_text(prefix@, is_last) + "Block\n".spec_bytes());
            let n = statements.len();
            let mut i: usize = 0;
            while i < n
                invariant
                    n == statements@.len(),
                    i <= n,
                    expr is Block,
                    expr->Block_statements == *statements,
                    expr->Block_final_expr == *final_expr,
                    out@ == mid + stmts_text(statements@, inner@, final_expr is None, i as nat),
                decreases n - i,
            {
                proof {
                    assert(decreases_to!(expr => expr->Block_statements));
                    assert(decreases_to!(expr->Block_statements => expr->Block_statements@));
                    assert(decreases_to!(expr->Block_statements@ => expr->Block_statements@[i as int]));
                }
                let last = i + 1 == n && final_expr.is_none();
                render_statement(out, &statements[i], &inner, last);
                assert(out@ =~= mid + stmts_text(statements@, inner@, final_expr is None, (i + 1) as nat));
                i = i + 1;
            }
            match final_expr {
                Some(e) => render_expression(out, &e.kind, &inner, true),
                None => {},
            }
            assert(out@ =~= whole);
        },
        Expression::Conditional { condition, then_branch, else_branch } => {
            append_bytes(out, "If\n".as_bytes());
            render_expression(out, &condition.kind, &inner, false);
            render_expression(out, &then_branch.kind, &inner, else_branch.is_none());
            match else_branch {
                Some(e) => render_expression(out, &e.kind, &inner, true),
                None => {},
            }
            assert(out@ =~= whole);
        },
        Expression::FunctionCall { callee, arguments } => {
            append_bytes(out, "Functioncall\n".as_bytes());
            render_expression(out, &callee.kind, &inner, is_last);
            let ghost mid = out@;
            assert(mid == old(out)@ + branch_text(prefix@, is_last) + "Functioncall\n".spec_bytes()
                + expr_text(callee.kind, inner@, is_last));
            let mut i: usize = 0;
            while i < arguments.len()
                invariant
                    expr is FunctionCall,
                    expr->arguments == *arguments,
                    i <= arguments@.len(),
                    out@ == mid + items_text(arguments@, inner@, is_last, i as nat),
                decreases arguments@.len() - i,
            {
                proof {
                    assert(decreases_to!(expr => expr->arguments));
                    assert(decreases_to!(expr->arguments => expr->arguments@));
                    assert(decreases_to!(expr->arguments@ => expr->arguments@[i as int]));
                    assert(decreases_to!(expr->arguments@[i as int] => expr->arguments@[i as int].kind));
                }
                render_expression(out, &arguments[i].kind, &inner, is_last);
                assert(out@ =~= mid + items_text(arguments@, inner@, is_last, (i + 1) as nat));
                i = i + 1;
            }
            assert(out@ =~= whole);
        },
        Expression::Function { signature, body } => {
            append_bytes(out, "Function\n".as_bytes());
            let ghost mid = out@;
            assert(mid == old(out)@ + branch_text(prefix@, is_last) + "Function\n".spec_bytes());
            let mut i: usize = 0;
            while i < signature.args.len()
                invariant
                    i <= signature.args@.len(),
                    out@ == mid + patterns_text(signature.args@, inner@, i as nat),
                decreases signature.args@.len() - i,
            {
                render_pattern(out, &signature.args[i].kind, &inner);
                assert(out@ =~= mid + patterns_text(signature.args@, inner@, (i + 1) as nat));
                i = i + 1;
            }
            render_expression(out, &body.kind, &inner, is_last);
            assert(out@ =~= whole);
        },
        _ => {
            assert(out@ =~= whole);
        },
    }
}

fn render_statement(out: &mut Vec<u8>, stmt: &Statement, prefix: &Vec<u8>, is_last: bool)
    ensures
        final(out)@ == old(out)@ + stmt_text(*stmt, prefix@, is_last),
    decreases stmt, 1nat,
{
    start_line(out, prefix, is_last);
    match stmt {
        Statement::Expression(e) => {
            append_bytes(out, "Expression\n".as_bytes());
            let inner = child_prefix(prefix, is_last);
            render_expression(out, &e.kind, &inner, true);
        },
        _ => {
            append_bytes(out, "Other\n".as_bytes());
        },
    }
    assert(out@ =~= old(out)@ + stmt_text(*stmt, prefix@, is_last));
}

/// The tree of a module: a `Module: NAME` line, then each statement with
/// its subtree, children indented under their parent.
pub fn render_ast(module: &Module) -> (r: Vec<u8>)
    ensures
        r@ == ast_text(*module),
{
    let mut out: Vec<u8> = Vec::new();
    append_bytes(&mut out, "\nModule: ".as_bytes());
    append_bytes(&mut out, module.name.as_slice());
    out.push(10u8);
    let ghost mid = out@;
    assert(mid =~= "\nModule: ".spec_bytes() + module.name@ + seq![10u8]);
    let root: Vec<u8> = Vec::new();
    assert(root@ =~= Seq::<u8>::empty());
    let mut i: usize = 0;
    while i < module.statements.len()
        invariant
            i <= module.statements@.len(),
            root@ == Seq::<u8>::empty(),
            out@ == mid + module_stmts_text(module.statements@, i as nat),
        decreases module.statements@.len() - i,
    {
        render_statement(&mut out, &module.statements[i], &root, true);
        assert(out@ =~= mid + module_stmts_text(module.statements@, (i + 1) as nat));
        i = i + 1;
    }
    assert(out@ =~= ast_text(*module));
    out
}

} // verus!
