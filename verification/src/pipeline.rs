//! From tokens to code: what the parse of expression lines compiles to.
use vstd::prelude::*;
use vstd::string::StringSliceAdditionalSpecFns;
use crate::ast::{BinaryOp, Expression, Statement, UnaryOp};
use crate::bytecode::{Instruction, Opcode, Program};
use crate::codegen::{CompiledModule, binop_opcode, expr_code, module_start, regs_free, stmts_code, MAX_CODE_LEN};
use crate::linker::{fn_base, links_to, patch_instr, str_base, targets};
use crate::vm::{HEAP_CAPACITY, Status, VmModel, code_of, initial_model, run_steps, step};
use crate::parser::{ExprShape, expr_lines, lines_parsed, matches_shape};
use crate::symbols::{SymbolModel, lookup, model_intermediate, model_register};
use crate::token::{Span, Token};
use crate::value::{spec_tag_bool, spec_tag_int};

verus! {

/// Whether the symbol table binds the name `v` to a register, other than
/// the built-in printers.
pub open spec fn name_bound(v: Seq<u8>, m: SymbolModel) -> bool {
    v != "println".spec_bytes() && v != "print".spec_bytes() && lookup(m.scopes, v) is Some
}

/// The code of the expression of shape `sh` over `toks` from symbol table
/// `m` (see [`expr_code`]): read off the tokens alone.
pub open spec fn shape_code(toks: Seq<(Token, Span)>, sh: ExprShape, m: SymbolModel) -> Option<(Seq<Instruction>, nat, SymbolModel)>
    decreases sh,
{
    match sh {
        ExprShape::Atom(i) => if 0 <= i < toks.len() {
            match toks[i].0 {
                Token::Identifier(v) => if name_bound(v@, m) {
                    Some((seq![], lookup(m.scopes, v@).unwrap(), m))
                } else {
                    None
                },
                Token::Integer(x) => if regs_free(m, 1) {
                    Some((
                        seq![Instruction::spec_new(Opcode::MovConst, m.top as u64, spec_tag_int(x), 0)],
                        m.top,
                        model_intermediate(m),
                    ))
                } else {
                    None
                },
                Token::True => if regs_free(m, 1) {
                    Some((
                        seq![Instruction::spec_new(Opcode::MovConst, m.top as u64, spec_tag_bool(true), 0)],
                        m.top,
                        model_intermediate(m),
                    ))
                } else {
                    None
                },
                Token::False => if regs_free(m, 1) {
                    Some((
                        seq![Instruction::spec_new(Opcode::MovConst, m.top as u64, spec_tag_bool(false), 0)],
                        m.top,
                        model_intermediate(m),
                    ))
                } else {
                    None
                },
                _ => None,
            }
        } else {
            None
        },
        ExprShape::Unary(op, o) => match shape_code(toks, *o, m) {
            Some((c, r, m1)) => match op {
                UnaryOp::Plus => Some((c, r, m1)),
                UnaryOp::Not => if regs_free(m1, 1) && c.len() + 1 <= MAX_CODE_LEN {
                    Some((
                        c.push(Instruction::spec_new(Opcode::Not, m1.top as u64, r as u64, 0)),
                        m1.top,
                        model_intermediate(m1),
                    ))
                } else {
                    None
                },
                UnaryOp::Neg => if regs_free(m1, 2) && c.len() + 2 <= MAX_CODE_LEN {
                    Some((
                        c + seq![
                            Instruction::spec_new(Opcode::MovConst, m1.top as u64, spec_tag_int(0), 0),
                            Instruction::spec_new(
                                Opcode::Sub,
                                (m1.top + 1) as u64,
                                m1.top as u64,
                                r as u64,
                            ),
                        ],
                        m1.top + 1,
                        model_intermediate(model_intermediate(m1)),
                    ))
                } else {
                    None
                },
            },
            None => None,
        },
        ExprShape::Binary(op, l, rr) => if op != BinaryOp::And && op != BinaryOp::Or && binop_opcode(op) is Some {
            match shape_code(toks, *l, m) {
                Some((lc, lr, m1)) => match shape_code(toks, *rr, m1) {
                    Some((rc, rreg, m2)) => if regs_free(m2, 1) && lc.len() + rc.len() + 1 <= MAX_CODE_LEN {
                        Some((
                            lc + rc + seq![
                                Instruction::spec_new(
                                    binop_opcode(op).unwrap(),
                                    m2.top as u64,
                                    lr as u64,
                                    rreg as u64,
                                ),
                            ],
                            m2.top,
                            model_intermediate(m2),
                        ))
                    } else {
                        None
                    },
                    None => None,
                },
                None => None,
            }
        } else if op == BinaryOp::And || op == BinaryOp::Or {
            match shape_code(toks, *l, m) {
                Some((lc, lr, m1)) => if !regs_free(m1, if op == BinaryOp::Or { 2 } else { 1 }) {
                    None
                } else {
                    let res = m1.top;
                    let test: nat = if op == BinaryOp::Or { m1.top + 1 } else { m1.top };
                    match shape_code(toks, *rr, rhs_model(op, m1)) {
                        Some((rc, rreg, m2)) => {
                            let head = if op == BinaryOp::Or {
                                seq![
                                    Instruction::spec_new(Opcode::Mov, res as u64, lr as u64, 0),
                                    Instruction::spec_new(Opcode::Not, test as u64, res as u64, 0),
                                ]
                            } else {
                                seq![Instruction::spec_new(Opcode::Mov, res as u64, lr as u64, 0)]
                            };
                            if lc.len() + head.len() + rc.len() + 2 <= MAX_CODE_LEN {
                                Some((
                                    lc + head + seq![
                                        Instruction::spec_new(Opcode::JmpCond, (rc.len() + 1) as u64, test as u64, 0),
                                    ] + rc + seq![Instruction::spec_new(Opcode::Mov, res as u64, rreg as u64, 0)],
                                    res,
                                    m2,
                                ))
                            } else {
                                None
                            }
                        },
                        None => None,
                    }
                },
                None => None,
            }
        } else {
            None
        },
        ExprShape::Assign(a, v) => if 0 <= a < toks.len() && toks[a].0 is Identifier {
            let name = toks[a].0->Identifier_0@;
            let bound = lookup(m.scopes, name);
            let target: nat = match bound {
                Some(b) => b,
                None => m.top,
            };
            let m1 = match bound {
                Some(_) => m,
                None => model_register(m, name),
            };
            if bound is None && !regs_free(m, 1) {
                None
            } else {
                match shape_code(toks, *v, m1) {
                    Some((rc, rr, m2)) => if rc.len() + 1 <= MAX_CODE_LEN {
                        Some((
                            rc.push(Instruction::spec_new(Opcode::Mov, target as u64, rr as u64, 0)),
                            target,
                            m2,
                        ))
                    } else {
                        None
                    },
                    None => None,
                }
            }
        } else {
            None
        },
    }
}

/// The symbol table that the right operand of `op` is compiled from, after
/// the left operand left `m1`: `and` and `or` first take registers for their
/// result (and `or` one more for its test).
pub open spec fn rhs_model(op: BinaryOp, m1: SymbolModel) -> SymbolModel {
    if op == BinaryOp::Or {
        model_intermediate(model_intermediate(m1))
    } else if op == BinaryOp::And {
        model_intermediate(m1)
    } else {
        m1
    }
}

/// The code of a sequence of expression lines of shapes `shapes`: each
/// line's code in turn (see [`stmts_code`]).
pub open spec fn lines_code(toks: Seq<(Token, Span)>, shapes: Seq<ExprShape>, m: SymbolModel) -> Option<(Seq<Instruction>, SymbolModel)>
    decreases shapes.len(),
{
    if shapes.len() == 0 {
        Some((seq![], m))
    } else {
        match lines_code(toks, shapes.drop_last(), m) {
            Some((c, m1)) => match shape_code(toks, shapes.last(), m1) {
                Some((sc, _r, m2)) => if c.len() + sc.len() <= MAX_CODE_LEN {
                    Some((c + sc, m2))
                } else {
                    None
                },
                None => None,
            },
            None => None,
        }
    }
}

/// A parsed literal or name compiles as its token says.
proof fn lemma_atom_code(n: crate::ast::Node<Expression>, toks: Seq<(Token, Span)>, i: int, m: SymbolModel)
    requires
        matches_shape(n, toks, ExprShape::Atom(i)),
    ensures
        expr_code(n.kind, m) == shape_code(toks, ExprShape::Atom(i), m),
{
    match toks[i].0 {
        Token::Identifier(v) => {
            assert(n.kind->Identifier_0@ == v@);
        },
        Token::Integer(x) => {
            assert(n.kind == Expression::Integer(x));
        },
        _ => {},
    }
}

proof fn lemma_unary_code(n: crate::ast::Node<Expression>, toks: Seq<(Token, Span)>, op: UnaryOp, o: ExprShape, m: SymbolModel)
    requires
        matches_shape(n, toks, ExprShape::Unary(op, Box::new(o))),
        expr_code(n.kind->Unary_expression.kind, m) == shape_code(toks, o, m),
    ensures
        expr_code(n.kind, m) == shape_code(toks, ExprShape::Unary(op, Box::new(o)), m),
{
}

proof fn lemma_binary_code(
    n: crate::ast::Node<Expression>,
    toks: Seq<(Token, Span)>,
    op: BinaryOp,
    l: ExprShape,
    r: ExprShape,
    m: SymbolModel,
)
    requires
        matches_shape(n, toks, ExprShape::Binary(op, Box::new(l), Box::new(r))),
        expr_code(n.kind->Binary_lhs.kind, m) == shape_code(toks, l, m),
        shape_code(toks, l, m) matches Some((lc, lr, m1)) ==> expr_code(n.kind->Binary_rhs.kind, rhs_model(op, m1))
            == shape_code(toks, r, rhs_model(op, m1)),
    ensures
        expr_code(n.kind, m) == shape_code(toks, ExprShape::Binary(op, Box::new(l), Box::new(r)), m),
{
}

proof fn lemma_assign_code(n: crate::ast::Node<Expression>, toks: Seq<(Token, Span)>, a: int, v: ExprShape, m: SymbolModel)
    requires
        matches_shape(n, toks, ExprShape::Assign(a, Box::new(v))),
        ({
            let name = toks[a].0->Identifier_0@;
            let m1 = match lookup(m.scopes, name) {
                Some(_) => m,
                None => model_register(m, name),
            };
            expr_code(n.kind->Assignment_rhs.kind, m1) == shape_code(toks, v, m1)
        }),
    ensures
        expr_code(n.kind, m) == shape_code(toks, ExprShape::Assign(a, Box::new(v)), m),
{
}

/// A parsed expression compiles as its shape says: the code depends on the
/// tokens alone.
pub proof fn lemma_shape_code(n: crate::ast::Node<Expression>, toks: Seq<(Token, Span)>, sh: ExprShape, m: SymbolModel)
    requires
        matches_shape(n, toks, sh),
    ensures
        expr_code(n.kind, m) == shape_code(toks, sh, m),
    decreases sh,
{
    match sh {
        ExprShape::Atom(i) => lemma_atom_code(n, toks, i, m),
        ExprShape::Unary(op, o) => {
            let e = n.kind->Unary_expression;
            lemma_shape_code(*e, toks, *o, m);
            lemma_unary_code(n, toks, op, *o, m);
        },
        ExprShape::Binary(op, l, r) => {
            let lhs = n.kind->Binary_lhs;
            let rhs = n.kind->Binary_rhs;
            lemma_shape_code(*lhs, toks, *l, m);
            if let Some((lc, lr, m1)) = shape_code(toks, *l, m) {
                lemma_shape_code(*rhs, toks, *r, rhs_model(op, m1));
            }
            lemma_binary_code(n, toks, op, *l, *r, m);
        },
        ExprShape::Assign(a, v) => {
            let rhs = n.kind->Assignment_rhs;
            let name = toks[a].0->Identifier_0@;
            let m1 = match lookup(m.scopes, name) {
                Some(_) => m,
                None => model_register(m, name),
            };
            lemma_shape_code(*rhs, toks, *v, m1);
            lemma_assign_code(n, toks, a, *v, m);
        },
    }
}

/// Compiling the statements that parsing expression lines gives yields, line
/// after line, the code that each line's tokens call for: what a module of
/// such lines compiles to is read off its tokens.
pub proof fn law_parsed_lines_compile(toks: Seq<(Token, Span)>, stmts: Seq<Statement>, m: SymbolModel)
    requires
        expr_lines(toks, 1) is Some,
        lines_parsed(toks, stmts),
    ensures
        stmts_code(stmts, m) == lines_code(toks, expr_lines(toks, 1).unwrap(), m),
{
    lemma_lines_compile(toks, stmts, expr_lines(toks, 1).unwrap(), m);
}

proof fn lemma_lines_compile(toks: Seq<(Token, Span)>, stmts: Seq<Statement>, shapes: Seq<ExprShape>, m: SymbolModel)
    requires
        stmts.len() == shapes.len(),
        forall|k: int|
            0 <= k < shapes.len() ==> (#[trigger] stmts[k] matches Statement::Expression(n) && matches_shape(
                n,
                toks,
                shapes[k],
            )),
    ensures
        stmts_code(stmts, m) == lines_code(toks, shapes, m),
    decreases shapes.len(),
{
    if shapes.len() > 0 {
        let k = shapes.len() - 1;
        assert(stmts[k] matches Statement::Expression(n) && matches_shape(n, toks, shapes[k]));
        assert forall|j: int| 0 <= j < shapes.drop_last().len() implies (#[trigger] stmts.drop_last()[j] matches Statement::Expression(n)
            && matches_shape(n, toks, shapes.drop_last()[j])) by {
            assert(stmts[j] matches Statement::Expression(n) && matches_shape(n, toks, shapes[j]));
        }
        lemma_lines_compile(toks, stmts.drop_last(), shapes.drop_last(), m);
        if let Some((c, m1)) = lines_code(toks, shapes.drop_last(), m) {
            if let Statement::Expression(n) = stmts.last() {
                lemma_shape_code(n, toks, shapes.last(), m1);
            }
        }
    }
}

/// No instruction of `code` is a call.
pub open spec fn call_free(code: Seq<Instruction>) -> bool {
    forall|j: int| 0 <= j < code.len() ==> (#[trigger] code[j]).opcode != Opcode::Call
}

/// No code of the program calls: neither its main code nor a function.
pub open spec fn quiet(p: &Program) -> bool {
    forall|f: nat| #[trigger] call_free(code_of(p, f))
}

/// One step of a machine that is not at a call prints nothing.
proof fn lemma_quiet_step(s: VmModel, p: &Program)
    requires
        quiet(p),
    ensures
        step(s, p).out == s.out,
{
    if s.status == Status::Running && s.ip < code_of(p, s.func).len() {
        assert(call_free(code_of(p, s.func)));
        assert(code_of(p, s.func)[s.ip as int].opcode != Opcode::Call);
    }
}

/// A program that never calls prints nothing, however long it runs.
pub proof fn lemma_quiet_run(s: VmModel, p: &Program, fuel: nat)
    requires
        quiet(p),
    ensures
        run_steps(s, p, fuel).out == s.out,
    decreases fuel,
{
    if fuel > 0 && s.status == Status::Running {
        lemma_quiet_step(s, p);
        lemma_quiet_run(step(s, p), p, (fuel - 1) as nat);
    }
}

/// An operation on call-free operands holds no call.
#[verifier::spinoff_prover]
proof fn lemma_binary_call_free(toks: Seq<(Token, Span)>, op: BinaryOp, l: ExprShape, r: ExprShape, m: SymbolModel)
    requires
        shape_code(toks, ExprShape::Binary(op, Box::new(l), Box::new(r)), m) is Some,
        shape_code(toks, l, m) is Some,
        call_free(shape_code(toks, l, m).unwrap().0),
        shape_code(toks, r, rhs_model(op, shape_code(toks, l, m).unwrap().2)) is Some,
        call_free(shape_code(toks, r, rhs_model(op, shape_code(toks, l, m).unwrap().2)).unwrap().0),
    ensures
        call_free(shape_code(toks, ExprShape::Binary(op, Box::new(l), Box::new(r)), m).unwrap().0),
{
    let (lc, lr, m1) = shape_code(toks, l, m).unwrap();
    let rc = shape_code(toks, r, rhs_model(op, m1)).unwrap().0;
    let out = shape_code(toks, ExprShape::Binary(op, Box::new(l), Box::new(r)), m).unwrap().0;
    let h: int = if op == BinaryOp::Or { 3 } else if op == BinaryOp::And { 2 } else { 0 };
    assert forall|j: int| 0 <= j < out.len() implies (#[trigger] out[j]).opcode != Opcode::Call by {
        if j < lc.len() {
            assert(out[j] == lc[j]);
        } else if lc.len() + h <= j < lc.len() + h + rc.len() {
            assert(out[j] == rc[j - lc.len() - h]);
        }
    }
}

/// The code that a shape compiles to holds no call.
proof fn lemma_shape_call_free(toks: Seq<(Token, Span)>, sh: ExprShape, m: SymbolModel)
    requires
        shape_code(toks, sh, m) is Some,
    ensures
        call_free(shape_code(toks, sh, m).unwrap().0),
    decreases sh,
{
    match sh {
        ExprShape::Atom(i) => {},
        ExprShape::Unary(op, o) => {
            lemma_shape_call_free(toks, *o, m);
            let c = shape_code(toks, *o, m).unwrap().0;
            let out = shape_code(toks, sh, m).unwrap().0;
            assert forall|j: int| 0 <= j < out.len() implies (#[trigger] out[j]).opcode != Opcode::Call by {
                if j < c.len() {
                    assert(out[j] == c[j]);
                }
            }
        },
        ExprShape::Binary(op, l, r) => {
            lemma_shape_call_free(toks, *l, m);
            let (lc, lr, m1) = shape_code(toks, *l, m).unwrap();
            lemma_shape_call_free(toks, *r, rhs_model(op, m1));
            lemma_binary_call_free(toks, op, *l, *r, m);
        },
        ExprShape::Assign(a, v) => {
            let name = toks[a].0->Identifier_0@;
            let m1 = match lookup(m.scopes, name) {
                Some(_) => m,
                None => model_register(m, name),
            };
            lemma_shape_call_free(toks, *v, m1);
            let c = shape_code(toks, *v, m1).unwrap().0;
            let out = shape_code(toks, sh, m).unwrap().0;
            assert forall|j: int| 0 <= j < out.len() implies (#[trigger] out[j]).opcode != Opcode::Call by {
                if j < c.len() {
                    assert(out[j] == c[j]);
                }
            }
        },
    }
}

/// The code of expression lines holds no call.
proof fn lemma_lines_call_free(toks: Seq<(Token, Span)>, shapes: Seq<ExprShape>, m: SymbolModel)
    requires
        lines_code(toks, shapes, m) is Some,
    ensures
        call_free(lines_code(toks, shapes, m).unwrap().0),
    decreases shapes.len(),
{
    if shapes.len() > 0 {
        lemma_lines_call_free(toks, shapes.drop_last(), m);
        let (c, m1) = lines_code(toks, shapes.drop_last(), m).unwrap();
        lemma_shape_call_free(toks, shapes.last(), m1);
        let sc = shape_code(toks, shapes.last(), m1).unwrap().0;
        let out = lines_code(toks, shapes, m).unwrap().0;
        assert forall|j: int| 0 <= j < out.len() implies (#[trigger] out[j]).opcode != Opcode::Call by {
            if j < c.len() {
                assert(out[j] == c[j]);
            } else {
                assert(out[j] == sc[j - c.len()]);
            }
        }
    }
}

/// A program of expression lines prints nothing: the program that such a
/// source compiles to never calls, so the machine's output stays empty
/// whatever the lines compute.
pub proof fn law_expression_lines_print_nothing(toks: Seq<(Token, Span)>, p: Program, fuel: nat)
    requires
        expr_lines(toks, 1) matches Some(shapes) && lines_code(toks, shapes, module_start()) is Some,
        exists|cms: Seq<(Vec<u8>, CompiledModule)>|
            #![trigger links_to(cms, p)]
            {
                &&& cms.len() == 1
                &&& cms[0].1.main@ == lines_code(toks, expr_lines(toks, 1).unwrap(), module_start()).unwrap().0
                &&& cms[0].1.functions@.len() == 0
                &&& links_to(cms, p)
            },
    ensures
        run_steps(initial_model(HEAP_CAPACITY as nat), &p, fuel).out.len() == 0,
{
    let cms = choose|cms: Seq<(Vec<u8>, CompiledModule)>|
        {
            &&& cms.len() == 1
            &&& cms[0].1.main@ == lines_code(toks, expr_lines(toks, 1).unwrap(), module_start()).unwrap().0
            &&& cms[0].1.functions@.len() == 0
            &&& links_to(cms, p)
        };
    lemma_lines_call_free(toks, expr_lines(toks, 1).unwrap(), module_start());
    let main = cms[0].1.main@;
    assert(fn_base(cms, 0) == 2);
    assert(fn_base(cms, 1) == 2);
    assert forall|f: nat| #[trigger] call_free(code_of(&p, f)) by {
        if f == 0 {
            assert forall|j: int| 0 <= j < p.main@.len() implies (#[trigger] p.main@[j]).opcode != Opcode::Call by {
                assert(p.main@[j] == patch_instr(main[j], fn_base(cms, 0), str_base(cms, 0), targets(cms, 0)));
                assert(main[j].opcode != Opcode::Call);
            }
        }
    }
    lemma_quiet_run(initial_model(HEAP_CAPACITY as nat), &p, fuel);
}

} // verus!
