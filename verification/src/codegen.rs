//! The code generator: from a module's syntax tree to bytecode that the
//! linker can relocate.
//!
//! What it promises of its output, for every module it compiles, is
//! [`code_ok`]: every register operand names one of the machine's
//! registers, every jump lands inside the code it belongs to, and every
//! string, local function and import that an instruction names exists.
use vstd::prelude::*;
use vstd::string::StringSliceAdditionalSpecFns;
use crate::ast::{BinaryOp, Expression, Module, Pattern, Statement, UnaryOp};
use crate::bytecode::{CompiledFunction, Instruction, Opcode};
use crate::symbols::{
    CompileError, SymbolModel, SymbolTable, bytes_equal, lookup, model_intermediate, model_push_scope,
    model_pop_scope, model_register, model_wf, FIRST_FREE_REGISTER,
};
use crate::token::copy_bytes;
use crate::linker::last_export;
use crate::value::{spec_tag_bool, spec_tag_int, tag_bool, tag_int};
use crate::vm::NR_OF_REGISTERS;

verus! {

/// The `op1` of a jump that stands for `break` until its loop is known.
pub const BREAK_MARK: u64 = 1;

/// The `op1` of a backward jump that stands for `continue` until its loop
/// is known.
pub const CONTINUE_MARK: u64 = 2;

/// How many values a call can pass: registers 1 to 9.
pub const MAX_ARGUMENTS: usize = 9;

/// The longest code sequence the generator builds.
pub const MAX_CODE_LEN: usize = 0x1000_0000;

pub open spec fn is_reg(x: u64) -> bool {
    x < NR_OF_REGISTERS
}

/// How many strings, local functions and imports a module has so far.
pub type Counts = (nat, nat, nat);

/// Instruction `ins` at position `j` of code of length `len` is sound:
/// its registers exist, its jump stays within `0..=len`, and the string,
/// local function or import it names is among the first `k`.
pub open spec fn instr_ok(ins: Instruction, j: int, len: nat, k: Counts) -> bool {
    match ins.opcode {
        Opcode::Mov | Opcode::Not => is_reg(ins.op0) && is_reg(ins.op1),
        Opcode::MovConst => is_reg(ins.op0),
        Opcode::Jmp => j + ins.op0 + 1 <= len && (ins.op1 == 0 || ins.op1 == BREAK_MARK),
        Opcode::JmpCond => j + ins.op0 + 1 <= len && is_reg(ins.op1),
        Opcode::JmpBack => ins.op0 <= j && (ins.op1 == 0 || ins.op1 == CONTINUE_MARK),
        Opcode::Call => is_reg(ins.op0),
        Opcode::Return | Opcode::Halt => true,
        Opcode::LoadString => is_reg(ins.op0) && ins.op1 < k.0,
        Opcode::CreateArray => is_reg(ins.op0),
        Opcode::LoadLocalFn => is_reg(ins.op0) && ins.op1 < k.1,
        Opcode::LoadImport => is_reg(ins.op0) && ins.op1 < k.2,
        Opcode::COUNT => false,
        _ => is_reg(ins.op0) && is_reg(ins.op1) && is_reg(ins.op2),
    }
}

/// Every instruction of `code` is sound (see [`instr_ok`]) when forward
/// jumps may also land up to `slack` positions past its end, where code
/// that follows will stand.
pub open spec fn code_ok_ext(code: Seq<Instruction>, k: Counts, slack: nat) -> bool {
    forall|j: int| 0 <= j < code.len() ==> instr_ok(#[trigger] code[j], j, code.len() + slack, k)
}

/// Every instruction of `code` is sound (see [`instr_ok`]).
pub open spec fn code_ok(code: Seq<Instruction>, k: Counts) -> bool {
    code_ok_ext(code, k, 0)
}

pub open spec fn is_break(ins: Instruction) -> bool {
    ins.opcode == Opcode::Jmp && ins.op1 == BREAK_MARK
}

pub open spec fn is_continue(ins: Instruction) -> bool {
    ins.opcode == Opcode::JmpBack && ins.op1 == CONTINUE_MARK
}

/// No `break` or `continue` in `code` waits for its loop.
pub open spec fn settled(code: Seq<Instruction>) -> bool {
    forall|j: int| 0 <= j < code.len() ==> !is_break(#[trigger] code[j]) && !is_continue(code[j])
}

pub open spec fn counts_le(a: Counts, b: Counts) -> bool {
    a.0 <= b.0 && a.1 <= b.1 && a.2 <= b.2
}

/// Sound code stays sound when more strings, functions and imports exist.
pub proof fn lemma_code_mono(code: Seq<Instruction>, a: Counts, b: Counts, slack: nat)
    requires
        code_ok_ext(code, a, slack),
        counts_le(a, b),
    ensures
        code_ok_ext(code, b, slack),
{
    assert forall|j: int| 0 <= j < code.len() implies instr_ok(#[trigger] code[j], j, code.len() + slack, b) by {
        assert(instr_ok(code[j], j, code.len() + slack, a));
    }
}

/// Code put after code is sound when each part's jumps land within the
/// whole: jumps are relative, so a part's jumps move with it.
pub proof fn lemma_code_concat(
    a: Seq<Instruction>,
    b: Seq<Instruction>,
    k: Counts,
    sa: nat,
    sb: nat,
    s: nat,
)
    requires
        code_ok_ext(a, k, sa),
        code_ok_ext(b, k, sb),
        sa <= b.len() + s,
        sb <= s,
    ensures
        code_ok_ext(a + b, k, s),
        settled(a) && settled(b) ==> settled(a + b),
{
    let c = a + b;
    assert forall|j: int| 0 <= j < c.len() implies instr_ok(#[trigger] c[j], j, c.len() + s, k) by {
        if j < a.len() {
            assert(c[j] == a[j]);
            assert(instr_ok(a[j], j, a.len() + sa, k));
        } else {
            assert(c[j] == b[j - a.len()]);
            assert(instr_ok(b[j - a.len()], j - a.len(), b.len() + sb, k));
        }
    }
    if settled(a) && settled(b) {
        assert forall|j: int| 0 <= j < c.len() implies !is_break(#[trigger] c[j]) && !is_continue(c[j]) by {
            if j < a.len() {
                assert(c[j] == a[j]);
            } else {
                assert(c[j] == b[j - a.len()]);
            }
        }
    }
}

/// A single instruction, sound where it stands with `slack` positions of
/// code after it.
pub proof fn lemma_code_single(ins: Instruction, k: Counts, slack: nat)
    requires
        instr_ok(ins, 0, 1 + slack, k),
    ensures
        code_ok_ext(seq![ins], k, slack),
        !is_break(ins) && !is_continue(ins) ==> settled(seq![ins]),
{
    assert(seq![ins][0] == ins);
}

/// Empty code is sound and settled.
pub proof fn lemma_code_empty(k: Counts, slack: nat)
    ensures
        code_ok_ext(Seq::<Instruction>::empty(), k, slack),
        settled(Seq::<Instruction>::empty()),
{
}

/// A module's code, ready for the linker: the main code, the local
/// functions, the string constants, the exported names with the local
/// functions they stand for, and the imports as (module path, name).
pub struct CompiledModule {
    pub main: Vec<Instruction>,
    pub functions: Vec<CompiledFunction>,
    pub strings: Vec<Vec<u8>>,
    pub exports: Vec<(Vec<u8>, usize)>,
    pub imports: Vec<(Vec<u8>, Vec<u8>)>,
}

/// Every function's code is sound and settled.
pub open spec fn funcs_ok(fs: Seq<CompiledFunction>, k: Counts) -> bool {
    forall|i: int|
        0 <= i < fs.len() ==> code_ok(#[trigger] fs[i].code_block@, k) && settled(fs[i].code_block@)
            && fs[i].code_block@.len() <= MAX_CODE_LEN
}

pub proof fn lemma_funcs_mono(fs: Seq<CompiledFunction>, a: Counts, b: Counts)
    requires
        funcs_ok(fs, a),
        counts_le(a, b),
    ensures
        funcs_ok(fs, b),
{
    assert forall|i: int| 0 <= i < fs.len() implies code_ok(#[trigger] fs[i].code_block@, b) && settled(
        fs[i].code_block@,
    ) && fs[i].code_block@.len() <= MAX_CODE_LEN by {
        lemma_code_mono(fs[i].code_block@, a, b, 0);
    }
}

/// What the linker may rely on of a compiled module.
pub open spec fn module_ok(cm: CompiledModule) -> bool {
    let k = (cm.strings@.len(), cm.functions@.len(), cm.imports@.len());
    &&& code_ok(cm.main@, k)
    &&& settled(cm.main@)
    &&& cm.main@.len() <= MAX_CODE_LEN
    &&& funcs_ok(cm.functions@, k)
    &&& forall|i: int| 0 <= i < cm.exports@.len() ==> #[trigger] cm.exports@[i].1 < cm.functions@.len()
}

/// The state of compiling one module.
pub struct Compiler {
    pub main: Vec<Instruction>,
    pub functions: Vec<CompiledFunction>,
    pub strings: Vec<Vec<u8>>,
    pub exports: Vec<(Vec<u8>, usize)>,
    pub imports: Vec<(Vec<u8>, Vec<u8>)>,
    /// Imported modules: the name they go by, and their path.
    pub modules: Vec<(Vec<u8>, Vec<u8>)>,
    /// Imported names: the name they go by, and their import.
    pub imported: Vec<(Vec<u8>, usize)>,
    /// Whether the code being compiled lies inside a loop.
    pub in_loop: bool,
}

impl Compiler {
    pub open spec fn counts(&self) -> Counts {
        (self.strings@.len(), self.functions@.len(), self.imports@.len())
    }

    pub open spec fn wf(&self) -> bool {
        &&& funcs_ok(self.functions@, self.counts())
        &&& forall|i: int| 0 <= i < self.exports@.len() ==> #[trigger] self.exports@[i].1 < self.functions@.len()
        &&& forall|i: int| 0 <= i < self.imported@.len() ==> #[trigger] self.imported@[i].1 < self.imports@.len()
    }

    /// `b` is `a` after more compiling: nothing was taken away.
    pub open spec fn grew(a: Compiler, b: Compiler) -> bool {
        &&& counts_le(a.counts(), b.counts())
        &&& b.wf()
    }

    pub fn new() -> (r: Self)
        ensures
            r.wf(),
            r.counts() == (0nat, 0nat, 0nat),
            !r.in_loop,
            r.main@.len() == 0,
            r.exports@.len() == 0,
            r.modules@.len() == 0,
            r.imported@.len() == 0,
    {
        Compiler {
            main: Vec::new(),
            functions: Vec::new(),
            strings: Vec::new(),
            exports: Vec::new(),
            imports: Vec::new(),
            modules: Vec::new(),
            imported: Vec::new(),
            in_loop: false,
        }
    }
}


/// What every compiling step keeps, whatever it returns: nothing compiled
/// so far is lost and the symbol table stays well formed.
pub open spec fn step_kept(a: Compiler, b: Compiler, sb: crate::symbols::SymbolModel) -> bool {
    &&& Compiler::grew(a, b)
    &&& b.main == a.main
    &&& model_wf(sb)
}

/// What a successful step gives besides: the scopes as they were, the loop
/// flag as it was, and sound code of bounded length that is settled when
/// it does not lie in a loop.
pub open spec fn step_ok(
    a: Compiler,
    b: Compiler,
    sa: crate::symbols::SymbolModel,
    sb: crate::symbols::SymbolModel,
    code: Seq<Instruction>,
) -> bool {
    &&& sb.scopes.len() == sa.scopes.len()
    &&& sb.scopes.take(sa.scopes.len() - 1) == sa.scopes.take(sa.scopes.len() - 1)
    &&& b.in_loop == a.in_loop
    &&& code_ok(code, b.counts())
    &&& (!a.in_loop ==> settled(code))
    &&& code.len() <= MAX_CODE_LEN
}

/// An assignment to a name that a scope already binds writes into that
/// name's register, and that register holds the assignment's value: a
/// variable is declared by its first assignment and mutated by the later
/// ones.
pub open spec fn assigns_existing(e: Expression, before: crate::symbols::SymbolModel, code: Seq<Instruction>, reg: usize) -> bool {
    e matches Expression::Assignment { lhs, .. } ==> (lhs.kind matches Pattern::Identifier(name) ==> (
    crate::symbols::lookup(before.scopes, name@) matches Some(bound) ==> {
        &&& reg == bound
        &&& code.len() > 0
        &&& code.last().opcode == Opcode::Mov
        &&& code.last().op0 == bound
    }))
}

/// The opcode of a value-producing binary operation; `and`, `or` and the
/// assignment forms have none.
pub open spec fn binop_opcode(op: BinaryOp) -> Option<Opcode> {
    match op {
        BinaryOp::Add => Some(Opcode::Add),
        BinaryOp::Sub => Some(Opcode::Sub),
        BinaryOp::Mul => Some(Opcode::Mul),
        BinaryOp::Div => Some(Opcode::Div),
        BinaryOp::Mod => Some(Opcode::Mod),
        BinaryOp::Pow => Some(Opcode::Pow),
        BinaryOp::Lt => Some(Opcode::LT),
        BinaryOp::Gt => Some(Opcode::GT),
        BinaryOp::GEq => Some(Opcode::GEq),
        BinaryOp::LEq => Some(Opcode::LEq),
        BinaryOp::Eq => Some(Opcode::Eq),
        BinaryOp::NEq => Some(Opcode::NEq),
        _ => None,
    }
}

/// `dst := lhs OP rhs`, for an operation that has an opcode.
pub fn binary_instruction(op: BinaryOp, dst: usize, lhs: usize, rhs: usize) -> (r: Option<Instruction>)
    ensures
        match binop_opcode(op) {
            Some(opc) => r == Some(Instruction::spec_new(opc, dst as u64, lhs as u64, rhs as u64)),
            None => r is None,
        },
{
    match op {
        BinaryOp::Add => Some(Instruction::add(dst, lhs, rhs)),
        BinaryOp::Sub => Some(Instruction::sub(dst, lhs, rhs)),
        BinaryOp::Mul => Some(Instruction::mul(dst, lhs, rhs)),
        BinaryOp::Div => Some(Instruction::div(dst, lhs, rhs)),
        BinaryOp::Mod => Some(Instruction::mod_(dst, lhs, rhs)),
        BinaryOp::Pow => Some(Instruction::pow(dst, lhs, rhs)),
        BinaryOp::Lt => Some(Instruction::lt(dst, lhs, rhs)),
        BinaryOp::Gt => Some(Instruction::gt(dst, lhs, rhs)),
        BinaryOp::GEq => Some(Instruction::geq(dst, lhs, rhs)),
        BinaryOp::LEq => Some(Instruction::leq(dst, lhs, rhs)),
        BinaryOp::Eq => Some(Instruction::eq(dst, lhs, rhs)),
        BinaryOp::NEq => Some(Instruction::neq(dst, lhs, rhs)),
        _ => None,
    }
}

/// `a` then `b`, or `ProgramTooLarge` when that would be too long.
fn concat(
    a: Vec<Instruction>,
    b: Vec<Instruction>,
    Ghost(k): Ghost<Counts>,
    Ghost(sa): Ghost<nat>,
    Ghost(sb): Ghost<nat>,
    Ghost(s): Ghost<nat>,
) -> (r: Result<Vec<Instruction>, CompileError>)
    requires
        code_ok_ext(a@, k, sa),
        code_ok_ext(b@, k, sb),
        sa <= b@.len() + s,
        sb <= s,
    ensures
        r matches Ok(c) ==> {
            &&& c@ == a@ + b@
            &&& code_ok_ext(c@, k, s)
            &&& (settled(a@) && settled(b@) ==> settled(c@))
            &&& c@.len() <= MAX_CODE_LEN
        },
        r matches Err(e) ==> e == CompileError::ProgramTooLarge,
        r is Ok <==> a@.len() + b@.len() <= MAX_CODE_LEN,
{
    if a.len() > MAX_CODE_LEN || b.len() > MAX_CODE_LEN - a.len() {
        return Err(CompileError::ProgramTooLarge);
    }
    proof {
        lemma_code_concat(a@, b@, k, sa, sb, s);
    }
    let mut c = a;
    let mut d = b;
    c.append(&mut d);
    Ok(c)
}

/// One instruction as code.
fn single(ins: Instruction) -> (r: Vec<Instruction>)
    ensures
        r@ == seq![ins],
{
    let mut v: Vec<Instruction> = Vec::new();
    v.push(ins);
    assert(v@ =~= seq![ins]);
    v
}

/// `e` is a name that a scope of `m` binds, other than the built-in
/// `print` and `println`: its value already lies in a register.
pub open spec fn bound_name(e: Expression, m: SymbolModel) -> bool {
    e matches Expression::Identifier(n) && n@ != "println".spec_bytes() && n@ != "print".spec_bytes()
        && lookup(m.scopes, n@) is Some
}

/// The register that a bound name lies in (see [`bound_name`]).
pub open spec fn name_reg(e: Expression, m: SymbolModel) -> nat {
    lookup(m.scopes, e->Identifier_0@).unwrap()
}

/// `e` is a name that is neither built in, nor bound by a scope of `m`, nor
/// imported into `c`.
pub open spec fn unknown_name(e: Expression, c: Compiler, m: SymbolModel) -> bool {
    e matches Expression::Identifier(n) && n@ != "println".spec_bytes() && n@ != "print".spec_bytes()
        && lookup(m.scopes, n@) is None && last_entry(c.imported@, n@, c.imported@.len() as int) is None
}

/// The code that an expression compiles to from symbol table `m`: its
/// instructions, the register that holds its value, and the table after it.
/// Defined for bound names, integer and boolean literals, the unary
/// operators, the arithmetic and comparison operators, assignments to a
/// name, and conditionals whose parts are such expressions; operands are
/// compiled left before right into fresh registers. `None` outside that
/// fragment, and where the registers or the code length run out.
pub open spec fn expr_code(e: Expression, m: SymbolModel) -> Option<(Seq<Instruction>, nat, SymbolModel)>
    decreases e,
{
    match e {
        Expression::Identifier(_) => if bound_name(e, m) {
            Some((seq![], name_reg(e, m), m))
        } else {
            None
        },
        Expression::Integer(v) => if regs_free(m, 1) {
            Some((
                seq![Instruction::spec_new(Opcode::MovConst, m.top as u64, spec_tag_int(v), 0)],
                m.top,
                model_intermediate(m),
            ))
        } else {
            None
        },
        Expression::Boolean(b) => if regs_free(m, 1) {
            Some((
                seq![Instruction::spec_new(Opcode::MovConst, m.top as u64, spec_tag_bool(b), 0)],
                m.top,
                model_intermediate(m),
            ))
        } else {
            None
        },
        Expression::Unary { op, expression } => match expr_code(expression.kind, m) {
            Some((c, r, m1)) => match op {
                UnaryOp::Plus => Some((c, r, m1)),
                UnaryOp::Not => if regs_free(m1, 1) && c.len() + 1 <= MAX_CODE_LEN {
                    Some((
                        c.push(Instruction::spec_new(Opcode::Not, m1.top as u64, r as u64, 0)),
                        m1.top,
                        model_intermediate(m1),
                    ))
                } else {
                    None
                },
                UnaryOp::Neg => if regs_free(m1, 2) && c.len() + 2 <= MAX_CODE_LEN {
                    Some((
                        c + seq![
                            Instruction::spec_new(Opcode::MovConst, m1.top as u64, spec_tag_int(0), 0),
                            Instruction::spec_new(
                                Opcode::Sub,
                                (m1.top + 1) as u64,
                                m1.top as u64,
                                r as u64,
                            ),
                        ],
                        m1.top + 1,
                        model_intermediate(model_intermediate(m1)),
                    ))
                } else {
                    None
                },
            },
            None => None,
        },
        Expression::Binary { lhs, op, rhs } => if op != BinaryOp::And && op != BinaryOp::Or
            && binop_opcode(op) is Some {
            match expr_code(lhs.kind, m) {
                Some((lc, lr, m1)) => match expr_code(rhs.kind, m1) {
                    Some((rc, rr, m2)) => if regs_free(m2, 1) && lc.len() + rc.len() + 1 <= MAX_CODE_LEN {
                        Some((
                            lc + rc + seq![
                                Instruction::spec_new(
                                    binop_opcode(op).unwrap(),
                                    m2.top as u64,
                                    lr as u64,
                                    rr as u64,
                                ),
                            ],
                            m2.top,
                            model_intermediate(m2),
                        ))
                    } else {
                        None
                    },
                    None => None,
                },
                None => None,
            }
        } else if op == BinaryOp::And || op == BinaryOp::Or {
            match expr_code(lhs.kind, m) {
                Some((lc, lr, m1)) => if !regs_free(m1, if op == BinaryOp::Or { 2 } else { 1 }) {
                    None
                } else {
                    let res = m1.top;
                    let test: nat = if op == BinaryOp::Or { m1.top + 1 } else { m1.top };
                    let mr = if op == BinaryOp::Or {
                        model_intermediate(model_intermediate(m1))
                    } else {
                        model_intermediate(m1)
                    };
                    match expr_code(rhs.kind, mr) {
                        Some((rc, rr, m2)) => {
                            let head = if op == BinaryOp::Or {
                                seq![
                                    Instruction::spec_new(Opcode::Mov, res as u64, lr as u64, 0),
                                    Instruction::spec_new(Opcode::Not, test as u64, res as u64, 0),
                                ]
                            } else {
                                seq![Instruction::spec_new(Opcode::Mov, res as u64, lr as u64, 0)]
                            };
                            if lc.len() + head.len() + rc.len() + 2 <= MAX_CODE_LEN {
                                Some((
                                    lc + head + seq![
                                        Instruction::spec_new(Opcode::JmpCond, (rc.len() + 1) as u64, test as u64, 0),
                                    ] + rc + seq![Instruction::spec_new(Opcode::Mov, res as u64, rr as u64, 0)],
                                    res,
                                    m2,
                                ))
                            } else {
                                None
                            }
                        },
                        None => None,
                    }
                },
                None => None,
            }
        } else {
            None
        },
        Expression::Conditional { condition, then_branch, else_branch } => match expr_code(
            condition.kind,
            m,
        ) {
            Some((cc, cr, m1)) => match expr_code(then_branch.kind, m1) {
                Some((tc, tr, m2)) => if !regs_free(m2, 1) {
                    None
                } else {
                    let fin = m2.top;
                    let m3 = model_intermediate(m2);
                    match else_branch {
                        Some(els) => match expr_code(els.kind, m3) {
                            Some((ec, er, m4)) => if cc.len() + tc.len() + ec.len() + 4 <= MAX_CODE_LEN {
                                Some((
                                    cc + seq![
                                        Instruction::spec_new(
                                            Opcode::JmpCond,
                                            (tc.len() + 2) as u64,
                                            cr as u64,
                                            0,
                                        ),
                                    ] + tc + seq![
                                        Instruction::spec_new(Opcode::Mov, fin as u64, tr as u64, 0),
                                        Instruction::spec_new(Opcode::Jmp, (ec.len() + 1) as u64, 0, 0),
                                    ] + ec + seq![Instruction::spec_new(Opcode::Mov, fin as u64, er as u64, 0)],
                                    fin,
                                    m4,
                                ))
                            } else {
                                None
                            },
                            None => None,
                        },
                        None => if cc.len() + tc.len() + 1 <= MAX_CODE_LEN {
                            Some((
                                cc + seq![
                                    Instruction::spec_new(Opcode::JmpCond, tc.len() as u64, cr as u64, 0),
                                ] + tc,
                                fin,
                                m3,
                            ))
                        } else {
                            None
                        },
                    }
                },
                None => None,
            },
            None => None,
        },
        Expression::Assignment { lhs, rhs } => match lhs.kind {
            Pattern::Identifier(name) => {
                let bound = lookup(m.scopes, name@);
                let target: nat = match bound {
                    Some(b) => b,
                    None => m.top,
                };
                let m1 = match bound {
                    Some(_) => m,
                    None => model_register(m, name@),
                };
                if bound is None && !regs_free(m, 1) {
                    None
                } else {
                    match expr_code(rhs.kind, m1) {
                        Some((rc, rr, m2)) => if rc.len() + 1 <= MAX_CODE_LEN {
                            Some((
                                rc.push(Instruction::spec_new(Opcode::Mov, target as u64, rr as u64, 0)),
                                target,
                                m2,
                            ))
                        } else {
                            None
                        },
                        None => None,
                    }
                }
            },
            _ => None,
        },
        _ => None,
    }
}

/// The code of a call's arguments from symbol table `m`: each argument's
/// code in turn (see [`expr_code`]), the register that holds each
/// argument's value, in the order the arguments are written, and the table
/// after them.
pub open spec fn args_code(args: Seq<crate::ast::Node<Expression>>, m: SymbolModel) -> Option<
    (Seq<Instruction>, Seq<nat>, SymbolModel),
>
    decreases args.len(),
{
    if args.len() == 0 {
        Some((seq![], seq![], m))
    } else {
        match args_code(args.drop_last(), m) {
            Some((c, rs, m1)) => match expr_code(args.last().kind, m1) {
                Some((ac, ar, m2)) => if c.len() + ac.len() <= MAX_CODE_LEN {
                    Some((c + ac, rs.push(ar), m2))
                } else {
                    None
                },
                None => None,
            },
            None => None,
        }
    }
}

/// The code that fills array register `arr` with `elems` from symbol table
/// `m`: for each element in turn, its code (see [`expr_code`]), then its
/// index `k` put into a fresh register, then a store of the element's value
/// at index `k`; with the instruction that creates the array, all of it fits
/// in the code length. With the table after it.
pub open spec fn elems_code(elems: Seq<crate::ast::Node<Expression>>, m: SymbolModel, arr: nat) -> Option<
    (Seq<Instruction>, SymbolModel),
>
    decreases elems.len(),
{
    if elems.len() == 0 {
        Some((seq![], m))
    } else {
        match elems_code(elems.drop_last(), m, arr) {
            Some((c, m1)) => match expr_code(elems.last().kind, m1) {
                Some((ec, er, m2)) => if regs_free(m2, 1) && c.len() + ec.len() + 4 <= MAX_CODE_LEN {
                    Some((
                        c + ec + seq![
                            Instruction::spec_new(
                                Opcode::MovConst,
                                m2.top as u64,
                                spec_tag_int((elems.len() - 1) as i64),
                                0,
                            ),
                            Instruction::spec_new(Opcode::StoreIndex, arr as u64, m2.top as u64, er as u64),
                        ],
                        model_intermediate(m2),
                    ))
                } else {
                    None
                },
                None => None,
            },
            None => None,
        }
    }
}

/// One more element: the code so far, the element's code, its index and
/// its store.
proof fn lemma_elems_step(elems: Seq<crate::ast::Node<Expression>>, m: SymbolModel, arr: nat, i: int)
    requires
        0 <= i < elems.len(),
        elems_code(elems.take(i + 1), m, arr) is Some,
    ensures
        ({
            let (c, m1) = elems_code(elems.take(i), m, arr).unwrap();
            let (ec, er, m2) = expr_code(elems[i].kind, m1).unwrap();
            &&& elems_code(elems.take(i), m, arr) is Some
            &&& expr_code(elems[i].kind, m1) is Some
            &&& regs_free(m2, 1)
            &&& c.len() + ec.len() + 4 <= MAX_CODE_LEN
            &&& elems_code(elems.take(i + 1), m, arr) == Some((
                c + ec + seq![
                    Instruction::spec_new(Opcode::MovConst, m2.top as u64, spec_tag_int(i as i64), 0),
                    Instruction::spec_new(Opcode::StoreIndex, arr as u64, m2.top as u64, er as u64),
                ],
                model_intermediate(m2),
            ))
        }),
{
    assert(elems.take(i + 1).drop_last() =~= elems.take(i));
    assert(elems.take(i + 1).last() == elems[i]);
}

/// Elements in the fragment have every prefix in it.
proof fn lemma_elems_prefix(elems: Seq<crate::ast::Node<Expression>>, m: SymbolModel, arr: nat, j: int)
    requires
        0 <= j <= elems.len(),
        elems_code(elems, m, arr) is Some,
    ensures
        elems_code(elems.take(j), m, arr) is Some,
    decreases elems.len(),
{
    if j == elems.len() {
        assert(elems.take(j) =~= elems);
    } else {
        lemma_elems_prefix(elems.drop_last(), m, arr, j);
        assert(elems.drop_last().take(j) =~= elems.take(j));
    }
}

/// Arguments in the fragment have every prefix in it.
proof fn lemma_args_prefix(args: Seq<crate::ast::Node<Expression>>, m: SymbolModel, j: int)
    requires
        0 <= j <= args.len(),
        args_code(args, m) is Some,
    ensures
        args_code(args.take(j), m) is Some,
    decreases args.len(),
{
    if j == args.len() {
        assert(args.take(j) =~= args);
    } else {
        lemma_args_prefix(args.drop_last(), m, j);
        assert(args.drop_last().take(j) =~= args.take(j));
    }
}

/// Whether `e` names one of the built-in printers.
pub open spec fn is_printer_name(e: Expression) -> bool {
    e matches Expression::Identifier(n) && (n@ == "println".spec_bytes() || n@ == "print".spec_bytes())
}

/// The code that puts the function a call calls into a register: a
/// printer is the function value 0 in a fresh register; otherwise the
/// callee's code (see [`expr_code`]).
pub open spec fn callee_code(e: Expression, m: SymbolModel) -> Option<(Seq<Instruction>, nat, SymbolModel)> {
    if is_printer_name(e) {
        if regs_free(m, 1) {
            Some((seq![Instruction::spec_new(Opcode::MovConst, m.top as u64, 0, 0)], m.top, model_intermediate(m)))
        } else {
            None
        }
    } else {
        expr_code(e, m)
    }
}

/// The code of a call whose arguments' code is `pre` (followed by the
/// callee's), whose arguments' values lie in registers `regs` in the order
/// the arguments are written, and whose callee lies in register `callee`:
/// argument `k` (counting from 1) is copied into register `k`, the
/// callee's parameter `k`; then the call; then the result, which the
/// callee leaves in register 0, is copied into register `res`.
pub open spec fn call_layout(code: Seq<Instruction>, pre: Seq<Instruction>, regs: Seq<nat>, callee: nat, res: nat) -> bool {
    let n = regs.len() as int;
    let b = pre.len() as int;
    &&& code.len() == b + n + 2
    &&& code.take(b) == pre
    &&& forall|k: int| 1 <= k <= n ==> #[trigger] code[b + k - 1] == Instruction::spec_new(
        Opcode::Mov,
        k as u64,
        regs[k - 1] as u64,
        0,
    )
    &&& code[b + n] == Instruction::spec_new(Opcode::Call, callee as u64, 0, 0)
    &&& code[b + n + 1] == Instruction::spec_new(Opcode::Mov, res as u64, 0, 0)
}

/// The code of a statement inside a loop, and the symbol table after it:
/// an expression statement is its expression's code (see [`expr_code`]);
/// `break` and `continue` are jumps that wait for their loop (see
/// [`is_break`], [`is_continue`]).
pub open spec fn loop_stmt_code(s: Statement, m: SymbolModel) -> Option<(Seq<Instruction>, SymbolModel)> {
    match s {
        Statement::Expression(node) => match expr_code(node.kind, m) {
            Some((c, _r, m1)) => Some((c, m1)),
            None => None,
        },
        Statement::Break => Some((seq![Instruction::spec_new(Opcode::Jmp, 0, BREAK_MARK, 0)], m)),
        Statement::Continue => Some((seq![Instruction::spec_new(Opcode::JmpBack, 0, CONTINUE_MARK, 0)], m)),
        _ => None,
    }
}

/// No statement of `stmts` is a `break` or a `continue`.
pub open spec fn jump_free(stmts: Seq<Statement>) -> bool {
    forall|k: int| 0 <= k < stmts.len() ==> !(#[trigger] stmts[k] is Break) && !(stmts[k] is Continue)
}

/// The code of statements inside a loop: each statement's code in turn.
pub open spec fn loop_stmts_code(stmts: Seq<Statement>, m: SymbolModel) -> Option<(Seq<Instruction>, SymbolModel)>
    decreases stmts.len(),
{
    if stmts.len() == 0 {
        Some((seq![], m))
    } else {
        match loop_stmts_code(stmts.drop_last(), m) {
            Some((c, m1)) => match loop_stmt_code(stmts.last(), m1) {
                Some((sc, m2)) => if c.len() + sc.len() <= MAX_CODE_LEN {
                    Some((c + sc, m2))
                } else {
                    None
                },
                None => None,
            },
            None => None,
        }
    }
}

/// Statements in the loop fragment have every prefix in it.
proof fn lemma_loop_stmts_prefix(stmts: Seq<Statement>, m: SymbolModel, j: int)
    requires
        0 <= j <= stmts.len(),
        loop_stmts_code(stmts, m) is Some,
    ensures
        loop_stmts_code(stmts.take(j), m) is Some,
    decreases stmts.len(),
{
    if j == stmts.len() {
        assert(stmts.take(j) =~= stmts);
    } else {
        lemma_loop_stmts_prefix(stmts.drop_last(), m, j);
        assert(stmts.drop_last().take(j) =~= stmts.take(j));
    }
}

/// The code of a block inside a loop whose statements are in the loop
/// fragment (see [`loop_stmts_code`]) and whose value, if it has one, is an
/// expression of [`expr_code`]: the statements' code in a scope of the
/// block's own, then the value copied into a fresh register of the
/// enclosing scope. With the table after the block.
pub open spec fn loop_block_code(e: Expression, m: SymbolModel) -> Option<(Seq<Instruction>, SymbolModel)> {
    match e {
        Expression::Block { statements, final_expr } => match loop_stmts_code(statements@, model_push_scope(m)) {
            Some((c, m1)) => match final_expr {
                None => Some((c, model_pop_scope(m1))),
                Some(fe) => match expr_code(fe.kind, m1) {
                    Some((fc, fr, m2)) => {
                        let m3 = model_pop_scope(m2);
                        if regs_free(m3, 1) && c.len() + fc.len() + 1 <= MAX_CODE_LEN {
                            Some((
                                c + fc + seq![Instruction::spec_new(Opcode::Mov, m3.top as u64, fr as u64, 0)],
                                model_intermediate(m3),
                            ))
                        } else {
                            None
                        }
                    },
                    None => None,
                },
            },
            None => None,
        },
        _ => None,
    }
}

/// The jumps of a loop's code `code`, whose condition's code is `clen`
/// long and whose body's code, before its jumps were settled, is `body`:
/// the code is the condition, a conditional jump, the body and a jump back;
/// the conditional jump and every `break` of the body land just past the
/// loop, and the jump back and every `continue` of the body land on the
/// loop's first instruction, where the condition is evaluated again.
pub open spec fn loop_jumps(code: Seq<Instruction>, clen: int, body: Seq<Instruction>) -> bool {
    let n = code.len() as int;
    let last = clen + 1 + body.len();
    &&& n == last + 1
    &&& code[clen].opcode == Opcode::JmpCond && clen + code[clen].op0 + 1 == n
    &&& code[last].opcode == Opcode::JmpBack && last - code[last].op0 == 0
    &&& forall|q: int|
        0 <= q < body.len() && is_continue(#[trigger] body[q]) ==> code[clen + 1 + q].opcode == Opcode::JmpBack
            && clen + 1 + q - code[clen + 1 + q].op0 == 0
    &&& forall|q: int|
        0 <= q < body.len() && is_break(#[trigger] body[q]) ==> code[clen + 1 + q].opcode == Opcode::Jmp && clen
            + 1 + q + code[clen + 1 + q].op0 + 1 == n
    &&& forall|q: int|
        0 <= q < body.len() && !is_break(#[trigger] body[q]) && !is_continue(body[q]) ==> code[clen + 1 + q]
            == body[q]
}

/// A call hands its arguments over by position: in the code of a call, the
/// `k`-th instruction after the arguments' and the callee's code copies the
/// register that holds the `k`-th argument (counting from 1, in the order the
/// arguments are written) into register `k`, where the callee's `k`-th
/// parameter is read; the call itself follows them.
pub proof fn law_call_arguments_by_position(code: Seq<Instruction>, pre: Seq<Instruction>, regs: Seq<nat>, callee: nat, res: nat)
    requires
        call_layout(code, pre, regs, callee, res),
        regs.len() <= MAX_ARGUMENTS,
    ensures
        forall|k: int|
            1 <= k <= regs.len() ==> {
                let ins = #[trigger] code[pre.len() + k - 1];
                &&& ins.opcode == Opcode::Mov
                &&& ins.op0 == k
                &&& ins.op1 == regs[k - 1] as u64
            },
        code[pre.len() + regs.len() as int].opcode == Opcode::Call,
        code[pre.len() + regs.len() as int].op0 == callee as u64,
{
}

/// A loop goes back to its condition: in the code of a `while` loop, the
/// instruction that each `continue` of its body becomes, and the jump at the
/// end of the body, land on the loop's first instruction, the start of the
/// condition; each `break` and the condition's jump land just past the loop.
pub proof fn law_loop_jump_targets(code: Seq<Instruction>, clen: int, body: Seq<Instruction>)
    requires
        0 <= clen,
        loop_jumps(code, clen, body),
    ensures
        forall|q: int|
            0 <= q < body.len() && is_continue(#[trigger] body[q]) ==> {
                let at = clen + 1 + q;
                &&& code[at].opcode == Opcode::JmpBack
                &&& at - code[at].op0 == 0
            },
        forall|q: int|
            0 <= q < body.len() && is_break(#[trigger] body[q]) ==> {
                let at = clen + 1 + q;
                &&& code[at].opcode == Opcode::Jmp
                &&& at + code[at].op0 + 1 == code.len()
            },
        code.last().opcode == Opcode::JmpBack,
        code.len() - 1 - code.last().op0 == 0,
        code[clen].opcode == Opcode::JmpCond,
        clen + code[clen].op0 + 1 == code.len(),
{
}

/// The code of one statement of a module's main code in the fragment of
/// [`expr_code`], and the symbol table after it: an expression statement
/// is its expression's code; `import` of a module has no code.
pub open spec fn stmt_code(s: Statement, m: SymbolModel) -> Option<(Seq<Instruction>, SymbolModel)> {
    match s {
        Statement::Expression(node) => match expr_code(node.kind, m) {
            Some((c, _r, m1)) => Some((c, m1)),
            None => None,
        },
        Statement::ImportModule { .. } => Some((seq![], m)),
        _ => None,
    }
}

/// The code of a sequence of statements: each statement's code in turn,
/// from the table that the statements before it leave.
pub open spec fn stmts_code(stmts: Seq<Statement>, m: SymbolModel) -> Option<(Seq<Instruction>, SymbolModel)>
    decreases stmts.len(),
{
    if stmts.len() == 0 {
        Some((seq![], m))
    } else {
        match stmts_code(stmts.drop_last(), m) {
            Some((c, m1)) => match stmt_code(stmts.last(), m1) {
                Some((sc, m2)) => if c.len() + sc.len() <= MAX_CODE_LEN {
                    Some((c + sc, m2))
                } else {
                    None
                },
                None => None,
            },
            None => None,
        }
    }
}

/// A sequence of statements in the fragment has every prefix in it.
proof fn lemma_stmts_prefix(stmts: Seq<Statement>, m: SymbolModel, j: int)
    requires
        0 <= j <= stmts.len(),
        stmts_code(stmts, m) is Some,
    ensures
        stmts_code(stmts.take(j), m) is Some,
    decreases stmts.len(),
{
    if j == stmts.len() {
        assert(stmts.take(j) =~= stmts);
    } else {
        lemma_stmts_prefix(stmts.drop_last(), m, j);
        assert(stmts.drop_last().take(j) =~= stmts.take(j));
    }
}

/// The two compilers hold the same functions, strings, exports and imports.
pub open spec fn tables_same(a: Compiler, b: Compiler) -> bool {
    &&& a.functions == b.functions
    &&& a.strings == b.strings
    &&& a.exports == b.exports
    &&& a.imports == b.imports
}

/// The symbol table that a module's main code starts from: one empty
/// scope, with the first free register next.
pub open spec fn module_start() -> SymbolModel {
    SymbolModel { scopes: seq![seq![]], marks: seq![FIRST_FREE_REGISTER as nat], top: FIRST_FREE_REGISTER as nat }
}

/// At least `k` more intermediate registers fit.
pub open spec fn regs_free(m: SymbolModel, k: nat) -> bool {
    m.top + k <= NR_OF_REGISTERS
}

/// The value of the last entry of `entries` before position `upto` whose
/// name is `name`.
pub open spec fn last_entry<T>(entries: Seq<(Vec<u8>, T)>, name: Seq<u8>, upto: int) -> Option<T>
    decreases upto,
{
    if upto <= 0 {
        None
    } else if entries[upto - 1].0@ == name {
        Some(entries[upto - 1].1)
    } else {
        last_entry(entries, name, upto - 1)
    }
}

/// Two export lists that agree, below `upto`, on which entries are named
/// `n` and what those stand for give `n` the same export.
proof fn lemma_last_export_same(
    ex1: Seq<(Vec<u8>, usize)>,
    ex2: Seq<(Vec<u8>, usize)>,
    n: Seq<u8>,
    upto: int,
)
    requires
        upto <= ex1.len(),
        upto <= ex2.len(),
        forall|k: int|
            0 <= k < upto ==> (#[trigger] ex1[k].0@ == n) == (ex2[k].0@ == n) && (ex1[k].0@ == n
                ==> ex1[k].1 == ex2[k].1),
    ensures
        last_export(ex1, n, upto) == last_export(ex2, n, upto),
    decreases upto,
{
    if upto > 0 {
        lemma_last_export_same(ex1, ex2, n, upto - 1);
    }
}

/// Entries not named `n` do not change which export `n` has.
proof fn lemma_last_export_skip(ex: Seq<(Vec<u8>, usize)>, n: Seq<u8>, j: int, upto: int)
    requires
        0 <= j <= upto <= ex.len(),
        forall|k: int| j <= k < upto ==> #[trigger] ex[k].0@ != n,
    ensures
        last_export(ex, n, upto) == last_export(ex, n, j),
    decreases upto - j,
{
    if upto > j {
        lemma_last_export_skip(ex, n, j, upto - 1);
    }
}

impl Compiler {
    /// Records that `name` exports local function `index`, replacing an
    /// earlier export of the same name: afterwards `name` exports `index`,
    /// and every other name exports what it did.
    fn set_export(&mut self, name: &Vec<u8>, index: usize)
        requires
            old(self).wf(),
            index < old(self).functions@.len(),
        ensures
            final(self).wf(),
            final(self).counts() == old(self).counts(),
            final(self).in_loop == old(self).in_loop,
            final(self).functions == old(self).functions,
            final(self).main == old(self).main,
            last_export(final(self).exports@, name@, final(self).exports@.len() as int) == Some(
                index as nat,
            ),
            forall|n: Seq<u8>|
                n != name@ ==> last_export(final(self).exports@, n, final(self).exports@.len() as int)
                    == #[trigger] last_export(old(self).exports@, n, old(self).exports@.len() as int),
    {
        let ghost ex0 = self.exports@;
        let mut i: usize = self.exports.len();
        while i > 0
            invariant
                self.wf(),
                self.counts() == old(self).counts(),
                self.in_loop == old(self).in_loop,
                self.functions == old(self).functions,
                self.main == old(self).main,
                self.exports@ == ex0,
                ex0 == old(self).exports@,
                i <= ex0.len(),
                index < self.functions@.len(),
                forall|k: int| i <= k < ex0.len() ==> #[trigger] ex0[k].0@ != name@,
            decreases i,
        {
            i = i - 1;
            if bytes_equal(self.exports[i].0.as_slice(), name.as_slice()) {
                self.exports.set(i, (copy_bytes(name), index));
                proof {
                    let ex1 = self.exports@;
                    assert forall|k: int| i + 1 <= k < ex1.len() implies #[trigger] ex1[k].0@ != name@ by {
                        assert(ex1[k] == ex0[k]);
                    }
                    lemma_last_export_skip(ex1, name@, i + 1, ex1.len() as int);
                    assert forall|n: Seq<u8>| n != name@ implies last_export(ex1, n, ex1.len() as int)
                        == #[trigger] last_export(ex0, n, ex0.len() as int) by {
                        lemma_last_export_same(ex1, ex0, n, ex1.len() as int);
                    }
                }
                return;
            }
        }
        self.exports.push((copy_bytes(name), index));
        proof {
            let ex1 = self.exports@;
            assert forall|n: Seq<u8>| n != name@ implies last_export(ex1, n, ex1.len() as int)
                == #[trigger] last_export(ex0, n, ex0.len() as int) by {
                lemma_last_export_same(ex1, ex0, n, ex0.len() as int);
            }
        }
    }

    /// The path of the module imported under `alias`, the latest such.
    fn imported_module(&self, alias: &Vec<u8>) -> (r: Option<Vec<u8>>)
        ensures
            match last_entry(self.modules@, alias@, self.modules@.len() as int) {
                Some(path) => r matches Some(p) && p@ == path@,
                None => r is None,
            },
    {
        let mut i = self.modules.len();
        while i > 0
            invariant
                i <= self.modules@.len(),
                last_entry(self.modules@, alias@, self.modules@.len() as int) == last_entry(
                    self.modules@,
                    alias@,
                    i as int,
                ),
            decreases i,
        {
            i = i - 1;
            if bytes_equal(self.modules[i].0.as_slice(), alias.as_slice()) {
                return Some(copy_bytes(&self.modules[i].1));
            }
        }
        None
    }

    /// The import that `name` was imported as, the latest such.
    fn imported_name(&self, name: &Vec<u8>) -> (r: Option<usize>)
        requires
            self.wf(),
        ensures
            r == last_entry(self.imported@, name@, self.imported@.len() as int),
            r matches Some(i) ==> i < self.imports@.len(),
    {
        let mut i = self.imported.len();
        while i > 0
            invariant
                i <= self.imported@.len(),
                self.wf(),
                last_entry(self.imported@, name@, self.imported@.len() as int) == last_entry(
                    self.imported@,
                    name@,
                    i as int,
                ),
            decreases i,
        {
            i = i - 1;
            if bytes_equal(self.imported[i].0.as_slice(), name.as_slice()) {
                return Some(self.imported[i].1);
            }
        }
        None
    }

    /// Records an import of `name` from module `path`; its index.
    fn add_import(&mut self, path: &Vec<u8>, name: &Vec<u8>) -> (r: usize)
        requires
            old(self).wf(),
        ensures
            final(self).wf(),
            r == old(self).imports@.len(),
            final(self).counts() == (old(self).counts().0, old(self).counts().1, old(self).counts().2 + 1),
            final(self).in_loop == old(self).in_loop,
            final(self).main == old(self).main,
            final(self).imported == old(self).imported,
            final(self).modules == old(self).modules,
    {
        let ghost k0 = self.counts();
        let idx = self.imports.len();
        self.imports.push((copy_bytes(path), copy_bytes(name)));
        proof {
            lemma_funcs_mono(self.functions@, k0, self.counts());
        }
        idx
    }

    /// Compiles an expression: its code and the register that holds its
    /// value afterwards (register 0 when it has none).
    pub fn compile_expression(&mut self, e: &Expression, st: &mut SymbolTable) -> (r: Result<
        (Vec<Instruction>, usize),
        CompileError,
    >)
        requires
            old(self).wf(),
            model_wf(old(st).model()),
            old(st).model().scopes.len() > 0,
        ensures
            step_kept(*old(self), *final(self), final(st).model()),
            r matches Ok(res) ==> step_ok(
                *old(self),
                *final(self),
                old(st).model(),
                final(st).model(),
                res.0@,
            ) && is_reg(res.1 as u64),
            r matches Ok(res) ==> assigns_existing(*e, old(st).model(), res.0@, res.1),
            expr_code(*e, old(st).model()) matches Some((c, reg, m1)) ==> (r matches Ok(res)
                && res.0@ == c && res.1 == reg && final(st).model() == m1 && *final(self) == *old(self)),
            bound_name(*e, old(st).model()) ==> (r matches Ok(res) && res.0@.len() == 0 && res.1
                == name_reg(*e, old(st).model()) && final(st).model() == old(st).model()
                && *final(self) == *old(self)),
            unknown_name(*e, *old(self), old(st).model()) ==> (r matches Err(
                CompileError::UnknownVariable(n),
            ) && n@ == e->Identifier_0@),
            e is Block && (old(self).in_loop || jump_free(e->Block_statements@)) ==> (loop_block_code(
                *e,
                old(st).model(),
            ) matches Some((c, m1)) ==> (r matches Ok(res) && res.0@ == c && final(st).model() == m1)),
            is_printer_name(*e) ==> (r is Ok <==> regs_free(old(st).model(), 1)) && (r matches Ok(res)
                ==> res.0@ == seq![Instruction::spec_new(Opcode::MovConst, old(st).model().top as u64, 0, 0)]
                && res.1 == old(st).model().top && final(st).model() == model_intermediate(old(st).model())),
            e matches Expression::Integer(v) ==> (r is Ok <==> regs_free(old(st).model(), 1)) && (
            r matches Ok(res) ==> res.0@ == seq![
                Instruction::spec_new(Opcode::MovConst, old(st).model().top as u64, spec_tag_int(*v), 0),
            ] && res.1 == old(st).model().top),
            e matches Expression::Boolean(b) ==> (r is Ok <==> regs_free(old(st).model(), 1)) && (
            r matches Ok(res) ==> res.0@ == seq![
                Instruction::spec_new(Opcode::MovConst, old(st).model().top as u64, spec_tag_bool(*b), 0),
            ] && res.1 == old(st).model().top),
            (e is Integer || e is Boolean) && r is Ok ==> final(st).model() == model_intermediate(
                old(st).model(),
            ) && *final(self) == *old(self),
            e is Float || e is Tuple ==> r == Err::<(Vec<Instruction>, usize), CompileError>(
                CompileError::Unsupported,
            ),
            e matches Expression::Member { target, .. } ==> (!(target.kind is Identifier) ==> r
                == Err::<(Vec<Instruction>, usize), CompileError>(CompileError::Unsupported)) && (
            target.kind is Identifier && last_entry(
                old(self).modules@,
                target.kind->Identifier_0@,
                old(self).modules@.len() as int,
            ) is None ==> (r matches Err(CompileError::NotAModule(x)) && x@
                == target.kind->Identifier_0@)),
        decreases e, 2nat,
    {
        let ghost k0 = self.counts();
        match e {
            Expression::Identifier(name) => {
                let is_println = bytes_equal(name.as_slice(), "println".as_bytes());
                let is_print = bytes_equal(name.as_slice(), "print".as_bytes());
                if is_println || is_print {
                    let reg = match st.register_intermediate() {
                        Ok(r) => r,
                        Err(err) => return Err(err),
                    };
                    let ins = Instruction::mov_const(reg, 0);
                    proof {
                        lemma_code_single(ins, self.counts(), 0);
                    }
                    Ok((single(ins), reg))
                } else {
                    match st.get_variable(name.as_slice()) {
                        Some(reg) => {
                            let code: Vec<Instruction> = Vec::new();
                            proof {
                                lemma_code_empty(self.counts(), 0);
                                assert(code@ =~= Seq::<Instruction>::empty());
                            }
                            Ok((code, reg))
                        },
                        None => match self.imported_name(name) {
                            Some(index) => {
                                let reg = match st.register_intermediate() {
                                    Ok(r) => r,
                                    Err(err) => return Err(err),
                                };
                                let ins = Instruction::load_import(reg, index);
                                proof {
                                    lemma_code_single(ins, self.counts(), 0);
                                }
                                Ok((single(ins), reg))
                            },
                            None => Err(CompileError::UnknownVariable(copy_bytes(name))),
                        },
                    }
                }
            },
            Expression::Integer(value) => {
                let reg = match st.register_intermediate() {
                    Ok(r) => r,
                    Err(err) => return Err(err),
                };
                let ins = Instruction::mov_const(reg, tag_int(*value));
                proof {
                    lemma_code_single(ins, self.counts(), 0);
                }
                Ok((single(ins), reg))
            },
            Expression::Boolean(b) => {
                let reg = match st.register_intermediate() {
                    Ok(r) => r,
                    Err(err) => return Err(err),
                };
                let ins = Instruction::mov_const(reg, tag_bool(*b));
                proof {
                    lemma_code_single(ins, self.counts(), 0);
                }
                Ok((single(ins), reg))
            },
            Expression::String(text) => {
                let index = self.strings.len();
                self.strings.push(copy_bytes(text));
                proof {
                    lemma_funcs_mono(self.functions@, k0, self.counts());
                }
                let reg = match st.register_intermediate() {
                    Ok(r) => r,
                    Err(err) => return Err(err),
                };
                let ins = Instruction::load_string(reg, index);
                proof {
                    lemma_code_single(ins, self.counts(), 0);
                }
                Ok((single(ins), reg))
            },
            Expression::Member { target, name } => {
                let alias = match &target.kind {
                    Expression::Identifier(a) => a,
                    _ => return Err(CompileError::Unsupported),
                };
                let path = match self.imported_module(alias) {
                    Some(p) => p,
                    None => return Err(CompileError::NotAModule(copy_bytes(alias))),
                };
                let index = self.add_import(&path, name);
                let reg = match st.register_intermediate() {
                    Ok(r) => r,
                    Err(err) => return Err(err),
                };
                let ins = Instruction::load_import(reg, index);
                proof {
                    lemma_code_single(ins, self.counts(), 0);
                }
                Ok((single(ins), reg))
            },
            Expression::Array(_) => self.compile_array(e, st),
            Expression::Index { target, index } => {
                let (tc, tr) = match self.compile_expression(&target.kind, st) {
                    Ok(x) => x,
                    Err(err) => return Err(err),
                };
                let ghost k1 = self.counts();
                let (ic, ir) = match self.compile_expression(&index.kind, st) {
                    Ok(x) => x,
                    Err(err) => return Err(err),
                };
                let ghost k2 = self.counts();
                let dst = match st.register_intermediate() {
                    Ok(r) => r,
                    Err(err) => return Err(err),
                };
                let ins = Instruction::load_index(dst, tr, ir);
                proof {
                    lemma_code_mono(tc@, k1, k2, 0);
                }
                let code = match concat(tc, ic, Ghost(k2), Ghost(0), Ghost(0), Ghost(0)) {
                    Ok(c) => c,
                    Err(err) => return Err(err),
                };
                proof {
                    lemma_code_single(ins, k2, 0);
                }
                match concat(code, single(ins), Ghost(k2), Ghost(0), Ghost(0), Ghost(0)) {
                    Ok(c) => Ok((c, dst)),
                    Err(err) => Err(err),
                }
            },
            Expression::Assignment { .. } => self.compile_assignment(e, st),
            Expression::CompoundAssignment { .. } => self.compile_compound(e, st),
            Expression::Function { .. } => self.compile_function(e, st),
            Expression::Unary { op, expression } => {
                let (code, reg) = match self.compile_expression(&expression.kind, st) {
                    Ok(x) => x,
                    Err(err) => return Err(err),
                };
                let ghost k1 = self.counts();
                match op {
                    UnaryOp::Plus => Ok((code, reg)),
                    UnaryOp::Not => {
                        let res = match st.register_intermediate() {
                            Ok(r) => r,
                            Err(err) => return Err(err),
                        };
                        let ins = Instruction::not(res, reg);
                        proof {
                            lemma_code_single(ins, k1, 0);
                        }
                        match concat(code, single(ins), Ghost(k1), Ghost(0), Ghost(0), Ghost(0)) {
                            Ok(c) => Ok((c, res)),
                            Err(err) => Err(err),
                        }
                    },
                    UnaryOp::Neg => {
                        let zero = match st.register_intermediate() {
                            Ok(r) => r,
                            Err(err) => return Err(err),
                        };
                        let res = match st.register_intermediate() {
                            Ok(r) => r,
                            Err(err) => return Err(err),
                        };
                        let i1 = Instruction::mov_const(zero, tag_int(0));
                        let i2 = Instruction::sub(res, zero, reg);
                        proof {
                            lemma_code_single(i1, k1, 0);
                            lemma_code_single(i2, k1, 0);
                        }
                        let code = match concat(code, single(i1), Ghost(k1), Ghost(0), Ghost(0), Ghost(0)) {
                            Ok(c) => c,
                            Err(err) => return Err(err),
                        };
                        match concat(code, single(i2), Ghost(k1), Ghost(0), Ghost(0), Ghost(0)) {
                            Ok(c) => Ok((c, res)),
                            Err(err) => Err(err),
                        }
                    },
                }
            },
            Expression::Binary { op, .. } => {
                if *op == BinaryOp::And || *op == BinaryOp::Or {
                    self.compile_logical(e, st)
                } else {
                    self.compile_binary(e, st)
                }
            },
            Expression::Conditional { .. } => self.compile_conditional(e, st),
            Expression::While { .. } => self.compile_while(e, st),
            Expression::Block { .. } => self.compile_block(e, st),
            Expression::FunctionCall { .. } => self.compile_call(e, st),
            _ => Err(CompileError::Unsupported),
        }
    }
}

/// Code followed by one more instruction, sound where it lands.
proof fn lemma_code_push(code: Seq<Instruction>, ins: Instruction, k: Counts)
    requires
        code_ok_ext(code, k, 1),
        instr_ok(ins, code.len() as int, code.len() + 1, k),
    ensures
        code_ok(code.push(ins), k),
        settled(code) && !is_break(ins) && !is_continue(ins) ==> settled(code.push(ins)),
{
    let c = code.push(ins);
    assert forall|j: int| 0 <= j < c.len() implies instr_ok(#[trigger] c[j], j, c.len() + 0, k) by {
        if j < code.len() {
            assert(c[j] == code[j]);
            assert(instr_ok(code[j], j, code.len() + 1, k));
        }
    }
    if settled(code) && !is_break(ins) && !is_continue(ins) {
        assert forall|j: int| 0 <= j < c.len() implies !is_break(#[trigger] c[j]) && !is_continue(c[j]) by {
            if j < code.len() {
                assert(c[j] == code[j]);
            }
        }
    }
}

impl Compiler {
    #[verifier::spinoff_prover]
    #[verifier::rlimit(40)]
    fn compile_binary(&mut self, e: &Expression, st: &mut SymbolTable) -> (r: Result<
        (Vec<Instruction>, usize),
        CompileError,
    >)
        requires
            old(self).wf(),
            model_wf(old(st).model()),
            old(st).model().scopes.len() > 0,
        ensures
            step_kept(*old(self), *final(self), final(st).model()),
            r matches Ok(res) ==> step_ok(
                *old(self),
                *final(self),
                old(st).model(),
                final(st).model(),
                res.0@,
            ) && is_reg(res.1 as u64),
            !(e is Binary) ==> r == Err::<(Vec<Instruction>, usize), CompileError>(CompileError::Unsupported),
            e is Binary && e->Binary_op != BinaryOp::And && e->Binary_op != BinaryOp::Or ==> (expr_code(
                *e,
                old(st).model(),
            ) matches Some((c, reg, m1)) ==> (r matches Ok(res)
                && res.0@ == c && res.1 == reg && final(st).model() == m1 && *final(self) == *old(self))),
            e is Binary && bound_name(e->Binary_lhs.kind, old(st).model()) && bound_name(
                e->Binary_rhs.kind,
                old(st).model(),
            ) && binop_opcode(e->Binary_op) is Some ==> (r is Ok <==> regs_free(old(st).model(), 1)),
            e is Binary && bound_name(e->Binary_lhs.kind, old(st).model()) && bound_name(
                e->Binary_rhs.kind,
                old(st).model(),
            ) ==> (r matches Ok(res) ==> res.1 == old(st).model().top && res.0@ == seq![
                Instruction::spec_new(
                    binop_opcode(e->Binary_op).unwrap(),
                    old(st).model().top as u64,
                    name_reg(e->Binary_lhs.kind, old(st).model()) as u64,
                    name_reg(e->Binary_rhs.kind, old(st).model()) as u64,
                ),
            ]),
        decreases e, 1nat,
    {
        match e {
            Expression::Binary { lhs, op, rhs } => {
                let (lc, lr) = match self.compile_expression(&lhs.kind, st) {
                    Ok(x) => x,
                    Err(err) => return Err(err),
                };
                let ghost k1 = self.counts();
                let ghost lcv = lc@;
                let (rc, rr) = match self.compile_expression(&rhs.kind, st) {
                    Ok(x) => x,
                    Err(err) => return Err(err),
                };
                let ghost rcv = rc@;
                let ghost k2 = self.counts();
                let res = match st.register_intermediate() {
                    Ok(r) => r,
                    Err(err) => return Err(err),
                };
                let ins = match binary_instruction(*op, res, lr, rr) {
                    Some(i) => i,
                    None => return Err(CompileError::Unsupported),
                };
                proof {
                    lemma_code_mono(lc@, k1, k2, 0);
                    lemma_code_single(ins, k2, 0);
                }
                let code = match concat(lc, rc, Ghost(k2), Ghost(0), Ghost(0), Ghost(0)) {
                    Ok(c) => c,
                    Err(err) => return Err(err),
                };
                match concat(code, single(ins), Ghost(k2), Ghost(0), Ghost(0), Ghost(0)) {
                    Ok(c) => {
                        assert(lcv.len() == 0 && rcv.len() == 0 ==> c@ =~= seq![ins]);
                        assert(c@ =~= lcv + rcv + seq![ins]);
                        Ok((c, res))
                    },
                    Err(err) => Err(err),
                }
            },
            _ => Err(CompileError::Unsupported),
        }
    }

    /// `and` and `or`, which evaluate their right operand only when the
    /// left one does not decide: `a and b` is `a` when `a` is false, else
    /// `b`; `a or b` is `a` when `a` is true, else `b`.
    #[verifier::spinoff_prover]
    #[verifier::rlimit(40)]
    fn compile_logical(&mut self, e: &Expression, st: &mut SymbolTable) -> (r: Result<
        (Vec<Instruction>, usize),
        CompileError,
    >)
        requires
            old(self).wf(),
            model_wf(old(st).model()),
            old(st).model().scopes.len() > 0,
        ensures
            step_kept(*old(self), *final(self), final(st).model()),
            r matches Ok(res) ==> step_ok(
                *old(self),
                *final(self),
                old(st).model(),
                final(st).model(),
                res.0@,
            ) && is_reg(res.1 as u64),
            !(e is Binary) ==> r == Err::<(Vec<Instruction>, usize), CompileError>(CompileError::Unsupported),
            e is Binary && bound_name(e->Binary_lhs.kind, old(st).model()) && bound_name(
                e->Binary_rhs.kind,
                old(st).model(),
            ) ==> (r is Ok <==> regs_free(old(st).model(), if e->Binary_op == BinaryOp::Or { 2 } else { 1 })),
            e is Binary && bound_name(e->Binary_lhs.kind, old(st).model()) && bound_name(
                e->Binary_rhs.kind,
                old(st).model(),
            ) ==> (r matches Ok(res) ==> res.1 == old(st).model().top),
            e is Binary && (e->Binary_op == BinaryOp::And || e->Binary_op == BinaryOp::Or) ==> (expr_code(
                *e,
                old(st).model(),
            ) matches Some((c, reg, m1)) ==> (r matches Ok(res)
                && res.0@ == c && res.1 == reg && final(st).model() == m1 && *final(self) == *old(self))),
        decreases e, 1nat,
    {
        match e {
            Expression::Binary { lhs, op, rhs } => {
                let is_or = *op == BinaryOp::Or;
                let ghost m0 = st.model();
                let ghost whole = if *op == BinaryOp::And || *op == BinaryOp::Or {
                    expr_code(*e, m0)
                } else {
                    None
                };
                let (lc, lr) = match self.compile_expression(&lhs.kind, st) {
                    Ok(x) => x,
                    Err(err) => return Err(err),
                };
                let ghost lcv = lc@;
                let ghost k1 = self.counts();
                proof {
                    if whole is Some {
                        assert(expr_code(lhs.kind, m0) is Some);
                        assert(regs_free(st.model(), if is_or { 2 } else { 1 }));
                    }
                }
                let res = match st.register_intermediate() {
                    Ok(r) => r,
                    Err(err) => return Err(err),
                };
                let test = if is_or {
                    match st.register_intermediate() {
                        Ok(r) => r,
                        Err(err) => return Err(err),
                    }
                } else {
                    res
                };
                let (rc, rr) = match self.compile_expression(&rhs.kind, st) {
                    Ok(x) => x,
                    Err(err) => return Err(err),
                };
                let ghost k = self.counts();
                let ghost rcv = rc@;
                let rlen = rc.len();
                let i_mov = Instruction::mov(res, lr);
                let i_not = Instruction::not(test, res);
                let i_jc = Instruction::jmp_cond(rlen + 1, test);
                let i_last = Instruction::mov(res, rr);
                proof {
                    lemma_code_mono(lc@, k1, k, 0);
                    lemma_code_single(i_mov, k, 0);
                    lemma_code_single(i_not, k, 0);
                    lemma_code_single(i_jc, k, (rlen + 1) as nat);
                    lemma_code_single(i_last, k, 0);
                }
                let mut code = match concat(lc, single(i_mov), Ghost(k), Ghost(0), Ghost(0), Ghost(0)) {
                    Ok(c) => c,
                    Err(err) => return Err(err),
                };
                if is_or {
                    code = match concat(code, single(i_not), Ghost(k), Ghost(0), Ghost(0), Ghost(0)) {
                        Ok(c) => c,
                        Err(err) => return Err(err),
                    };
                }
                let code = match concat(
                    code,
                    single(i_jc),
                    Ghost(k),
                    Ghost(0),
                    Ghost((rlen + 1) as nat),
                    Ghost((rlen + 1) as nat),
                ) {
                    Ok(c) => c,
                    Err(err) => return Err(err),
                };
                let code = match concat(code, rc, Ghost(k), Ghost((rlen + 1) as nat), Ghost(0), Ghost(1)) {
                    Ok(c) => c,
                    Err(err) => return Err(err),
                };
                match concat(code, single(i_last), Ghost(k), Ghost(1), Ghost(0), Ghost(0)) {
                    Ok(c) => {
                        assert(c@ =~= lcv + (if is_or {
                            seq![i_mov, i_not]
                        } else {
                            seq![i_mov]
                        }) + seq![i_jc] + rcv + seq![i_last]);
                        Ok((c, res))
                    },
                    Err(err) => Err(err),
                }
            },
            _ => Err(CompileError::Unsupported),
        }
    }

    /// `if`: the condition, a conditional jump past the then-branch, the
    /// then-branch, and with an `else` a jump past the else-branch; the
    /// value of the branch taken ends in one register.
    #[verifier::spinoff_prover]
    #[verifier::rlimit(40)]
    fn compile_conditional(&mut self, e: &Expression, st: &mut SymbolTable) -> (r: Result<
        (Vec<Instruction>, usize),
        CompileError,
    >)
        requires
            old(self).wf(),
            model_wf(old(st).model()),
            old(st).model().scopes.len() > 0,
        ensures
            step_kept(*old(self), *final(self), final(st).model()),
            r matches Ok(res) ==> step_ok(
                *old(self),
                *final(self),
                old(st).model(),
                final(st).model(),
                res.0@,
            ) && is_reg(res.1 as u64),
            !(e is Conditional) ==> r == Err::<(Vec<Instruction>, usize), CompileError>(CompileError::Unsupported),
            e is Conditional ==> (expr_code(*e, old(st).model()) matches Some((c, reg, m1)) ==> (r matches Ok(
                res,
            ) && res.0@ == c && res.1 == reg && final(st).model() == m1 && *final(self) == *old(self))),
            e is Conditional && bound_name(e->Conditional_condition.kind, old(st).model()) && bound_name(
                e->then_branch.kind,
                old(st).model(),
            ) && (e->else_branch matches Some(b) ==> bound_name(b.kind, old(st).model())) ==> (r is Ok
                <==> regs_free(old(st).model(), 1)) && (r matches Ok(res) ==> res.1 == old(st).model().top),
        decreases e, 1nat,
    {
        match e {
            Expression::Conditional { condition, then_branch, else_branch } => {
                let (cc, cr) = match self.compile_expression(&condition.kind, st) {
                    Ok(x) => x,
                    Err(err) => return Err(err),
                };
                let ghost k1 = self.counts();
                let (tc, tr) = match self.compile_expression(&then_branch.kind, st) {
                    Ok(x) => x,
                    Err(err) => return Err(err),
                };
                let ghost k2 = self.counts();
                let fin = match st.register_intermediate() {
                    Ok(r) => r,
                    Err(err) => return Err(err),
                };
                let tlen = tc.len();
                match else_branch {
                    Some(els) => {
                        let (ec, er) = match self.compile_expression(&els.kind, st) {
                            Ok(x) => x,
                            Err(err) => return Err(err),
                        };
                        let ghost k = self.counts();
                        let elen = ec.len();
                        let i_jc = Instruction::jmp_cond(tlen + 2, cr);
                        let i_mt = Instruction::mov(fin, tr);
                        let i_jmp = Instruction::jmp(elen + 1);
                        let i_me = Instruction::mov(fin, er);
                        proof {
                            lemma_code_mono(cc@, k1, k, 0);
                            lemma_code_mono(tc@, k2, k, 0);
                            lemma_code_single(i_jc, k, (tlen + 2) as nat);
                            lemma_code_single(i_mt, k, 0);
                            lemma_code_single(i_jmp, k, (elen + 1) as nat);
                            lemma_code_single(i_me, k, 0);
                        }
                        let code = match concat(
                            cc,
                            single(i_jc),
                            Ghost(k),
                            Ghost(0),
                            Ghost((tlen + 2) as nat),
                            Ghost((tlen + 2) as nat),
                        ) {
                            Ok(c) => c,
                            Err(err) => return Err(err),
                        };
                        let code = match concat(code, tc, Ghost(k), Ghost((tlen + 2) as nat), Ghost(0), Ghost(2)) {
                            Ok(c) => c,
                            Err(err) => return Err(err),
                        };
                        let code = match concat(code, single(i_mt), Ghost(k), Ghost(2), Ghost(0), Ghost(1)) {
                            Ok(c) => c,
                            Err(err) => return Err(err),
                        };
                        let code = match concat(
                            code,
                            single(i_jmp),
                            Ghost(k),
                            Ghost(1),
                            Ghost((elen + 1) as nat),
                            Ghost((elen + 1) as nat),
                        ) {
                            Ok(c) => c,
                            Err(err) => return Err(err),
                        };
                        let code = match concat(code, ec, Ghost(k), Ghost((elen + 1) as nat), Ghost(0), Ghost(1)) {
                            Ok(c) => c,
                            Err(err) => return Err(err),
                        };
                        match concat(code, single(i_me), Ghost(k), Ghost(1), Ghost(0), Ghost(0)) {
                            Ok(c) => Ok((c, fin)),
                            Err(err) => Err(err),
                        }
                    },
                    None => {
                        let ghost k = self.counts();
                        let i_jc = Instruction::jmp_cond(tlen, cr);
                        proof {
                            lemma_code_mono(cc@, k1, k, 0);
                            lemma_code_single(i_jc, k, tlen as nat);
                        }
                        let code = match concat(
                            cc,
                            single(i_jc),
                            Ghost(k),
                            Ghost(0),
                            Ghost(tlen as nat),
                            Ghost(tlen as nat),
                        ) {
                            Ok(c) => c,
                            Err(err) => return Err(err),
                        };
                        match concat(code, tc, Ghost(k), Ghost(tlen as nat), Ghost(0), Ghost(0)) {
                            Ok(c) => Ok((c, fin)),
                            Err(err) => Err(err),
                        }
                    },
                }
            },
            _ => Err(CompileError::Unsupported),
        }
    }

    /// `while`: the condition, a conditional jump past the loop, the body
    /// and a jump back to the condition. Each `break` of the body becomes a
    /// jump past the loop and each `continue` a jump back to the condition.
    #[verifier::spinoff_prover]
    #[verifier::rlimit(40)]
    fn compile_while(&mut self, e: &Expression, st: &mut SymbolTable) -> (r: Result<
        (Vec<Instruction>, usize),
        CompileError,
    >)
        requires
            old(self).wf(),
            model_wf(old(st).model()),
            old(st).model().scopes.len() > 0,
        ensures
            step_kept(*old(self), *final(self), final(st).model()),
            r matches Ok(res) ==> step_ok(
                *old(self),
                *final(self),
                old(st).model(),
                final(st).model(),
                res.0@,
            ) && is_reg(res.1 as u64),
            !(e is While) ==> r == Err::<(Vec<Instruction>, usize), CompileError>(CompileError::Unsupported),
            e is While && bound_name(e->While_condition.kind, old(st).model()) && bound_name(
                e->While_body.kind,
                old(st).model(),
            ) ==> (r matches Ok(res) && res.1 == 0 && res.0@ == seq![
                Instruction::spec_new(
                    Opcode::JmpCond,
                    1,
                    name_reg(e->While_condition.kind, old(st).model()) as u64,
                    0,
                ),
                Instruction::spec_new(Opcode::JmpBack, 1, 0, 0),
            ]),
            e matches Expression::While { condition, body } ==> (expr_code(condition.kind, old(st).model()) matches Some(
                (cc, cr, m1),
            ) ==> (loop_block_code(body.kind, m1) matches Some((bc, m2)) ==> (r matches Ok(res) ==> loop_jumps(
                res.0@,
                cc.len() as int,
                bc,
            )))),
        decreases e, 1nat,
    {
        match e {
            Expression::While { condition, body } => {
                let ghost m0 = st.model();
                let ghost cond_spec = expr_code(condition.kind, m0);
                let (cc, cr) = match self.compile_expression(&condition.kind, st) {
                    Ok(x) => x,
                    Err(err) => return Err(err),
                };
                let ghost k1 = self.counts();
                let ghost cond_code = cc@;
                let ghost m1 = st.model();
                let ghost body_spec = loop_block_code(body.kind, m1);
                let ghost whole = cond_spec is Some && body_spec is Some;
                let saved = self.in_loop;
                self.in_loop = true;
                let (bc, _) = match self.compile_expression(&body.kind, st) {
                    Ok(x) => x,
                    Err(err) => return Err(err),
                };
                self.in_loop = saved;
                let ghost k = self.counts();
                let clen = cc.len();
                let blen = bc.len();
                let i_jc = Instruction::jmp_cond(blen + 1, cr);
                proof {
                    lemma_code_mono(cc@, k1, k, 0);
                    lemma_code_single(i_jc, k, (blen + 1) as nat);
                }
                let code = match concat(
                    cc,
                    single(i_jc),
                    Ghost(k),
                    Ghost(0),
                    Ghost((blen + 1) as nat),
                    Ghost((blen + 1) as nat),
                ) {
                    Ok(c) => c,
                    Err(err) => return Err(err),
                };
                let ghost body_code = bc@;
                let mut code = match concat(code, bc, Ghost(k), Ghost((blen + 1) as nat), Ghost(0), Ghost(1)) {
                    Ok(c) => c,
                    Err(err) => return Err(err),
                };
                if code.len() >= MAX_CODE_LEN {
                    return Err(CompileError::ProgramTooLarge);
                }
                let back = Instruction::jmp_back(code.len());
                proof {
                    lemma_code_push(code@, back, k);
                }
                code.push(back);
                let total = code.len();
                let start = clen + 1;
                let end = clen + 1 + blen;
                let ghost laid = code@;
                proof {
                    assert(laid =~= cond_code + seq![i_jc] + body_code + seq![back]);
                    if whole {
                        assert(cond_code == cond_spec.unwrap().0);
                        assert(body_code == body_spec.unwrap().0);
                    }
                }
                let mut p = start;
                while p < end
                    invariant
                        start <= p <= end,
                        end < total,
                        total == code@.len(),
                        total <= MAX_CODE_LEN,
                        laid.len() == total,
                        code_ok(code@, k),
                        forall|q: int| start <= q < p ==> !is_break(#[trigger] code@[q]) && !is_continue(code@[q]),
                        forall|q: int| 0 <= q < total && (q < p || q >= end) && !(start <= q < p) ==> #[trigger] code@[q] == laid[q],
                        forall|q: int| p <= q < total ==> #[trigger] code@[q] == laid[q],
                        forall|q: int| start <= q < p && is_continue(#[trigger] laid[q]) ==> code@[q] == Instruction::spec_new(
                            Opcode::JmpBack,
                            q as u64,
                            0,
                            0,
                        ),
                        forall|q: int| start <= q < p && is_break(#[trigger] laid[q]) ==> code@[q] == Instruction::spec_new(
                            Opcode::Jmp,
                            (total - q - 1) as u64,
                            0,
                            0,
                        ),
                        forall|q: int|
                            start <= q < p && !is_break(#[trigger] laid[q]) && !is_continue(laid[q]) ==> code@[q]
                                == laid[q],
                    decreases end - p,
                {
                    let ins = code[p];
                    if ins.opcode == Opcode::Jmp && ins.op1 == BREAK_MARK {
                        let patched = Instruction::jmp(total - p - 1);
                        let ghost before = code@;
                        code.set(p, patched);
                        proof {
                            assert forall|j: int| 0 <= j < code@.len() implies instr_ok(#[trigger] code@[j], j, code@.len() + 0, k) by {
                                if j != p {
                                    assert(code@[j] == before[j]);
                                    assert(instr_ok(before[j], j, before.len() + 0, k));
                                }
                            }
                        }
                    } else if ins.opcode == Opcode::JmpBack && ins.op1 == CONTINUE_MARK {
                        let patched = Instruction::jmp_back(p);
                        let ghost before = code@;
                        code.set(p, patched);
                        proof {
                            assert forall|j: int| 0 <= j < code@.len() implies instr_ok(#[trigger] code@[j], j, code@.len() + 0, k) by {
                                if j != p {
                                    assert(code@[j] == before[j]);
                                    assert(instr_ok(before[j], j, before.len() + 0, k));
                                }
                            }
                        }
                    }
                    p = p + 1;
                }
                proof {
                    if whole {
                        let b = body_spec.unwrap().0;
                        assert(code@[clen as int] == laid[clen as int]);
                        assert(code@[end as int] == laid[end as int]);
                        assert forall|q: int| 0 <= q < b.len() && is_continue(#[trigger] b[q]) implies code@[clen + 1 + q].opcode
                            == Opcode::JmpBack && clen + 1 + q - code@[clen + 1 + q].op0 == 0 by {
                            assert(laid[clen + 1 + q] == b[q]);
                        }
                        assert forall|q: int| 0 <= q < b.len() && is_break(#[trigger] b[q]) implies code@[clen + 1 + q].opcode
                            == Opcode::Jmp && clen + 1 + q + code@[clen + 1 + q].op0 + 1 == code@.len() by {
                            assert(laid[clen + 1 + q] == b[q]);
                        }
                        assert forall|q: int|
                            0 <= q < b.len() && !is_break(#[trigger] b[q]) && !is_continue(b[q]) implies code@[clen + 1
                                + q] == b[q] by {
                            assert(laid[clen + 1 + q] == b[q]);
                        }
                        assert(loop_jumps(code@, clen as int, b));
                    }
                    if !saved {
                        assert forall|j: int| 0 <= j < code@.len() implies !is_break(#[trigger] code@[j]) && !is_continue(code@[j]) by {
                            if j < start {
                                assert(code@[j] == laid[j]);
                                if j < clen {
                                    assert(laid[j] == cond_code[j]);
                                }
                            } else if j >= end {
                                assert(code@[j] == laid[j]);
                            }
                        }
                    }
                    if cond_code.len() == 0 && body_code.len() == 0 {
                        assert(code@ =~= laid);
                        assert(laid =~= seq![i_jc, back]);
                    }
                }
                Ok((code, 0))
            },
            _ => Err(CompileError::Unsupported),
        }
    }
}

/// The common contract of the compiling functions, for the statement form.
impl Compiler {
    /// Compiles a block in a scope of its own: its statements, then its
    /// last expression, whose value it copies into a register of the
    /// enclosing scope.
    fn compile_block(&mut self, e: &Expression, st: &mut SymbolTable) -> (r: Result<
        (Vec<Instruction>, usize),
        CompileError,
    >)
        requires
            old(self).wf(),
            model_wf(old(st).model()),
            old(st).model().scopes.len() > 0,
        ensures
            step_kept(*old(self), *final(self), final(st).model()),
            r matches Ok(res) ==> step_ok(
                *old(self),
                *final(self),
                old(st).model(),
                final(st).model(),
                res.0@,
            ) && is_reg(res.1 as u64),
            !(e is Block) ==> r == Err::<(Vec<Instruction>, usize), CompileError>(CompileError::Unsupported),
            e matches Expression::Block { statements, final_expr } ==> (statements@.len() == 0
                && final_expr is None ==> (r matches Ok(res) && res.0@.len() == 0 && res.1 == 0)),
            e is Block && r is Ok ==> final(st).model().scopes == old(st).model().scopes,
            e is Block && (old(self).in_loop || jump_free(e->Block_statements@)) ==> (loop_block_code(
                *e,
                old(st).model(),
            ) matches Some((c, m1)) ==> (r matches Ok(res) && res.0@ == c && final(st).model() == m1)),
        decreases e, 1nat,
    {
        match e {
            Expression::Block { statements, final_expr } => {
                st.push_scope();
                let mut code: Vec<Instruction> = Vec::new();
                proof {
                    lemma_code_empty(self.counts(), 0);
                    assert(code@ =~= Seq::<Instruction>::empty());
                    assert(st.model().scopes.take(old(st).model().scopes.len() as int) =~= old(st).model().scopes);
                }
                let ghost full = (old(self).in_loop || jump_free(statements@)) && loop_block_code(*e, old(st).model())
                    is Some;
                let ghost inner0 = st.model();
                proof {
                    assert(statements@.take(0) =~= Seq::<Statement>::empty());
                }
                let mut i: usize = 0;
                while i < statements.len()
                    invariant
                        i <= statements@.len(),
                        full == ((old(self).in_loop || jump_free(statements@)) && loop_block_code(*e, old(st).model())
                            is Some),
                        inner0 == model_push_scope(old(st).model()),
                        full ==> (loop_stmts_code(statements@.take(i as int), inner0) matches Some((c, mi))
                            && code@ == c && st.model() == mi),
                        e is Block,
                        e->Block_statements == *statements,
                        statements@.len() == 0 ==> code@.len() == 0,
                        self.main == old(self).main,
                        self.wf(),
                        counts_le(old(self).counts(), self.counts()),
                        self.in_loop == old(self).in_loop,
                        model_wf(st.model()),
                        st.model().scopes.len() == old(st).model().scopes.len() + 1,
                        st.model().scopes.take(old(st).model().scopes.len() as int) == old(st).model().scopes,
                        code_ok(code@, self.counts()),
                        !self.in_loop ==> settled(code@),
                        code@.len() <= MAX_CODE_LEN,
                    decreases statements@.len() - i,
                {
                    let ghost k0 = self.counts();
                    proof {
                        assert(decreases_to!(e => e->Block_statements));
                        assert(decreases_to!(e->Block_statements => e->Block_statements@));
                        assert(decreases_to!(e->Block_statements@ => e->Block_statements@[i as int]));
                    }
                    proof {
                        if full {
                            lemma_loop_stmts_prefix(statements@, inner0, i + 1);
                            assert(statements@.take(i + 1).drop_last() =~= statements@.take(i as int));
                            assert(statements@.take(i + 1).last() == statements@[i as int]);
                            assert(self.in_loop || statements@[i as int] is Expression);
                        }
                    }
                    let sc = match self.compile_statement(&statements[i], st) {
                        Ok(c) => c,
                        Err(err) => return Err(err),
                    };
                    proof {
                        lemma_code_mono(code@, k0, self.counts(), 0);
                    }
                    code = match concat(code, sc, Ghost(self.counts()), Ghost(0), Ghost(0), Ghost(0)) {
                        Ok(c) => c,
                        Err(err) => return Err(err),
                    };
                    i = i + 1;
                }
                proof {
                    assert(statements@.take(i as int) =~= statements@);
                }
                let value = match final_expr {
                    Some(fe) => {
                        let ghost k0 = self.counts();
                        let (fc, fr) = match self.compile_expression(&fe.kind, st) {
                            Ok(x) => x,
                            Err(err) => return Err(err),
                        };
                        proof {
                            lemma_code_mono(code@, k0, self.counts(), 0);
                        }
                        code = match concat(code, fc, Ghost(self.counts()), Ghost(0), Ghost(0), Ghost(0)) {
                            Ok(c) => c,
                            Err(err) => return Err(err),
                        };
                        Some(fr)
                    },
                    None => None,
                };
                let ghost inner = st.model();
                st.pop_scope();
                assert(st.model().scopes =~= inner.scopes.take(old(st).model().scopes.len() as int));
                match value {
                    Some(fr) => {
                        let res = match st.register_intermediate() {
                            Ok(r) => r,
                            Err(err) => return Err(err),
                        };
                        let ins = Instruction::mov(res, fr);
                        proof {
                            lemma_code_single(ins, self.counts(), 0);
                        }
                        match concat(code, single(ins), Ghost(self.counts()), Ghost(0), Ghost(0), Ghost(0)) {
                            Ok(c) => Ok((c, res)),
                            Err(err) => Err(err),
                        }
                    },
                    None => Ok((code, 0)),
                }
            },
            _ => Err(CompileError::Unsupported),
        }
    }

    /// Compiles one statement.
    pub fn compile_statement(&mut self, s: &Statement, st: &mut SymbolTable) -> (r: Result<
        Vec<Instruction>,
        CompileError,
    >)
        requires
            old(self).wf(),
            model_wf(old(st).model()),
            old(st).model().scopes.len() > 0,
        ensures
            step_kept(*old(self), *final(self), final(st).model()),
            r matches Ok(code) ==> step_ok(
                *old(self),
                *final(self),
                old(st).model(),
                final(st).model(),
                code@,
            ),
            s is Break && old(self).in_loop ==> (r matches Ok(c) && c@ == seq![
                Instruction::spec_new(Opcode::Jmp, 0, BREAK_MARK, 0),
            ]),
            s is Break && !old(self).in_loop ==> r == Err::<Vec<Instruction>, CompileError>(
                CompileError::BreakOutsideLoop,
            ),
            s is Continue && old(self).in_loop ==> (r matches Ok(c) && c@ == seq![
                Instruction::spec_new(Opcode::JmpBack, 0, CONTINUE_MARK, 0),
            ]),
            s is Continue && !old(self).in_loop ==> r == Err::<Vec<Instruction>, CompileError>(
                CompileError::ContinueOutsideLoop,
            ),
            s matches Statement::Return(ret) ==> (ret.value is None ==> (r matches Ok(c) && c@
                == seq![Instruction::spec_new(Opcode::Return, 0, 0, 0)])),
            s matches Statement::ImportFrom { items, .. } ==> (r matches Ok(c) && c@.len() == 0
                && final(self).imported@.len() == old(self).imported@.len() + items@.len()),
            s matches Statement::ImportModule { path, alias } ==> (r matches Ok(c) && c@.len() == 0
                && final(self).modules@.len() == old(self).modules@.len() + 1
                && final(self).modules@.last().1@ == path@ && final(self).modules@.last().0@
                == match alias {
                Some(a) => a@,
                None => path@,
            }),
            stmt_code(*s, old(st).model()) matches Some((c, m1)) ==> (r matches Ok(code) && code@ == c
                && final(st).model() == m1 && tables_same(*old(self), *final(self))),
            old(self).in_loop || s is Expression ==> (loop_stmt_code(*s, old(st).model()) matches Some((c, m1)) ==> (r matches Ok(
                code,
            ) && code@ == c && final(st).model() == m1)),
            s matches Statement::Expression(node) ==> (bound_name(node.kind, old(st).model()) ==> (r matches Ok(
                c,
            ) && c@.len() == 0)),
        decreases s, 2nat,
    {
        match s {
            Statement::Expression(node) => {
                match self.compile_expression(&node.kind, st) {
                    Ok((code, _)) => Ok(code),
                    Err(err) => Err(err),
                }
            },
            Statement::Return(ret) => {
                let i_ret = Instruction::return_();
                match &ret.value {
                    Some(v) => {
                        let (vc, vr) = match self.compile_expression(&v.kind, st) {
                            Ok(x) => x,
                            Err(err) => return Err(err),
                        };
                        let i_mov = Instruction::mov(0, vr);
                        proof {
                            lemma_code_single(i_mov, self.counts(), 0);
                            lemma_code_single(i_ret, self.counts(), 0);
                        }
                        let code = match concat(vc, single(i_mov), Ghost(self.counts()), Ghost(0), Ghost(0), Ghost(0)) {
                            Ok(c) => c,
                            Err(err) => return Err(err),
                        };
                        concat(code, single(i_ret), Ghost(self.counts()), Ghost(0), Ghost(0), Ghost(0))
                    },
                    None => {
                        proof {
                            lemma_code_single(i_ret, self.counts(), 0);
                        }
                        Ok(single(i_ret))
                    },
                }
            },
            Statement::Break => {
                if !self.in_loop {
                    return Err(CompileError::BreakOutsideLoop);
                }
                let ins = Instruction::new(Opcode::Jmp, 0, BREAK_MARK, 0);
                proof {
                    lemma_code_single(ins, self.counts(), 0);
                }
                Ok(single(ins))
            },
            Statement::Continue => {
                if !self.in_loop {
                    return Err(CompileError::ContinueOutsideLoop);
                }
                let ins = Instruction::new(Opcode::JmpBack, 0, CONTINUE_MARK, 0);
                proof {
                    lemma_code_single(ins, self.counts(), 0);
                }
                Ok(single(ins))
            },
            Statement::ImportFrom { path, items } => {
                let mut i: usize = 0;
                while i < items.len()
                    invariant
                        i <= items@.len(),
                        self.imported@.len() == old(self).imported@.len() + i,
                        self.main == old(self).main,
                        self.wf(),
                        counts_le(old(self).counts(), self.counts()),
                        self.in_loop == old(self).in_loop,
                    decreases items@.len() - i,
                {
                    let index = self.add_import(path, &items[i].name);
                    let bound = match &items[i].alias {
                        Some(a) => copy_bytes(a),
                        None => copy_bytes(&items[i].name),
                    };
                    self.imported.push((bound, index));
                    i = i + 1;
                }
                let code: Vec<Instruction> = Vec::new();
                proof {
                    lemma_code_empty(self.counts(), 0);
                    assert(code@ =~= Seq::<Instruction>::empty());
                }
                Ok(code)
            },
            Statement::ImportModule { path, alias } => {
                let name = match alias {
                    Some(a) => copy_bytes(a),
                    None => copy_bytes(path),
                };
                self.modules.push((name, copy_bytes(path)));
                let code: Vec<Instruction> = Vec::new();
                proof {
                    lemma_code_empty(self.counts(), 0);
                    assert(code@ =~= Seq::<Instruction>::empty());
                }
                Ok(code)
            },
        }
    }

    /// An array literal: a fresh array, then each element stored at its
    /// position.
    #[verifier::spinoff_prover]
    #[verifier::rlimit(80)]
    fn compile_array(&mut self, e: &Expression, st: &mut SymbolTable) -> (r: Result<
        (Vec<Instruction>, usize),
        CompileError,
    >)
        requires
            old(self).wf(),
            model_wf(old(st).model()),
            old(st).model().scopes.len() > 0,
        ensures
            step_kept(*old(self), *final(self), final(st).model()),
            r matches Ok(res) ==> step_ok(
                *old(self),
                *final(self),
                old(st).model(),
                final(st).model(),
                res.0@,
            ) && is_reg(res.1 as u64),
            !(e is Array) ==> r == Err::<(Vec<Instruction>, usize), CompileError>(CompileError::Unsupported),
            e matches Expression::Array(elems) ==> (elems@.len() == 0 ==> (r is Ok <==> regs_free(
                old(st).model(),
                1,
            )) && (r matches Ok(res) ==> res.1 == old(st).model().top && res.0@ == seq![
                Instruction::spec_new(Opcode::CreateArray, old(st).model().top as u64, 0, 0),
            ])),
            e matches Expression::Array(elems) ==> (regs_free(old(st).model(), 1) ==> (elems_code(
                elems@,
                model_intermediate(old(st).model()),
                old(st).model().top,
            ) matches Some((c, m1)) ==> (r matches Ok(res) && res.1 == old(st).model().top && res.0@ == seq![
                Instruction::spec_new(Opcode::CreateArray, old(st).model().top as u64, elems@.len() as u64, 0),
            ] + c && final(st).model() == m1))),
        decreases e, 1nat,
    {
        match e {
            Expression::Array(elements) => {
                let arr = match st.register_intermediate() {
                    Ok(r) => r,
                    Err(err) => return Err(err),
                };
                let create = Instruction::create_array(arr, elements.len());
                proof {
                    lemma_code_single(create, self.counts(), 0);
                }
                let mut code = single(create);
                let ghost m0 = st.model();
                let ghost full = elems_code(elements@, m0, arr as nat);
                proof {
                    assert(elements@.take(0) =~= Seq::<crate::ast::Node<Expression>>::empty());
                    assert(seq![create] + Seq::<Instruction>::empty() =~= seq![create]);
                }
                let mut i: usize = 0;
                while i < elements.len()
                    invariant
                        i <= elements@.len(),
                        full == elems_code(elements@, m0, arr as nat),
                        m0 == model_intermediate(old(st).model()),
                        arr == old(st).model().top,
                        full is Some ==> (elems_code(elements@.take(i as int), m0, arr as nat) matches Some((c, mi))
                            && code@ == seq![create] + c && st.model() == mi),
                        e is Array,
                        e->Array_0 == *elements,
                        elements@.len() == 0 ==> code@ == seq![create],
                        st.model().scopes.len() > 0,
                        self.main == old(self).main,
                        is_reg(arr as u64),
                        self.wf(),
                        counts_le(old(self).counts(), self.counts()),
                        self.in_loop == old(self).in_loop,
                        model_wf(st.model()),
                        st.model().scopes.len() == old(st).model().scopes.len(),
                        st.model().scopes.take(old(st).model().scopes.len() - 1) == old(st).model().scopes.take(
                            old(st).model().scopes.len() - 1,
                        ),
                        code_ok(code@, self.counts()),
                        !self.in_loop ==> settled(code@),
                        code@.len() <= MAX_CODE_LEN,
                    decreases elements@.len() - i,
                {
                    let ghost k0 = self.counts();
                    proof {
                        assert(decreases_to!(e => e->Array_0));
                        assert(decreases_to!(e->Array_0 => e->Array_0@));
                        assert(decreases_to!(e->Array_0@ => e->Array_0@[i as int]));
                        assert(decreases_to!(e->Array_0@[i as int] => e->Array_0@[i as int].kind));
                    }
                    proof {
                        if full is Some {
                            lemma_elems_prefix(elements@, m0, arr as nat, i + 1);
                            lemma_elems_step(elements@, m0, arr as nat, i as int);
                            let ec_spec = expr_code(elements@[i as int].kind, st.model()).unwrap().0;
                            assert(code@.len() + ec_spec.len() + 3 <= MAX_CODE_LEN);
                        }
                    }
                    let (ec, er) = match self.compile_expression(&elements[i].kind, st) {
                        Ok(x) => x,
                        Err(err) => return Err(err),
                    };
                    let idx = match st.register_intermediate() {
                        Ok(r) => r,
                        Err(err) => return Err(err),
                    };
                    let i_idx = Instruction::mov_const(idx, tag_int(i as i64));
                    let i_store = Instruction::store_index(arr, idx, er);
                    proof {
                        lemma_code_mono(code@, k0, self.counts(), 0);
                        lemma_code_single(i_idx, self.counts(), 0);
                        lemma_code_single(i_store, self.counts(), 0);
                    }
                    code = match concat(code, ec, Ghost(self.counts()), Ghost(0), Ghost(0), Ghost(0)) {
                        Ok(c) => c,
                        Err(err) => return Err(err),
                    };
                    assert(full is Some ==> code@.len() + 2 <= MAX_CODE_LEN);
                    code = match concat(code, single(i_idx), Ghost(self.counts()), Ghost(0), Ghost(0), Ghost(0)) {
                        Ok(c) => c,
                        Err(err) => return Err(err),
                    };
                    code = match concat(code, single(i_store), Ghost(self.counts()), Ghost(0), Ghost(0), Ghost(0)) {
                        Ok(c) => c,
                        Err(err) => return Err(err),
                    };
                    proof {
                        if full is Some {
                            lemma_elems_step(elements@, m0, arr as nat, i as int);
                            let c = elems_code(elements@.take(i as int), m0, arr as nat).unwrap().0;
                            assert(code@ =~= seq![create] + (c + ec@ + seq![i_idx, i_store]));
                        }
                    }
                    i = i + 1;
                }
                proof {
                    assert(elements@.take(i as int) =~= elements@);
                }
                Ok((code, arr))
            },
            _ => Err(CompileError::Unsupported),
        }
    }
}

impl Compiler {
    /// `NAME = VALUE` assigns to the variable the innermost scope binds, or
    /// binds a new one in the current scope (before the value is compiled,
    /// so that a function can call itself by that name); at the top level a
    /// function assigned to a name is exported under it. `T[I] = VALUE`
    /// stores into an array.
    fn compile_assignment(&mut self, e: &Expression, st: &mut SymbolTable) -> (r: Result<
        (Vec<Instruction>, usize),
        CompileError,
    >)
        requires
            old(self).wf(),
            model_wf(old(st).model()),
            old(st).model().scopes.len() > 0,
        ensures
            step_kept(*old(self), *final(self), final(st).model()),
            r matches Ok(res) ==> step_ok(
                *old(self),
                *final(self),
                old(st).model(),
                final(st).model(),
                res.0@,
            ) && is_reg(res.1 as u64),
            r matches Ok(res) ==> assigns_existing(*e, old(st).model(), res.0@, res.1),
            !(e is Assignment) ==> r == Err::<(Vec<Instruction>, usize), CompileError>(CompileError::Unsupported),
            e is Assignment ==> (expr_code(*e, old(st).model()) matches Some((c, reg, m1)) ==> (r matches Ok(
                res,
            ) && res.0@ == c && res.1 == reg && final(st).model() == m1 && *final(self) == *old(self))),
            e matches Expression::Assignment { lhs, .. } ==> (lhs.kind is Tuple ==> r == Err::<
                (Vec<Instruction>, usize),
                CompileError,
            >(CompileError::InvalidAssignmentTarget)),
            e matches Expression::Assignment { lhs, rhs } ==> (lhs.kind is Identifier && lookup(
                old(st).model().scopes,
                lhs.kind->Identifier_0@,
            ) is Some && bound_name(rhs.kind, old(st).model()) ==> (r matches Ok(res) && res.1 == lookup(
                old(st).model().scopes,
                lhs.kind->Identifier_0@,
            ).unwrap() && res.0@ == seq![
                Instruction::spec_new(
                    Opcode::Mov,
                    res.1 as u64,
                    name_reg(rhs.kind, old(st).model()) as u64,
                    0,
                ),
            ])),
        decreases e, 1nat,
    {
        match e {
            Expression::Assignment { lhs, rhs } => match &lhs.kind {
                Pattern::Identifier(name) => {
                    let ghost before = st.model();
                    let target = match st.get_variable(name.as_slice()) {
                        Some(r) => r,
                        None => match st.register_variable(name) {
                            Ok(r) => r,
                            Err(err) => return Err(err),
                        },
                    };
                    assert(crate::symbols::lookup(before.scopes, name@) matches Some(bound) ==> target == bound);
                    assert(st.model().scopes.take(before.scopes.len() - 1) =~= before.scopes.take(
                        before.scopes.len() - 1,
                    ));
                    let fn_index = self.functions.len();
                    let is_function = match &rhs.kind {
                        Expression::Function { .. } => true,
                        _ => false,
                    };
                    let (rc, rr) = match self.compile_expression(&rhs.kind, st) {
                        Ok(x) => x,
                        Err(err) => return Err(err),
                    };
                    if is_function && st.depth() == 1 && fn_index < self.functions.len() {
                        self.set_export(name, fn_index);
                    }
                    let ins = Instruction::mov(target, rr);
                    proof {
                        lemma_code_single(ins, self.counts(), 0);
                    }
                    match concat(rc, single(ins), Ghost(self.counts()), Ghost(0), Ghost(0), Ghost(0)) {
                        Ok(c) => {
                            assert(c@.last() == ins);
                            Ok((c, target))
                        },
                        Err(err) => Err(err),
                    }
                },
                Pattern::Index { target, index } => {
                    let (tc, tr) = match self.compile_expression(&target.kind, st) {
                        Ok(x) => x,
                        Err(err) => return Err(err),
                    };
                    let ghost k1 = self.counts();
                    let (ic, ir) = match self.compile_expression(&index.kind, st) {
                        Ok(x) => x,
                        Err(err) => return Err(err),
                    };
                    let ghost k2 = self.counts();
                    let (rc, rr) = match self.compile_expression(&rhs.kind, st) {
                        Ok(x) => x,
                        Err(err) => return Err(err),
                    };
                    let ghost k = self.counts();
                    let ins = Instruction::store_index(tr, ir, rr);
                    proof {
                        lemma_code_mono(tc@, k1, k, 0);
                        lemma_code_mono(ic@, k2, k, 0);
                        lemma_code_single(ins, k, 0);
                    }
                    let code = match concat(tc, ic, Ghost(k), Ghost(0), Ghost(0), Ghost(0)) {
                        Ok(c) => c,
                        Err(err) => return Err(err),
                    };
                    let code = match concat(code, rc, Ghost(k), Ghost(0), Ghost(0), Ghost(0)) {
                        Ok(c) => c,
                        Err(err) => return Err(err),
                    };
                    match concat(code, single(ins), Ghost(k), Ghost(0), Ghost(0), Ghost(0)) {
                        Ok(c) => Ok((c, rr)),
                        Err(err) => Err(err),
                    }
                },
                Pattern::Tuple(_) => Err(CompileError::InvalidAssignmentTarget),
            },
            _ => Err(CompileError::Unsupported),
        }
    }

    /// `TARGET OP= VALUE`: the operation on the target's current value and
    /// the value, stored back into the target, which must exist.
    #[verifier::spinoff_prover]
    #[verifier::rlimit(40)]
    fn compile_compound(&mut self, e: &Expression, st: &mut SymbolTable) -> (r: Result<
        (Vec<Instruction>, usize),
        CompileError,
    >)
        requires
            old(self).wf(),
            model_wf(old(st).model()),
            old(st).model().scopes.len() > 0,
        ensures
            step_kept(*old(self), *final(self), final(st).model()),
            r matches Ok(res) ==> step_ok(
                *old(self),
                *final(self),
                old(st).model(),
                final(st).model(),
                res.0@,
            ) && is_reg(res.1 as u64),
            !(e is CompoundAssignment) ==> r == Err::<(Vec<Instruction>, usize), CompileError>(CompileError::Unsupported),
            e matches Expression::CompoundAssignment { lhs, .. } ==> (lhs.kind is Tuple ==> r
                == Err::<(Vec<Instruction>, usize), CompileError>(
                CompileError::InvalidAssignmentTarget,
            )),
            e matches Expression::CompoundAssignment { lhs, .. } ==> (lhs.kind is Identifier
                && lookup(old(st).model().scopes, lhs.kind->Identifier_0@) is None ==> (r matches Err(
                CompileError::UnknownVariable(n),
            ) && n@ == lhs.kind->Identifier_0@)),
            e matches Expression::CompoundAssignment { lhs, op, rhs } ==> (lhs.kind is Identifier
                && lookup(old(st).model().scopes, lhs.kind->Identifier_0@) is Some && bound_name(rhs.kind, old(st).model())
                && binop_opcode(*op) is Some ==> (r is Ok <==> regs_free(old(st).model(), 1))),
        decreases e, 1nat,
    {
        match e {
            Expression::CompoundAssignment { lhs, op, rhs } => match &lhs.kind {
                Pattern::Identifier(name) => {
                    let target = match st.get_variable(name.as_slice()) {
                        Some(r) => r,
                        None => return Err(CompileError::UnknownVariable(copy_bytes(name))),
                    };
                    let (rc, rr) = match self.compile_expression(&rhs.kind, st) {
                        Ok(x) => x,
                        Err(err) => return Err(err),
                    };
                    let res = match st.register_intermediate() {
                        Ok(r) => r,
                        Err(err) => return Err(err),
                    };
                    let i_op = match binary_instruction(*op, res, target, rr) {
                        Some(i) => i,
                        None => return Err(CompileError::Unsupported),
                    };
                    let i_mov = Instruction::mov(target, res);
                    proof {
                        lemma_code_single(i_op, self.counts(), 0);
                        lemma_code_single(i_mov, self.counts(), 0);
                    }
                    let code = match concat(rc, single(i_op), Ghost(self.counts()), Ghost(0), Ghost(0), Ghost(0)) {
                        Ok(c) => c,
                        Err(err) => return Err(err),
                    };
                    match concat(code, single(i_mov), Ghost(self.counts()), Ghost(0), Ghost(0), Ghost(0)) {
                        Ok(c) => Ok((c, target)),
                        Err(err) => Err(err),
                    }
                },
                Pattern::Index { target, index } => {
                    let (tc, tr) = match self.compile_expression(&target.kind, st) {
                        Ok(x) => x,
                        Err(err) => return Err(err),
                    };
                    let ghost k1 = self.counts();
                    let (ic, ir) = match self.compile_expression(&index.kind, st) {
                        Ok(x) => x,
                        Err(err) => return Err(err),
                    };
                    let ghost k2 = self.counts();
                    let (rc, rr) = match self.compile_expression(&rhs.kind, st) {
                        Ok(x) => x,
                        Err(err) => return Err(err),
                    };
                    let ghost k = self.counts();
                    let cur = match st.register_intermediate() {
                        Ok(r) => r,
                        Err(err) => return Err(err),
                    };
                    let res = match st.register_intermediate() {
                        Ok(r) => r,
                        Err(err) => return Err(err),
                    };
                    let i_load = Instruction::load_index(cur, tr, ir);
                    let i_op = match binary_instruction(*op, res, cur, rr) {
                        Some(i) => i,
                        None => return Err(CompileError::Unsupported),
                    };
                    let i_store = Instruction::store_index(tr, ir, res);
                    proof {
                        lemma_code_mono(tc@, k1, k, 0);
                        lemma_code_mono(ic@, k2, k, 0);
                        lemma_code_single(i_load, k, 0);
                        lemma_code_single(i_op, k, 0);
                        lemma_code_single(i_store, k, 0);
                    }
                    let code = match concat(tc, ic, Ghost(k), Ghost(0), Ghost(0), Ghost(0)) {
                        Ok(c) => c,
                        Err(err) => return Err(err),
                    };
                    let code = match concat(code, rc, Ghost(k), Ghost(0), Ghost(0), Ghost(0)) {
                        Ok(c) => c,
                        Err(err) => return Err(err),
                    };
                    let code = match concat(code, single(i_load), Ghost(k), Ghost(0), Ghost(0), Ghost(0)) {
                        Ok(c) => c,
                        Err(err) => return Err(err),
                    };
                    let code = match concat(code, single(i_op), Ghost(k), Ghost(0), Ghost(0), Ghost(0)) {
                        Ok(c) => c,
                        Err(err) => return Err(err),
                    };
                    match concat(code, single(i_store), Ghost(k), Ghost(0), Ghost(0), Ghost(0)) {
                        Ok(c) => Ok((c, res)),
                        Err(err) => Err(err),
                    }
                },
                Pattern::Tuple(_) => Err(CompileError::InvalidAssignmentTarget),
            },
            _ => Err(CompileError::Unsupported),
        }
    }

    /// A function: its code goes into the slot reserved for it in the
    /// module's function table, with its parameters moved out of the
    /// argument registers and its value left in register 0; the expression
    /// itself loads a reference to that slot.
    fn compile_function(&mut self, e: &Expression, st: &mut SymbolTable) -> (r: Result<
        (Vec<Instruction>, usize),
        CompileError,
    >)
        requires
            old(self).wf(),
            model_wf(old(st).model()),
            old(st).model().scopes.len() > 0,
        ensures
            step_kept(*old(self), *final(self), final(st).model()),
            r matches Ok(res) ==> step_ok(
                *old(self),
                *final(self),
                old(st).model(),
                final(st).model(),
                res.0@,
            ) && is_reg(res.1 as u64),
            !(e is Function) ==> r == Err::<(Vec<Instruction>, usize), CompileError>(CompileError::Unsupported),
            e is Function && r is Ok ==> final(st).model().scopes == old(st).model().scopes,
            e matches Expression::Function { signature, .. } ==> (signature.args@.len()
                > MAX_ARGUMENTS ==> r == Err::<(Vec<Instruction>, usize), CompileError>(
                CompileError::TooManyArguments,
            )),
            e matches Expression::Function { signature, body } ==> (signature.args@.len() == 0
                && body.kind is Integer ==> (r is Ok <==> regs_free(old(st).model(), 1)) && (r matches Ok(res)
                ==> res.1 == old(st).model().top && final(self).functions@.len() == old(self).functions@.len() + 1
                && res.0@ == seq![
                Instruction::spec_new(
                    Opcode::LoadLocalFn,
                    old(st).model().top as u64,
                    old(self).functions@.len() as u64,
                    0,
                ),
            ])),
            e matches Expression::Function { signature, .. } ==> (r matches Ok(res) ==> {
                let f = final(self).functions@[old(self).functions@.len() as int].code_block@;
                &&& old(self).functions@.len() < final(self).functions@.len()
                &&& res.0@ == seq![
                    Instruction::spec_new(Opcode::LoadLocalFn, res.1 as u64, old(self).functions@.len() as u64, 0),
                ]
                &&& signature.args@.len() <= f.len()
                &&& forall|k: int|
                    0 <= k < signature.args@.len() ==> #[trigger] f[k] == Instruction::spec_new(
                        Opcode::Mov,
                        (old(st).model().top + k) as u64,
                        (k + 1) as u64,
                        0,
                    )
            }),
        decreases e, 1nat,
    {
        match e {
            Expression::Function { signature, body } => {
                let args = &signature.args;
                if args.len() > MAX_ARGUMENTS {
                    return Err(CompileError::TooManyArguments);
                }
                let ghost k0 = self.counts();
                let index = self.functions.len();
                let empty: Vec<Instruction> = Vec::new();
                proof {
                    lemma_code_empty(k0, 0);
                    assert(empty@ =~= Seq::<Instruction>::empty());
                }
                self.functions.push(CompiledFunction { code_block: empty });
                proof {
                    lemma_funcs_mono(old(self).functions@, k0, self.counts());
                    assert forall|i: int| 0 <= i < self.functions@.len() implies code_ok(
                        #[trigger] self.functions@[i].code_block@,
                        self.counts(),
                    ) && settled(self.functions@[i].code_block@)
                        && self.functions@[i].code_block@.len() <= MAX_CODE_LEN by {
                        if i < old(self).functions@.len() {
                            assert(self.functions@[i] == old(self).functions@[i]);
                        } else {
                            lemma_code_empty(self.counts(), 0);
                        }
                    }
                }
                let saved = self.in_loop;
                self.in_loop = false;
                st.push_scope();
                let mut code: Vec<Instruction> = Vec::new();
                proof {
                    lemma_code_empty(self.counts(), 0);
                    assert(code@ =~= Seq::<Instruction>::empty());
                    assert(st.model().scopes.take(old(st).model().scopes.len() as int) =~= old(st).model().scopes);
                }
                let mut i: usize = 0;
                while i < args.len()
                    invariant
                        i <= args@.len(),
                        args@.len() <= MAX_ARGUMENTS,
                        e is Function,
                        e->signature.args == *args,
                        args@.len() == 0 ==> code@.len() == 0 && st.model() == model_push_scope(
                            old(st).model(),
                        ),
                        index < self.functions@.len(),
                        self.main == old(self).main,
                        self.wf(),
                        counts_le(old(self).counts(), self.counts()),
                        !self.in_loop,
                        model_wf(st.model()),
                        st.model().scopes.len() == old(st).model().scopes.len() + 1,
                        st.model().scopes.take(old(st).model().scopes.len() as int) == old(st).model().scopes,
                        code_ok(code@, self.counts()),
                        settled(code@),
                        code@.len() <= MAX_CODE_LEN,
                        code@.len() == i,
                        st.model().top == old(st).model().top + i,
                        forall|q: int| 0 <= q < i ==> #[trigger] code@[q] == Instruction::spec_new(
                            Opcode::Mov,
                            (old(st).model().top + q) as u64,
                            (q + 1) as u64,
                            0,
                        ),
                        index == old(self).functions@.len(),
                    decreases args@.len() - i,
                {
                    match &args[i].kind {
                        Pattern::Identifier(name) => {
                            let ghost before_reg = st.model();
                            let reg = match st.register_variable(name) {
                                Ok(r) => r,
                                Err(err) => return Err(err),
                            };
                            assert(st.model().scopes.take(old(st).model().scopes.len() as int) =~= before_reg.scopes.take(
                                old(st).model().scopes.len() as int,
                            ));
                            let ins = Instruction::mov(reg, i + 1);
                            proof {
                                lemma_code_single(ins, self.counts(), 0);
                            }
                            let ghost code_before = code@;
                            code = match concat(code, single(ins), Ghost(self.counts()), Ghost(0), Ghost(0), Ghost(0)) {
                                Ok(c) => c,
                                Err(err) => return Err(err),
                            };
                            assert forall|q: int| 0 <= q < i + 1 implies #[trigger] code@[q] == Instruction::spec_new(
                                Opcode::Mov,
                                (old(st).model().top + q) as u64,
                                (q + 1) as u64,
                                0,
                            ) by {
                                if q < i {
                                    assert(code@[q] == code_before[q]);
                                }
                            }
                        },
                        _ => return Err(CompileError::InvalidAssignmentTarget),
                    }
                    i = i + 1;
                }
                let ghost k1 = self.counts();
                let ghost prologue = code@;
                let (bc, br) = match self.compile_expression(&body.kind, st) {
                    Ok(x) => x,
                    Err(err) => return Err(err),
                };
                let ghost k = self.counts();
                let i_res = Instruction::mov(0, br);
                proof {
                    lemma_code_mono(code@, k1, k, 0);
                    lemma_code_single(i_res, k, 0);
                }
                let code = match concat(code, bc, Ghost(k), Ghost(0), Ghost(0), Ghost(0)) {
                    Ok(c) => c,
                    Err(err) => return Err(err),
                };
                let code = match concat(code, single(i_res), Ghost(k), Ghost(0), Ghost(0), Ghost(0)) {
                    Ok(c) => c,
                    Err(err) => return Err(err),
                };
                let ghost inner = st.model();
                st.pop_scope();
                assert(st.model().scopes =~= inner.scopes.take(old(st).model().scopes.len() as int));
                self.in_loop = saved;
                assert forall|q: int| 0 <= q < prologue.len() implies #[trigger] code@[q] == prologue[q] by {}
                let ghost before = self.functions@;
                self.functions.set(index, CompiledFunction { code_block: code });
                proof {
                    assert forall|j: int| 0 <= j < self.functions@.len() implies code_ok(
                        #[trigger] self.functions@[j].code_block@,
                        self.counts(),
                    ) && settled(self.functions@[j].code_block@)
                        && self.functions@[j].code_block@.len() <= MAX_CODE_LEN by {
                        if j != index {
                            assert(self.functions@[j] == before[j]);
                        }
                    }
                }
                let reg = match st.register_intermediate() {
                    Ok(r) => r,
                    Err(err) => return Err(err),
                };
                let ins = Instruction::load_local_fn(reg, index);
                proof {
                    lemma_code_single(ins, self.counts(), 0);
                }
                Ok((single(ins), reg))
            },
            _ => Err(CompileError::Unsupported),
        }
    }

    /// A call: the arguments into registers of their own, the callee, then
    /// the arguments moved into registers 1 and up, the call, and the
    /// result copied out of register 0.
    fn compile_call(&mut self, e: &Expression, st: &mut SymbolTable) -> (r: Result<
        (Vec<Instruction>, usize),
        CompileError,
    >)
        requires
            old(self).wf(),
            model_wf(old(st).model()),
            old(st).model().scopes.len() > 0,
        ensures
            step_kept(*old(self), *final(self), final(st).model()),
            r matches Ok(res) ==> step_ok(
                *old(self),
                *final(self),
                old(st).model(),
                final(st).model(),
                res.0@,
            ) && is_reg(res.1 as u64),
            !(e is FunctionCall) ==> r == Err::<(Vec<Instruction>, usize), CompileError>(CompileError::Unsupported),
            e matches Expression::FunctionCall { arguments, .. } ==> (arguments@.len()
                > MAX_ARGUMENTS ==> r == Err::<(Vec<Instruction>, usize), CompileError>(
                CompileError::TooManyArguments,
            )),
            e matches Expression::FunctionCall { callee, arguments } ==> (arguments@.len() == 0
                && bound_name(callee.kind, old(st).model()) ==> (r is Ok <==> regs_free(old(st).model(), 1)) && (r matches Ok(
                res,
            ) ==> res.1 == old(st).model().top && res.0@ == seq![
                Instruction::spec_new(Opcode::Call, name_reg(callee.kind, old(st).model()) as u64, 0, 0),
                Instruction::spec_new(Opcode::Mov, old(st).model().top as u64, 0, 0),
            ])),
            e matches Expression::FunctionCall { callee, arguments } ==> (args_code(arguments@, old(st).model())
                matches Some((ac, regs, m1)) ==> (callee_code(callee.kind, m1) matches Some((cc, cr, m2)) ==> (
            r matches Ok(res) ==> call_layout(res.0@, ac + cc, regs, cr, res.1 as nat)))),
        decreases e, 1nat,
    {
        match e {
            Expression::FunctionCall { callee, arguments } => {
                if arguments.len() > MAX_ARGUMENTS {
                    return Err(CompileError::TooManyArguments);
                }
                let mut code: Vec<Instruction> = Vec::new();
                proof {
                    lemma_code_empty(self.counts(), 0);
                    assert(code@ =~= Seq::<Instruction>::empty());
                }
                let mut regs: Vec<usize> = Vec::new();
                let ghost m0 = st.model();
                let ghost full = args_code(arguments@, m0);
                proof {
                    assert(arguments@.take(0) =~= Seq::<crate::ast::Node<Expression>>::empty());
                }
                let mut i: usize = 0;
                while i < arguments.len()
                    invariant
                        i <= arguments@.len(),
                        m0 == old(st).model(),
                        full == args_code(arguments@, m0),
                        full is Some ==> (args_code(arguments@.take(i as int), m0) matches Some((c, rs, mi))
                            && code@ == c && st.model() == mi && regs@.len() == rs.len() && forall|q: int|
                            0 <= q < rs.len() ==> #[trigger] rs[q] == regs@[q] as nat),
                        e is FunctionCall,
                        e->arguments == *arguments,
                        arguments@.len() == 0 ==> code@.len() == 0 && st.model() == old(st).model()
                            && *self == *old(self),
                        st.model().scopes.len() > 0,
                        self.main == old(self).main,
                        arguments@.len() <= MAX_ARGUMENTS,
                        regs@.len() == i,
                        forall|j: int| 0 <= j < i ==> is_reg(#[trigger] regs@[j] as u64),
                        self.wf(),
                        counts_le(old(self).counts(), self.counts()),
                        self.in_loop == old(self).in_loop,
                        model_wf(st.model()),
                        st.model().scopes.len() == old(st).model().scopes.len(),
                        st.model().scopes.take(old(st).model().scopes.len() - 1) == old(st).model().scopes.take(
                            old(st).model().scopes.len() - 1,
                        ),
                        code_ok(code@, self.counts()),
                        !self.in_loop ==> settled(code@),
                        code@.len() <= MAX_CODE_LEN,
                    decreases arguments@.len() - i,
                {
                    let ghost k0 = self.counts();
                    proof {
                        assert(decreases_to!(e => e->arguments));
                        assert(decreases_to!(e->arguments => e->arguments@));
                        assert(decreases_to!(e->arguments@ => e->arguments@[i as int]));
                        assert(decreases_to!(e->arguments@[i as int] => e->arguments@[i as int].kind));
                    }
                    let ghost regs0 = regs@;
                    proof {
                        if full is Some {
                            lemma_args_prefix(arguments@, m0, i + 1);
                            assert(arguments@.take(i + 1).drop_last() =~= arguments@.take(i as int));
                            assert(arguments@.take(i + 1).last() == arguments@[i as int]);
                        }
                    }
                    let (ac, ar) = match self.compile_expression(&arguments[i].kind, st) {
                        Ok(x) => x,
                        Err(err) => return Err(err),
                    };
                    proof {
                        lemma_code_mono(code@, k0, self.counts(), 0);
                    }
                    code = match concat(code, ac, Ghost(self.counts()), Ghost(0), Ghost(0), Ghost(0)) {
                        Ok(c) => c,
                        Err(err) => return Err(err),
                    };
                    regs.push(ar);
                    proof {
                        if full is Some {
                            let rs = args_code(arguments@.take(i + 1), m0).unwrap().1;
                            assert forall|q: int| 0 <= q < rs.len() implies #[trigger] rs[q] == regs@[q] as nat by {
                                if q < i {
                                    assert(regs@[q] == regs0[q]);
                                }
                            }
                        }
                    }
                    i = i + 1;
                }
                proof {
                    assert(arguments@.take(i as int) =~= arguments@);
                }
                let ghost m1 = st.model();
                let ghost whole = full is Some && callee_code(callee.kind, m1) is Some;
                let ghost k0 = self.counts();
                let (cc, cr) = match self.compile_expression(&callee.kind, st) {
                    Ok(x) => x,
                    Err(err) => return Err(err),
                };
                let ghost k = self.counts();
                proof {
                    lemma_code_mono(code@, k0, k, 0);
                }
                code = match concat(code, cc, Ghost(k), Ghost(0), Ghost(0), Ghost(0)) {
                    Ok(c) => c,
                    Err(err) => return Err(err),
                };
                let ghost code0 = code@;
                proof {
                    if whole {
                        assert(code0 == full.unwrap().0 + callee_code(callee.kind, m1).unwrap().0);
                        assert(cr == callee_code(callee.kind, m1).unwrap().1);
                    }
                }
                let mut j: usize = 0;
                while j < regs.len()
                    invariant
                        j <= regs@.len(),
                        code@.len() == code0.len() + j,
                        code@.take(code0.len() as int) == code0,
                        whole == (full is Some && callee_code(callee.kind, m1) is Some),
                        whole ==> code0 == full.unwrap().0 + callee_code(callee.kind, m1).unwrap().0 && cr
                            == callee_code(callee.kind, m1).unwrap().1 && regs@.len() == full.unwrap().1.len()
                            && forall|q: int| 0 <= q < regs@.len() ==> #[trigger] full.unwrap().1[q] == regs@[q] as nat,
                        forall|q: int| 0 <= q < j ==> #[trigger] code@[code0.len() + q] == Instruction::spec_new(
                            Opcode::Mov,
                            (q + 1) as u64,
                            regs@[q] as u64,
                            0,
                        ),
                        self.wf(),
                        self.counts() == k,
                        counts_le(old(self).counts(), self.counts()),
                        self.in_loop == old(self).in_loop,
                        self.main == old(self).main,
                        model_wf(st.model()),
                        st.model().scopes.len() == old(st).model().scopes.len(),
                        st.model().scopes.take(old(st).model().scopes.len() - 1) == old(st).model().scopes.take(
                            old(st).model().scopes.len() - 1,
                        ),
                        regs@.len() <= MAX_ARGUMENTS,
                        e is FunctionCall,
                        e->arguments == *arguments,
                        arguments@.len() <= MAX_ARGUMENTS,
                        regs@.len() == arguments@.len(),
                        regs@.len() == 0 ==> code@ == code0,
                        forall|q: int| 0 <= q < regs@.len() ==> is_reg(#[trigger] regs@[q] as u64),
                        code_ok(code@, k),
                        !self.in_loop ==> settled(code@),
                        code@.len() <= MAX_CODE_LEN,
                    decreases regs@.len() - j,
                {
                    let ins = Instruction::mov(j + 1, regs[j]);
                    proof {
                        lemma_code_single(ins, k, 0);
                    }
                    let ghost before = code@;
                    code = match concat(code, single(ins), Ghost(k), Ghost(0), Ghost(0), Ghost(0)) {
                        Ok(c) => c,
                        Err(err) => return Err(err),
                    };
                    proof {
                        assert forall|q: int| 0 <= q < j + 1 implies #[trigger] code@[code0.len() + q] == Instruction::spec_new(
                            Opcode::Mov,
                            (q + 1) as u64,
                            regs@[q] as u64,
                            0,
                        ) by {
                            if q < j {
                                assert(code@[code0.len() + q] == before[code0.len() + q]);
                            }
                        }
                        assert(code@.take(code0.len() as int) =~= before.take(code0.len() as int));
                    }
                    j = j + 1;
                }
                let res = match st.register_intermediate() {
                    Ok(r) => r,
                    Err(err) => return Err(err),
                };
                let i_call = Instruction::call(cr);
                let i_res = Instruction::mov(res, 0);
                proof {
                    lemma_code_single(i_call, k, 0);
                    lemma_code_single(i_res, k, 0);
                }
                let code = match concat(code, single(i_call), Ghost(k), Ghost(0), Ghost(0), Ghost(0)) {
                    Ok(c) => c,
                    Err(err) => return Err(err),
                };
                let ghost before = code@;
                match concat(code, single(i_res), Ghost(k), Ghost(0), Ghost(0), Ghost(0)) {
                    Ok(c) => {
                        proof {
                            if whole {
                                let pre = full.unwrap().0 + callee_code(callee.kind, m1).unwrap().0;
                                let rs = full.unwrap().1;
                                assert(c@.take(pre.len() as int) =~= pre);
                                assert forall|kk: int| 1 <= kk <= rs.len() implies #[trigger] c@[pre.len() + kk - 1]
                                    == Instruction::spec_new(Opcode::Mov, kk as u64, rs[kk - 1] as u64, 0) by {
                                    assert(c@[pre.len() + kk - 1] == before[pre.len() + (kk - 1)]);
                                }
                                assert(call_layout(c@, pre, rs, cr as nat, res as nat));
                            }
                        }
                        Ok((c, res))
                    },
                    Err(err) => Err(err),
                }
            },
            _ => Err(CompileError::Unsupported),
        }
    }
}

/// Compiles a module: its statements in order make the main code. The
/// result, when there is one, is sound in the sense of [`module_ok`].
pub fn compile_module(module: &Module) -> (r: Result<CompiledModule, CompileError>)
    ensures
        r matches Ok(cm) ==> module_ok(cm),
        module.statements@.len() == 0 ==> (r matches Ok(cm) && cm.main@.len() == 0
            && cm.functions@.len() == 0 && cm.strings@.len() == 0 && cm.exports@.len() == 0
            && cm.imports@.len() == 0),
        module.statements@.len() > 0 && module.statements@[0] is Break ==> r == Err::<
            CompiledModule,
            CompileError,
        >(CompileError::BreakOutsideLoop),
        module.statements@.len() > 0 && module.statements@[0] is Continue ==> r == Err::<
            CompiledModule,
            CompileError,
        >(CompileError::ContinueOutsideLoop),
        (forall|i: int|
            0 <= i < module.statements@.len() ==> #[trigger] module.statements@[i] is ImportModule
                || module.statements@[i] is ImportFrom) ==> r is Ok,
        stmts_code(module.statements@, module_start()) matches Some((c, _m)) ==> (r matches Ok(cm)
            && cm.main@ == c && cm.functions@.len() == 0 && cm.strings@.len() == 0 && cm.exports@.len() == 0
            && cm.imports@.len() == 0),
{
    let mut st = SymbolTable::new();
    st.push_scope();
    assert(st.model() == module_start());
    let mut compiler = Compiler::new();
    assert(module.statements@.take(0) =~= Seq::<Statement>::empty());
    let mut i: usize = 0;
    while i < module.statements.len()
        invariant
            i <= module.statements@.len(),
            compiler.wf(),
            !compiler.in_loop,
            model_wf(st.model()),
            st.model().scopes.len() == 1,
            code_ok(compiler.main@, compiler.counts()),
            settled(compiler.main@),
            compiler.main@.len() <= MAX_CODE_LEN,
            i > 0 ==> !(module.statements@[0] is Break) && !(module.statements@[0] is Continue),
            module.statements@.len() == 0 ==> compiler.main@.len() == 0
                && compiler.functions@.len() == 0 && compiler.strings@.len() == 0
                && compiler.exports@.len() == 0 && compiler.imports@.len() == 0,
            stmts_code(module.statements@.take(i as int), module_start()) matches Some((c, m1)) ==> (
            compiler.main@ == c && st.model() == m1 && compiler.functions@.len() == 0
                && compiler.strings@.len() == 0 && compiler.exports@.len() == 0 && compiler.imports@.len()
                == 0),
        decreases module.statements@.len() - i,
    {
        proof {
            if stmts_code(module.statements@, module_start()) is Some {
                lemma_stmts_prefix(module.statements@, module_start(), i + 1);
            }
            assert(module.statements@.take(i + 1).drop_last() =~= module.statements@.take(i as int));
            assert(module.statements@.take(i + 1).last() == module.statements@[i as int]);
        }
        let ghost k0 = compiler.counts();
        let code = match compiler.compile_statement(&module.statements[i], &mut st) {
            Ok(c) => c,
            Err(err) => return Err(err),
        };
        let mut main: Vec<Instruction> = Vec::new();
        std::mem::swap(&mut main, &mut compiler.main);
        proof {
            lemma_code_mono(main@, k0, compiler.counts(), 0);
        }
        compiler.main = match concat(main, code, Ghost(compiler.counts()), Ghost(0), Ghost(0), Ghost(0)) {
            Ok(c) => c,
            Err(err) => return Err(err),
        };
        i = i + 1;
    }
    assert(module.statements@.take(i as int) =~= module.statements@);
    Ok(
        CompiledModule {
            main: compiler.main,
            functions: compiler.functions,
            strings: compiler.strings,
            exports: compiler.exports,
            imports: compiler.imports,
        },
    )
}
} // verus!
