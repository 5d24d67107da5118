//! The register virtual machine.
//!
//! The machine has 100 general registers, a call stack that saves the whole
//! register file on every call, a byte heap for strings and arrays, and an
//! output buffer. Its meaning is given by [`step`]: one instruction, from
//! one machine state to the next; [`Interpreter::run`] performs those steps.
use vstd::prelude::*;
use crate::bytecode::{Instruction, Opcode, Program};
use crate::format::{decimal, decimal_bytes, digits, hex_bytes};
use crate::heap::{
    Heap, ObjectKind, HEADER_SIZE, SIZE_MASK, header_word, le_bytes, object_footprint, splice,
    word_at,
};
use crate::value::{
    spec_is_bool, spec_is_int, spec_is_pointer, spec_tag_bool, spec_tag_int, spec_untag_bool,
    spec_untag_int, is_bool, is_int, is_pointer, tag_bool, tag_int, untag_bool, untag_int,
};

verus! {

pub const NR_OF_REGISTERS: usize = 100;

pub const HEAP_CAPACITY: usize = 1048576;

/// Why a run stopped early.
#[derive(Clone, Copy, Debug, PartialEq, Eq, Structural)]
pub enum RuntimeError {
    /// An operand names a register that does not exist.
    BadRegister,
    /// An integer operation's exact result does not fit in 64 bits.
    Overflow,
    DivisionByZero,
    NegativeExponent,
    /// A jump leaves the range of instruction positions.
    BadJump,
    /// A call of a value that names no function.
    BadFunction,
    /// A string constant that the program does not have.
    BadString,
    OutOfMemory,
    /// An array access outside the array.
    BadIndex,
    /// A value printed as an object whose header or data lie outside the heap.
    BadObject,
    /// An instruction that only the linker understands.
    Unlinked,
}

/// Whether the machine goes on.
#[derive(Clone, Copy, Debug, PartialEq, Eq, Structural)]
pub enum Status {
    Running,
    Halted,
    Failed(RuntimeError),
}

/// A saved caller: its registers, where it resumes, and its function.
pub struct FrameModel {
    pub regs: Seq<u64>,
    pub return_ip: nat,
    pub func: nat,
}

/// The state of the machine. Function 0 stands for the main code.
pub struct VmModel {
    pub regs: Seq<u64>,
    pub frames: Seq<FrameModel>,
    pub mem: Seq<u8>,
    pub top: nat,
    pub out: Seq<u8>,
    pub ip: nat,
    pub func: nat,
    pub status: Status,
}

/// The code that function `func` runs.
pub open spec fn code_of(p: &Program, func: nat) -> Seq<Instruction> {
    if func == 0 {
        p.main@
    } else if func < p.functions@.len() {
        p.functions@[func as int].code_block@
    } else {
        seq![]
    }
}

pub open spec fn fits_i64(x: int) -> bool {
    i64::MIN <= x <= i64::MAX
}

pub open spec fn abs(x: int) -> nat {
    if x < 0 {
        (-x) as nat
    } else {
        x as nat
    }
}

/// Division rounding toward zero.
pub open spec fn trunc_div(a: int, b: int) -> int {
    let q = (abs(a) / abs(b)) as int;
    if (a < 0) != (b < 0) {
        -q
    } else {
        q
    }
}

/// The remainder of [`trunc_div`]; it takes the sign of `a`.
pub open spec fn trunc_rem(a: int, b: int) -> int {
    a - b * trunc_div(a, b)
}

pub open spec fn ipow(a: int, n: nat) -> int
    decreases n,
{
    if n == 0 {
        1
    } else {
        a * ipow(a, (n - 1) as nat)
    }
}

/// The exact result of an integer operation, before the range check.
pub open spec fn exact_arith(op: Opcode, a: int, b: int) -> Result<int, RuntimeError> {
    match op {
        Opcode::Add => Ok(a + b),
        Opcode::Sub => Ok(a - b),
        Opcode::Mul => Ok(a * b),
        Opcode::Div => if b == 0 {
            Err(RuntimeError::DivisionByZero)
        } else {
            Ok(trunc_div(a, b))
        },
        Opcode::Mod => if b == 0 {
            Err(RuntimeError::DivisionByZero)
        } else {
            Ok(trunc_rem(a, b))
        },
        Opcode::Pow => if b < 0 {
            Err(RuntimeError::NegativeExponent)
        } else {
            Ok(ipow(a, b as nat))
        },
        _ => Err(RuntimeError::Unlinked),
    }
}

/// An integer operation: its exact result, or `Overflow` when that does not
/// fit in 64 bits.
pub open spec fn spec_arith(op: Opcode, a: int, b: int) -> Result<int, RuntimeError> {
    match exact_arith(op, a, b) {
        Ok(r) => if fits_i64(r) {
            Ok(r)
        } else {
            Err(RuntimeError::Overflow)
        },
        Err(e) => Err(e),
    }
}

pub open spec fn spec_compare(op: Opcode, a: int, b: int) -> bool {
    match op {
        Opcode::Eq => a == b,
        Opcode::NEq => a != b,
        Opcode::GT => a > b,
        Opcode::LT => a < b,
        Opcode::GEq => a >= b,
        _ => a <= b,
    }
}

pub open spec fn is_arith(op: Opcode) -> bool {
    op == Opcode::Add || op == Opcode::Sub || op == Opcode::Mul || op == Opcode::Div || op
        == Opcode::Mod || op == Opcode::Pow
}

pub open spec fn is_compare(op: Opcode) -> bool {
    op == Opcode::Eq || op == Opcode::NEq || op == Opcode::GT || op == Opcode::LT || op
        == Opcode::GEq || op == Opcode::LEq
}

/// The text that printing value `v` produces, or `None` when `v` points at
/// an object that does not lie within the heap.
pub open spec fn format_value(v: u64, mem: Seq<u8>) -> Option<Seq<u8>> {
    if spec_is_bool(v) {
        Some(if spec_untag_bool(v) { seq![116u8, 114u8, 117u8, 101u8] } else { seq![102u8, 97u8, 108u8, 115u8, 101u8] })
    } else if spec_is_int(v) {
        Some(decimal(spec_untag_int(v)))
    } else if spec_is_pointer(v) {
        if v + HEADER_SIZE > mem.len() {
            None
        } else {
            let header = word_at(mem, v as int);
            if (header >> 56u64) as u8 == 0 {
                let size = header & SIZE_MASK;
                if v + HEADER_SIZE + size > mem.len() {
                    None
                } else {
                    Some(mem.subrange(v + HEADER_SIZE, v + HEADER_SIZE + size))
                }
            } else {
                Some(object_text(v))
            }
        }
    } else {
        Some(seq![])
    }
}

/// `<object at ADDRESS>`, the address in lowercase hexadecimal.
pub open spec fn object_text(v: u64) -> Seq<u8> {
    seq![60u8, 111u8, 98u8, 106u8, 101u8, 99u8, 116u8, 32u8, 97u8, 116u8, 32u8] + digits(v as nat, 16)
        + seq![62u8]
}

pub open spec fn fail(s: VmModel, e: RuntimeError) -> VmModel {
    VmModel { status: Status::Failed(e), ..s }
}

pub open spec fn set_reg(s: VmModel, r: u64, v: u64) -> VmModel {
    VmModel { regs: s.regs.update(r as int, v), ip: s.ip + 1, ..s }
}

pub open spec fn jump_to(s: VmModel, target: int) -> VmModel {
    if 0 <= target <= usize::MAX {
        VmModel { ip: target as nat, ..s }
    } else {
        fail(s, RuntimeError::BadJump)
    }
}

/// Leaving the current function: back to the caller with register 0 (the
/// result) carried over, or the end of the run when there is no caller.
pub open spec fn spec_return(s: VmModel) -> VmModel {
    if s.frames.len() == 0 {
        VmModel { status: Status::Halted, ..s }
    } else {
        let f = s.frames.last();
        VmModel {
            regs: f.regs.update(0, s.regs[0]),
            frames: s.frames.drop_last(),
            ip: f.return_ip,
            func: f.func,
            ..s
        }
    }
}

/// A value with one of the three tags: a boolean, an integer or a pointer.
pub open spec fn is_tagged(v: u64) -> bool {
    spec_is_bool(v) || spec_is_int(v) || spec_is_pointer(v)
}

/// The built-in printer: register 1 is printed as one line; a value with
/// none of the three tags prints nothing.
pub open spec fn spec_print(s: VmModel) -> VmModel {
    if !is_tagged(s.regs[1]) {
        VmModel { ip: s.ip + 1, ..s }
    } else {
        match format_value(s.regs[1], s.mem) {
            Some(text) => VmModel { out: s.out + text + seq![10u8], ip: s.ip + 1, ..s },
            None => fail(s, RuntimeError::BadObject),
        }
    }
}

/// A call of function value `idx`: value 0 is the built-in printer; any
/// other function of the program is entered with a new frame.
pub open spec fn spec_call(s: VmModel, p: &Program, idx: u64) -> VmModel {
    if idx == 0 {
        spec_print(s)
    } else if idx < p.functions@.len() {
        VmModel {
            frames: s.frames.push(FrameModel { regs: s.regs, return_ip: s.ip + 1, func: s.func }),
            func: idx as nat,
            ip: 0,
            ..s
        }
    } else {
        fail(s, RuntimeError::BadFunction)
    }
}

/// A fresh object of `kind` with the given data: header, cleared mark, data.
pub open spec fn spec_alloc(s: VmModel, dst: u64, kind: ObjectKind, data: Seq<u8>) -> VmModel {
    if s.top + object_footprint(data.len() as int) <= s.mem.len() {
        let ptr = s.top as int;
        VmModel {
            mem: splice(
                splice(splice(s.mem, ptr, le_bytes(header_word(kind, data.len() as u64))), ptr + 8, le_bytes(0)),
                ptr + HEADER_SIZE,
                data,
            ),
            top: s.top + object_footprint(data.len() as int) as nat,
            regs: s.regs.update(dst as int, ptr as u64),
            ip: s.ip + 1,
            ..s
        }
    } else {
        fail(s, RuntimeError::OutOfMemory)
    }
}

/// Where element `idx` of the array at `arr` lies, when `arr` points at an
/// object whose header lies in the heap and `idx` is within its size.
pub open spec fn element_offset(mem: Seq<u8>, arr: u64, idx: u64) -> Option<int> {
    if arr + HEADER_SIZE > mem.len() {
        None
    } else {
        let size = word_at(mem, arr as int) & SIZE_MASK;
        let i = spec_untag_int(idx);
        if i < 0 || i * 8 + 8 > size || arr + HEADER_SIZE + i * 8 + 8 > mem.len() {
            None
        } else {
            Some(arr + HEADER_SIZE + i * 8)
        }
    }
}

pub open spec fn spec_mov(s: VmModel, instr: Instruction) -> VmModel {
    if instr.op0 < s.regs.len() && instr.op1 < s.regs.len() {
        set_reg(s, instr.op0, s.regs[instr.op1 as int])
    } else {
        fail(s, RuntimeError::BadRegister)
    }
}

pub open spec fn spec_mov_const(s: VmModel, instr: Instruction) -> VmModel {
    if instr.op0 < s.regs.len() {
        set_reg(s, instr.op0, instr.op1)
    } else {
        fail(s, RuntimeError::BadRegister)
    }
}

pub open spec fn spec_not(s: VmModel, instr: Instruction) -> VmModel {
    if instr.op0 < s.regs.len() && instr.op1 < s.regs.len() {
        set_reg(s, instr.op0, spec_tag_bool(!spec_untag_bool(s.regs[instr.op1 as int])))
    } else {
        fail(s, RuntimeError::BadRegister)
    }
}

pub open spec fn spec_jmp_cond(s: VmModel, instr: Instruction) -> VmModel {
    if instr.op1 < s.regs.len() {
        if spec_untag_bool(s.regs[instr.op1 as int]) {
            VmModel { ip: s.ip + 1, ..s }
        } else {
            jump_to(s, s.ip + instr.op0 + 1)
        }
    } else {
        fail(s, RuntimeError::BadRegister)
    }
}

pub open spec fn spec_call_instr(s: VmModel, instr: Instruction, p: &Program) -> VmModel {
    if instr.op0 < s.regs.len() {
        spec_call(s, p, s.regs[instr.op0 as int])
    } else {
        fail(s, RuntimeError::BadRegister)
    }
}

pub open spec fn spec_load_string(s: VmModel, instr: Instruction, p: &Program) -> VmModel {
    if instr.op0 >= s.regs.len() {
        fail(s, RuntimeError::BadRegister)
    } else if instr.op1 >= p.strings@.len() {
        fail(s, RuntimeError::BadString)
    } else {
        spec_alloc(s, instr.op0, ObjectKind::String, p.strings@[instr.op1 as int]@)
    }
}

pub open spec fn spec_create_array(s: VmModel, instr: Instruction) -> VmModel {
    if instr.op0 >= s.regs.len() {
        fail(s, RuntimeError::BadRegister)
    } else if instr.op1 * 8 > usize::MAX {
        fail(s, RuntimeError::OutOfMemory)
    } else {
        spec_alloc(s, instr.op0, ObjectKind::Array, Seq::new((instr.op1 * 8) as nat, |i: int| 0u8))
    }
}

pub open spec fn spec_load_index(s: VmModel, instr: Instruction) -> VmModel {
    let n = s.regs.len();
    if instr.op0 < n && instr.op1 < n && instr.op2 < n {
        match element_offset(s.mem, s.regs[instr.op1 as int], s.regs[instr.op2 as int]) {
            Some(off) => set_reg(s, instr.op0, word_at(s.mem, off)),
            None => fail(s, RuntimeError::BadIndex),
        }
    } else {
        fail(s, RuntimeError::BadRegister)
    }
}

pub open spec fn spec_store_index(s: VmModel, instr: Instruction) -> VmModel {
    let n = s.regs.len();
    if instr.op0 < n && instr.op1 < n && instr.op2 < n {
        match element_offset(s.mem, s.regs[instr.op0 as int], s.regs[instr.op1 as int]) {
            Some(off) => VmModel {
                mem: splice(s.mem, off, le_bytes(s.regs[instr.op2 as int])),
                ip: s.ip + 1,
                ..s
            },
            None => fail(s, RuntimeError::BadIndex),
        }
    } else {
        fail(s, RuntimeError::BadRegister)
    }
}

/// An integer operation or comparison on the payloads of registers `op1`
/// and `op2`, into register `op0`.
pub open spec fn spec_binary(s: VmModel, instr: Instruction) -> VmModel {
    let n = s.regs.len();
    if instr.op0 < n && instr.op1 < n && instr.op2 < n {
        let a = spec_untag_int(s.regs[instr.op1 as int]);
        let b = spec_untag_int(s.regs[instr.op2 as int]);
        if is_compare(instr.opcode) {
            set_reg(s, instr.op0, spec_tag_bool(spec_compare(instr.opcode, a, b)))
        } else {
            match spec_arith(instr.opcode, a, b) {
                Ok(r) => set_reg(s, instr.op0, spec_tag_int(r as i64)),
                Err(e) => fail(s, e),
            }
        }
    } else {
        fail(s, RuntimeError::BadRegister)
    }
}

/// Running one instruction.
pub open spec fn exec_instr(s: VmModel, instr: Instruction, p: &Program) -> VmModel {
    match instr.opcode {
        Opcode::Mov => spec_mov(s, instr),
        Opcode::MovConst => spec_mov_const(s, instr),
        Opcode::Not => spec_not(s, instr),
        Opcode::Jmp => jump_to(s, s.ip + instr.op0 + 1),
        Opcode::JmpCond => spec_jmp_cond(s, instr),
        Opcode::JmpBack => jump_to(s, s.ip - instr.op0),
        Opcode::Call => spec_call_instr(s, instr, p),
        Opcode::Return => spec_return(s),
        Opcode::Halt => spec_return(s),
        Opcode::LoadString => spec_load_string(s, instr, p),
        Opcode::CreateArray => spec_create_array(s, instr),
        Opcode::LoadIndex => spec_load_index(s, instr),
        Opcode::StoreIndex => spec_store_index(s, instr),
        Opcode::LoadLocalFn | Opcode::LoadImport | Opcode::COUNT => fail(s, RuntimeError::Unlinked),
        _ => spec_binary(s, instr),
    }
}

/// One step of the machine: the next instruction of the current function,
/// or a return when the function's code has run out.
pub open spec fn step(s: VmModel, p: &Program) -> VmModel {
    if s.status != Status::Running {
        s
    } else if s.ip >= code_of(p, s.func).len() {
        spec_return(s)
    } else {
        exec_instr(s, code_of(p, s.func)[s.ip as int], p)
    }
}

/// At most `fuel` steps, stopping as soon as the machine halts or fails.
pub open spec fn run_steps(s: VmModel, p: &Program, fuel: nat) -> VmModel
    decreases fuel,
{
    if fuel == 0 || s.status != Status::Running {
        s
    } else {
        run_steps(step(s, p), p, (fuel - 1) as nat)
    }
}

/// The machine before the first instruction of the main code.
pub open spec fn initial_model(capacity: nat) -> VmModel {
    VmModel {
        regs: Seq::new(NR_OF_REGISTERS as nat, |i: int| 0u64),
        frames: seq![],
        mem: Seq::new(capacity, |i: int| 0u8),
        top: 0,
        out: seq![],
        ip: 0,
        func: 0,
        status: Status::Running,
    }
}

/// The magnitude of `a`.
fn magnitude(a: i64) -> (r: u64)
    ensures
        r as int == abs(a as int),
{
    if a < 0 {
        ((-(a + 1)) as u64) + 1
    } else {
        a as u64
    }
}

proof fn lemma_trunc_div_rem(a: int, b: int)
    requires
        b != 0,
    ensures
        trunc_rem(a, b) == (if a < 0 { -((abs(a) % abs(b)) as int) } else { (abs(a) % abs(b)) as int }),
        abs(trunc_div(a, b)) <= abs(a),
{
    let q = (abs(a) / abs(b)) as int;
    let r = (abs(a) % abs(b)) as int;
    assert(abs(a) == abs(b) * q + r) by (nonlinear_arith)
        requires
            abs(b) > 0,
            q == abs(a) / abs(b),
            r == abs(a) % abs(b),
    ;
    assert(q <= abs(a)) by (nonlinear_arith)
        requires
            abs(b) >= 1,
            q == abs(a) / abs(b),
    ;
    if a < 0 {
        if b < 0 {
            assert(trunc_div(a, b) == q);
            assert(a - b * q == -r) by (nonlinear_arith)
                requires
                    a < 0,
                    b < 0,
                    -a == (-b) * q + r,
            ;
        } else {
            assert(trunc_div(a, b) == -q);
            assert(a - b * (-q) == -r) by (nonlinear_arith)
                requires
                    a < 0,
                    b > 0,
                    -a == b * q + r,
            ;
        }
    } else {
        if b < 0 {
            assert(trunc_div(a, b) == -q);
            assert(a - b * (-q) == r) by (nonlinear_arith)
                requires
                    a >= 0,
                    b < 0,
                    a == (-b) * q + r,
            ;
        } else {
            assert(trunc_div(a, b) == q);
            assert(a - b * q == r) by (nonlinear_arith)
                requires
                    a >= 0,
                    b > 0,
                    a == b * q + r,
            ;
        }
    }
}

proof fn lemma_pow_unit(a: int, n: nat)
    ensures
        a == 0 ==> ipow(a, n) == (if n == 0 { 1int } else { 0int }),
        a == 1 ==> ipow(a, n) == 1,
        a == -1 ==> ipow(a, n) == (if n % 2 == 0 { 1int } else { -1int }),
    decreases n,
{
    if n > 0 {
        lemma_pow_unit(a, (n - 1) as nat);
    }
}

/// Powers of a base of magnitude at least 2 at least double with every
/// further factor.
proof fn lemma_pow_grows(a: int, k: nat, m: nat)
    requires
        abs(a) >= 2,
        k < m,
    ensures
        abs(ipow(a, m)) >= 2 * abs(ipow(a, k)),
    decreases m - k,
{
    let pm1 = ipow(a, (m - 1) as nat);
    assert(ipow(a, m) == a * pm1);
    assert(abs(a * pm1) == abs(a) * abs(pm1)) by (nonlinear_arith);
    assert(abs(a) * abs(pm1) >= 2 * abs(pm1)) by (nonlinear_arith)
        requires
            abs(a) >= 2,
    ;
    if k < m - 1 {
        lemma_pow_grows(a, k, (m - 1) as nat);
    }
}

/// An integer operation on two payloads, checked: the exact result, or the
/// error that [`spec_arith`] names.
fn arith(op: Opcode, a: i64, b: i64) -> (r: Result<i64, RuntimeError>)
    requires
        is_arith(op),
    ensures
        match r {
            Ok(x) => spec_arith(op, a as int, b as int) == Ok::<int, RuntimeError>(x as int),
            Err(e) => spec_arith(op, a as int, b as int) == Err::<int, RuntimeError>(e),
        },
{
    match op {
        Opcode::Add => match a.checked_add(b) {
            Some(x) => Ok(x),
            None => Err(RuntimeError::Overflow),
        },
        Opcode::Sub => match a.checked_sub(b) {
            Some(x) => Ok(x),
            None => Err(RuntimeError::Overflow),
        },
        Opcode::Mul => match a.checked_mul(b) {
            Some(x) => Ok(x),
            None => Err(RuntimeError::Overflow),
        },
        Opcode::Div => {
            if b == 0 {
                return Err(RuntimeError::DivisionByZero);
            }
            proof {
                lemma_trunc_div_rem(a as int, b as int);
            }
            let q = magnitude(a) / magnitude(b);
            if (a < 0) != (b < 0) {
                let r = if q == 0x8000_0000_0000_0000u64 { i64::MIN } else { -(q as i64) };
                Ok(r)
            } else if q > 0x7fff_ffff_ffff_ffffu64 {
                Err(RuntimeError::Overflow)
            } else {
                Ok(q as i64)
            }
        },
        Opcode::Mod => {
            if b == 0 {
                return Err(RuntimeError::DivisionByZero);
            }
            proof {
                lemma_trunc_div_rem(a as int, b as int);
            }
            let mb = magnitude(b);
            let m = magnitude(a) % mb;
            assert(m < mb);
            if a < 0 {
                Ok(-(m as i64))
            } else {
                Ok(m as i64)
            }
        },
        _ => int_pow(a, b),
    }
}

/// `a` to the power `b`, checked.
fn int_pow(a: i64, b: i64) -> (r: Result<i64, RuntimeError>)
    ensures
        match r {
            Ok(x) => spec_arith(Opcode::Pow, a as int, b as int) == Ok::<int, RuntimeError>(x as int),
            Err(e) => spec_arith(Opcode::Pow, a as int, b as int) == Err::<int, RuntimeError>(e),
        },
{
    if b < 0 {
        return Err(RuntimeError::NegativeExponent);
    }
    proof {
        lemma_pow_unit(a as int, b as nat);
    }
    if a == 0 {
        return if b == 0 { Ok(1) } else { Ok(0) };
    }
    if a == 1 {
        return Ok(1);
    }
    if a == -1 {
        return if b % 2 == 0 { Ok(1) } else { Ok(-1) };
    }
    let mut acc: i64 = 1;
    let mut i: i64 = 0;
    while i < b
        invariant
            0 <= i <= b,
            abs(a as int) >= 2,
            acc as int == ipow(a as int, i as nat),
        decreases b - i,
    {
        match acc.checked_mul(a) {
            Some(x) => {
                acc = x;
                i = i + 1;
            },
            None => {
                proof {
                    let v = ipow(a as int, (i + 1) as nat);
                    assert(v == a * acc);
                    if i + 1 < b {
                        lemma_pow_grows(a as int, (i + 1) as nat, b as nat);
                    }
                }
                return Err(RuntimeError::Overflow);
            },
        }
    }
    Ok(acc)
}

fn compare(op: Opcode, a: i64, b: i64) -> (r: bool)
    ensures
        r == spec_compare(op, a as int, b as int),
{
    match op {
        Opcode::Eq => a == b,
        Opcode::NEq => a != b,
        Opcode::GT => a > b,
        Opcode::LT => a < b,
        Opcode::GEq => a >= b,
        _ => a <= b,
    }
}

/// A copy of a register file.
fn copy_registers(regs: &Vec<u64>) -> (r: Vec<u64>)
    ensures
        r@ == regs@,
{
    let mut r: Vec<u64> = Vec::new();
    let mut i: usize = 0;
    while i < regs.len()
        invariant
            0 <= i <= regs@.len(),
            r@ == regs@.take(i as int),
        decreases regs@.len() - i,
    {
        r.push(regs[i]);
        i = i + 1;
        assert(r@ =~= regs@.take(i as int));
    }
    assert(regs@.take(i as int) =~= regs@);
    r
}

/// Appends `bytes` to `out`.
pub fn append_bytes(out: &mut Vec<u8>, bytes: &[u8])
    ensures
        final(out)@ == old(out)@ + bytes@,
{
    let mut i: usize = 0;
    while i < bytes.len()
        invariant
            0 <= i <= bytes@.len(),
            out@ == old(out)@ + bytes@.take(i as int),
        decreases bytes@.len() - i,
    {
        out.push(bytes[i]);
        i = i + 1;
        assert(out@ =~= old(out)@ + bytes@.take(i as int));
    }
    assert(bytes@.take(i as int) =~= bytes@);
}

/// A saved caller.
pub struct CallFrame {
    registers: Vec<u64>,
    return_ip: usize,
    function_index: usize,
}

impl CallFrame {
    pub closed spec fn model(&self) -> FrameModel {
        FrameModel {
            regs: self.registers@,
            return_ip: self.return_ip as nat,
            func: self.function_index as nat,
        }
    }
}

/// The machine: registers, call stack, heap, output, and where it is.
pub struct Interpreter {
    registers: Vec<u64>,
    call_stack: Vec<CallFrame>,
    heap: Heap,
    output: Vec<u8>,
    ip: usize,
    current_function: usize,
    status: Status,
}

impl Interpreter {
    pub closed spec fn model(&self) -> VmModel {
        VmModel {
            regs: self.registers@,
            frames: Seq::new(self.call_stack@.len(), |i: int| self.call_stack@[i].model()),
            mem: self.heap.mem(),
            top: self.heap.top(),
            out: self.output@,
            ip: self.ip as nat,
            func: self.current_function as nat,
            status: self.status,
        }
    }

    /// Every register file has `NR_OF_REGISTERS` entries and the heap is
    /// well formed.
    pub closed spec fn wf(&self) -> bool {
        &&& self.registers@.len() == NR_OF_REGISTERS
        &&& forall|i: int|
            0 <= i < self.call_stack@.len() ==> #[trigger] self.call_stack@[i].registers@.len()
                == NR_OF_REGISTERS
        &&& self.heap.wf()
    }

    /// A machine at the start of the main code with a heap of `capacity`
    /// bytes.
    pub fn new(capacity: usize) -> (r: Self)
        ensures
            r.wf(),
            r.model() == initial_model(capacity as nat),
    {
        let registers = vec![0u64; NR_OF_REGISTERS];
        let r = Self {
            registers,
            call_stack: Vec::new(),
            heap: Heap::new(capacity),
            output: Vec::new(),
            ip: 0,
            current_function: 0,
            status: Status::Running,
        };
        assert(r.model().regs =~= initial_model(capacity as nat).regs);
        assert(r.model().frames =~= initial_model(capacity as nat).frames);
        r
    }

    /// What the machine has printed so far.
    pub fn output(&self) -> (r: &Vec<u8>)
        ensures
            r@ == self.model().out,
    {
        &self.output
    }

    pub fn status(&self) -> (r: Status)
        ensures
            r == self.model().status,
    {
        self.status
    }

    fn set_reg(&mut self, r: u64, v: u64)
        requires
            old(self).wf(),
            r < NR_OF_REGISTERS,
            old(self).ip < usize::MAX,
        ensures
            final(self).wf(),
            final(self).model() == set_reg(old(self).model(), r, v),
    {
        self.registers.set(r as usize, v);
        self.ip = self.ip + 1;
        assert(self.model().frames =~= set_reg(old(self).model(), r, v).frames);
    }

    fn fail(&mut self, e: RuntimeError)
        requires
            old(self).wf(),
        ensures
            final(self).wf(),
            final(self).model() == fail(old(self).model(), e),
    {
        self.status = Status::Failed(e);
        assert(self.model().frames =~= old(self).model().frames);
    }

    fn jump_to(&mut self, base: usize, offset: u64, forward: bool)
        requires
            old(self).wf(),
        ensures
            final(self).wf(),
            final(self).model() == jump_to(
                old(self).model(),
                if forward { base + offset + 1 } else { base - offset },
            ),
    {
        if forward {
            if offset >= (usize::MAX - base) as u64 {
                self.fail(RuntimeError::BadJump);
            } else {
                self.ip = base + offset as usize + 1;
            }
        } else {
            if offset > base as u64 {
                self.fail(RuntimeError::BadJump);
            } else {
                self.ip = base - offset as usize;
            }
        }
        assert(self.model().frames =~= jump_to(
            old(self).model(),
            if forward { base + offset + 1 } else { base - offset },
        ).frames);
    }

    fn do_return(&mut self)
        requires
            old(self).wf(),
        ensures
            final(self).wf(),
            final(self).model() == spec_return(old(self).model()),
    {
        match self.call_stack.pop() {
            None => {
                self.status = Status::Halted;
                assert(self.model().frames =~= old(self).model().frames);
            },
            Some(frame) => {
                assert(old(self).call_stack@[old(self).call_stack@.len() - 1].registers@.len() == NR_OF_REGISTERS);
                assert forall|i: int| 0 <= i < self.call_stack@.len() implies #[trigger] self.call_stack@[i].registers@.len() == NR_OF_REGISTERS by {
                    assert(self.call_stack@[i] == old(self).call_stack@[i]);
                }
                let return_value = self.registers[0];
                let CallFrame { registers, return_ip, function_index } = frame;
                self.registers = registers;
                self.registers.set(0, return_value);
                self.ip = return_ip;
                self.current_function = function_index;
                assert(self.model().frames =~= old(self).model().frames.drop_last());
            },
        }
    }

    /// The text for printing `v`, as [`format_value`] gives it.
    fn format_value(&self, v: u64) -> (r: Option<Vec<u8>>)
        ensures
            match r {
                Some(t) => format_value(v, self.heap.mem()) == Some(t@),
                None => format_value(v, self.heap.mem()) is None,
            },
    {
        if is_bool(v) {
            let t = if untag_bool(v) { vec![116u8, 114u8, 117u8, 101u8] } else { vec![102u8, 97u8, 108u8, 115u8, 101u8] };
            Some(t)
        } else if is_int(v) {
            Some(decimal_bytes(untag_int(v)))
        } else if is_pointer(v) {
            let cap = self.heap.capacity();
            if v > cap as u64 || (cap as u64) - v < HEADER_SIZE as u64 {
                return None;
            }
            let ptr = v as usize;
            let kind = self.heap.get_kind(ptr);
            if kind == 0 {
                let size = self.heap.get_size(ptr);
                if size > (cap - ptr - HEADER_SIZE) as u64 {
                    return None;
                }
                let bytes = self.heap.read_bytes(ptr + HEADER_SIZE, size as usize);
                let mut t: Vec<u8> = Vec::new();
                append_bytes(&mut t, bytes);
                assert(t@ =~= self.heap.mem().subrange(v + HEADER_SIZE, v + HEADER_SIZE + size));
                Some(t)
            } else {
                let mut t: Vec<u8> = vec![60u8, 111u8, 98u8, 106u8, 101u8, 99u8, 116u8, 32u8, 97u8, 116u8, 32u8];
                let h = hex_bytes(v);
                append_bytes(&mut t, h.as_slice());
                t.push(62u8);
                assert(t@ =~= object_text(v));
                Some(t)
            }
        } else {
            Some(Vec::new())
        }
    }

    fn print(&mut self)
        requires
            old(self).wf(),
            old(self).ip < usize::MAX,
        ensures
            final(self).wf(),
            final(self).model() == spec_print(old(self).model()),
    {
        let v = self.registers[1];
        if !(is_bool(v) || is_int(v) || is_pointer(v)) {
            self.ip = self.ip + 1;
            assert(self.model().frames =~= old(self).model().frames);
            return;
        }
        match self.format_value(v) {
            Some(text) => {
                append_bytes(&mut self.output, text.as_slice());
                self.output.push(10u8);
                self.ip = self.ip + 1;
                assert(self.model().frames =~= old(self).model().frames);
                assert(self.model().out =~= spec_print(old(self).model()).out);
            },
            None => self.fail(RuntimeError::BadObject),
        }
    }

    fn call(&mut self, idx: u64, program: &Program)
        requires
            old(self).wf(),
            old(self).ip < usize::MAX,
        ensures
            final(self).wf(),
            final(self).model() == spec_call(old(self).model(), program, idx),
    {
        if idx == 0 {
            self.print();
        } else if idx < program.functions.len() as u64 {
            let frame = CallFrame {
                registers: copy_registers(&self.registers),
                return_ip: self.ip + 1,
                function_index: self.current_function,
            };
            assert(frame.registers@.len() == NR_OF_REGISTERS);
            let ghost pushed = frame;
            self.call_stack.push(frame);
            assert(self.call_stack@[old(self).call_stack@.len() as int] == pushed);
            assert forall|i: int| 0 <= i < self.call_stack@.len() implies #[trigger] self.call_stack@[i].registers@.len() == NR_OF_REGISTERS by {
                if i < old(self).call_stack@.len() {
                    assert(self.call_stack@[i] == old(self).call_stack@[i]);
                    assert(old(self).call_stack@[i].registers@.len() == NR_OF_REGISTERS);
                }
            }
            self.current_function = idx as usize;
            self.ip = 0;
            assert(self.model().frames =~= spec_call(old(self).model(), program, idx).frames);
        } else {
            self.fail(RuntimeError::BadFunction);
        }
    }

    fn alloc_object(&mut self, dst: u64, kind: ObjectKind, data: &[u8])
        requires
            old(self).wf(),
            old(self).ip < usize::MAX,
            dst < NR_OF_REGISTERS,
        ensures
            final(self).wf(),
            final(self).model() == spec_alloc(old(self).model(), dst, kind, data@),
    {
        let ghost s = old(self).model();
        match self.heap.allocate(kind, data.len()) {
            None => self.fail(RuntimeError::OutOfMemory),
            Some(ptr) => {
                let _cap = self.heap.capacity();
                let dp = self.heap.data_ptr(ptr);
                self.heap.write_bytes(dp, data);
                self.registers.set(dst as usize, ptr as u64);
                self.ip = self.ip + 1;
                assert(self.model().frames =~= s.frames);
            },
        }
    }

    /// Where element `idx` of the array at `arr` lies, as [`element_offset`]
    /// gives it.
    fn element_offset(&self, arr: u64, idx: u64) -> (r: Option<usize>)
        ensures
            match r {
                Some(o) => element_offset(self.heap.mem(), arr, idx) == Some(o as int),
                None => element_offset(self.heap.mem(), arr, idx) is None,
            },
    {
        let cap = self.heap.capacity();
        if arr > cap as u64 || (cap as u64) - arr < HEADER_SIZE as u64 {
            return None;
        }
        let ptr = arr as usize;
        let size = self.heap.get_size(ptr);
        let i = untag_int(idx);
        if i < 0 {
            return None;
        }
        let iu = i as u64;
        if iu * 8 + 8 > size {
            return None;
        }
        let room = (cap - ptr - HEADER_SIZE) as u64;
        if iu * 8 + 8 > room {
            return None;
        }
        Some(ptr + HEADER_SIZE + (iu * 8) as usize)
    }

    fn exec_mov(&mut self, instr: Instruction)
        requires
            old(self).wf(),
            old(self).ip < usize::MAX,
        ensures
            final(self).wf(),
            final(self).model() == spec_mov(old(self).model(), instr),
    {
        let n = NR_OF_REGISTERS as u64;
        if instr.op0 < n && instr.op1 < n {
            let v = self.registers[instr.op1 as usize];
            self.set_reg(instr.op0, v);
        } else {
            self.fail(RuntimeError::BadRegister);
        }
    }

    fn exec_mov_const(&mut self, instr: Instruction)
        requires
            old(self).wf(),
            old(self).ip < usize::MAX,
        ensures
            final(self).wf(),
            final(self).model() == spec_mov_const(old(self).model(), instr),
    {
        if instr.op0 < NR_OF_REGISTERS as u64 {
            self.set_reg(instr.op0, instr.op1);
        } else {
            self.fail(RuntimeError::BadRegister);
        }
    }

    fn exec_not(&mut self, instr: Instruction)
        requires
            old(self).wf(),
            old(self).ip < usize::MAX,
        ensures
            final(self).wf(),
            final(self).model() == spec_not(old(self).model(), instr),
    {
        let n = NR_OF_REGISTERS as u64;
        if instr.op0 < n && instr.op1 < n {
            let v = tag_bool(!untag_bool(self.registers[instr.op1 as usize]));
            self.set_reg(instr.op0, v);
        } else {
            self.fail(RuntimeError::BadRegister);
        }
    }

    fn exec_jmp_cond(&mut self, instr: Instruction)
        requires
            old(self).wf(),
            old(self).ip < usize::MAX,
        ensures
            final(self).wf(),
            final(self).model() == spec_jmp_cond(old(self).model(), instr),
    {
        if instr.op1 < NR_OF_REGISTERS as u64 {
            if untag_bool(self.registers[instr.op1 as usize]) {
                self.ip = self.ip + 1;
                assert(self.model().frames =~= old(self).model().frames);
            } else {
                let ip = self.ip;
                self.jump_to(ip, instr.op0, true);
            }
        } else {
            self.fail(RuntimeError::BadRegister);
        }
    }

    fn exec_call(&mut self, instr: Instruction, program: &Program)
        requires
            old(self).wf(),
            old(self).ip < usize::MAX,
        ensures
            final(self).wf(),
            final(self).model() == spec_call_instr(old(self).model(), instr, program),
    {
        if instr.op0 < NR_OF_REGISTERS as u64 {
            let idx = self.registers[instr.op0 as usize];
            self.call(idx, program);
        } else {
            self.fail(RuntimeError::BadRegister);
        }
    }

    fn exec_load_string(&mut self, instr: Instruction, program: &Program)
        requires
            old(self).wf(),
            old(self).ip < usize::MAX,
        ensures
            final(self).wf(),
            final(self).model() == spec_load_string(old(self).model(), instr, program),
    {
        if instr.op0 >= NR_OF_REGISTERS as u64 {
            self.fail(RuntimeError::BadRegister);
        } else if instr.op1 >= program.strings.len() as u64 {
            self.fail(RuntimeError::BadString);
        } else {
            let data = program.strings[instr.op1 as usize].as_slice();
            self.alloc_object(instr.op0, ObjectKind::String, data);
        }
    }

    fn exec_create_array(&mut self, instr: Instruction)
        requires
            old(self).wf(),
            old(self).ip < usize::MAX,
        ensures
            final(self).wf(),
            final(self).model() == spec_create_array(old(self).model(), instr),
    {
        if instr.op0 >= NR_OF_REGISTERS as u64 {
            self.fail(RuntimeError::BadRegister);
        } else if instr.op1 > (usize::MAX / 8) as u64 {
            self.fail(RuntimeError::OutOfMemory);
        } else {
            let zeros = vec![0u8; (instr.op1 * 8) as usize];
            assert(zeros@ =~= Seq::new((instr.op1 * 8) as nat, |i: int| 0u8));
            self.alloc_object(instr.op0, ObjectKind::Array, zeros.as_slice());
        }
    }

    fn exec_load_index(&mut self, instr: Instruction)
        requires
            old(self).wf(),
            old(self).ip < usize::MAX,
        ensures
            final(self).wf(),
            final(self).model() == spec_load_index(old(self).model(), instr),
    {
        let n = NR_OF_REGISTERS as u64;
        if instr.op0 < n && instr.op1 < n && instr.op2 < n {
            let arr = self.registers[instr.op1 as usize];
            let idx = self.registers[instr.op2 as usize];
            match self.element_offset(arr, idx) {
                Some(off) => {
                    let v = self.heap.read_u64(off);
                    self.set_reg(instr.op0, v);
                },
                None => self.fail(RuntimeError::BadIndex),
            }
        } else {
            self.fail(RuntimeError::BadRegister);
        }
    }

    fn exec_store_index(&mut self, instr: Instruction)
        requires
            old(self).wf(),
            old(self).ip < usize::MAX,
        ensures
            final(self).wf(),
            final(self).model() == spec_store_index(old(self).model(), instr),
    {
        let n = NR_OF_REGISTERS as u64;
        if instr.op0 < n && instr.op1 < n && instr.op2 < n {
            let arr = self.registers[instr.op0 as usize];
            let idx = self.registers[instr.op1 as usize];
            let v = self.registers[instr.op2 as usize];
            match self.element_offset(arr, idx) {
                Some(off) => {
                    self.heap.write_u64(off, v);
                    self.ip = self.ip + 1;
                    assert(self.model().frames =~= old(self).model().frames);
                },
                None => self.fail(RuntimeError::BadIndex),
            }
        } else {
            self.fail(RuntimeError::BadRegister);
        }
    }

    fn exec_binary(&mut self, instr: Instruction)
        requires
            old(self).wf(),
            old(self).ip < usize::MAX,
            is_arith(instr.opcode) || is_compare(instr.opcode),
        ensures
            final(self).wf(),
            final(self).model() == spec_binary(old(self).model(), instr),
    {
        let n = NR_OF_REGISTERS as u64;
        if instr.op0 < n && instr.op1 < n && instr.op2 < n {
            let a = untag_int(self.registers[instr.op1 as usize]);
            let b = untag_int(self.registers[instr.op2 as usize]);
            let op = instr.opcode;
            if op == Opcode::Eq || op == Opcode::NEq || op == Opcode::GT || op == Opcode::LT || op
                == Opcode::GEq || op == Opcode::LEq {
                let c = compare(op, a, b);
                let v = tag_bool(c);
                self.set_reg(instr.op0, v);
            } else {
                match arith(op, a, b) {
                    Ok(x) => {
                        let v = tag_int(x);
                        self.set_reg(instr.op0, v);
                    },
                    Err(e) => self.fail(e),
                }
            }
        } else {
            self.fail(RuntimeError::BadRegister);
        }
    }

    /// Runs one instruction, as [`exec_instr`] gives its meaning.
    pub fn dispatch(&mut self, instr: Instruction, program: &Program)
        requires
            old(self).wf(),
            old(self).model().ip < usize::MAX,
        ensures
            final(self).wf(),
            final(self).model() == exec_instr(old(self).model(), instr, program),
    {
        match instr.opcode {
            Opcode::Mov => self.exec_mov(instr),
            Opcode::MovConst => self.exec_mov_const(instr),
            Opcode::Not => self.exec_not(instr),
            Opcode::Jmp => {
                let ip = self.ip;
                self.jump_to(ip, instr.op0, true);
            },
            Opcode::JmpCond => self.exec_jmp_cond(instr),
            Opcode::JmpBack => {
                let ip = self.ip;
                self.jump_to(ip, instr.op0, false);
            },
            Opcode::Call => self.exec_call(instr, program),
            Opcode::Return => self.do_return(),
            Opcode::Halt => self.do_return(),
            Opcode::LoadString => self.exec_load_string(instr, program),
            Opcode::CreateArray => self.exec_create_array(instr),
            Opcode::LoadIndex => self.exec_load_index(instr),
            Opcode::StoreIndex => self.exec_store_index(instr),
            Opcode::LoadLocalFn | Opcode::LoadImport | Opcode::COUNT => {
                self.fail(RuntimeError::Unlinked);
            },
            _ => self.exec_binary(instr),
        }
    }

    /// One step of the machine, as [`step`] gives it.
    pub fn step(&mut self, program: &Program)
        requires
            old(self).wf(),
        ensures
            final(self).wf(),
            final(self).model() == step(old(self).model(), program),
    {
        if !self.is_running() {
            return;
        }
        let code: &Vec<Instruction> = if self.current_function == 0 {
            &program.main
        } else if self.current_function < program.functions.len() {
            &program.functions[self.current_function].code_block
        } else {
            self.do_return_empty(program);
            return;
        };
        assert(code@ == code_of(program, self.current_function as nat));
        if self.ip >= code.len() {
            self.do_return();
        } else {
            let instr = code[self.ip];
            self.dispatch(instr, program);
        }
    }

    /// A return from a function that has no code.
    fn do_return_empty(&mut self, program: &Program)
        requires
            old(self).wf(),
            old(self).current_function != 0,
            old(self).current_function >= program.functions@.len(),
        ensures
            final(self).wf(),
            final(self).model() == spec_return(old(self).model()),
            code_of(program, old(self).current_function as nat).len() == 0,
    {
        self.do_return();
    }

    pub fn is_running(&self) -> (r: bool)
        ensures
            r == (self.model().status == Status::Running),
    {
        match self.status {
            Status::Running => true,
            _ => false,
        }
    }

    /// Runs at most `fuel` steps, stopping early when the machine halts or
    /// fails.
    pub fn run(&mut self, program: &Program, fuel: u64)
        requires
            old(self).wf(),
        ensures
            final(self).wf(),
            final(self).model() == run_steps(old(self).model(), program, fuel as nat),
    {
        let mut f = fuel;
        while f > 0 && self.is_running()
            invariant
                self.wf(),
                run_steps(self.model(), program, f as nat) == run_steps(old(self).model(), program, fuel as nat),
            decreases f,
        {
            self.step(program);
            f = f - 1;
        }
    }
}

/// Runs `program` from the start for at most `fuel` steps with a fresh heap
/// of [`HEAP_CAPACITY`] bytes: what it printed and how it stopped
/// (`Running` when the fuel ran out first).
pub fn exec_with(program: &Program, fuel: u64) -> (r: (Vec<u8>, Status))
    ensures
        r.0@ == run_steps(initial_model(HEAP_CAPACITY as nat), program, fuel as nat).out,
        r.1 == run_steps(initial_model(HEAP_CAPACITY as nat), program, fuel as nat).status,
{
    let mut interpreter = Interpreter::new(HEAP_CAPACITY);
    interpreter.run(program, fuel);
    let out = copy_bytes(interpreter.output());
    (out, interpreter.status())
}

fn copy_bytes(v: &Vec<u8>) -> (r: Vec<u8>)
    ensures
        r@ == v@,
{
    let mut r: Vec<u8> = Vec::new();
    append_bytes(&mut r, v.as_slice());
    assert(r@ =~= v@);
    r
}


/// Comparisons compare the integers the operand registers hold: each of
/// `==`, `!=`, `<`, `>`, `<=` and `>=` on registers `a` and `b` puts into
/// register `dst` the boolean that says whether that relation holds between
/// their integers, and goes on with the next instruction.
pub proof fn law_comparisons(s: VmModel, p: &Program, op: Opcode, dst: u64, a: u64, b: u64)
    requires
        op == Opcode::Eq || op == Opcode::NEq || op == Opcode::LT || op == Opcode::GT || op == Opcode::LEq
            || op == Opcode::GEq,
        dst < s.regs.len(),
        a < s.regs.len(),
        b < s.regs.len(),
    ensures
        ({
            let x = spec_untag_int(s.regs[a as int]);
            let y = spec_untag_int(s.regs[b as int]);
            let r = exec_instr(s, Instruction::spec_new(op, dst, a, b), p);
            &&& r.status == s.status
            &&& r.ip == s.ip + 1
            &&& r.regs.len() == s.regs.len()
            &&& op == Opcode::Eq ==> r.regs[dst as int] == spec_tag_bool(x == y)
            &&& op == Opcode::NEq ==> r.regs[dst as int] == spec_tag_bool(x != y)
            &&& op == Opcode::LT ==> r.regs[dst as int] == spec_tag_bool(x < y)
            &&& op == Opcode::GT ==> r.regs[dst as int] == spec_tag_bool(x > y)
            &&& op == Opcode::LEq ==> r.regs[dst as int] == spec_tag_bool(x <= y)
            &&& op == Opcode::GEq ==> r.regs[dst as int] == spec_tag_bool(x >= y)
        }),
{
}

/// Addition, subtraction and multiplication act on the integers the operand
/// registers hold, left operand first: register `dst` gets the exact sum,
/// difference or product when it fits in 64 bits, and the machine stops
/// with `Overflow` when it does not; division by zero stops the machine.
pub proof fn law_arithmetic(s: VmModel, p: &Program, op: Opcode, dst: u64, a: u64, b: u64)
    requires
        dst < s.regs.len(),
        a < s.regs.len(),
        b < s.regs.len(),
    ensures
        ({
            let x = spec_untag_int(s.regs[a as int]);
            let y = spec_untag_int(s.regs[b as int]);
            let r = exec_instr(s, Instruction::spec_new(op, dst, a, b), p);
            &&& op == Opcode::Add && i64::MIN <= x + y <= i64::MAX ==> r.status == s.status
                && r.regs[dst as int] == spec_tag_int((x + y) as i64) && r.ip == s.ip + 1
            &&& op == Opcode::Sub && i64::MIN <= x - y <= i64::MAX ==> r.status == s.status
                && r.regs[dst as int] == spec_tag_int((x - y) as i64) && r.ip == s.ip + 1
            &&& op == Opcode::Mul && i64::MIN <= x * y <= i64::MAX ==> r.status == s.status
                && r.regs[dst as int] == spec_tag_int((x * y) as i64) && r.ip == s.ip + 1
            &&& (op == Opcode::Add && !(i64::MIN <= x + y <= i64::MAX)) || (op == Opcode::Sub && !(i64::MIN
                <= x - y <= i64::MAX)) || (op == Opcode::Mul && !(i64::MIN <= x * y <= i64::MAX)) ==> r
                == fail(s, RuntimeError::Overflow)
            &&& (op == Opcode::Div || op == Opcode::Mod) && y == 0 ==> r == fail(s, RuntimeError::DivisionByZero)
        }),
{
}

/// A call to a function of the program enters it at its first instruction
/// with the caller's registers unchanged, so the callee finds argument `k`
/// in register `k` where the caller put it; the caller's registers, the
/// place to return to and the calling function are kept on the call stack.
pub proof fn law_call_passes_registers(s: VmModel, p: &Program, callee: u64)
    requires
        s.status == Status::Running,
        callee < s.regs.len(),
        0 < s.regs[callee as int] < p.functions@.len(),
    ensures
        ({
            let r = exec_instr(s, Instruction::spec_new(Opcode::Call, callee, 0, 0), p);
            &&& r.status == Status::Running
            &&& r.func == s.regs[callee as int]
            &&& r.ip == 0
            &&& r.regs == s.regs
            &&& forall|k: int| 1 <= k < s.regs.len() ==> #[trigger] r.regs[k] == s.regs[k]
            &&& r.frames.len() == s.frames.len() + 1
            &&& r.frames.last().regs == s.regs
            &&& r.frames.last().return_ip == s.ip + 1
            &&& r.frames.last().func == s.func
        }),
{
}

/// Moves and jumps: `Mov` copies register `b` into register `a`, `MovConst`
/// puts the constant `b` into register `a`, `Not` puts the negation of the
/// boolean in register `b` into register `a`, each leaving every other
/// register as it was and going on with the next instruction. `Jmp` skips
/// the next `a` instructions, `JmpBack` goes back `a` instructions, and
/// `JmpCond` goes on with the next instruction when register `b` holds
/// true and skips the next `a` when it holds false.
pub proof fn law_moves_and_jumps(s: VmModel, p: &Program, op: Opcode, a: u64, b: u64)
    requires
        s.status == Status::Running,
        a < s.regs.len(),
        b < s.regs.len(),
        a <= s.ip,
        s.ip + a + 1 <= usize::MAX,
    ensures
        ({
            let r = exec_instr(s, Instruction::spec_new(op, a, b, 0), p);
            &&& op == Opcode::Mov ==> r.regs == s.regs.update(a as int, s.regs[b as int]) && r.ip == s.ip + 1
                && r.status == s.status
            &&& op == Opcode::MovConst ==> r.regs == s.regs.update(a as int, b) && r.ip == s.ip + 1 && r.status
                == s.status
            &&& op == Opcode::Not && s.regs[b as int] == spec_tag_bool(true) ==> r.regs == s.regs.update(
                a as int,
                spec_tag_bool(false),
            ) && r.ip == s.ip + 1
            &&& op == Opcode::Not && s.regs[b as int] == spec_tag_bool(false) ==> r.regs == s.regs.update(
                a as int,
                spec_tag_bool(true),
            ) && r.ip == s.ip + 1
            &&& op == Opcode::Jmp ==> r.ip == s.ip + a + 1 && r.regs == s.regs && r.status == s.status
            &&& op == Opcode::JmpBack ==> r.ip == s.ip - a && r.regs == s.regs && r.status == s.status
            &&& op == Opcode::JmpCond && s.regs[b as int] == spec_tag_bool(true) ==> r.ip == s.ip + 1 && r.regs
                == s.regs
            &&& op == Opcode::JmpCond && s.regs[b as int] == spec_tag_bool(false) ==> r.ip == s.ip + a + 1
                && r.regs == s.regs
        }),
{
    crate::value::law_untag_tag_bool(true);
    crate::value::law_untag_tag_bool(false);
}

/// Truncating division: the quotient times the divisor falls short of the
/// dividend by less than the divisor, on the dividend's side of zero.
proof fn lemma_trunc_div(x: int, y: int)
    requires
        y != 0,
    ensures
        ({
            let rem = x - trunc_div(x, y) * y;
            &&& trunc_rem(x, y) == rem
            &&& abs(rem) < abs(y)
            &&& rem == 0 || (rem < 0) == (x < 0)
        }),
{
    let a = abs(x) as int;
    let b = abs(y) as int;
    let q = a / b;
    let r = a % b;
    vstd::arithmetic::div_mod::lemma_fundamental_div_mod(a, b);
    vstd::arithmetic::div_mod::lemma_mod_pos_bound(a, b);
    assert(a == b * q + r);
    assert(trunc_div(x, y) == if (x < 0) != (y < 0) { -q } else { q });
    if x >= 0 && y > 0 {
        assert(x - q * y == r) by (nonlinear_arith)
            requires a == b * q + r, a == x, b == y;
    } else if x < 0 && y < 0 {
        assert(x - q * y == -r) by (nonlinear_arith)
            requires a == b * q + r, a == -x, b == -y;
    } else if x >= 0 && y < 0 {
        assert(x - (-q) * y == r) by (nonlinear_arith)
            requires a == b * q + r, a == x, b == -y;
    } else {
        assert(x - (-q) * y == -r) by (nonlinear_arith)
            requires a == b * q + r, a == -x, b == y;
    }
    assert(trunc_rem(x, y) == x - y * trunc_div(x, y));
    assert(y * trunc_div(x, y) == trunc_div(x, y) * y) by (nonlinear_arith);
}

/// Division and remainder truncate toward zero: dividing `x` by a nonzero
/// `y` gives the quotient `q` and the remainder `x - q y`, whose size is
/// less than that of `y` and which is never of the other sign than `x`
/// (so `-7 / 2` is `-3` and `-7 % 2` is `-1`).
pub proof fn law_division(s: VmModel, p: &Program, op: Opcode, dst: u64, a: u64, b: u64)
    requires
        op == Opcode::Div || op == Opcode::Mod,
        dst < s.regs.len(),
        a < s.regs.len(),
        b < s.regs.len(),
        spec_untag_int(s.regs[b as int]) != 0,
    ensures
        ({
            let x = spec_untag_int(s.regs[a as int]);
            let y = spec_untag_int(s.regs[b as int]);
            let r = exec_instr(s, Instruction::spec_new(op, dst, a, b), p);
            r.status == s.status ==> exists|q: int|
                #![trigger q * y]
                {
                    let rem = x - q * y;
                    &&& abs(rem) < abs(y)
                    &&& rem == 0 || (rem < 0) == (x < 0)
                    &&& r.regs[dst as int] == spec_tag_int((if op == Opcode::Div { q } else { rem }) as i64)
                    &&& r.ip == s.ip + 1
                }
        }),
{
    let x = spec_untag_int(s.regs[a as int]) as int;
    let y = spec_untag_int(s.regs[b as int]) as int;
    lemma_trunc_div(x, y);
    let q = trunc_div(x, y);
    let r = exec_instr(s, Instruction::spec_new(op, dst, a, b), p);
    if r.status == s.status {
        assert(q * y == q * y);
    }
}

/// What a read gives back of a write: storing a value into an array
/// element and then loading that element gives the value stored.
pub proof fn law_load_after_store(s: VmModel, p: &Program, arr: u64, idx: u64, src: u64, dst: u64)
    requires
        arr < s.regs.len(),
        idx < s.regs.len(),
        src < s.regs.len(),
        dst < s.regs.len(),
        element_offset(s.mem, s.regs[arr as int], s.regs[idx as int]) is Some,
    ensures
        ({
            let s1 = exec_instr(s, Instruction::spec_new(Opcode::StoreIndex, arr, idx, src), p);
            let s2 = exec_instr(s1, Instruction::spec_new(Opcode::LoadIndex, dst, arr, idx), p);
            &&& s1.status == s.status
            &&& s2.status == s.status
            &&& s2.regs[dst as int] == s.regs[src as int]
        }),
{
    let a = s.regs[arr as int];
    let off = element_offset(s.mem, a, s.regs[idx as int]).unwrap();
    let v = s.regs[src as int];
    let s1 = exec_instr(s, Instruction::spec_new(Opcode::StoreIndex, arr, idx, src), p);
    let mem1 = splice(s.mem, off, le_bytes(v));
    assert(s1.mem == mem1);
    assert(mem1.len() == s.mem.len());
    crate::heap::law_write_preserves_other_words(s.mem, off, v, a as int);
    crate::heap::law_read_after_write(s.mem, off, v);
    assert(element_offset(mem1, a, s.regs[idx as int]) == Some(off));
}
/// A call returns where it was made: after calling function `idx` (a
/// function of the program, not the printer), whatever the callee does
/// while it leaves the call stack as the call made it, returning gives back
/// the caller's registers with the callee's result in register 0, the
/// caller's function, and the instruction after the call.
pub proof fn law_call_return(s: VmModel, p: &Program, idx: u64, callee_end: VmModel)
    requires
        0 < idx < p.functions@.len(),
        callee_end.frames == spec_call(s, p, idx).frames,
    ensures
        spec_call(s, p, idx).func == idx,
        spec_call(s, p, idx).ip == 0,
        spec_return(callee_end).frames == s.frames,
        spec_return(callee_end).regs == s.regs.update(0, callee_end.regs[0]),
        spec_return(callee_end).ip == s.ip + 1,
        spec_return(callee_end).func == s.func,
        spec_return(callee_end).out == callee_end.out,
{
    assert(callee_end.frames.drop_last() =~= s.frames);
}

} // verus!
