//! The register bytecode that the code generator emits and the virtual
//! machine runs.
use vstd::prelude::*;

verus! {

/// Operation codes. The order is the dispatch order of the virtual machine:
/// the code of an operation is its position in this list.
#[derive(Clone, Copy, Debug, PartialEq, Eq, Structural)]
pub enum Opcode {
    Mov,
    MovConst,
    Add,
    Sub,
    Mul,
    Div,
    Mod,
    Eq,
    NEq,
    GT,
    LT,
    GEq,
    LEq,
    Jmp,
    JmpCond,
    Call,
    Return,
    LoadString,
    Halt,
    CreateArray,
    LoadIndex,
    StoreIndex,
    Not,
    Pow,
    JmpBack,
    LoadLocalFn,
    LoadImport,
    COUNT,
}

/// The dispatch position of an operation code.
pub open spec fn opcode_number(op: Opcode) -> nat {
    match op {
        Opcode::Mov => 0,
        Opcode::MovConst => 1,
        Opcode::Add => 2,
        Opcode::Sub => 3,
        Opcode::Mul => 4,
        Opcode::Div => 5,
        Opcode::Mod => 6,
        Opcode::Eq => 7,
        Opcode::NEq => 8,
        Opcode::GT => 9,
        Opcode::LT => 10,
        Opcode::GEq => 11,
        Opcode::LEq => 12,
        Opcode::Jmp => 13,
        Opcode::JmpCond => 14,
        Opcode::Call => 15,
        Opcode::Return => 16,
        Opcode::LoadString => 17,
        Opcode::Halt => 18,
        Opcode::CreateArray => 19,
        Opcode::LoadIndex => 20,
        Opcode::StoreIndex => 21,
        Opcode::Not => 22,
        Opcode::Pow => 23,
        Opcode::JmpBack => 24,
        Opcode::LoadLocalFn => 25,
        Opcode::LoadImport => 26,
        Opcode::COUNT => 27,
    }
}

/// One instruction: an operation and three operands whose meaning depends
/// on the operation (registers, constants, offsets or indices).
#[derive(Clone, Copy, Debug, PartialEq, Eq, Structural)]
pub struct Instruction {
    pub opcode: Opcode,
    pub op0: u64,
    pub op1: u64,
    pub op2: u64,
}

impl Instruction {
    pub open spec fn spec_new(opcode: Opcode, op0: u64, op1: u64, op2: u64) -> Instruction {
        Instruction { opcode, op0, op1, op2 }
    }

    pub fn new(opcode: Opcode, op0: u64, op1: u64, op2: u64) -> (r: Self)
        ensures
            r == Self::spec_new(opcode, op0, op1, op2),
    {
        Self { opcode, op0, op1, op2 }
    }

    /// `dst := src`
    pub fn mov(dst: usize, src: usize) -> (r: Self)
        ensures
            r == Self::spec_new(Opcode::Mov, dst as u64, src as u64, 0),
    {
        Self::new(Opcode::Mov, dst as u64, src as u64, 0)
    }

    /// `dst := val`
    pub fn mov_const(dst: usize, val: u64) -> (r: Self)
        ensures
            r == Self::spec_new(Opcode::MovConst, dst as u64, val, 0),
    {
        Self::new(Opcode::MovConst, dst as u64, val, 0)
    }

    pub fn add(dst: usize, lhs: usize, rhs: usize) -> (r: Self)
        ensures
            r == Self::spec_new(Opcode::Add, dst as u64, lhs as u64, rhs as u64),
    {
        Self::new(Opcode::Add, dst as u64, lhs as u64, rhs as u64)
    }

    pub fn sub(dst: usize, lhs: usize, rhs: usize) -> (r: Self)
        ensures
            r == Self::spec_new(Opcode::Sub, dst as u64, lhs as u64, rhs as u64),
    {
        Self::new(Opcode::Sub, dst as u64, lhs as u64, rhs as u64)
    }

    pub fn mul(dst: usize, lhs: usize, rhs: usize) -> (r: Self)
        ensures
            r == Self::spec_new(Opcode::Mul, dst as u64, lhs as u64, rhs as u64),
    {
        Self::new(Opcode::Mul, dst as u64, lhs as u64, rhs as u64)
    }

    pub fn div(dst: usize, lhs: usize, rhs: usize) -> (r: Self)
        ensures
            r == Self::spec_new(Opcode::Div, dst as u64, lhs as u64, rhs as u64),
    {
        Self::new(Opcode::Div, dst as u64, lhs as u64, rhs as u64)
    }

    pub fn mod_(dst: usize, lhs: usize, rhs: usize) -> (r: Self)
        ensures
            r == Self::spec_new(Opcode::Mod, dst as u64, lhs as u64, rhs as u64),
    {
        Self::new(Opcode::Mod, dst as u64, lhs as u64, rhs as u64)
    }

    pub fn pow(dst: usize, lhs: usize, rhs: usize) -> (r: Self)
        ensures
            r == Self::spec_new(Opcode::Pow, dst as u64, lhs as u64, rhs as u64),
    {
        Self::new(Opcode::Pow, dst as u64, lhs as u64, rhs as u64)
    }

    pub fn eq(dst: usize, lhs: usize, rhs: usize) -> (r: Self)
        ensures
            r == Self::spec_new(Opcode::Eq, dst as u64, lhs as u64, rhs as u64),
    {
        Self::new(Opcode::Eq, dst as u64, lhs as u64, rhs as u64)
    }

    pub fn neq(dst: usize, lhs: usize, rhs: usize) -> (r: Self)
        ensures
            r == Self::spec_new(Opcode::NEq, dst as u64, lhs as u64, rhs as u64),
    {
        Self::new(Opcode::NEq, dst as u64, lhs as u64, rhs as u64)
    }

    pub fn gt(dst: usize, lhs: usize, rhs: usize) -> (r: Self)
        ensures
            r == Self::spec_new(Opcode::GT, dst as u64, lhs as u64, rhs as u64),
    {
        Self::new(Opcode::GT, dst as u64, lhs as u64, rhs as u64)
    }

    pub fn lt(dst: usize, lhs: usize, rhs: usize) -> (r: Self)
        ensures
            r == Self::spec_new(Opcode::LT, dst as u64, lhs as u64, rhs as u64),
    {
        Self::new(Opcode::LT, dst as u64, lhs as u64, rhs as u64)
    }

    pub fn geq(dst: usize, lhs: usize, rhs: usize) -> (r: Self)
        ensures
            r == Self::spec_new(Opcode::GEq, dst as u64, lhs as u64, rhs as u64),
    {
        Self::new(Opcode::GEq, dst as u64, lhs as u64, rhs as u64)
    }

    pub fn leq(dst: usize, lhs: usize, rhs: usize) -> (r: Self)
        ensures
            r == Self::spec_new(Opcode::LEq, dst as u64, lhs as u64, rhs as u64),
    {
        Self::new(Opcode::LEq, dst as u64, lhs as u64, rhs as u64)
    }

    /// Skip the next `offset` instructions.
    pub fn jmp(offset: usize) -> (r: Self)
        ensures
            r == Self::spec_new(Opcode::Jmp, offset as u64, 0, 0),
    {
        Self::new(Opcode::Jmp, offset as u64, 0, 0)
    }

    /// Skip the next `offset` instructions when register `cond_reg` holds false.
    pub fn jmp_cond(offset: usize, cond_reg: usize) -> (r: Self)
        ensures
            r == Self::spec_new(Opcode::JmpCond, offset as u64, cond_reg as u64, 0),
    {
        Self::new(Opcode::JmpCond, offset as u64, cond_reg as u64, 0)
    }

    /// Go back `offset` instructions.
    pub fn jmp_back(offset: usize) -> (r: Self)
        ensures
            r == Self::spec_new(Opcode::JmpBack, offset as u64, 0, 0),
    {
        Self::new(Opcode::JmpBack, offset as u64, 0, 0)
    }

    /// Call the function whose index register `reg` holds.
    pub fn call(reg: usize) -> (r: Self)
        ensures
            r == Self::spec_new(Opcode::Call, reg as u64, 0, 0),
    {
        Self::new(Opcode::Call, reg as u64, 0, 0)
    }

    pub fn return_() -> (r: Self)
        ensures
            r == Self::spec_new(Opcode::Return, 0, 0, 0),
    {
        Self::new(Opcode::Return, 0, 0, 0)
    }

    pub fn load_string(dst: usize, string_index: usize) -> (r: Self)
        ensures
            r == Self::spec_new(Opcode::LoadString, dst as u64, string_index as u64, 0),
    {
        Self::new(Opcode::LoadString, dst as u64, string_index as u64, 0)
    }

    pub fn halt() -> (r: Self)
        ensures
            r == Self::spec_new(Opcode::Halt, 0, 0, 0),
    {
        Self::new(Opcode::Halt, 0, 0, 0)
    }

    pub fn create_array(dst: usize, size: usize) -> (r: Self)
        ensures
            r == Self::spec_new(Opcode::CreateArray, dst as u64, size as u64, 0),
    {
        Self::new(Opcode::CreateArray, dst as u64, size as u64, 0)
    }

    pub fn load_index(dst: usize, arr: usize, idx: usize) -> (r: Self)
        ensures
            r == Self::spec_new(Opcode::LoadIndex, dst as u64, arr as u64, idx as u64),
    {
        Self::new(Opcode::LoadIndex, dst as u64, arr as u64, idx as u64)
    }

    pub fn store_index(arr: usize, idx: usize, src: usize) -> (r: Self)
        ensures
            r == Self::spec_new(Opcode::StoreIndex, arr as u64, idx as u64, src as u64),
    {
        Self::new(Opcode::StoreIndex, arr as u64, idx as u64, src as u64)
    }

    pub fn not(dst: usize, src: usize) -> (r: Self)
        ensures
            r == Self::spec_new(Opcode::Not, dst as u64, src as u64, 0),
    {
        Self::new(Opcode::Not, dst as u64, src as u64, 0)
    }

    /// Load the function with index `local_index` of the module being
    /// compiled; the linker turns it into a constant load.
    pub fn load_local_fn(dst: usize, local_index: usize) -> (r: Self)
        ensures
            r == Self::spec_new(Opcode::LoadLocalFn, dst as u64, local_index as u64, 0),
    {
        Self::new(Opcode::LoadLocalFn, dst as u64, local_index as u64, 0)
    }

    /// Load the function named by entry `import_index` of the module's import
    /// list; the linker turns it into a constant load.
    pub fn load_import(dst: usize, import_index: usize) -> (r: Self)
        ensures
            r == Self::spec_new(Opcode::LoadImport, dst as u64, import_index as u64, 0),
    {
        Self::new(Opcode::LoadImport, dst as u64, import_index as u64, 0)
    }
}

/// The operations in dispatch order: entry `i` is the operation whose code
/// is `i`, one entry for every operation code below `COUNT`.
pub fn dispatch_table() -> (table: Vec<Opcode>)
    ensures
        table.len() == opcode_number(Opcode::COUNT),
        forall|i: int| 0 <= i < table.len() ==> opcode_number(#[trigger] table[i]) == i,
{
    let table = vec![
        Opcode::Mov, Opcode::MovConst, Opcode::Add, Opcode::Sub, Opcode::Mul, Opcode::Div,
        Opcode::Mod, Opcode::Eq, Opcode::NEq, Opcode::GT, Opcode::LT, Opcode::GEq, Opcode::LEq,
        Opcode::Jmp, Opcode::JmpCond, Opcode::Call, Opcode::Return, Opcode::LoadString,
        Opcode::Halt, Opcode::CreateArray, Opcode::LoadIndex, Opcode::StoreIndex, Opcode::Not,
        Opcode::Pow, Opcode::JmpBack, Opcode::LoadLocalFn, Opcode::LoadImport,
    ];
    table
}

/// The code of one function.
#[derive(Clone, Debug)]
pub struct CompiledFunction {
    pub code_block: Vec<Instruction>,
}

/// A linked program: the main code, the function table (entries 0 and 1
/// are the built-in `println` and `print`) and the string constants.
#[derive(Clone, Debug)]
pub struct Program {
    pub main: Vec<Instruction>,
    pub functions: Vec<CompiledFunction>,
    pub strings: Vec<Vec<u8>>,
}

} // verus!
