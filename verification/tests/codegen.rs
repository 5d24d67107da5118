use water::bytecode::{Instruction, Opcode};
use water::codegen::{binary_instruction, compile_module, BREAK_MARK, CONTINUE_MARK};
use water::ast::BinaryOp;
use water::driver::parse_module_source;
use water::symbols::{CompileError, SymbolTable};
use water::value::tag_int;

fn compile(source: &str) -> Result<water::codegen::CompiledModule, CompileError> {
    compile_module(&parse_module_source(source, b"main"))
}

#[test]
fn integer_literal_loads_tagged_constant() {
    let cm = compile("42").unwrap();
    assert_eq!(cm.main, vec![Instruction::mov_const(10, tag_int(42))]);
}

#[test]
fn println_call_layout() {
    let cm = compile("println(7)").unwrap();
    assert_eq!(
        cm.main,
        vec![
            Instruction::mov_const(10, tag_int(7)),
            Instruction::mov_const(11, 0),
            Instruction::mov(1, 10),
            Instruction::call(11),
            Instruction::mov(12, 0),
        ]
    );
}

#[test]
fn reassignment_reuses_register() {
    let cm = compile("x = 1\nx = 2").unwrap();
    assert_eq!(cm.main[1], Instruction::mov(10, 11));
    assert_eq!(cm.main[3], Instruction::mov(10, 12));
}

#[test]
fn while_loop_jumps_stay_inside() {
    let cm = compile("i = 0\nwhile i < 3\n    if i == 1\n        break\n    i = i + 1\n").unwrap();
    let n = cm.main.len() as u64;
    for (j, ins) in cm.main.iter().enumerate() {
        let j = j as u64;
        match ins.opcode {
            Opcode::Jmp | Opcode::JmpCond => assert!(j + ins.op0 + 1 <= n),
            Opcode::JmpBack => assert!(ins.op0 <= j),
            _ => {}
        }
        if ins.opcode == Opcode::Jmp {
            assert_ne!(ins.op1, BREAK_MARK);
        }
        if ins.opcode == Opcode::JmpBack {
            assert_ne!(ins.op1, CONTINUE_MARK);
        }
        if ins.opcode != Opcode::MovConst && ins.opcode != Opcode::Jmp && ins.opcode != Opcode::JmpBack && ins.opcode != Opcode::JmpCond {
            assert!(ins.op0 < 100);
        }
    }
}

#[test]
fn function_goes_to_its_slot_and_is_exported() {
    let cm = compile("double = (x) => x * 2").unwrap();
    assert_eq!(cm.functions.len(), 1);
    assert_eq!(cm.exports, vec![(b"double".to_vec(), 0)]);
    assert_eq!(cm.main[0].opcode, Opcode::LoadLocalFn);
    assert_eq!(cm.main[0].op1, 0);
    let body = &cm.functions[0].code_block;
    assert_eq!(body[0], Instruction::mov(11, 1));
    assert_eq!(*body.last().unwrap(), Instruction::mov(0, 13));
    assert_eq!(cm.main[1], Instruction::mov(10, 11));
}

#[test]
fn nested_function_keeps_its_own_slot() {
    let cm = compile("outer = () => (() => 1)").unwrap();
    assert_eq!(cm.functions.len(), 2);
    assert_eq!(cm.exports, vec![(b"outer".to_vec(), 0)]);
    assert_eq!(cm.functions[0].code_block[0].opcode, Opcode::LoadLocalFn);
    assert_eq!(cm.functions[0].code_block[0].op1, 1);
}

#[test]
fn strings_are_collected() {
    let cm = compile("println(\"a\")\nprintln(\"b\")").unwrap();
    assert_eq!(cm.strings, vec![b"a".to_vec(), b"b".to_vec()]);
    assert_eq!(cm.main[0], Instruction::load_string(10, 0));
}

#[test]
fn imports_are_recorded() {
    let cm = compile("from math import add\nimport util\nadd(util.f(1), 2)").unwrap();
    assert_eq!(cm.imports.len(), 2);
    assert_eq!(cm.imports[0], (b"math".to_vec(), b"add".to_vec()));
    assert_eq!(cm.imports[1], (b"util".to_vec(), b"f".to_vec()));
    assert!(cm.main.iter().any(|i| i.opcode == Opcode::LoadImport && i.op1 == 0));
    assert!(cm.main.iter().any(|i| i.opcode == Opcode::LoadImport && i.op1 == 1));
}

#[test]
fn unknown_variable_is_an_error() {
    assert_eq!(compile("println(y)").err(), Some(CompileError::UnknownVariable(b"y".to_vec())));
}

#[test]
fn break_outside_loop_is_an_error() {
    assert_eq!(compile("break").err(), Some(CompileError::BreakOutsideLoop));
}

#[test]
fn continue_outside_loop_is_an_error() {
    assert_eq!(compile("continue").err(), Some(CompileError::ContinueOutsideLoop));
}

#[test]
fn break_inside_function_in_loop_is_an_error() {
    assert_eq!(
        compile("while true\n    f = () => \n        break\n").err(),
        Some(CompileError::BreakOutsideLoop)
    );
}

#[test]
fn too_many_arguments_is_an_error() {
    assert_eq!(
        compile("f = (a) => a\nf(1, 2, 3, 4, 5, 6, 7, 8, 9, 10)").err(),
        Some(CompileError::TooManyArguments)
    );
}

#[test]
fn tuple_target_is_an_error() {
    assert_eq!(compile("(a, b) = 1").err(), Some(CompileError::InvalidAssignmentTarget));
}

#[test]
fn member_of_non_module_is_an_error() {
    assert_eq!(compile("x = 1\nx.f").err(), Some(CompileError::NotAModule(b"x".to_vec())));
}

#[test]
fn float_is_unsupported() {
    assert_eq!(compile("1.5").err(), Some(CompileError::Unsupported));
}

#[test]
fn running_out_of_registers_is_an_error() {
    let mut source = String::from("a = [");
    for i in 0..60 {
        source.push_str(&format!("{}, ", i));
    }
    source.push_str("0]");
    assert_eq!(compile(&source).err(), Some(CompileError::TooManyRegisters));
}

#[test]
fn binary_instruction_maps_operations() {
    assert_eq!(binary_instruction(BinaryOp::Pow, 3, 4, 5), Some(Instruction::pow(3, 4, 5)));
    assert_eq!(binary_instruction(BinaryOp::LEq, 3, 4, 5), Some(Instruction::leq(3, 4, 5)));
    assert_eq!(binary_instruction(BinaryOp::And, 3, 4, 5), None);
}

#[test]
fn symbol_table_lookup_after_register() {
    let mut st = SymbolTable::new();
    st.push_scope();
    let r = st.register_variable(&b"x".to_vec()).unwrap();
    assert_eq!(r, 10);
    assert_eq!(st.get_variable(b"x"), Some(10));
    assert_eq!(st.get_variable(b"y"), None);
}

#[test]
fn symbol_table_pop_forgets_scope() {
    let mut st = SymbolTable::new();
    st.push_scope();
    st.register_variable(&b"x".to_vec()).unwrap();
    st.push_scope();
    let inner = st.register_variable(&b"y".to_vec()).unwrap();
    let tmp = st.register_intermediate().unwrap();
    assert_eq!((inner, tmp), (11, 12));
    st.pop_scope();
    assert_eq!(st.get_variable(b"y"), None);
    assert_eq!(st.get_variable(b"x"), Some(10));
    assert_eq!(st.top(), 11);
    assert_eq!(st.register_intermediate(), Ok(11));
}

#[test]
fn symbol_table_inner_scope_shadows() {
    let mut st = SymbolTable::new();
    st.push_scope();
    st.register_variable(&b"x".to_vec()).unwrap();
    st.push_scope();
    st.register_variable(&b"x".to_vec()).unwrap();
    assert_eq!(st.get_variable(b"x"), Some(11));
    st.pop_scope();
    assert_eq!(st.get_variable(b"x"), Some(10));
}

#[test]
fn symbol_table_register_limit() {
    let mut st = SymbolTable::new();
    st.push_scope();
    for _ in 10..100 {
        st.register_intermediate().unwrap();
    }
    assert_eq!(st.register_intermediate(), Err(CompileError::TooManyRegisters));
    assert_eq!(st.register_variable(&b"z".to_vec()), Err(CompileError::TooManyRegisters));
}

#[test]
fn empty_module_compiles_to_empty_tables() {
    let cm = compile("").unwrap();
    assert!(cm.main.is_empty());
    assert!(cm.functions.is_empty());
    assert!(cm.strings.is_empty());
    assert!(cm.exports.is_empty());
    assert!(cm.imports.is_empty());
}

#[test]
fn empty_array_is_one_creation() {
    let cm = compile("[]").unwrap();
    assert_eq!(cm.main, vec![Instruction::create_array(10, 0)]);
}

#[test]
fn compound_assignment_needs_existing_target() {
    assert_eq!(compile("x += 1").err(), Some(CompileError::UnknownVariable(b"x".to_vec())));
}

#[test]
fn top_level_continue_is_rejected() {
    assert_eq!(compile("continue").err(), Some(CompileError::ContinueOutsideLoop));
}

#[test]
fn imports_alone_compile() {
    let cm = compile("import math\nfrom util import f as g").unwrap();
    assert!(cm.main.is_empty());
}
