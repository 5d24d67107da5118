use water::bytecode::{CompiledFunction, Instruction, Program};
use water::value::{tag_bool, tag_int};
use water::vm::{exec_with, RuntimeError, Status};
use water::{compile_source, run_capturing, run_compiled};

fn program(main: Vec<Instruction>) -> Program {
    Program {
        main,
        functions: vec![CompiledFunction { code_block: Vec::new() }, CompiledFunction { code_block: Vec::new() }],
        strings: Vec::new(),
    }
}

#[test]
fn exec_prints_and_halts() {
    let p = program(vec![
        Instruction::mov_const(1, tag_int(-12)),
        Instruction::mov_const(10, 0),
        Instruction::call(10),
    ]);
    let (out, status) = exec_with(&p, 100);
    assert_eq!(out, b"-12\n".to_vec());
    assert_eq!(status, Status::Halted);
}

#[test]
fn exec_call_of_function_one_enters_it() {
    let p = program(vec![
        Instruction::mov_const(1, tag_bool(true)),
        Instruction::mov_const(10, 1),
        Instruction::call(10),
    ]);
    let (out, status) = exec_with(&p, 100);
    assert_eq!(out, Vec::<u8>::new());
    assert_eq!(status, Status::Halted);
}

#[test]
fn exec_untagged_value_prints_nothing() {
    let p = program(vec![
        Instruction::mov_const(1, 2),
        Instruction::mov_const(10, 0),
        Instruction::call(10),
    ]);
    assert_eq!(exec_with(&p, 100).0, Vec::<u8>::new());
}

#[test]
fn exec_stops_when_fuel_runs_out() {
    let p = program(vec![Instruction::jmp_back(0)]);
    assert_eq!(exec_with(&p, 10).1, Status::Running);
}

#[test]
fn division_by_zero_fails() {
    let p = program(vec![
        Instruction::mov_const(10, tag_int(1)),
        Instruction::mov_const(11, tag_int(0)),
        Instruction::div(12, 10, 11),
    ]);
    assert_eq!(exec_with(&p, 100).1, Status::Failed(RuntimeError::DivisionByZero));
}

#[test]
fn negative_exponent_fails() {
    let p = program(vec![
        Instruction::mov_const(10, tag_int(2)),
        Instruction::mov_const(11, tag_int(-1)),
        Instruction::pow(12, 10, 11),
    ]);
    assert_eq!(exec_with(&p, 100).1, Status::Failed(RuntimeError::NegativeExponent));
}

#[test]
fn overflow_fails() {
    let p = program(vec![
        Instruction::mov_const(10, tag_int(1i64 << 40)),
        Instruction::mov_const(11, tag_int(1i64 << 40)),
        Instruction::mul(12, 10, 11),
    ]);
    assert_eq!(exec_with(&p, 100).1, Status::Failed(RuntimeError::Overflow));
}

#[test]
fn bad_register_fails() {
    let p = program(vec![Instruction::mov(100, 0)]);
    assert_eq!(exec_with(&p, 100).1, Status::Failed(RuntimeError::BadRegister));
}

#[test]
fn bad_jump_fails() {
    let p = program(vec![Instruction::jmp_back(5)]);
    assert_eq!(exec_with(&p, 100).1, Status::Failed(RuntimeError::BadJump));
}

#[test]
fn bad_function_fails() {
    let p = program(vec![Instruction::mov_const(10, 9), Instruction::call(10)]);
    assert_eq!(exec_with(&p, 100).1, Status::Failed(RuntimeError::BadFunction));
}

#[test]
fn bad_string_fails() {
    let p = program(vec![Instruction::load_string(10, 0)]);
    assert_eq!(exec_with(&p, 100).1, Status::Failed(RuntimeError::BadString));
}

#[test]
fn bad_index_fails() {
    let p = program(vec![
        Instruction::create_array(10, 2),
        Instruction::mov_const(11, tag_int(2)),
        Instruction::load_index(12, 10, 11),
    ]);
    assert_eq!(exec_with(&p, 100).1, Status::Failed(RuntimeError::BadIndex));
}

#[test]
fn unlinked_instruction_fails() {
    let p = program(vec![Instruction::load_local_fn(10, 0)]);
    assert_eq!(exec_with(&p, 100).1, Status::Failed(RuntimeError::Unlinked));
}

#[test]
fn out_of_memory_fails() {
    let p = program(vec![Instruction::create_array(10, 1 << 20)]);
    assert_eq!(exec_with(&p, 100).1, Status::Failed(RuntimeError::OutOfMemory));
}

#[test]
fn truncating_division_and_remainder() {
    assert_eq!(run_capturing("println(-7 / 2)\nprintln(-7 % 2)"), "-3\n-1\n");
}

#[test]
fn array_prints_as_object() {
    let out = run_capturing("println([1])");
    assert!(out.starts_with("<object at "));
}

#[test]
fn compiled_program_runs_without_misuse() {
    let p = compile_source("x = [1, 2]\nx[1] = x[0] + 5\nprintln(x[1])", &[]).ok().unwrap();
    let (out, status) = exec_with(&p, u64::MAX);
    assert_eq!(out, b"6\n".to_vec());
    assert_eq!(status, Status::Halted);
    assert_eq!(run_compiled(&p), "6\n");
}

#[test]
fn runtime_error_keeps_earlier_output() {
    assert_eq!(run_capturing("println(1)\nprintln(1 / 0)\nprintln(2)"), "1\n");
}

#[test]
fn compile_error_gives_message() {
    assert_eq!(run_capturing("println(y)"), "error: in module __main__: unknown variable y\n");
}

#[test]
fn missing_module_gives_message() {
    assert_eq!(run_capturing("from nowhere import f"), "error: cannot load module nowhere\n");
}

#[test]
fn print_is_the_line_printer() {
    assert_eq!(run_capturing("print(\"a\")\nprint(\"b\")"), "a\nb\n");
}

#[test]
fn recursion_and_conditionals() {
    assert_eq!(
        run_capturing("fib = (n) =>\n    if n < 2\n        return n\n    return fib(n - 1) + fib(n - 2)\nprintln(fib(10))\n"),
        "55\n"
    );
}

#[test]
fn compound_assignment_on_array_element() {
    assert_eq!(run_capturing("a = [1, 2]\na[1] += 5\nprintln(a[1])"), "7\n");
}

#[test]
fn else_if_chain() {
    assert_eq!(
        run_capturing("x = 2\nif x == 1\n    println(1)\nelse if x == 2\n    println(2)\nelse\n    println(3)\n"),
        "2\n"
    );
}

#[test]
fn load_after_store_gives_value_stored() {
    let p = program(vec![
        Instruction::create_array(10, 3),
        Instruction::mov_const(11, tag_int(2)),
        Instruction::mov_const(12, tag_int(-99)),
        Instruction::store_index(10, 11, 12),
        Instruction::load_index(1, 10, 11),
        Instruction::mov_const(13, 0),
        Instruction::call(13),
    ]);
    assert_eq!(exec_with(&p, 100).0, b"-99\n".to_vec());
}

#[test]
fn exec_halt_in_a_function_returns_to_the_caller() {
    let mut p = program(vec![
        Instruction::mov_const(10, 2),
        Instruction::call(10),
        Instruction::mov_const(1, tag_int(7)),
        Instruction::mov_const(10, 0),
        Instruction::call(10),
    ]);
    p.functions.push(CompiledFunction { code_block: vec![Instruction::halt()] });
    let (out, status) = exec_with(&p, 100);
    assert_eq!(out, b"7\n".to_vec());
    assert_eq!(status, Status::Halted);
}

#[test]
fn exec_return_carries_register_zero_back() {
    let mut p = program(vec![
        Instruction::mov_const(1, tag_int(9)),
        Instruction::mov_const(10, 2),
        Instruction::call(10),
        Instruction::mov(1, 0),
        Instruction::mov_const(10, 0),
        Instruction::call(10),
        Instruction::mov_const(10, 0),
        Instruction::call(10),
    ]);
    p.functions.push(CompiledFunction {
        code_block: vec![Instruction::mov_const(0, tag_int(5)), Instruction::mov_const(1, tag_int(6)), Instruction::return_()],
    });
    let (out, _) = exec_with(&p, 100);
    assert_eq!(out, b"5\n5\n".to_vec());
}
