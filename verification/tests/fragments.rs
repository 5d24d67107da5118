use water::ast::{BinaryOp, Expression, Statement};
use water::bytecode::Instruction;
use water::codegen::compile_module;
use water::driver::{parse_module_source, LoadAction, ModuleLoader, WaterError};
use water::lexer::tokenize;
use water::linker::LinkError;
use water::parser::parse_module;
use water::symbols::CompileError;
use water::value::{tag_bool, tag_int};

fn main_code(source: &str) -> Vec<Instruction> {
    compile_module(&parse_module_source(source, b"main")).unwrap().main
}

#[test]
fn operands_compile_left_before_right() {
    assert_eq!(
        main_code("1 - 2"),
        vec![
            Instruction::mov_const(10, tag_int(1)),
            Instruction::mov_const(11, tag_int(2)),
            Instruction::sub(12, 10, 11),
        ]
    );
}

#[test]
fn nested_operations_follow_precedence() {
    assert_eq!(
        main_code("1 - 2 * 3"),
        vec![
            Instruction::mov_const(10, tag_int(1)),
            Instruction::mov_const(11, tag_int(2)),
            Instruction::mov_const(12, tag_int(3)),
            Instruction::mul(13, 11, 12),
            Instruction::sub(14, 10, 13),
        ]
    );
}

#[test]
fn negation_subtracts_from_zero() {
    assert_eq!(
        main_code("x = 5\n-x"),
        vec![
            Instruction::mov_const(11, tag_int(5)),
            Instruction::mov(10, 11),
            Instruction::mov_const(12, tag_int(0)),
            Instruction::sub(13, 12, 10),
        ]
    );
}

#[test]
fn not_of_a_boolean() {
    assert_eq!(
        main_code("not true"),
        vec![Instruction::mov_const(10, tag_bool(true)), Instruction::not(11, 10)]
    );
}

#[test]
fn assignment_binds_before_its_value() {
    assert_eq!(
        main_code("x = 1 + 2\nx = x * 3"),
        vec![
            Instruction::mov_const(11, tag_int(1)),
            Instruction::mov_const(12, tag_int(2)),
            Instruction::add(13, 11, 12),
            Instruction::mov(10, 13),
            Instruction::mov_const(14, tag_int(3)),
            Instruction::mul(15, 10, 14),
            Instruction::mov(10, 15),
        ]
    );
}

#[test]
fn conditional_with_else_jumps_over_each_branch() {
    assert_eq!(
        main_code("x = true\nif x then 2 else 3"),
        vec![
            Instruction::mov_const(11, tag_bool(true)),
            Instruction::mov(10, 11),
            Instruction::jmp_cond(3, 10),
            Instruction::mov_const(12, tag_int(2)),
            Instruction::mov(13, 12),
            Instruction::jmp(2),
            Instruction::mov_const(14, tag_int(3)),
            Instruction::mov(13, 14),
        ]
    );
}

#[test]
fn conditional_without_else_skips_its_branch() {
    assert_eq!(
        main_code("x = true\nif x then 2"),
        vec![
            Instruction::mov_const(11, tag_bool(true)),
            Instruction::mov(10, 11),
            Instruction::jmp_cond(1, 10),
            Instruction::mov_const(12, tag_int(2)),
        ]
    );
}

#[test]
fn block_bindings_end_with_the_block() {
    let r = compile_module(&parse_module_source("if true\n    y = 2\ny", b"main"));
    assert!(matches!(r, Err(CompileError::UnknownVariable(n)) if n == b"y".to_vec()));
}

#[test]
fn expression_lines_parse_in_order() {
    let lexed = tokenize("1 + 2\n\n3 * 4\n");
    let parsed = parse_module(&lexed.tokens, b"main");
    assert!(parsed.errors.is_empty());
    assert_eq!(parsed.ast.statements.len(), 2);
    for (s, op) in parsed.ast.statements.iter().zip([BinaryOp::Add, BinaryOp::Mul]) {
        match s {
            Statement::Expression(n) => match &n.kind {
                Expression::Binary { op: o, .. } => assert_eq!(*o, op),
                other => panic!("expected an operation, got {:?}", other),
            },
            other => panic!("expected an expression, got {:?}", other),
        }
    }
}

#[test]
fn break_must_end_its_line() {
    let lexed = tokenize("break 1");
    let parsed = parse_module(&lexed.tokens, b"main");
    assert!(!parsed.errors.is_empty());
}

#[test]
fn import_with_alias_needs_a_name() {
    let lexed = tokenize("import a as 1");
    let parsed = parse_module(&lexed.tokens, b"main");
    assert!(!parsed.errors.is_empty());
    let lexed = tokenize("import a as b");
    let parsed = parse_module(&lexed.tokens, b"main");
    assert!(parsed.errors.is_empty());
    assert_eq!(parsed.ast.statements.len(), 1);
}

#[test]
fn imports_are_looked_up_next_to_the_importing_file() {
    let mut loader = ModuleLoader::new("import lib/a", None);
    match loader.next_action() {
        LoadAction::Read { module, file } => {
            assert_eq!(module, b"lib/a".to_vec());
            assert_eq!(file, b"lib/a.water".to_vec());
        }
        LoadAction::Done => panic!("expected a read"),
    }
    loader.provide("import b");
    match loader.next_action() {
        LoadAction::Read { module, file } => {
            assert_eq!(module, b"b".to_vec());
            assert_eq!(file, b"lib/b.water".to_vec());
        }
        LoadAction::Done => panic!("expected a read"),
    }
}

#[test]
fn main_module_imports_use_the_base_directory() {
    let mut loader = ModuleLoader::new("import m", Some(b"src".to_vec()));
    match loader.next_action() {
        LoadAction::Read { module, file } => {
            assert_eq!(module, b"m".to_vec());
            assert_eq!(file, b"src/m.water".to_vec());
        }
        LoadAction::Done => panic!("expected a read"),
    }
}

#[test]
fn error_messages_word_for_word() {
    assert_eq!(WaterError::Load(b"m".to_vec()).message(), b"error: cannot load module m\n".to_vec());
    assert_eq!(
        WaterError::Compile { module: b"main".to_vec(), error: CompileError::UnknownVariable(b"z".to_vec()) }
            .message(),
        b"error: in module main: unknown variable z\n".to_vec()
    );
    assert_eq!(
        WaterError::Link(LinkError::UnresolvedImport { module: b"a".to_vec(), name: b"f".to_vec() }).message(),
        b"error: unresolved import a::f\n".to_vec()
    );
}

#[test]
fn expression_lines_compile_and_link() {
    assert!(water::compile_source("x = 1 + 2\ny = x * 3\nif y > 4 then y else x", &[]).is_ok());
}

#[test]
fn then_else_conditional_parses_both_branches() {
    let lexed = tokenize("if 1 < 2 then 3 else 4");
    let parsed = parse_module(&lexed.tokens, b"main");
    assert!(parsed.errors.is_empty());
    match &parsed.ast.statements[0] {
        Statement::Expression(n) => match &n.kind {
            Expression::Conditional { condition, then_branch, else_branch } => {
                assert!(matches!(condition.kind, Expression::Binary { op: BinaryOp::Lt, .. }));
                assert!(matches!(then_branch.kind, Expression::Integer(3)));
                assert!(matches!(else_branch.as_ref().map(|e| &e.kind), Some(Expression::Integer(4))));
            }
            other => panic!("expected a conditional, got {:?}", other),
        },
        other => panic!("expected an expression, got {:?}", other),
    }
}

#[test]
fn assignment_takes_the_whole_chain() {
    let lexed = tokenize("x = 1 + 2 * 3 - 4");
    let parsed = parse_module(&lexed.tokens, b"main");
    assert!(parsed.errors.is_empty());
    match &parsed.ast.statements[0] {
        Statement::Expression(n) => match &n.kind {
            Expression::Assignment { rhs, .. } => match &rhs.kind {
                Expression::Binary { lhs, op: BinaryOp::Sub, rhs: last } => {
                    assert!(matches!(last.kind, Expression::Integer(4)));
                    match &lhs.kind {
                        Expression::Binary { lhs: one, op: BinaryOp::Add, rhs: product } => {
                            assert!(matches!(one.kind, Expression::Integer(1)));
                            assert!(matches!(product.kind, Expression::Binary { op: BinaryOp::Mul, .. }));
                        }
                        other => panic!("expected an addition, got {:?}", other),
                    }
                }
                other => panic!("expected a subtraction, got {:?}", other),
            },
            other => panic!("expected an assignment, got {:?}", other),
        },
        other => panic!("expected an expression, got {:?}", other),
    }
}

#[test]
fn expression_lines_print_nothing() {
    assert_eq!(water::run_capturing("x = 1 + 2\ny = x * 3\nif y > 4 then y else x"), "");
    assert_eq!(water::run_capturing("1 - 2 - 3\n\nnot false"), "");
}
