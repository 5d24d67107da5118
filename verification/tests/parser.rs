use water::ast::{BinaryOp, Expression, Pattern, Statement, UnaryOp};
use water::lexer::tokenize;
use water::parser::parse_module;
use water::token::Span;
use water::token_stream::{ParsingError, TokenStream};

fn parse(source: &str) -> water::parser::ParsingArtifacts {
    let lexed = tokenize(source);
    parse_module(&lexed.tokens, b"main")
}

#[test]
fn test_assignment_integer() {
    let artifacts = parse("int_variable = 5");
    assert!(artifacts.errors.is_empty());
    assert_eq!(artifacts.ast.name, b"main".to_vec());
    assert_eq!(artifacts.ast.statements.len(), 1);
    match &artifacts.ast.statements[0] {
        Statement::Expression(node) => match &node.kind {
            Expression::Assignment { lhs, rhs } => {
                assert!(matches!(&lhs.kind, Pattern::Identifier(n) if n == b"int_variable"));
                assert!(matches!(rhs.kind, Expression::Integer(5)));
            }
            _ => panic!("not an assignment"),
        },
        _ => panic!("not an expression statement"),
    }
}

#[test]
fn test_assignment_float() {
    let artifacts = parse("float_variable = 3.15");
    assert!(artifacts.errors.is_empty());
    match &artifacts.ast.statements[0] {
        Statement::Expression(node) => match &node.kind {
            Expression::Assignment { lhs, rhs } => {
                assert!(matches!(&lhs.kind, Pattern::Identifier(n) if n == b"float_variable"));
                assert!(matches!(&rhs.kind, Expression::Float(t) if t == b"3.15"));
            }
            _ => panic!("not an assignment"),
        },
        _ => panic!("not an expression statement"),
    }
}

#[test]
fn precedence_multiplication_binds_tighter() {
    let artifacts = parse("1 + 2 * 3");
    match &artifacts.ast.statements[0] {
        Statement::Expression(node) => match &node.kind {
            Expression::Binary { op: BinaryOp::Add, rhs, .. } => {
                assert!(matches!(rhs.kind, Expression::Binary { op: BinaryOp::Mul, .. }));
            }
            _ => panic!("wrong tree"),
        },
        _ => panic!("not an expression"),
    }
}

#[test]
fn power_groups_to_the_right() {
    let artifacts = parse("2 ** 3 ** 2");
    match &artifacts.ast.statements[0] {
        Statement::Expression(node) => match &node.kind {
            Expression::Binary { op: BinaryOp::Pow, lhs, rhs } => {
                assert!(matches!(lhs.kind, Expression::Integer(2)));
                assert!(matches!(rhs.kind, Expression::Binary { op: BinaryOp::Pow, .. }));
            }
            _ => panic!("wrong tree"),
        },
        _ => panic!("not an expression"),
    }
}

#[test]
fn unary_not_keyword() {
    let artifacts = parse("not true");
    match &artifacts.ast.statements[0] {
        Statement::Expression(node) => {
            assert!(matches!(node.kind, Expression::Unary { op: UnaryOp::Not, .. }))
        }
        _ => panic!("not an expression"),
    }
}

#[test]
fn compound_assignment_parses() {
    let artifacts = parse("x += 5");
    match &artifacts.ast.statements[0] {
        Statement::Expression(node) => {
            assert!(matches!(node.kind, Expression::CompoundAssignment { op: BinaryOp::Add, .. }))
        }
        _ => panic!("not an expression"),
    }
}

#[test]
fn imports_parse() {
    let artifacts = parse("from lib/math import add as plus, mul\nimport util as u\n");
    assert!(artifacts.errors.is_empty());
    match &artifacts.ast.statements[0] {
        Statement::ImportFrom { path, items } => {
            assert_eq!(path, &b"lib/math".to_vec());
            assert_eq!(items.len(), 2);
            assert_eq!(items[0].name, b"add".to_vec());
            assert_eq!(items[0].alias, Some(b"plus".to_vec()));
            assert_eq!(items[1].alias, None);
        }
        _ => panic!("not an import"),
    }
    match &artifacts.ast.statements[1] {
        Statement::ImportModule { path, alias } => {
            assert_eq!(path, &b"util".to_vec());
            assert_eq!(alias, &Some(b"u".to_vec()));
        }
        _ => panic!("not an import"),
    }
}

#[test]
fn while_with_block() {
    let artifacts = parse("while i < 3\n    i = i + 1\n");
    assert!(artifacts.errors.is_empty());
    match &artifacts.ast.statements[0] {
        Statement::Expression(node) => match &node.kind {
            Expression::While { body, .. } => {
                assert!(matches!(&body.kind, Expression::Block { final_expr: Some(_), .. }))
            }
            _ => panic!("not a loop"),
        },
        _ => panic!("not an expression"),
    }
}

#[test]
fn else_on_following_line() {
    let artifacts = parse("if x\n    1\nelse\n    2\n");
    assert!(artifacts.errors.is_empty());
    match &artifacts.ast.statements[0] {
        Statement::Expression(node) => {
            assert!(matches!(&node.kind, Expression::Conditional { else_branch: Some(_), .. }))
        }
        _ => panic!("not an expression"),
    }
}

#[test]
fn invalid_assignment_target_is_an_error() {
    let artifacts = parse("1 = 2");
    assert_eq!(artifacts.errors.len(), 1);
    assert_eq!(artifacts.errors[0].message, "Invalid assignment target");
}

#[test]
fn statement_must_end_the_line() {
    let artifacts = parse("x = 1 2");
    assert_eq!(artifacts.errors.len(), 1);
    assert_eq!(artifacts.errors[0].message, "Expected newline or end of file after statement.");
    assert_eq!(artifacts.errors[0].span, Some(Span { start: 6, end: 7 }));
}

#[test]
fn unexpected_end_of_input() {
    let artifacts = parse("x = ");
    assert_eq!(artifacts.errors.len(), 1);
    assert_eq!(artifacts.errors[0].message, "Unexpected end of input");
}

#[test]
fn parsing_error_new_keeps_fields() {
    let e = ParsingError::new("oops", Some(Span { start: 1, end: 2 }));
    assert_eq!(e.message, "oops");
    assert_eq!(e.span, Some(Span { start: 1, end: 2 }));
}

#[test]
fn token_stream_moves_and_backtracks() {
    let lexed = tokenize("a b c");
    let mut ts = TokenStream::new(lexed.tokens);
    assert_eq!(ts.next_id(), 0);
    assert_eq!(ts.next_id(), 1);
    ts.save_pos();
    let first = ts.next().unwrap();
    assert_eq!(first.1, Span { start: 0, end: 1 });
    let peeked = ts.peek().unwrap();
    assert_eq!(peeked.1, Span { start: 2, end: 3 });
    ts.backtrack();
    assert_eq!(ts.next().unwrap().1, Span { start: 0, end: 1 });
    let err = ts.expect(water::token::TokenKind::Integer).unwrap_err();
    assert_eq!(err.message, "Expected Integer");
    assert_eq!(err.span, Some(Span { start: 2, end: 3 }));
}

#[test]
fn import_errors() {
    assert_eq!(parse("from 1 import x").errors[0].message, "Expected module path");
    assert_eq!(parse("from a/ import x").errors[0].message, "Expected path segment after '/'");
    assert_eq!(parse("from a import 1").errors[0].message, "Expected import name");
    assert_eq!(parse("import a as 1").errors[0].message, "Expected alias after 'as'");
    assert_eq!(parse("from a b").errors[0].message, "Expected Import");
}

#[test]
fn prefix_rejects_operator() {
    let artifacts = parse("* 2");
    assert_eq!(artifacts.errors[0].message, "Unexpected token {:?} in prefix");
    assert_eq!(artifacts.errors[0].span, Some(Span { start: 0, end: 1 }));
}

#[test]
fn statement_kinds_follow_first_token() {
    let artifacts = parse("\n\nbreak\ncontinue\nreturn 1\nreturn\n");
    assert!(artifacts.errors.is_empty());
    assert!(matches!(artifacts.ast.statements[0], Statement::Break));
    assert!(matches!(artifacts.ast.statements[1], Statement::Continue));
    assert!(matches!(&artifacts.ast.statements[2], Statement::Return(r) if r.value.is_some()));
    assert!(matches!(&artifacts.ast.statements[3], Statement::Return(r) if r.value.is_none()));
}

#[test]
fn postfix_chain() {
    let artifacts = parse("m.f(1)[2]");
    match &artifacts.ast.statements[0] {
        Statement::Expression(node) => match &node.kind {
            Expression::Index { target, .. } => match &target.kind {
                Expression::FunctionCall { callee, arguments } => {
                    assert_eq!(arguments.len(), 1);
                    assert!(matches!(&callee.kind, Expression::Member { name, .. } if name == b"f"));
                }
                _ => panic!("not a call"),
            },
            _ => panic!("not an index"),
        },
        _ => panic!("not an expression"),
    }
}

#[test]
fn token_kind_and_operation_names() {
    assert_eq!(water::token_stream::kind_name(water::token::TokenKind::EqEq), "EqEq");
    assert_eq!(water::token_stream::kind_name(water::token::TokenKind::Dedent), "Dedent");
    assert_eq!(water::display::binary_op_name(water::ast::BinaryOp::GEq), "GEq");
    assert_eq!(water::diagnostics::Severity::Warning.name(), "Warning");
}
