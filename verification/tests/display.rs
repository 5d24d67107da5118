use water::display::render_ast;
use water::driver::parse_module_source;

#[test]
fn render_assignment_tree() {
    let module = parse_module_source("x = 1 + 2", b"main");
    let out = String::from_utf8(render_ast(&module)).unwrap();
    assert_eq!(
        out,
        "\nModule: main\n\u{2514}\u{2500}\u{2500} Expression\n    \u{2514}\u{2500}\u{2500} Assignment\n    \u{251c}\u{2500}\u{2500} Identifier(x)\n        \u{2514}\u{2500}\u{2500} Binary(Add)\n            \u{251c}\u{2500}\u{2500} Integer(1)\n            \u{2514}\u{2500}\u{2500} Integer(2)\n"
    );
}

#[test]
fn render_other_statement() {
    let module = parse_module_source("return", b"m");
    let out = String::from_utf8(render_ast(&module)).unwrap();
    assert_eq!(out, "\nModule: m\n\u{2514}\u{2500}\u{2500} Other\n");
}
