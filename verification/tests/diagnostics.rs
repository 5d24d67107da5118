use water::diagnostics::{build_line_index, byte_to_line_col, render_diagnostics, Diagnostic, Label, LabelStyle, Severity};
use water::token::Span;

#[test]
fn line_index_marks_line_starts() {
    assert_eq!(build_line_index("ab\ncd\n\ne"), vec![0, 3, 6, 7]);
    assert_eq!(build_line_index(""), vec![0]);
}

#[test]
fn byte_positions_to_lines_and_columns() {
    let lines = build_line_index("ab\ncd\n\ne");
    assert_eq!(byte_to_line_col(&lines, 0), (1, 1));
    assert_eq!(byte_to_line_col(&lines, 1), (1, 2));
    assert_eq!(byte_to_line_col(&lines, 3), (2, 1));
    assert_eq!(byte_to_line_col(&lines, 6), (3, 1));
    assert_eq!(byte_to_line_col(&lines, 8), (4, 2));
}

#[test]
fn render_one_label() {
    let code = "x = 1\ny = @\n";
    let d = Diagnostic {
        severity: Severity::Error,
        message: "unexpected character".to_string(),
        labels: vec![Label { span: Span { start: 10, end: 11 }, message: Some("here".to_string()) }],
    };
    let out = String::from_utf8(render_diagnostics(code, &[d])).unwrap();
    assert_eq!(
        out,
        "Error: unexpected character\n --> filename.wtr:2:5\n2 | y = @\n\n   |     ^ here\n"
    );
}

#[test]
fn render_empty_span_and_severity_names() {
    let code = "abc";
    let d = Diagnostic {
        severity: Severity::Note,
        message: "n".to_string(),
        labels: vec![Label { span: Span { start: 1, end: 1 }, message: None }],
    };
    let out = String::from_utf8(render_diagnostics(code, &[d])).unwrap();
    assert_eq!(out, "Note: n\n --> filename.wtr:1:2\n1 | abc\n   |  ^\n");
    assert_eq!(Severity::Warning.name(), "Warning");
    assert_ne!(LabelStyle::Primary, LabelStyle::Secondary);
}
