use pl0_check::error::{frame, ErrorRecorder, OffsetError, Severity};
use pl0_check::line_pos::LinePos;

#[test]
fn a_new_recorder_holds_nothing() {
    let errors = ErrorRecorder::new();
    assert!(errors.no_error());
    assert!(!errors.has_errors());
    assert!(errors.errors().is_empty());
    assert!(errors.warnings().is_empty());
    assert_eq!(errors.display_with("a.pl0", "begin end"), "");
}

#[test]
fn warnings_do_not_count_as_errors() {
    let mut errors = ErrorRecorder::new();
    errors.warning(3, "careful");
    assert!(errors.no_error());
    assert!(!errors.has_errors());
    assert_eq!(errors.warnings().len(), 1);
    assert_eq!(errors.warnings()[0].offset, 3);
    assert_eq!(errors.warnings()[0].msg, "careful");
    errors.error(1, "broken");
    assert!(!errors.no_error());
    assert!(errors.has_errors());
    assert_eq!(errors.errors().len(), 1);
    assert_eq!(errors.errors()[0].offset, 1);
    assert_eq!(errors.errors()[0].msg, "broken");
}

#[test]
fn hard_records_the_error_and_hands_the_message_back() {
    let mut errors = ErrorRecorder::new();
    let r: Result<u8, String> = errors.hard(7, "no way on");
    assert_eq!(r, Err("no way on".to_string()));
    assert_eq!(errors.errors().len(), 1);
    assert_eq!(errors.errors()[0].offset, 7);
    assert_eq!(errors.errors()[0].msg, "no way on");
    assert!(errors.warnings().is_empty());
}

#[test]
fn one_diagnostic_is_rendered_in_three_lines() {
    let index = LinePos::new("var a: integer;\nbegin x end\n");
    let e = OffsetError { offset: 22, msg: "undeclared identifier: x".to_string() };
    let text = OffsetError::display_with("Error", &index, "prog.pl0", &e);
    assert_eq!(
        text,
        "[prog.pl0:2:7] Error: undeclared identifier: x\n    begin x end\n          ^\n"
    );
}

#[test]
fn the_source_line_is_shown_without_trailing_white_space() {
    let index = LinePos::new("  ab \t \ncd");
    let e = OffsetError { offset: 2, msg: "m".to_string() };
    let text = OffsetError::display_with("Warning", &index, "f", &e);
    assert_eq!(text, "[f:1:3] Warning: m\n      ab\n      ^\n");
}

#[test]
fn a_diagnostic_behind_the_text_shows_an_empty_line() {
    let index = LinePos::new("begin");
    let e = OffsetError { offset: usize::MAX, msg: "missing end".to_string() };
    let text = OffsetError::display_with("Error", &index, "f", &e);
    assert_eq!(text, "[f:2:1] Error: missing end\n    \n    ^\n");
}

#[test]
fn line_and_column_are_written_in_decimal() {
    let mut source = String::new();
    for _ in 0..11 {
        source.push('\n');
    }
    for _ in 0..104 {
        source.push('x');
    }
    source.push('y');
    let index = LinePos::new(&source);
    let e = OffsetError { offset: 11 + 104, msg: "m".to_string() };
    let text = OffsetError::display_with("Error", &index, "f", &e);
    let mut expected = String::from("[f:12:105] Error: m\n    ");
    expected.push_str(&"x".repeat(104));
    expected.push_str("y\n    ");
    expected.push_str(&" ".repeat(104));
    expected.push_str("^\n");
    assert_eq!(text, expected);
}

#[test]
fn the_report_is_sorted_by_offset() {
    let mut errors = ErrorRecorder::new();
    errors.error(4, "second");
    errors.error(0, "first");
    errors.warning(2, "between");
    let text = errors.display_with("f", "ab cd ef");
    assert_eq!(
        text,
        "[f:1:1] Error: first\n    ab cd ef\n    ^\n\
         [f:1:3] Warning: between\n    ab cd ef\n      ^\n\
         [f:1:5] Error: second\n    ab cd ef\n        ^\n"
    );
}

#[test]
fn diagnostics_at_one_offset_keep_their_order_errors_first() {
    let mut errors = ErrorRecorder::new();
    errors.warning(1, "w1");
    errors.error(1, "e1");
    errors.warning(1, "w2");
    errors.error(1, "e2");
    errors.error(0, "e0");
    let text = errors.display_with("f", "xy");
    assert_eq!(
        text,
        "[f:1:1] Error: e0\n    xy\n    ^\n\
         [f:1:2] Error: e1\n    xy\n     ^\n\
         [f:1:2] Error: e2\n    xy\n     ^\n\
         [f:1:2] Warning: w1\n    xy\n     ^\n\
         [f:1:2] Warning: w2\n    xy\n     ^\n"
    );
}

#[test]
fn the_report_addresses_the_normalized_source() {
    let mut errors = ErrorRecorder::new();
    errors.error(2, "at the end");
    errors.error(3, "behind the end");
    let text = errors.display_with("f", "ab");
    assert_eq!(
        text,
        "[f:1:3] Error: at the end\n    ab\n      ^\n\
         [f:2:1] Error: behind the end\n    \n    ^\n"
    );
}

#[test]
fn frame_puts_the_caret_under_the_column() {
    assert_eq!(frame("Error", "f", 1, 1, "m", "ab"), "[f:1:1] Error: m\n    ab\n    ^\n");
    assert_eq!(frame("Warning", "g.p", 12, 3, "x y", "ab "), "[g.p:12:3] Warning: x y\n    ab \n      ^\n");
    assert_eq!(frame("", "", 0, 0, "", ""), "[:0:0] : \n    \n    ^\n");
}

#[test]
fn severities_have_their_names() {
    assert_eq!(Severity::Error.name(), "Error");
    assert_eq!(Severity::Warning.name(), "Warning");
}
