use pl0_check::line_pos::LinePos;

#[test]
fn line_col_counts_lines_and_columns_from_one() {
    let index = LinePos::new("ab\ncd");
    assert_eq!(index.line_col(0), (1, 1));
    assert_eq!(index.line_col(1), (1, 2));
    assert_eq!(index.line_col(2), (1, 3));
    assert_eq!(index.line_col(3), (2, 1));
    assert_eq!(index.line_col(4), (2, 2));
}

#[test]
fn line_col_at_a_line_start_is_column_one_of_that_line() {
    let index = LinePos::new("a\n\nbc\n");
    assert_eq!(index.line_col(2), (2, 1));
    assert_eq!(index.line_col(3), (3, 1));
}

#[test]
fn line_col_at_the_end_of_the_text_is_the_last_line_column_one() {
    let index = LinePos::new("ab\ncd\n");
    assert_eq!(index.line_col(6), (3, 1));
    let unterminated = LinePos::new("ab\ncd");
    assert_eq!(unterminated.line_col(5), (2, 3));
    assert_eq!(unterminated.line_col(6), (3, 1));
}

#[test]
fn line_col_beyond_the_text_is_clamped() {
    let index = LinePos::new("ab\ncd\n");
    assert_eq!(index.line_col(7), (3, 1));
    assert_eq!(index.line_col(1000), (3, 1));
    assert_eq!(index.line_col(usize::MAX), (3, 1));
}

#[test]
fn line_col_of_the_empty_text() {
    let index = LinePos::new("");
    assert_eq!(index.line_col(0), (1, 1));
    assert_eq!(index.line_col(1), (2, 1));
    assert_eq!(index.line_col(2), (2, 1));
}

#[test]
fn line_never_decreases_with_the_offset() {
    let text = "var a: integer;\n\nbegin\n  a\nend";
    let index = LinePos::new(text);
    let mut last = 0;
    for offset in 0..(text.chars().count() + 5) {
        let (line, col) = index.line_col(offset);
        assert!(line >= last);
        assert!(col >= 1);
        last = line;
    }
    assert_eq!(last, 6);
}

#[test]
fn every_offset_of_a_line_is_reported_on_that_line() {
    let index = LinePos::new("one\ntwo\nthree\n");
    for offset in 0..4 {
        assert_eq!(index.line_col(offset), (1, offset + 1));
    }
    for offset in 4..8 {
        assert_eq!(index.line_col(offset), (2, offset - 3));
    }
    for offset in 8..14 {
        assert_eq!(index.line_col(offset), (3, offset - 7));
    }
}

#[test]
fn line_col_counts_characters_not_bytes() {
    let index = LinePos::new("\u{e9}\u{e9}\nx");
    assert_eq!(index.line_col(1), (1, 2));
    assert_eq!(index.line_col(3), (2, 1));
}

#[test]
fn get_line_hands_back_the_line_with_its_newline() {
    let index = LinePos::new("ab\ncd");
    assert_eq!(index.get_line(1), Some("ab\n".to_string()));
    assert_eq!(index.get_line(2), Some("cd\n".to_string()));
}

#[test]
fn get_line_has_no_line_zero_and_none_behind_the_last() {
    let index = LinePos::new("ab\ncd");
    assert_eq!(index.get_line(0), None);
    assert_eq!(index.get_line(3), None);
    assert_eq!(index.get_line(usize::MAX), None);
    let empty = LinePos::new("");
    assert_eq!(empty.get_line(1), Some("\n".to_string()));
    assert_eq!(empty.get_line(2), None);
}

#[test]
fn a_cloned_index_answers_alike() {
    let index = LinePos::new("ab\ncd");
    let copy = index.clone();
    assert_eq!(copy.line_col(4), index.line_col(4));
    assert_eq!(copy.get_line(2), index.get_line(2));
}
