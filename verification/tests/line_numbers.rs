use aiken_lsp::span::{LineColumn, LineNumbers, Span, span_to_lsp_range};

#[test]
fn basic_line_and_column() {
    let lines = LineNumbers::new("foo\nbar\n");
    assert_eq!(lines.line_and_column_number(0), Some(LineColumn { line: 1, column: 1 }));
    assert_eq!(lines.line_and_column_number(2), Some(LineColumn { line: 1, column: 3 }));
    assert_eq!(lines.line_and_column_number(4), Some(LineColumn { line: 2, column: 1 }));
}

#[test]
fn out_of_range_byte_index_in_empty_text() {
    let lines = LineNumbers::new("");
    assert_eq!(lines.line_and_column_number(42), None);
    assert_eq!(lines.line_and_column_number(0), None);
}

#[test]
fn unicode_columns_count_bytes() {
    let lines = LineNumbers::new("💩\nfoo\n");
    assert_eq!(lines.line_and_column_number(0), Some(LineColumn { line: 1, column: 1 }));
    assert_eq!(lines.line_and_column_number(2), Some(LineColumn { line: 1, column: 3 }));
    assert_eq!(lines.line_and_column_number(5), Some(LineColumn { line: 2, column: 1 }));
}

#[test]
fn single_line_text_has_no_answer_past_its_start() {
    let lines = LineNumbers::new("ab");
    assert_eq!(lines.line_and_column_number(0), Some(LineColumn { line: 1, column: 1 }));
    assert_eq!(lines.line_and_column_number(1), None);
}

#[test]
fn byte_index_inverts_line_and_column() {
    let lines = LineNumbers::new("foo\nbar\nbaz");
    assert_eq!(lines.byte_index(1, 2), 6);
    assert_eq!(lines.byte_index(2, 0), 8);
    assert_eq!(lines.byte_index(7, 0), 11);
}

#[test]
fn matches_the_compiler_line_table() {
    let texts = ["", "a", "foo\nbar\n", "x\n\ny\nzz", "💩\nfoo\n", "\n\n\n"];
    for t in texts {
        let ours = LineNumbers::new(t);
        let theirs = aiken_lang::line_numbers::LineNumbers::new(t);
        for b in 0..t.len() + 3 {
            let a = ours.line_and_column_number(b).map(|lc| (lc.line, lc.column));
            let c = theirs.line_and_column_number(b).map(|lc| (lc.line, lc.column));
            assert_eq!(a, c, "text {:?} byte {}", t, b);
        }
        for line in 0..5 {
            for ch in 0..4 {
                assert_eq!(ours.byte_index(line, ch), theirs.byte_index(line, ch));
            }
        }
    }
}

#[test]
fn range_of_a_span() {
    let lines = LineNumbers::new("let x = 1\nlet y = 2\n");
    let r = span_to_lsp_range(Span { start: 14, end: 15 }, &lines);
    assert_eq!((r.start.line, r.start.character, r.end.line, r.end.character), (1, 4, 1, 5));
}
