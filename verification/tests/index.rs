use span_lang::{BytePos, LineCol, LineIndex, Span};

/// A naive resolver: a full character scan, no index.
fn naive_line_col(src: &str, offset: usize) -> LineCol {
    let mut at = offset.min(src.len());
    while at > 0 && !src.is_char_boundary(at) {
        at -= 1;
    }
    let mut line = 1u32;
    let mut col = 1u32;
    for (i, ch) in src.char_indices() {
        if i >= at {
            break;
        }
        if ch == '\n' {
            line += 1;
            col = 1;
        } else {
            col += 1;
        }
    }
    LineCol::new(line, col)
}

#[test]
fn test_line_col_matches_naive_on_mixed_source() {
    let src = "fn main() {\r\n    let π = 3;\n}\n";
    let index = LineIndex::new(src);
    for offset in 0..=src.len() {
        assert_eq!(
            index.line_col(BytePos::new(offset as u32)),
            naive_line_col(src, offset),
            "offset {offset}"
        );
    }
}

#[test]
fn test_round_trip_every_offset_on_mixed_source() {
    let src = "αβγ\r\nδ\nε😀ζ\n";
    let index = LineIndex::new(src);
    for offset in 0..=src.len() {
        if !src.is_char_boundary(offset) {
            continue;
        }
        let lc = index.line_col(BytePos::new(offset as u32));
        assert_eq!(
            index.offset(lc),
            Some(BytePos::new(offset as u32)),
            "offset {offset} via {lc:?}"
        );
    }
}

#[test]
fn test_empty_source_is_one_line() {
    let index = LineIndex::new("");
    assert_eq!(index.line_count(), 1);
    assert_eq!(index.line_col(BytePos::new(0)), LineCol::new(1, 1));
    assert_eq!(index.offset(LineCol::new(1, 1)), Some(BytePos::new(0)));
}

#[test]
fn test_crlf_counts_as_one_break() {
    let index = LineIndex::new("a\r\nb");
    assert_eq!(index.line_count(), 2);
    assert_eq!(index.line_col(BytePos::new(3)), LineCol::new(2, 1));
}

#[test]
fn test_no_trailing_newline_has_final_line() {
    let index = LineIndex::new("a\nb");
    assert_eq!(index.line_col(BytePos::new(2)), LineCol::new(2, 1));
    assert_eq!(index.offset(LineCol::new(2, 1)), Some(BytePos::new(2)));
}

#[test]
fn test_offset_rejects_positions_outside_source() {
    let index = LineIndex::new("abc\ndef");
    assert_eq!(index.offset(LineCol::new(0, 1)), None);
    assert_eq!(index.offset(LineCol::new(1, 0)), None);
    assert_eq!(index.offset(LineCol::new(3, 1)), None);
    assert_eq!(index.offset(LineCol::new(1, 99)), None);
}

#[test]
fn test_line_col_clamps_out_of_range_offset() {
    let src = "abc";
    let index = LineIndex::new(src);
    let end = index.line_col(BytePos::new(3));
    assert_eq!(index.line_col(BytePos::new(1000)), end);
}

#[test]
fn test_line_col_floors_interior_byte_to_char_start() {
    let src = "αβ";
    let index = LineIndex::new(src);
    assert_eq!(
        index.line_col(BytePos::new(1)),
        index.line_col(BytePos::new(0))
    );
}

#[test]
fn test_line_count_matches_newline_count_plus_one() {
    let src = String::from("a\nb\nc\n");
    let index = LineIndex::new(&src);
    assert_eq!(index.line_count(), 4);
}

#[test]
fn test_lone_cr_is_not_a_line_break() {
    let index = LineIndex::new("a\rb");
    assert_eq!(index.line_count(), 1);
    assert_eq!(index.line_col(BytePos::new(2)), LineCol::new(1, 3));
}

#[test]
fn test_consecutive_newlines_are_separate_empty_lines() {
    let index = LineIndex::new("\n\n\n");
    assert_eq!(index.line_count(), 4);
    assert_eq!(index.line_col(BytePos::new(1)), LineCol::new(2, 1));
    assert_eq!(index.line_col(BytePos::new(2)), LineCol::new(3, 1));
}

#[test]
fn test_only_newline_is_two_lines() {
    let index = LineIndex::new("\n");
    assert_eq!(index.line_count(), 2);
    assert_eq!(index.offset(LineCol::new(2, 1)), Some(BytePos::new(1)));
}

#[test]
fn test_line_span_excludes_lf_and_crlf_terminators() {
    let src = "first\r\nsecond\nthird";
    let index = LineIndex::new(src);
    let text = |span: Span| &src[span.start().to_usize()..span.end().to_usize()];
    assert_eq!(text(index.line_span(1).unwrap()), "first");
    assert_eq!(text(index.line_span(2).unwrap()), "second");
    assert_eq!(text(index.line_span(3).unwrap()), "third");
}

#[test]
fn test_line_span_of_trailing_empty_line_is_empty() {
    let src = "a\n";
    let index = LineIndex::new(src);
    let line2 = index.line_span(2).unwrap();
    assert!(line2.is_empty());
    assert_eq!(line2.start(), BytePos::new(2));
}

#[test]
fn test_line_span_rejects_out_of_range_lines() {
    let index = LineIndex::new("a\nb");
    assert_eq!(index.line_span(0), None);
    assert_eq!(index.line_span(3), None);
}

#[test]
fn test_line_span_start_matches_first_column_offset() {
    let src = "αβ\r\nγ\nδε\n";
    let index = LineIndex::new(src);
    for line in 1..=index.line_count() as u32 {
        let span = index.line_span(line).expect("line in range");
        assert_eq!(Some(span.start()), index.offset(LineCol::new(line, 1)));
        let text = &src[span.start().to_usize()..span.end().to_usize()];
        assert!(!text.contains('\n'));
    }
}
