use span_lang::{BytePos, LineCol, LineIndex, Span, Spanned};

#[test]
fn merge_covers_exactly_the_extremes() {
    let a = Span::new(7, 3);
    let b = Span::new(20, 11);
    let m = a.merge(b);
    assert_eq!(m.start().to_u32(), 3);
    assert_eq!(m.end().to_u32(), 20);
    assert_eq!(Span::new(0, 2).merge(Span::new(20, 24)), Span::new(0, 24));
    assert_eq!(Span::empty(5).merge(Span::empty(5)), Span::empty(5));
}

#[test]
fn span_new_keeps_ordered_arguments() {
    let s = Span::new(2, 7);
    assert_eq!(s.start(), BytePos::new(2));
    assert_eq!(s.end(), BytePos::new(7));
    assert_eq!(Span::new(u32::MAX, 0).len(), u32::MAX);
}

#[test]
fn span_contains_nothing_when_empty() {
    assert!(!Span::empty(4).contains(BytePos::new(4)));
    assert!(Span::new(4, 8).contains(BytePos::new(7)));
}

#[test]
fn span_order_is_start_then_end() {
    assert!(Span::new(1, 9) < Span::new(2, 3));
    assert!(Span::new(2, 3) > Span::new(1, 9));
    assert!(Span::new(2, 3) <= Span::new(2, 3));
    assert_eq!(
        Span::new(2, 3).partial_cmp(&Span::new(2, 4)),
        Some(core::cmp::Ordering::Less)
    );
    let mut spans = vec![Span::new(5, 6), Span::new(0, 9), Span::new(0, 2)];
    spans.sort();
    assert_eq!(spans, vec![Span::new(0, 2), Span::new(0, 9), Span::new(5, 6)]);
}

#[test]
fn byte_pos_conversions_round_trip() {
    for x in [0u32, 1, 4096, u32::MAX] {
        assert_eq!(u32::from(BytePos::from(x)), x);
        assert_eq!(BytePos::new(x).to_usize(), x as usize);
    }
}

#[test]
fn decimal_rendering() {
    assert_eq!(BytePos::new(0).to_string(), "0");
    assert_eq!(BytePos::new(u32::MAX).to_string(), "4294967295");
    assert_eq!(LineCol::new(1, 1).to_string(), "1:1");
    assert_eq!(Span::empty(0).to_string(), "0..0");
    assert_eq!(Spanned::new(Span::new(9, 0), "").to_string(), " @ 0..9");
}

#[test]
fn line_col_order_is_line_then_column() {
    assert!(LineCol::new(3, 1) > LineCol::new(2, 99));
    assert!(LineCol::new(2, 5) >= LineCol::new(2, 5));
}

#[test]
fn spanned_map_and_as_ref_keep_the_span() {
    let s = Spanned::new(Span::new(2, 5), 10u32);
    let doubled = s.map(|v| v * 2);
    assert_eq!(doubled.value, 20);
    assert_eq!(doubled.span, Span::new(2, 5));
    let r = s.as_ref();
    assert_eq!(*r.value, 10);
    assert_eq!(r.span, s.span);
}

#[test]
fn column_counts_characters_of_every_width() {
    // 'é' is 2 bytes, '字' is 3, '😀' is 4.
    let src = "aé字😀b";
    let index = LineIndex::new(src);
    assert_eq!(index.line_col(BytePos::new(1)), LineCol::new(1, 2));
    assert_eq!(index.line_col(BytePos::new(3)), LineCol::new(1, 3));
    assert_eq!(index.line_col(BytePos::new(6)), LineCol::new(1, 4));
    assert_eq!(index.line_col(BytePos::new(10)), LineCol::new(1, 5));
    // Interior bytes of the 4-byte character round down to its start.
    for inner in 7..10 {
        assert_eq!(index.line_col(BytePos::new(inner)), LineCol::new(1, 4));
    }
    assert_eq!(index.offset(LineCol::new(1, 5)), Some(BytePos::new(10)));
    assert_eq!(index.offset(LineCol::new(1, 6)), Some(BytePos::new(11)));
    assert_eq!(index.offset(LineCol::new(1, 7)), None);
}

#[test]
fn round_trip_on_every_boundary() {
    let sources = ["", "\n", "\r\n\r\n", "a\rb\nc", "é\n字\r\n😀", "x\n\ny\n"];
    for src in sources {
        let index = LineIndex::new(src);
        for offset in 0..=src.len() {
            if src.is_char_boundary(offset) {
                let lc = index.line_col(BytePos::new(offset as u32));
                assert_eq!(index.offset(lc), Some(BytePos::new(offset as u32)));
            }
        }
    }
}

#[test]
fn offset_rejects_columns_past_the_end_of_a_line() {
    // Line 1 of "abc\ndef" is "abc": columns 1..=4 exist, column 4 being the
    // `\n`; column 5 is past the end of the line.
    let index = LineIndex::new("abc\ndef");
    assert_eq!(index.offset(LineCol::new(1, 4)), Some(BytePos::new(3)));
    assert_eq!(index.offset(LineCol::new(1, 5)), None);
    assert_eq!(index.offset(LineCol::new(2, 4)), Some(BytePos::new(7)));
    assert_eq!(index.offset(LineCol::new(2, 5)), None);
    let crlf = LineIndex::new("a\r\nb");
    assert_eq!(crlf.offset(LineCol::new(1, 3)), Some(BytePos::new(2)));
    assert_eq!(crlf.offset(LineCol::new(1, 4)), None);
}

#[test]
fn every_offset_resolves_back_to_its_coordinate() {
    let src = "é\n字\r\n😀x\n";
    let index = LineIndex::new(src);
    for line in 0..6u32 {
        for col in 0..8u32 {
            let lc = LineCol::new(line, col);
            match index.offset(lc) {
                Some(q) => assert_eq!(index.line_col(q), lc),
                None => {
                    for p in 0..=src.len() {
                        if src.is_char_boundary(p) {
                            assert_ne!(index.line_col(BytePos::new(p as u32)), lc);
                        }
                    }
                }
            }
        }
    }
}

#[test]
fn line_col_is_monotone() {
    let src = "ab\r\nπ\n\nz";
    let index = LineIndex::new(src);
    for p in 0..=src.len() as u32 + 2 {
        assert!(index.line_col(BytePos::new(p)) <= index.line_col(BytePos::new(p + 1)));
    }
}

#[test]
fn line_spans_tile_the_source_in_order() {
    let src = "one\r\n\ntwo\r\rthree\n";
    let index = LineIndex::new(src);
    let mut previous_end = 0u32;
    for line in 1..=index.line_count() as u32 {
        let span = index.line_span(line).expect("line in range");
        if line > 1 {
            assert!(span.start().to_u32() > previous_end);
        } else {
            assert_eq!(span.start().to_u32(), 0);
        }
        let text = &src[span.start().to_usize()..span.end().to_usize()];
        assert!(!text.contains('\n'));
        assert_eq!(Some(span.start()), index.offset(LineCol::new(line, 1)));
        previous_end = span.end().to_u32();
    }
    assert_eq!(previous_end as usize, src.len());
    assert_eq!(index.line_span(0), None);
    assert_eq!(index.line_span(index.line_count() as u32 + 1), None);
}

#[test]
fn line_span_trims_only_a_cr_before_lf() {
    let src = "a\r\nb\r";
    let index = LineIndex::new(src);
    assert_eq!(index.line_span(1), Some(Span::new(0, 1)));
    // A trailing lone `\r` is part of the text.
    assert_eq!(index.line_span(2), Some(Span::new(3, 5)));
}

#[test]
fn line_count_counts_newlines() {
    assert_eq!(LineIndex::new("a\r\nb\rc\n").line_count(), 3);
    assert_eq!(LineIndex::new("no newline").line_count(), 1);
}

#[test]
fn cloned_index_resolves_the_same() {
    let index = LineIndex::new("x\ny");
    let copy = index.clone();
    assert_eq!(copy.line_col(BytePos::new(2)), index.line_col(BytePos::new(2)));
    assert_eq!(copy.line_count(), 2);
}

#[test]
fn past_the_end_offsets_clamp() {
    let index = LineIndex::new("ab\nc");
    assert_eq!(index.line_col(BytePos::new(u32::MAX)), LineCol::new(2, 2));
}
