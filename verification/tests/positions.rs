use span_lang::{BytePos, LineCol, Span, Spanned};

#[test]
fn test_line_col_orders_by_line_then_column() {
    assert!(LineCol::new(1, 9) < LineCol::new(2, 1));
    assert!(LineCol::new(2, 1) < LineCol::new(2, 2));
}

#[test]
fn test_line_col_display_uses_colon() {
    assert_eq!(LineCol::new(10, 3).to_string(), "10:3");
}

#[test]
fn test_byte_pos_round_trips_through_u32() {
    let p = BytePos::new(123);
    assert_eq!(u32::from(p), 123);
    assert_eq!(BytePos::from(123u32), p);
}

#[test]
fn test_byte_pos_default_is_zero() {
    assert_eq!(BytePos::default(), BytePos::new(0));
}

#[test]
fn test_byte_pos_ordering_matches_offset() {
    assert!(BytePos::new(3) < BytePos::new(4));
    assert!(BytePos::new(9) > BytePos::new(8));
}

#[test]
fn test_byte_pos_display_is_the_number() {
    assert_eq!(BytePos::new(256).to_string(), "256");
}

#[test]
fn test_span_new_orders_inverted_arguments() {
    assert_eq!(Span::new(9, 3), Span::new(3, 9));
    assert!(Span::new(9, 3).start().to_u32() <= Span::new(9, 3).end().to_u32());
}

#[test]
fn test_span_len_and_is_empty_at_boundaries() {
    assert_eq!(Span::empty(0).len(), 0);
    assert!(Span::empty(0).is_empty());
    assert_eq!(Span::new(0, 1).len(), 1);
    assert!(!Span::new(0, 1).is_empty());
}

#[test]
fn test_span_contains_is_half_open() {
    let s = Span::new(2, 5);
    assert!(!s.contains(BytePos::new(1)));
    assert!(s.contains(BytePos::new(2)));
    assert!(s.contains(BytePos::new(4)));
    assert!(!s.contains(BytePos::new(5)));
}

#[test]
fn test_span_merge_is_commutative_and_associative() {
    let a = Span::new(4, 10);
    let b = Span::new(8, 14);
    let c = Span::new(1, 3);
    assert_eq!(a.merge(b), b.merge(a));
    assert_eq!(a.merge(b).merge(c), a.merge(b.merge(c)));
    assert_eq!(a.merge(b).merge(c), Span::new(1, 14));
}

#[test]
fn test_span_orders_by_start_then_end() {
    assert!(Span::new(0, 5) < Span::new(1, 2));
    assert!(Span::new(0, 4) < Span::new(0, 5));
}

#[test]
fn test_span_display_uses_range_syntax() {
    assert_eq!(Span::new(3, 7).to_string(), "3..7");
}

#[test]
fn test_spanned_map_keeps_span() {
    let s = Spanned::new(Span::new(4, 9), "width");
    let mapped = s.map(str::len);
    assert_eq!(mapped.value, 5);
    assert_eq!(mapped.span, Span::new(4, 9));
}

#[test]
fn test_spanned_as_ref_does_not_consume() {
    let owned = Spanned::new(Span::new(0, 4), String::from("name"));
    let len = owned.as_ref().map(String::len);
    assert_eq!(len.value, 4);
    assert_eq!(owned.value, "name");
}

#[test]
fn test_spanned_orders_by_span_first() {
    let a = Spanned::new(Span::new(0, 1), 99u32);
    let b = Spanned::new(Span::new(1, 2), 0u32);
    assert!(a < b);
}

#[test]
fn test_spanned_display() {
    let s = Spanned::new(Span::new(2, 5), "tok");
    assert_eq!(s.to_string(), "tok @ 2..5");
}
