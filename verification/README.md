# span_lang

Source positions for language tooling, verified with Verus.

- `src/pos.rs` — `BytePos`, a 32-bit byte offset.
- `src/span.rs` — `Span`, a half-open byte range whose `start <= end` always
  holds, with `merge` proved commutative and associative.
- `src/line_col.rs` — `LineCol`, a 1-based line and character column.
- `src/spanned.rs` — `Spanned<T>`, a value paired with its span.
- `src/lines.rs` — the line structure of UTF-8 text stated over its bytes, and
  the lemmas about it.
- `src/index.rs` — `LineIndex`, mapping byte offsets to line/column
  coordinates and back, with the round-trip and line-text laws.
- `src/text.rs` — decimal rendering of coordinates.
- `app/lib.rs` — twins of the position types with `serde` and `Display`.
