//! The line index: byte offset to line/column resolution, and back, over one
//! source.

use vstd::prelude::*;
use vstd::string::StringSliceAdditionalSpecFns;
use vstd::utf8::*;

use crate::line_col::LineCol;
use crate::lines::{
    char_floor, chars_between, is_lf, lead_count, lemma_boundary_after_newline, lemma_boundary_iff,
    lemma_char_floor, lemma_char_floor_monotone, lemma_chars_between, lemma_chars_grow,
    lemma_chars_strictly_grow, lemma_lead_count_step, lemma_line_begin, lemma_line_end_is_boundary,
    lemma_line_start_is_boundary, lemma_line_starts_upto, lemma_line_stop, lemma_newline_starts_line,
    lemma_newlines_monotone, lemma_scan_chars, lemma_starts_at_or_below, line_begin, line_end,
    line_starts, line_starts_upto, line_stop, newlines_before, scan_chars,
};
use crate::pos::lemma_byte_pos_eq;
use crate::pos::BytePos;
use crate::span::Span;

verus! {

/// `n + 1` as a `u32`, saturating at `u32::MAX`.
pub open spec fn sat_succ(n: int) -> u32 {
    if n + 1 >= u32::MAX {
        u32::MAX
    } else {
        (n + 1) as u32
    }
}

/// The coordinate of byte offset `pos` in the text `b`.
///
/// The offset is first clamped to the end of the text and rounded down to a
/// character boundary. The line is one more than the number of `\n` bytes
/// before that offset; the column is one more than the number of characters
/// between the start of its line and the offset. Both saturate at `u32::MAX`.
pub open spec fn resolve(b: Seq<u8>, pos: int) -> LineCol {
    let at = char_floor(b, if pos < b.len() { pos } else { b.len() as int });
    LineCol {
        line: sat_succ(newlines_before(b, at) as int),
        col: sat_succ(chars_between(b, line_begin(b, at), at).len() as int),
    }
}

/// Whether `r` is the byte offset of coordinate `lc` in the text `b`.
///
/// A coordinate with a zero line or column, or a line past the last, has no
/// offset. Otherwise the offset is the character boundary of that line, from
/// its start up to its `\n` (or the end of the text, on the last line), with
/// `col - 1` characters before it on the line; when there is no such
/// boundary, the column is past the end of the line and there is none.
pub open spec fn is_offset_of(b: Seq<u8>, lc: LineCol, r: Option<BytePos>) -> bool {
    let k = lc.line - 1;
    let n = lc.col - 1;
    if lc.line == 0 || lc.col == 0 || k >= line_starts(b).len() {
        r is None
    } else {
        let ls = line_starts(b)[k];
        let stop = line_stop(b, k);
        if n > chars_between(b, ls, stop).len() {
            r is None
        } else {
            &&& r is Some
            &&& ls <= r->0@ <= stop
            &&& is_char_boundary(b, r->0@ as int)
            &&& chars_between(b, ls, r->0@ as int).len() == n
        }
    }
}

/// The end of a line's text: `e` with a final `\n` removed, and then a `\r`
/// just before it removed too, never going below `s`.
pub open spec fn trim_terminator(b: Seq<u8>, s: int, e: int) -> int {
    if e > s && is_lf(b[e - 1]) {
        if e - 1 > s && b[e - 2] == 13u8 {
            e - 2
        } else {
            e - 1
        }
    } else {
        e
    }
}

/// The byte range of the text of 1-based line `line`, its terminator
/// excluded; `None` for line `0` or a line past the last.
pub open spec fn line_text(b: Seq<u8>, line: int) -> Option<(int, int)> {
    let k = line - 1;
    if line < 1 || k >= line_starts(b).len() {
        None
    } else {
        Some((line_starts(b)[k], trim_terminator(b, line_starts(b)[k], line_end(b, k))))
    }
}

/// An index over a single source string that maps byte offsets to
/// line/column coordinates and back.
///
/// A line begins at offset `0` and just after each `\n`, so `\r\n` is one
/// line break and a lone `\r` is an ordinary character. The index borrows
/// the source.
#[derive(Debug)]
pub struct LineIndex<'src> {
    src: &'src str,
    line_starts: Vec<u32>,
}

impl<'src> Clone for LineIndex<'src> {
    /// A second index over the same source.
    fn clone(&self) -> (c: Self)
        ensures
            c.bytes() == self.bytes(),
    {
        proof {
            use_type_invariant(self);
        }
        LineIndex { src: self.src, line_starts: self.line_starts.clone() }
    }
}

impl<'src> LineIndex<'src> {
    /// The bytes of the indexed source.
    pub closed spec fn bytes(&self) -> Seq<u8> {
        self.src.spec_bytes()
    }

    #[verifier::type_invariant]
    spec fn indexed(self) -> bool {
        let b = self.src.spec_bytes();
        &&& b.len() <= u32::MAX
        &&& self.line_starts@.len() == line_starts(b).len()
        &&& forall|k: int|
            0 <= k < self.line_starts@.len() ==> #[trigger] self.line_starts@[k] as int
                == line_starts(b)[k]
    }

    /// Builds an index over `src`, which is at most `u32::MAX` bytes long.
    pub fn new(src: &'src str) -> (idx: Self)
        requires
            src.spec_bytes().len() <= u32::MAX,
        ensures
            idx.bytes() == src.spec_bytes(),
    {
        let bytes = src.as_bytes();
        let len = bytes.len();
        let ghost b = src.spec_bytes();
        let mut line_starts: Vec<u32> = Vec::with_capacity(len / 24 + 1);
        line_starts.push(0);
        let mut i: usize = 0;
        while i < len
            invariant
                0 <= i <= len,
                len == b.len(),
                len <= u32::MAX,
                bytes@ == b,
                line_starts@.len() == line_starts_upto(b, i as int).len(),
                forall|k: int|
                    0 <= k < line_starts@.len() ==> #[trigger] line_starts@[k] as int
                        == line_starts_upto(b, i as int)[k],
            decreases len - i,
        {
            if bytes[i] == 10u8 {
                line_starts.push((i + 1) as u32);
            }
            i = i + 1;
        }
        LineIndex { src, line_starts }
    }

    /// The number of lines: one more than the number of `\n` bytes.
    pub fn line_count(&self) -> (n: usize)
        ensures
            n == 1 + newlines_before(self.bytes(), self.bytes().len() as int),
    {
        proof {
            use_type_invariant(self);
            lemma_line_starts_upto(self.bytes(), self.bytes().len() as int);
        }
        self.line_starts.len()
    }

    /// The number of line starts at or below `at`: a binary search.
    fn starts_at_or_below(&self, at: u32) -> (n: usize)
        requires
            at <= self.bytes().len(),
        ensures
            n == 1 + newlines_before(self.bytes(), at as int),
    {
        proof {
            use_type_invariant(self);
        }
        let ghost b = self.bytes();
        let ghost s = line_starts(b);
        proof {
            lemma_line_starts_upto(b, b.len() as int);
            lemma_starts_at_or_below(b, at as int);
        }
        let count = self.line_starts.len();
        let mut lo: usize = 0;
        let mut hi: usize = count;
        while lo < hi
            invariant
                0 <= lo <= hi <= count,
                count == s.len(),
                count == self.line_starts@.len(),
                forall|k: int| 0 <= k < count ==> #[trigger] self.line_starts@[k] as int == s[k],
                forall|i: int, j: int| 0 <= i < j < s.len() ==> s[i] < s[j],
                forall|k: int| 0 <= k < lo ==> #[trigger] s[k] <= at,
                forall|k: int| hi <= k < count ==> #[trigger] s[k] > at,
            decreases hi - lo,
        {
            let mid = lo + (hi - lo) / 2;
            if self.line_starts[mid] <= at {
                proof {
                    assert forall|k: int| 0 <= k < mid + 1 implies #[trigger] s[k] <= at by {
                        if k < mid {
                            assert(s[k] < s[mid as int]);
                        }
                    }
                }
                lo = mid + 1;
            } else {
                proof {
                    assert forall|k: int| mid <= k < count implies #[trigger] s[k] > at by {
                        if k > mid {
                            assert(s[mid as int] < s[k]);
                        }
                    }
                }
                hi = mid;
            }
        }
        proof {
            let c = newlines_before(b, at as int) as int;
            if lo < c + 1 {
                assert(s[lo as int] <= at);
            }
            if lo > c + 1 {
                assert(s[lo - 1] <= at);
            }
        }
        lo
    }

    /// Resolves a byte offset to its 1-based line and column.
    ///
    /// Resolution is total: an offset past the end of the source is treated
    /// as the end, and an offset inside a multi-byte character is rounded
    /// down to the start of that character. The column counts characters.
    pub fn line_col(&self, pos: BytePos) -> (lc: LineCol)
        ensures
            lc == resolve(self.bytes(), pos@ as int),
    {
        proof {
            use_type_invariant(self);
        }
        let ghost b = self.bytes();
        proof {
            encode_utf8_valid_utf8(self.src@);
        }
        let len = self.src.len();
        let mut at = pos.to_usize();
        if at > len {
            at = len;
        }
        let ghost m = at as int;
        while at > 0 && !self.src.is_char_boundary(at)
            invariant
                0 <= at <= len,
                len == b.len(),
                b == self.src.spec_bytes(),
                valid_utf8(b),
                char_floor(b, m) == char_floor(b, at as int),
            decreases at,
        {
            at = at - 1;
        }
        proof {
            lemma_char_floor(b, at as int);
            lemma_starts_at_or_below(b, at as int);
            lemma_line_starts_upto(b, b.len() as int);
        }
        let line_idx = self.starts_at_or_below(at as u32) - 1;
        let line_start = self.line_starts[line_idx] as usize;
        proof {
            lemma_line_start_is_boundary(b, line_idx as int);
            lemma_chars_between(b, line_start as int, at as int);
        }
        let bytes = self.src.as_bytes();
        let mut i = line_start;
        let mut col: usize = 0;
        while i < at
            invariant
                line_start <= i <= at <= len,
                len == b.len(),
                bytes@ == b,
                col == lead_count(b.subrange(line_start as int, i as int)),
                col <= i - line_start,
            decreases at - i,
        {
            proof {
                lemma_lead_count_step(b, line_start as int, i as int);
            }
            let x = bytes[i];
            if !(0x80u8 <= x && x <= 0xbfu8) {
                col = col + 1;
            }
            i = i + 1;
        }
        let line = (line_idx as u32).saturating_add(1);
        let col = (col as u32).saturating_add(1);
        LineCol::new(line, col)
    }

    /// Resolves a 1-based coordinate back to a byte offset, or `None` when it
    /// does not exist in the source: a zero line or column, a line past the
    /// last, or a column past the end of its line. The last column of a line
    /// that ends in `\n` is the offset of that `\n`.
    pub fn offset(&self, line_col: LineCol) -> (r: Option<BytePos>)
        ensures
            is_offset_of(self.bytes(), line_col, r),
    {
        proof {
            use_type_invariant(self);
        }
        let ghost b = self.bytes();
        proof {
            encode_utf8_valid_utf8(self.src@);
            lemma_line_starts_upto(b, b.len() as int);
        }
        if line_col.line == 0 || line_col.col == 0 {
            return None;
        }
        let line_idx = (line_col.line - 1) as usize;
        let n = (line_col.col - 1) as usize;
        if line_idx >= self.line_starts.len() {
            return None;
        }
        let len = self.src.len();
        let ls = self.line_starts[line_idx] as usize;
        let le = if line_idx + 1 < self.line_starts.len() {
            self.line_starts[line_idx + 1] as usize - 1
        } else {
            len
        };
        proof {
            lemma_line_start_is_boundary(b, line_idx as int);
            lemma_line_stop(b, line_idx as int);
            assert(le as int == line_stop(b, line_idx as int));
        }
        let bytes = self.src.as_bytes();
        let mut i = ls;
        let mut remaining = n;
        while remaining > 0
            invariant
                ls <= i <= le <= len,
                len == b.len(),
                len <= u32::MAX,
                bytes@ == b,
                valid_utf8(b),
                is_char_boundary(b, ls as int),
                is_char_boundary(b, le as int),
                is_char_boundary(b, i as int),
                lead_count(b.subrange(ls as int, i as int)) + remaining == n,
                b == self.bytes(),
                line_col.line >= 1,
                line_col.col >= 1,
                n == line_col.col - 1,
                line_idx == line_col.line - 1,
                line_idx < line_starts(b).len(),
                ls as int == line_starts(b)[line_idx as int],
                le as int == line_stop(b, line_idx as int),
            decreases remaining,
        {
            if i >= le {
                proof {
                    lemma_chars_between(b, ls as int, le as int);
                }
                return None;
            }
            proof {
                lemma_boundary_iff(b, i as int);
                lemma_lead_count_step(b, ls as int, i as int);
            }
            i = i + 1;
            while i < le && 0x80u8 <= bytes[i] && bytes[i] <= 0xbfu8
                invariant
                    ls < i <= le <= len,
                    len == b.len(),
                    bytes@ == b,
                    lead_count(b.subrange(ls as int, i as int)) + remaining == n + 1,
                decreases le - i,
            {
                proof {
                    lemma_lead_count_step(b, ls as int, i as int);
                }
                i = i + 1;
            }
            proof {
                lemma_boundary_iff(b, i as int);
            }
            remaining = remaining - 1;
        }
        proof {
            lemma_chars_between(b, ls as int, i as int);
            lemma_chars_grow(b, ls as int, i as int, le as int);
        }
        Some(BytePos::new(i as u32))
    }

    /// The byte span of the text of a 1-based line, excluding its `\n` (and a
    /// `\r` just before it); `None` for line `0` or a line past the last.
    pub fn line_span(&self, line: u32) -> (r: Option<Span>)
        ensures
            match line_text(self.bytes(), line as int) {
                None => r is None,
                Some(t) => r matches Some(s) && s@.0 == t.0 && s@.1 == t.1,
            },
    {
        proof {
            use_type_invariant(self);
        }
        let ghost b = self.bytes();
        proof {
            lemma_line_starts_upto(b, b.len() as int);
        }
        if line == 0 {
            return None;
        }
        let line_idx = (line - 1) as usize;
        if line_idx >= self.line_starts.len() {
            return None;
        }
        let len = self.src.len();
        let start = self.line_starts[line_idx] as usize;
        let mut end = if line_idx + 1 < self.line_starts.len() {
            self.line_starts[line_idx + 1] as usize
        } else {
            len
        };
        proof {
            encode_utf8_valid_utf8(self.src@);
            lemma_line_end_is_boundary(b, line_idx as int);
        }
        let bytes = self.src.as_bytes();
        if end > start && bytes[end - 1] == 10u8 {
            end = end - 1;
            if end > start && bytes[end - 1] == 13u8 {
                end = end - 1;
            }
        }
        Some(Span::new(start as u32, end as u32))
    }
}

// ---------------------------------------------------------------------------
// Laws.

/// Where `p` lies between the start of line `k` and the last offset of that
/// line, it is on line `k`: `k` newlines come before it, and its line begins
/// at the start of line `k`.
proof fn lemma_on_line(b: Seq<u8>, p: int, k: int)
    requires
        valid_utf8(b),
        0 <= k < line_starts(b).len(),
        line_starts(b)[k] <= p <= line_stop(b, k),
    ensures
        newlines_before(b, p) == k,
        line_begin(b, p) == line_starts(b)[k],
{
    lemma_line_stop(b, k);
    lemma_line_start_is_boundary(b, k);
    lemma_starts_at_or_below(b, p);
    let c = newlines_before(b, p) as int;
    let s = line_starts(b);
    if k > c {
        assert(s[k] > p);
    }
    if c > k {
        assert(s[k + 1] <= p);
    }
}

/// Round trip: resolving a character boundary `pos` to a coordinate, and
/// that coordinate back to an offset, gives `pos` again, wherever the
/// coordinate has not saturated at `u32::MAX` (which needs a source of about
/// 4 GiB).
pub proof fn lemma_offset_of_line_col(src: &str, pos: int)
    requires
        0 <= pos <= src.spec_bytes().len(),
        is_char_boundary(src.spec_bytes(), pos),
        resolve(src.spec_bytes(), pos).line < u32::MAX,
        resolve(src.spec_bytes(), pos).col < u32::MAX,
    ensures
        forall|r: Option<BytePos>|
            is_offset_of(src.spec_bytes(), resolve(src.spec_bytes(), pos), r) ==> (r matches Some(
                p,
            ) && p@ == pos),
{
    let b = src.spec_bytes();
    encode_utf8_valid_utf8(src@);
    lemma_line_starts_upto(b, b.len() as int);
    lemma_char_floor(b, pos);
    assert(char_floor(b, pos) == pos);
    lemma_starts_at_or_below(b, pos);
    let s = line_starts(b);
    let k = newlines_before(b, pos) as int;
    let ls = s[k];
    let stop = line_stop(b, k);
    lemma_line_start_is_boundary(b, k);
    lemma_line_stop(b, k);
    assert(pos <= stop);
    lemma_chars_between(b, ls, pos);
    lemma_chars_grow(b, ls, pos, stop);
    let lc = resolve(b, pos);
    assert(lc.line - 1 == k);
    assert(lc.col - 1 == chars_between(b, ls, pos).len());
    assert forall|r: Option<BytePos>| is_offset_of(b, lc, r) implies (r matches Some(p) && p@
        == pos) by {
        let p = r->0@ as int;
        if p < pos {
            lemma_chars_strictly_grow(b, ls, p, pos);
        } else if p > pos {
            lemma_chars_strictly_grow(b, ls, pos, p);
        }
    }
}

/// Every offset that `offset` gives resolves back to the coordinate it was
/// asked for.
pub proof fn lemma_line_col_of_offset(src: &str, lc: LineCol, q: BytePos)
    requires
        is_offset_of(src.spec_bytes(), lc, Some(q)),
    ensures
        resolve(src.spec_bytes(), q@ as int) == lc,
{
    let b = src.spec_bytes();
    encode_utf8_valid_utf8(src@);
    let k = lc.line - 1;
    let p = q@ as int;
    lemma_line_stop(b, k);
    lemma_on_line(b, p, k);
    lemma_char_floor(b, p);
    assert(char_floor(b, p) == p);
}

/// A coordinate has at most one offset: the contract of `offset` fixes its
/// result.
pub proof fn lemma_offset_unique(src: &str, lc: LineCol, r1: Option<BytePos>, r2: Option<BytePos>)
    requires
        is_offset_of(src.spec_bytes(), lc, r1),
        is_offset_of(src.spec_bytes(), lc, r2),
    ensures
        r1 == r2,
{
    let b = src.spec_bytes();
    encode_utf8_valid_utf8(src@);
    if r1 is Some && r2 is Some {
        let k = lc.line - 1;
        let ls = line_starts(b)[k];
        lemma_line_start_is_boundary(b, k);
        let p1 = r1->0@ as int;
        let p2 = r2->0@ as int;
        if p1 < p2 {
            lemma_chars_strictly_grow(b, ls, p1, p2);
        } else if p2 < p1 {
            lemma_chars_strictly_grow(b, ls, p2, p1);
        }
        lemma_byte_pos_eq(r1->0, r2->0);
    }
}

/// Resolution is total and depends only on where the offset lands: an offset
/// past the end resolves as the end, and an offset inside a character
/// resolves as the start of that character.
pub proof fn lemma_resolve_clamps_and_floors(src: &str, pos: int)
    ensures
        pos >= src.spec_bytes().len() ==> resolve(src.spec_bytes(), pos) == resolve(
            src.spec_bytes(),
            src.spec_bytes().len() as int,
        ),
        0 <= pos <= src.spec_bytes().len() ==> resolve(src.spec_bytes(), pos) == resolve(
            src.spec_bytes(),
            char_floor(src.spec_bytes(), pos),
        ),
        0 <= pos <= src.spec_bytes().len() ==> is_char_boundary(
            src.spec_bytes(),
            char_floor(src.spec_bytes(), pos),
        ),
        0 <= pos <= src.spec_bytes().len() ==> char_floor(src.spec_bytes(), pos) <= pos,
{
    let b = src.spec_bytes();
    encode_utf8_valid_utf8(src@);
    if 0 <= pos <= b.len() {
        lemma_char_floor(b, pos);
        let f = char_floor(b, pos);
        assert(char_floor(b, f) == f);
    }
}

/// Each line's text starts at the offset of its first column.
pub proof fn lemma_line_text_starts_at_column_one(src: &str, line: u32)
    requires
        1 <= line <= line_starts(src.spec_bytes()).len(),
    ensures
        line_text(src.spec_bytes(), line as int) is Some,
        forall|r: Option<BytePos>|
            is_offset_of(src.spec_bytes(), LineCol { line, col: 1 }, r) ==> (r matches Some(p)
                && p@ == line_text(src.spec_bytes(), line as int).unwrap().0),
{
    let b = src.spec_bytes();
    encode_utf8_valid_utf8(src@);
    let k = line - 1;
    let ls = line_starts(b)[k];
    lemma_line_start_is_boundary(b, k);
    lemma_line_end_is_boundary(b, k);
    lemma_chars_between(b, ls, ls);
    assert(b.subrange(ls, ls).len() == 0);
    assert forall|r: Option<BytePos>| is_offset_of(b, LineCol { line, col: 1 }, r) implies (r matches Some(
        p,
    ) && p@ == ls) by {
        let p = r->0@ as int;
        if p > ls {
            lemma_chars_strictly_grow(b, ls, ls, p);
        }
    }
}

/// A line's text never holds a `\n`.
pub proof fn lemma_line_text_has_no_newline(src: &str, line: int, i: int)
    requires
        line_text(src.spec_bytes(), line) is Some,
        line_text(src.spec_bytes(), line).unwrap().0 <= i < line_text(src.spec_bytes(), line).unwrap().1,
    ensures
        !is_lf(src.spec_bytes()[i]),
{
    let b = src.spec_bytes();
    let s = line_starts(b);
    let k = line - 1;
    lemma_line_starts_upto(b, b.len() as int);
    assert(s[k] <= i);
    if k + 1 < s.len() {
        assert(s[k] < s[k + 1]);
        assert(is_lf(b[s[k + 1] - 1]));
    }
    assert(i < b.len());
    if is_lf(b[i]) {
        lemma_newline_starts_line(b, i);
        let j = choose|j: int| 0 <= j < s.len() && #[trigger] s[j] == i + 1;
        if j <= k {
            if j < k {
                assert(s[j] < s[k]);
            }
        } else {
            assert(s[k + 1] <= s[j]);
        }
    }
}

/// The line texts tile the source in order: each starts and ends on a
/// character boundary, the first starts at `0`, each ends strictly before
/// the next begins, and the last ends at the end of the source.
pub proof fn lemma_line_texts_tile(src: &str, line: int)
    requires
        1 <= line <= line_starts(src.spec_bytes()).len(),
    ensures
        line_text(src.spec_bytes(), line) is Some,
        ({
            let b = src.spec_bytes();
            let t = line_text(b, line).unwrap();
            &&& 0 <= t.0 <= t.1 <= b.len()
            &&& is_char_boundary(b, t.0)
            &&& is_char_boundary(b, t.1)
            &&& line == 1 ==> t.0 == 0
            &&& line < line_starts(b).len() ==> line_text(b, line + 1) is Some && t.1
                < line_text(b, line + 1).unwrap().0
            &&& line == line_starts(b).len() ==> t.1 == b.len()
        }),
{
    let b = src.spec_bytes();
    encode_utf8_valid_utf8(src@);
    let s = line_starts(b);
    let k = line - 1;
    lemma_line_starts_upto(b, b.len() as int);
    lemma_line_start_is_boundary(b, k);
    lemma_line_end_is_boundary(b, k);
    lemma_line_stop(b, k);
    let le = line_end(b, k);
    if k + 1 < s.len() {
        lemma_boundary_iff(b, le - 1);
        if le - 2 >= s[k] {
            lemma_boundary_iff(b, le - 2);
        }
    } else {
        if b.len() > s[k] && is_lf(b[b.len() - 1]) {
            lemma_newline_starts_line(b, b.len() - 1);
            let j = choose|j: int| 0 <= j < s.len() && #[trigger] s[j] == b.len();
            if j < k {
                assert(s[j] < s[k]);
            }
        }
    }
}

/// Resolution is monotone: a later offset never resolves to an earlier
/// coordinate (line first, then column), wherever the later coordinate's line
/// has not saturated at `u32::MAX`.
pub proof fn lemma_resolve_monotone(src: &str, p: int, q: int)
    requires
        0 <= p <= q,
        resolve(src.spec_bytes(), q).line < u32::MAX,
    ensures
        ({
            let a = resolve(src.spec_bytes(), p);
            let c = resolve(src.spec_bytes(), q);
            a.line < c.line || (a.line == c.line && a.col <= c.col)
        }),
{
    let b = src.spec_bytes();
    encode_utf8_valid_utf8(src@);
    let mp = if p < b.len() { p } else { b.len() as int };
    let mq = if q < b.len() { q } else { b.len() as int };
    lemma_char_floor(b, mp);
    lemma_char_floor(b, mq);
    lemma_char_floor_monotone(b, mp, mq);
    let ap = char_floor(b, mp);
    let aq = char_floor(b, mq);
    lemma_newlines_monotone(b, ap, aq);
    if newlines_before(b, ap) == newlines_before(b, aq) {
        let lb = line_begin(b, ap);
        lemma_line_begin(b, ap);
        if lb > 0 {
            lemma_boundary_after_newline(b, lb);
        } else {
            is_char_boundary_start_end_of_seq(b);
        }
        lemma_chars_grow(b, lb, ap, aq);
    }
}

/// Resolution agrees with reading the source character by character from
/// the start up to the resolved offset: the line counts the `\n` characters
/// read, plus one, and the column counts the characters read since the last
/// `\n`, plus one (both saturating at `u32::MAX`).
pub proof fn lemma_resolve_reads_characters(src: &str, pos: int)
    ensures
        ({
            let b = src.spec_bytes();
            let at = char_floor(b, if pos < b.len() { pos } else { b.len() as int });
            let read = scan_chars(chars_between(b, 0, at));
            resolve(b, pos) == LineCol { line: sat_succ(read.0 as int), col: sat_succ(read.1 as int) }
        }),
{
    let b = src.spec_bytes();
    encode_utf8_valid_utf8(src@);
    let m = if pos < b.len() { pos } else { b.len() as int };
    if m < 0 {
        assert(char_floor(b, m) == 0);
        lemma_char_floor(b, 0);
        lemma_scan_chars(b, 0);
    } else {
        lemma_char_floor(b, m);
        lemma_scan_chars(b, char_floor(b, m));
    }
}

/// The text of a line leaves out exactly its terminator. On every line but
/// the last, whose `\n` is at offset `p`, the text runs from the line's
/// start to `p - 1` when the byte before `p` is a `\r` on the same line, and
/// to `p` otherwise; the last line's text runs to the end of the source.
pub proof fn lemma_line_text_excludes_terminator(src: &str, line: int)
    requires
        1 <= line <= line_starts(src.spec_bytes()).len(),
    ensures
        ({
            let b = src.spec_bytes();
            let k = line - 1;
            let t = line_text(b, line).unwrap();
            &&& line_text(b, line) is Some
            &&& t.0 == line_starts(b)[k]
            &&& k + 1 < line_starts(b).len() ==> {
                let p = line_starts(b)[k + 1] - 1;
                &&& t.0 <= p < b.len()
                &&& is_lf(b[p])
                &&& t.1 == if p > t.0 && b[p - 1] == 13u8 {
                    p - 1
                } else {
                    p
                }
            }
            &&& k + 1 == line_starts(b).len() ==> t.1 == b.len()
        }),
{
    let b = src.spec_bytes();
    encode_utf8_valid_utf8(src@);
    lemma_line_stop(b, line - 1);
    lemma_line_texts_tile(src, line);
}

} // verus!

