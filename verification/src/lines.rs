//! The line structure of UTF-8 text, stated over its bytes: where lines start,
//! how many `\n` bytes precede an offset, character boundaries, and how many
//! characters a byte range holds.

use vstd::prelude::*;
use vstd::utf8::*;

verus! {

/// The byte of a line feed, `\n`.
pub open spec fn is_lf(x: u8) -> bool {
    x == 10u8
}

/// The number of `\n` bytes among the first `n` bytes of `b`.
pub open spec fn newlines_before(b: Seq<u8>, n: int) -> nat
    decreases n,
{
    if n <= 0 {
        0
    } else {
        newlines_before(b, n - 1) + if is_lf(b[n - 1]) {
            1nat
        } else {
            0nat
        }
    }
}

/// The offsets at which the lines of `b[..n]` begin: `0`, then the offset
/// just after each `\n`, in increasing order.
pub open spec fn line_starts_upto(b: Seq<u8>, n: int) -> Seq<int>
    decreases n,
{
    if n <= 0 {
        seq![0int]
    } else if is_lf(b[n - 1]) {
        line_starts_upto(b, n - 1).push(n)
    } else {
        line_starts_upto(b, n - 1)
    }
}

/// The offsets at which the lines of `b` begin.
pub open spec fn line_starts(b: Seq<u8>) -> Seq<int> {
    line_starts_upto(b, b.len() as int)
}

/// The start of the line that holds offset `at`: just after the last `\n`
/// before `at`, or `0` if there is none.
pub open spec fn line_begin(b: Seq<u8>, at: int) -> int
    decreases at,
{
    if at <= 0 {
        0
    } else if is_lf(b[at - 1]) {
        at
    } else {
        line_begin(b, at - 1)
    }
}

/// The end of line `k` (0-based), its terminator included: the start of the
/// next line, or the end of the text for the last line.
pub open spec fn line_end(b: Seq<u8>, k: int) -> int {
    if k + 1 < line_starts(b).len() {
        line_starts(b)[k + 1]
    } else {
        b.len() as int
    }
}

/// The last offset of line `k` (0-based) that a column can name: the offset
/// of its `\n`, or the end of the text for the last line.
pub open spec fn line_stop(b: Seq<u8>, k: int) -> int {
    if k + 1 < line_starts(b).len() {
        line_starts(b)[k + 1] - 1
    } else {
        b.len() as int
    }
}

/// The number of bytes of `s` that begin a UTF-8 sequence, i.e. that are not
/// continuation bytes.
pub open spec fn lead_count(s: Seq<u8>) -> nat
    decreases s.len(),
{
    if s.len() == 0 {
        0
    } else {
        lead_count(s.drop_last()) + if is_continuation_byte(s.last()) {
            0nat
        } else {
            1nat
        }
    }
}

/// The greatest character boundary of `b` at or below `m`.
pub open spec fn char_floor(b: Seq<u8>, m: int) -> int
    decreases m,
{
    if m <= 0 {
        0
    } else if is_char_boundary(b, m) {
        m
    } else {
        char_floor(b, m - 1)
    }
}

/// The characters of `b[i..j]`.
pub open spec fn chars_between(b: Seq<u8>, i: int, j: int) -> Seq<char> {
    decode_utf8(b.subrange(i, j))
}

// ---------------------------------------------------------------------------
// Line starts.

/// Basic facts about the line starts of a prefix.
pub proof fn lemma_line_starts_upto(b: Seq<u8>, n: int)
    requires
        0 <= n <= b.len(),
    ensures
        ({
            let s = line_starts_upto(b, n);
            &&& s.len() == 1 + newlines_before(b, n)
            &&& newlines_before(b, n) <= n
            &&& s[0] == 0
            &&& forall|i: int, j: int| 0 <= i < j < s.len() ==> s[i] < s[j]
            &&& forall|i: int| 0 <= i < s.len() ==> 0 <= #[trigger] s[i] <= n
            &&& forall|i: int| 1 <= i < s.len() ==> is_lf(b[#[trigger] s[i] - 1])
            &&& s.last() == line_begin(b, n)
        }),
    decreases n,
{
    if n > 0 {
        lemma_line_starts_upto(b, n - 1);
    }
}

/// The line starts of a shorter prefix are a prefix of those of a longer
/// one, and the extra starts lie beyond the shorter prefix.
pub proof fn lemma_line_starts_prefix(b: Seq<u8>, m: int, n: int)
    requires
        0 <= m <= n <= b.len(),
    ensures
        ({
            let sm = line_starts_upto(b, m);
            let sn = line_starts_upto(b, n);
            &&& sm.len() <= sn.len()
            &&& forall|k: int| 0 <= k < sm.len() ==> #[trigger] sn[k] == sm[k]
            &&& forall|k: int| sm.len() <= k < sn.len() ==> #[trigger] sn[k] > m
        }),
    decreases n - m,
{
    if n > m {
        lemma_line_starts_prefix(b, m, n - 1);
        let sp = line_starts_upto(b, n - 1);
        let sn = line_starts_upto(b, n);
        if is_lf(b[n - 1]) {
            assert(sn == sp.push(n));
        }
    }
}

/// Every `\n` byte is followed by a line start.
pub proof fn lemma_newline_starts_line(b: Seq<u8>, i: int)
    requires
        0 <= i < b.len(),
        is_lf(b[i]),
    ensures
        exists|k: int| 0 <= k < line_starts(b).len() && #[trigger] line_starts(b)[k] == i + 1,
{
    lemma_line_starts_prefix(b, i + 1, b.len() as int);
    let s = line_starts_upto(b, i + 1);
    assert(s == line_starts_upto(b, i).push(i + 1));
    let k = s.len() - 1;
    assert(line_starts(b)[k] == i + 1);
}

/// The line starts at or below `at` are exactly the first
/// `1 + newlines_before(b, at)` of them, and the last of those is
/// `line_begin(b, at)`.
pub proof fn lemma_starts_at_or_below(b: Seq<u8>, at: int)
    requires
        0 <= at <= b.len(),
    ensures
        ({
            let s = line_starts(b);
            let c = newlines_before(b, at) as int;
            &&& 0 <= c < s.len()
            &&& forall|k: int| 0 <= k <= c ==> #[trigger] s[k] <= at
            &&& forall|k: int| c < k < s.len() ==> #[trigger] s[k] > at
            &&& s[c] == line_begin(b, at)
        }),
{
    lemma_line_starts_upto(b, at);
    lemma_line_starts_prefix(b, at, b.len() as int);
    let sa = line_starts_upto(b, at);
    assert(sa[sa.len() - 1] == sa.last());
}

// ---------------------------------------------------------------------------
// Character boundaries.

/// A continuation byte is never the first byte, and never follows a
/// one-byte (ASCII) character.
pub proof fn lemma_continuation_follows_non_ascii(b: Seq<u8>, j: int)
    requires
        valid_utf8(b),
        0 <= j < b.len(),
        is_continuation_byte(b[j]),
    ensures
        j > 0,
        !is_leading_byte_width_1(b[j - 1]),
    decreases b.len(),
{
    let l = length_of_first_scalar(b);
    let rest = pop_first_scalar(b);
    if j >= l {
        assert(rest.len() == b.len() - l);
        assert(rest[j - l] == b[j]);
        if j == l {
            reveal_with_fuel(valid_utf8, 2);
            assert(valid_first_scalar(rest));
        } else {
            lemma_continuation_follows_non_ascii(rest, j - l);
            assert(rest[j - l - 1] == b[j - 1]);
        }
    }
}

/// Within valid UTF-8, an offset is a character boundary exactly when it is
/// the end of the text or does not hold a continuation byte.
pub proof fn lemma_boundary_iff(b: Seq<u8>, i: int)
    requires
        valid_utf8(b),
        0 <= i <= b.len(),
    ensures
        is_char_boundary(b, i) <==> (i == b.len() || !is_continuation_byte(b[i])),
{
    is_char_boundary_start_end_of_seq(b);
    if i < b.len() {
        is_char_boundary_iff_not_is_continuation_byte(b, i);
    }
}

/// The offset just after a `\n` is a character boundary.
pub proof fn lemma_boundary_after_newline(b: Seq<u8>, p: int)
    requires
        valid_utf8(b),
        0 < p <= b.len(),
        is_lf(b[p - 1]),
    ensures
        is_char_boundary(b, p),
{
    lemma_boundary_iff(b, p);
    if p < b.len() && is_continuation_byte(b[p]) {
        lemma_continuation_follows_non_ascii(b, p);
    }
}

/// Every line start is a character boundary.
pub proof fn lemma_line_start_is_boundary(b: Seq<u8>, k: int)
    requires
        valid_utf8(b),
        0 <= k < line_starts(b).len(),
    ensures
        is_char_boundary(b, line_starts(b)[k]),
        0 <= line_starts(b)[k] <= b.len(),
{
    lemma_line_starts_upto(b, b.len() as int);
    let s = line_starts(b);
    if k == 0 {
        is_char_boundary_start_end_of_seq(b);
    } else {
        assert(is_lf(b[s[k] - 1]));
        lemma_boundary_after_newline(b, s[k]);
    }
}

/// The end of every line is a character boundary, and lies between the
/// line's start and the end of the text.
pub proof fn lemma_line_end_is_boundary(b: Seq<u8>, k: int)
    requires
        valid_utf8(b),
        0 <= k < line_starts(b).len(),
    ensures
        is_char_boundary(b, line_end(b, k)),
        line_starts(b)[k] <= line_end(b, k) <= b.len(),
{
    lemma_line_starts_upto(b, b.len() as int);
    if k + 1 < line_starts(b).len() {
        lemma_line_start_is_boundary(b, k + 1);
    } else {
        is_char_boundary_start_end_of_seq(b);
    }
}

/// The last offset of a line is a character boundary between the line's
/// start and the next line's start.
pub proof fn lemma_line_stop(b: Seq<u8>, k: int)
    requires
        valid_utf8(b),
        0 <= k < line_starts(b).len(),
    ensures
        is_char_boundary(b, line_stop(b, k)),
        line_starts(b)[k] <= line_stop(b, k) <= line_end(b, k) <= b.len(),
        k + 1 < line_starts(b).len() ==> line_stop(b, k) + 1 == line_end(b, k) && is_lf(
            b[line_stop(b, k)],
        ),
        k + 1 == line_starts(b).len() ==> line_stop(b, k) == b.len(),
{
    lemma_line_starts_upto(b, b.len() as int);
    lemma_line_end_is_boundary(b, k);
    let s = line_starts(b);
    if k + 1 < s.len() {
        assert(s[k] < s[k + 1]);
        assert(is_lf(b[s[k + 1] - 1]));
        lemma_boundary_iff(b, s[k + 1] - 1);
    } else {
        is_char_boundary_start_end_of_seq(b);
    }
}

/// `char_floor(b, m)` is the greatest boundary at or below `m`.
pub proof fn lemma_char_floor(b: Seq<u8>, m: int)
    requires
        valid_utf8(b),
        0 <= m <= b.len(),
    ensures
        0 <= char_floor(b, m) <= m,
        is_char_boundary(b, char_floor(b, m)),
        forall|j: int| char_floor(b, m) < j <= m ==> !is_char_boundary(b, j),
    decreases m,
{
    if m > 0 && !is_char_boundary(b, m) {
        lemma_char_floor(b, m - 1);
    }
}

/// Rounding down to a character boundary keeps the order of offsets.
pub proof fn lemma_char_floor_monotone(b: Seq<u8>, m1: int, m2: int)
    requires
        valid_utf8(b),
        0 <= m1 <= m2 <= b.len(),
    ensures
        char_floor(b, m1) <= char_floor(b, m2),
{
    lemma_char_floor(b, m1);
    lemma_char_floor(b, m2);
}

/// Newline counts grow with the offset, and offsets with the same count
/// share the start of their line.
pub proof fn lemma_newlines_monotone(b: Seq<u8>, a: int, c: int)
    requires
        0 <= a <= c <= b.len(),
    ensures
        newlines_before(b, a) <= newlines_before(b, c),
        newlines_before(b, a) == newlines_before(b, c) ==> line_begin(b, a) == line_begin(b, c),
    decreases c - a,
{
    if a < c {
        lemma_newlines_monotone(b, a, c - 1);
        if is_lf(b[c - 1]) {
            assert(newlines_before(b, c) == newlines_before(b, c - 1) + 1);
        }
    }
}

// ---------------------------------------------------------------------------
// Counting characters.

/// Lead bytes of a concatenation add up.
pub proof fn lemma_lead_count_add(s: Seq<u8>, t: Seq<u8>)
    ensures
        lead_count(s + t) == lead_count(s) + lead_count(t),
    decreases t.len(),
{
    if t.len() == 0 {
        assert(s + t == s);
    } else {
        lemma_lead_count_add(s, t.drop_last());
        assert((s + t).drop_last() == s + t.drop_last());
        assert((s + t).last() == t.last());
    }
}

/// Lead bytes of adjacent ranges add up.
pub proof fn lemma_lead_count_split(b: Seq<u8>, i: int, j: int, k: int)
    requires
        0 <= i <= j <= k <= b.len(),
    ensures
        lead_count(b.subrange(i, k)) == lead_count(b.subrange(i, j)) + lead_count(
            b.subrange(j, k),
        ),
{
    assert(b.subrange(i, k) == b.subrange(i, j) + b.subrange(j, k));
    lemma_lead_count_add(b.subrange(i, j), b.subrange(j, k));
}

/// One more byte adds one lead byte exactly when it is not a continuation
/// byte.
pub proof fn lemma_lead_count_step(b: Seq<u8>, i: int, j: int)
    requires
        0 <= i <= j < b.len(),
    ensures
        lead_count(b.subrange(i, j + 1)) == lead_count(b.subrange(i, j)) + if is_continuation_byte(
            b[j],
        ) {
            0nat
        } else {
            1nat
        },
{
    assert(b.subrange(i, j + 1).drop_last() == b.subrange(i, j));
}

/// A lead byte followed only by continuation bytes counts once.
proof fn lemma_lead_count_one(t: Seq<u8>)
    requires
        t.len() >= 1,
        !is_continuation_byte(t[0]),
        forall|i: int| 1 <= i < t.len() ==> is_continuation_byte(#[trigger] t[i]),
    ensures
        lead_count(t) == 1,
    decreases t.len(),
{
    assert(t.last() == t[t.len() - 1]);
    if t.len() > 1 {
        assert(is_continuation_byte(t[t.len() - 1]));
        let u = t.drop_last();
        assert forall|i: int| 1 <= i < u.len() implies is_continuation_byte(#[trigger] u[i]) by {
            assert(u[i] == t[i]);
        }
        assert(u[0] == t[0]);
        lemma_lead_count_one(u);
        assert(lead_count(t) == lead_count(u) + 0);
    } else {
        assert(t.drop_last().len() == 0);
        assert(lead_count(t.drop_last()) == 0);
        assert(lead_count(t) == 0 + 1);
    }
}

/// In valid UTF-8 the number of characters is the number of lead bytes.
pub proof fn lemma_lead_count_decode(s: Seq<u8>)
    requires
        valid_utf8(s),
    ensures
        lead_count(s) == decode_utf8(s).len(),
    decreases s.len(),
{
    if s.len() > 0 {
        let l = length_of_first_scalar(s);
        let head = s.subrange(0, l);
        let rest = pop_first_scalar(s);
        assert(s == head + rest);
        lemma_lead_count_add(head, rest);
        lemma_lead_count_one(head);
        lemma_lead_count_decode(rest);
    }
}

/// Between two boundaries of valid UTF-8 lies valid UTF-8, whose characters
/// number its lead bytes.
pub proof fn lemma_chars_between(b: Seq<u8>, i: int, j: int)
    requires
        valid_utf8(b),
        0 <= i <= j <= b.len(),
        is_char_boundary(b, i),
        is_char_boundary(b, j),
    ensures
        valid_utf8(b.subrange(i, j)),
        chars_between(b, i, j).len() == lead_count(b.subrange(i, j)),
{
    valid_utf8_split(b, i);
    let t = b.subrange(i, b.len() as int);
    lemma_boundary_iff(b, j);
    lemma_boundary_iff(t, j - i);
    valid_utf8_split(t, j - i);
    assert(t.subrange(0, j - i) == b.subrange(i, j));
    lemma_lead_count_decode(b.subrange(i, j));
}

/// Counting characters from a fixed boundary strictly grows from one
/// boundary to a later one.
pub proof fn lemma_chars_strictly_grow(b: Seq<u8>, i: int, p: int, q: int)
    requires
        valid_utf8(b),
        0 <= i <= p < q <= b.len(),
        is_char_boundary(b, i),
        is_char_boundary(b, p),
        is_char_boundary(b, q),
    ensures
        chars_between(b, i, p).len() < chars_between(b, i, q).len(),
{
    lemma_chars_between(b, i, p);
    lemma_chars_between(b, i, q);
    lemma_lead_count_split(b, i, p, q);
    lemma_lead_count_split(b, p, p + 1, q);
    lemma_lead_count_step(b, p, p);
    lemma_boundary_iff(b, p);
    assert(b.subrange(p, p).len() == 0);
}

/// Counting characters from a fixed boundary never shrinks.
pub proof fn lemma_chars_grow(b: Seq<u8>, i: int, p: int, q: int)
    requires
        valid_utf8(b),
        0 <= i <= p <= q <= b.len(),
        is_char_boundary(b, i),
        is_char_boundary(b, p),
        is_char_boundary(b, q),
    ensures
        chars_between(b, i, p).len() <= chars_between(b, i, q).len(),
{
    if p < q {
        lemma_chars_strictly_grow(b, i, p, q);
    }
}

// ---------------------------------------------------------------------------
// Scanning characters one by one.

/// The 0-based line and column reached by reading the characters `c` from
/// the start: a `\n` moves to column 0 of the next line, any other
/// character moves one column right.
pub open spec fn scan_chars(c: Seq<char>) -> (nat, nat)
    decreases c.len(),
{
    if c.len() == 0 {
        (0, 0)
    } else {
        let p = scan_chars(c.drop_last());
        if c.last() == '\n' {
            (p.0 + 1, 0)
        } else {
            (p.0, p.1 + 1)
        }
    }
}

/// `line_begin(b, at)` is `0` or follows a `\n`, and is at most `at`.
pub proof fn lemma_line_begin(b: Seq<u8>, at: int)
    requires
        0 <= at <= b.len(),
    ensures
        0 <= line_begin(b, at) <= at,
        line_begin(b, at) == 0 || is_lf(b[line_begin(b, at) - 1]),
    decreases at,
{
    if at > 0 && !is_lf(b[at - 1]) {
        lemma_line_begin(b, at - 1);
    }
}

/// Across the continuation bytes of the character that starts at `q`,
/// the `\n` count and the line start change only by that character.
proof fn lemma_across_char(b: Seq<u8>, q: int, j: int)
    requires
        0 <= q < j <= b.len(),
        forall|i: int| q < i < j ==> is_continuation_byte(#[trigger] b[i]),
    ensures
        newlines_before(b, j) == newlines_before(b, q) + if is_lf(b[q]) {
            1nat
        } else {
            0nat
        },
        !is_lf(b[q]) ==> line_begin(b, j) == line_begin(b, q),
    decreases j - q,
{
    if j > q + 1 {
        lemma_across_char(b, q, j - 1);
        assert(is_continuation_byte(b[j - 1]));
    }
}

/// Reading the characters before a boundary `at` ends on line
/// `newlines_before(b, at)`, at the column that counts the characters since
/// the start of that line.
pub proof fn lemma_scan_chars(b: Seq<u8>, at: int)
    requires
        valid_utf8(b),
        0 <= at <= b.len(),
        is_char_boundary(b, at),
    ensures
        scan_chars(chars_between(b, 0, at)) == (
            newlines_before(b, at),
            chars_between(b, line_begin(b, at), at).len(),
        ),
    decreases at,
{
    is_char_boundary_start_end_of_seq(b);
    if at == 0 {
        lemma_chars_between(b, 0, 0);
        assert(b.subrange(0, 0).len() == 0);
    } else {
        let q = char_floor(b, at - 1);
        lemma_char_floor(b, at - 1);
        lemma_scan_chars(b, q);
        lemma_boundary_iff(b, q);
        // The bytes after `q` and before `at` continue the character at `q`.
        assert forall|i: int| q < i < at implies is_continuation_byte(#[trigger] b[i]) by {
            lemma_boundary_iff(b, i);
        }
        lemma_across_char(b, q, at);
        // That character is one character.
        let t = b.subrange(q, at);
        assert forall|i: int| 1 <= i < t.len() implies is_continuation_byte(#[trigger] t[i]) by {
            assert(t[i] == b[q + i]);
        }
        lemma_lead_count_one(t);
        lemma_chars_between(b, q, at);
        let one = chars_between(b, q, at);
        assert(one.len() == 1);
        // Splitting the characters before `at` at `q`.
        lemma_chars_between(b, 0, at);
        let u = b.subrange(0, at);
        lemma_boundary_iff(u, q);
        assert(u[q] == b[q]);
        decode_utf8_split(u, q);
        assert(u.subrange(0, q) == b.subrange(0, q));
        assert(u.subrange(q, at) == t);
        let all = chars_between(b, 0, at);
        assert(all == chars_between(b, 0, q) + one);
        assert(all.drop_last() == chars_between(b, 0, q));
        assert(all.last() == one[0]);
        // The character is a line feed exactly when its byte is.
        let ch = one[0];
        decode_utf8_encode_utf8(t);
        assert(one == seq![ch]);
        assert(encode_utf8(seq![ch]) == encode_scalar(ch as u32) + encode_utf8(
            seq![ch].drop_first(),
        ));
        assert(seq![ch].drop_first().len() == 0);
        if is_lf(b[q]) {
            if q + 1 < at {
                lemma_continuation_follows_non_ascii(b, q + 1);
            }
            assert(t == seq![10u8]);
            assert(encode_scalar(ch as u32) == seq![10u8]);
            char_is_scalar(ch);
            let c = ch as u32;
            if !has_width_1_encoding(c) {
                assert(encode_scalar(c).len() > 1);
            }
            assert(leading_byte_width_1(c) == 10u8);
            assert(c == 10u32) by (bit_vector)
                requires
                    0 <= c <= 0x7f,
                    (c & 0x7f) as u8 == 10u8,
            ;
            char_u32_cast(ch, c);
            char_u32_cast('\n', 10u32);
            assert(line_begin(b, at) == at);
            lemma_chars_between(b, at, at);
            assert(b.subrange(at, at).len() == 0);
        } else {
            if ch == '\n' {
                assert(('\n' as u32) == 10u32);
                assert(encode_scalar(10u32) == seq![10u8]) by {
                    assert((10u32 & 0x7f) as u8 == 10u8) by (bit_vector);
                }
                assert(t[0] == 10u8);
            }
            let lb = line_begin(b, q);
            lemma_line_begin(b, q);
            if lb > 0 {
                lemma_boundary_after_newline(b, lb);
            }
            lemma_chars_between(b, lb, q);
            lemma_chars_between(b, lb, at);
            lemma_lead_count_split(b, lb, q, at);
        }
    }
}

} // verus!
