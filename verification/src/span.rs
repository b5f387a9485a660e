//! Byte-offset spans.

use core::cmp::Ordering;

use vstd::prelude::*;
use vstd::std_specs::cmp::{PartialOrdSpec, PartialOrdSpecImpl};

use crate::pos::BytePos;
use crate::text::{decimal, decimal_string, join3};

verus! {

/// The smaller of two offsets.
pub open spec fn min_u32(a: u32, b: u32) -> u32 {
    if a <= b { a } else { b }
}

/// The larger of two offsets.
pub open spec fn max_u32(a: u32, b: u32) -> u32 {
    if a <= b { b } else { a }
}

/// The smallest range `(start, end)` that covers both ranges `x` and `y`.
pub open spec fn hull(x: (u32, u32), y: (u32, u32)) -> (u32, u32) {
    (min_u32(x.0, y.0), max_u32(x.1, y.1))
}

/// A half-open byte range `start..end` into a single source.
///
/// `start <= end` always holds: every constructor establishes it. An empty
/// span (`start == end`) is a zero-width point. Spans order by `start`, then
/// `end`.
#[derive(Clone, Copy, Debug, PartialEq, Eq, Structural, Ord, Hash)]
pub struct Span {
    start: u32,
    end: u32,
}

impl View for Span {
    type V = (u32, u32);

    /// The pair `(start, end)`.
    closed spec fn view(&self) -> (u32, u32) {
        (self.start, self.end)
    }
}

impl Span {
    #[verifier::type_invariant]
    spec fn ordered(self) -> bool {
        self.start <= self.end
    }

    /// Constructs the span covering `start..end`, swapping the two if they are
    /// inverted, so construction never fails.
    pub fn new(start: u32, end: u32) -> (s: Self)
        ensures
            s@ == (min_u32(start, end), max_u32(start, end)),
            s@.0 <= s@.1,
    {
        if start <= end {
            Span { start, end }
        } else {
            Span { start: end, end: start }
        }
    }

    /// The empty, zero-width span at `at`.
    pub fn empty(at: u32) -> (s: Self)
        ensures
            s@ == (at, at),
    {
        Span { start: at, end: at }
    }

    /// The start position (inclusive).
    pub fn start(self) -> (p: BytePos)
        ensures
            p@ == self@.0,
            p@ <= self@.1,
    {
        proof {
            use_type_invariant(&self);
        }
        BytePos::new(self.start)
    }

    /// The end position (exclusive).
    pub fn end(self) -> (p: BytePos)
        ensures
            p@ == self@.1,
            self@.0 <= p@,
    {
        proof {
            use_type_invariant(&self);
        }
        BytePos::new(self.end)
    }

    /// The length in bytes, `end - start`.
    pub fn len(self) -> (n: u32)
        ensures
            n == self@.1 - self@.0,
    {
        proof {
            use_type_invariant(&self);
        }
        self.end - self.start
    }

    /// Whether the span is zero-width.
    pub fn is_empty(self) -> (b: bool)
        ensures
            b == (self@.0 == self@.1),
    {
        self.start == self.end
    }

    /// Whether `start <= pos < end`; an empty span contains nothing.
    pub fn contains(self, pos: BytePos) -> (b: bool)
        ensures
            b == (self@.0 <= pos@ && pos@ < self@.1),
    {
        let p = pos.to_u32();
        self.start <= p && p < self.end
    }

    /// The smallest span covering both `self` and `other`:
    /// `min(starts)..max(ends)`.
    pub fn merge(self, other: Self) -> (m: Self)
        ensures
            m@ == hull(self@, other@),
            m@.0 <= m@.1,
    {
        proof {
            use_type_invariant(&self);
            use_type_invariant(&other);
        }
        let start = if self.start < other.start {
            self.start
        } else {
            other.start
        };
        let end = if self.end > other.end {
            self.end
        } else {
            other.end
        };
        Span { start, end }
    }

    /// The span written as `start..end`, as `3..7`.
    pub fn to_string(&self) -> (s: String)
        ensures
            s@ == decimal(self@.0 as nat) + seq!['.', '.'] + decimal(self@.1 as nat),
    {
        let start = decimal_string(self.start);
        let end = decimal_string(self.end);
        let sep = "..";
        proof {
            reveal_strlit("..");
        }
        join3(start.as_str(), sep, end.as_str())
    }
}

impl PartialOrd for Span {
    /// Orders by `start`, then by `end`.
    fn partial_cmp(&self, other: &Self) -> (r: Option<Ordering>) {
        if self.start < other.start {
            Some(Ordering::Less)
        } else if self.start > other.start {
            Some(Ordering::Greater)
        } else if self.end < other.end {
            Some(Ordering::Less)
        } else if self.end > other.end {
            Some(Ordering::Greater)
        } else {
            Some(Ordering::Equal)
        }
    }
}

impl PartialOrdSpecImpl for Span {
    open spec fn obeys_partial_cmp_spec() -> bool {
        true
    }

    /// Lexicographic order on `(start, end)`.
    open spec fn partial_cmp_spec(&self, other: &Self) -> Option<Ordering> {
        if self@.0 < other@.0 {
            Some(Ordering::Less)
        } else if self@.0 > other@.0 {
            Some(Ordering::Greater)
        } else if self@.1 < other@.1 {
            Some(Ordering::Less)
        } else if self@.1 > other@.1 {
            Some(Ordering::Greater)
        } else {
            Some(Ordering::Equal)
        }
    }
}

/// Two spans are equal exactly when their `(start, end)` pairs are.
pub proof fn lemma_span_eq(a: Span, b: Span)
    ensures
        (a@ == b@) == (a == b),
{
}

/// `merge` does not depend on the order of its arguments.
pub proof fn lemma_merge_commutative(a: Span, b: Span)
    ensures
        hull(a@, b@) == hull(b@, a@),
{
}

/// Merging three spans gives the same span whichever pair is merged first.
pub proof fn lemma_merge_associative(a: Span, b: Span, c: Span)
    ensures
        hull(hull(a@, b@), c@) == hull(a@, hull(b@, c@)),
{
}

/// The merge of two spans covers both of them, and nothing smaller does: any
/// range that covers both also covers the merge.
pub proof fn lemma_merge_is_smallest_cover(a: Span, b: Span, lo: u32, hi: u32)
    requires
        lo <= a@.0 && a@.1 <= hi,
        lo <= b@.0 && b@.1 <= hi,
    ensures
        hull(a@, b@).0 <= a@.0 && a@.1 <= hull(a@, b@).1,
        hull(a@, b@).0 <= b@.0 && b@.1 <= hull(a@, b@).1,
        lo <= hull(a@, b@).0 && hull(a@, b@).1 <= hi,
{
}

/// The order is total, and two values compare equal exactly when they are
/// equal.
pub proof fn lemma_span_order_total(a: Span, b: Span)
    ensures
        PartialOrdSpec::partial_cmp_spec(&a, &b) is Some,
        (PartialOrdSpec::partial_cmp_spec(&a, &b) == Some(Ordering::Equal)) == (a == b),
        (PartialOrdSpec::partial_cmp_spec(&a, &b) == Some(Ordering::Less)) == (PartialOrdSpec::partial_cmp_spec(&b, &a) == Some(
            Ordering::Greater,
        )),
{
}

/// Spans order lexicographically by `(start, end)`: a span that starts
/// earlier comes first whatever the ends, spans with the same start order by
/// their ends, and the order is transitive.
pub proof fn lemma_span_order_lexicographic(a: Span, b: Span, c: Span)
    ensures
        (PartialOrdSpec::partial_cmp_spec(&a, &b) == Some(Ordering::Less)) == (a@.0 < b@.0 || (a@.0
            == b@.0 && a@.1 < b@.1)),
        (PartialOrdSpec::partial_cmp_spec(&a, &b) == Some(Ordering::Greater)) == (b@.0 < a@.0 || (
        a@.0 == b@.0 && b@.1 < a@.1)),
        PartialOrdSpec::partial_cmp_spec(&a, &b) == Some(Ordering::Less) && PartialOrdSpec::partial_cmp_spec(
            &b,
            &c,
        ) == Some(Ordering::Less) ==> PartialOrdSpec::partial_cmp_spec(&a, &c) == Some(
            Ordering::Less,
        ),
{
}

} // verus!
