//! Resolved line/column coordinates.

use core::cmp::Ordering;

use vstd::prelude::*;
use vstd::std_specs::cmp::{PartialOrdSpec, PartialOrdSpecImpl};

use crate::text::{decimal, decimal_string, join3};

verus! {

/// A resolved human coordinate: a 1-based line and a 1-based column.
///
/// The column counts Unicode scalar values (`char`s), not bytes.
#[derive(Clone, Copy, Debug, PartialEq, Eq, Structural, Ord, Hash)]
pub struct LineCol {
    /// The 1-based line number.
    pub line: u32,
    /// The 1-based column, counted in Unicode scalar values.
    pub col: u32,
}

impl LineCol {
    /// Constructs a coordinate from a 1-based line and column. It is not
    /// checked against any source.
    pub fn new(line: u32, col: u32) -> (lc: Self)
        ensures
            lc.line == line,
            lc.col == col,
    {
        LineCol { line, col }
    }

    /// The coordinate written as `line:col`, as `10:3`.
    pub fn to_string(&self) -> (s: String)
        ensures
            s@ == decimal(self.line as nat) + seq![':'] + decimal(self.col as nat),
    {
        let line = decimal_string(self.line);
        let col = decimal_string(self.col);
        let sep = ":";
        proof {
            reveal_strlit(":");
        }
        join3(line.as_str(), sep, col.as_str())
    }
}

impl PartialOrd for LineCol {
    /// Orders by line, then by column.
    fn partial_cmp(&self, other: &Self) -> (r: Option<Ordering>) {
        if self.line < other.line {
            Some(Ordering::Less)
        } else if self.line > other.line {
            Some(Ordering::Greater)
        } else if self.col < other.col {
            Some(Ordering::Less)
        } else if self.col > other.col {
            Some(Ordering::Greater)
        } else {
            Some(Ordering::Equal)
        }
    }
}

impl PartialOrdSpecImpl for LineCol {
    open spec fn obeys_partial_cmp_spec() -> bool {
        true
    }

    /// Lexicographic order on `(line, col)`.
    open spec fn partial_cmp_spec(&self, other: &Self) -> Option<Ordering> {
        if self.line < other.line {
            Some(Ordering::Less)
        } else if self.line > other.line {
            Some(Ordering::Greater)
        } else if self.col < other.col {
            Some(Ordering::Less)
        } else if self.col > other.col {
            Some(Ordering::Greater)
        } else {
            Some(Ordering::Equal)
        }
    }
}

/// The order is total, and two values compare equal exactly when they are
/// equal.
pub proof fn lemma_line_col_order_total(a: LineCol, b: LineCol)
    ensures
        PartialOrdSpec::partial_cmp_spec(&a, &b) is Some,
        (PartialOrdSpec::partial_cmp_spec(&a, &b) == Some(Ordering::Equal)) == (a == b),
        (PartialOrdSpec::partial_cmp_spec(&a, &b) == Some(Ordering::Less)) == (PartialOrdSpec::partial_cmp_spec(&b, &a) == Some(
            Ordering::Greater,
        )),
{
}

/// Coordinates order lexicographically by `(line, col)`: an earlier line
/// comes first whatever the columns, coordinates on the same line order by
/// column, and the order is transitive.
pub proof fn lemma_line_col_order_lexicographic(a: LineCol, b: LineCol, c: LineCol)
    ensures
        (PartialOrdSpec::partial_cmp_spec(&a, &b) == Some(Ordering::Less)) == (a.line < b.line || (
        a.line == b.line && a.col < b.col)),
        (PartialOrdSpec::partial_cmp_spec(&a, &b) == Some(Ordering::Greater)) == (b.line < a.line
            || (a.line == b.line && b.col < a.col)),
        PartialOrdSpec::partial_cmp_spec(&a, &b) == Some(Ordering::Less) && PartialOrdSpec::partial_cmp_spec(
            &b,
            &c,
        ) == Some(Ordering::Less) ==> PartialOrdSpec::partial_cmp_spec(&a, &c) == Some(
            Ordering::Less,
        ),
{
}

} // verus!
