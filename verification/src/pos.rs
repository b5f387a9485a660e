//! Byte positions: the atom every span is built from.

use core::cmp::Ordering;

use vstd::prelude::*;
use vstd::std_specs::cmp::{PartialOrdSpec, PartialOrdSpecImpl};

use crate::text::{decimal, decimal_string};

verus! {

/// A zero-based byte offset into a single source buffer.
///
/// The offset is 32 bits wide, so a single source is addressable up to 4 GiB.
/// It is a byte index, not a character index.
#[derive(Clone, Copy, Debug, PartialEq, Eq, Structural, Ord, Hash)]
pub struct BytePos(u32);

impl View for BytePos {
    type V = u32;

    closed spec fn view(&self) -> u32 {
        self.0
    }
}

impl BytePos {
    /// Constructs a position from a raw byte offset.
    pub fn new(offset: u32) -> (p: Self)
        ensures
            p@ == offset,
    {
        BytePos(offset)
    }

    /// Returns the raw byte offset.
    pub fn to_u32(self) -> (r: u32)
        ensures
            r == self@,
    {
        self.0
    }

    /// Returns the offset widened to a `usize`, ready to index a byte slice.
    pub fn to_usize(self) -> (r: usize)
        ensures
            r as int == self@ as int,
    {
        self.0 as usize
    }

    /// The offset written in decimal, as `256` for offset 256.
    pub fn to_string(&self) -> (s: String)
        ensures
            s@ == decimal(self@ as nat),
    {
        decimal_string(self.0)
    }
}

impl Default for BytePos {
    /// The position at offset zero.
    fn default() -> (p: Self)
        ensures
            p@ == 0,
    {
        BytePos(0)
    }
}

impl PartialOrd for BytePos {
    /// Orders by offset.
    fn partial_cmp(&self, other: &Self) -> (r: Option<Ordering>) {
        if self.0 < other.0 {
            Some(Ordering::Less)
        } else if self.0 > other.0 {
            Some(Ordering::Greater)
        } else {
            Some(Ordering::Equal)
        }
    }
}

impl PartialOrdSpecImpl for BytePos {
    open spec fn obeys_partial_cmp_spec() -> bool {
        true
    }

    /// The order of the offsets.
    open spec fn partial_cmp_spec(&self, other: &Self) -> Option<Ordering> {
        if self@ < other@ {
            Some(Ordering::Less)
        } else if self@ > other@ {
            Some(Ordering::Greater)
        } else {
            Some(Ordering::Equal)
        }
    }
}

impl From<u32> for BytePos {
    fn from(offset: u32) -> (p: Self) {
        BytePos(offset)
    }
}

impl vstd::std_specs::convert::FromSpecImpl<u32> for BytePos {
    open spec fn obeys_from_spec() -> bool {
        true
    }

    closed spec fn from_spec(offset: u32) -> BytePos {
        BytePos(offset)
    }
}

/// Two positions are equal exactly when their offsets are.
pub proof fn lemma_byte_pos_eq(a: BytePos, b: BytePos)
    ensures
        (a@ == b@) == (a == b),
{
}

/// Converting a raw offset into a position keeps the offset, and converting
/// back yields the same number.
pub proof fn lemma_u32_round_trip(offset: u32, pos: BytePos)
    ensures
        <BytePos as vstd::std_specs::convert::FromSpec<u32>>::from_spec(offset)@ == offset,
        <u32 as vstd::std_specs::convert::FromSpec<BytePos>>::from_spec(
            <BytePos as vstd::std_specs::convert::FromSpec<u32>>::from_spec(offset),
        ) == offset,
        <BytePos as vstd::std_specs::convert::FromSpec<u32>>::from_spec(
            <u32 as vstd::std_specs::convert::FromSpec<BytePos>>::from_spec(pos),
        ) == pos,
{
}

impl From<BytePos> for u32 {
    fn from(pos: BytePos) -> (r: u32) {
        pos.0
    }
}

impl vstd::std_specs::convert::FromSpecImpl<BytePos> for u32 {
    open spec fn obeys_from_spec() -> bool {
        true
    }

    open spec fn from_spec(pos: BytePos) -> u32 {
        pos@
    }
}

/// The order is total, and two values compare equal exactly when they are
/// equal.
pub proof fn lemma_byte_pos_order_total(a: BytePos, b: BytePos)
    ensures
        PartialOrdSpec::partial_cmp_spec(&a, &b) is Some,
        (PartialOrdSpec::partial_cmp_spec(&a, &b) == Some(Ordering::Equal)) == (a == b),
        (PartialOrdSpec::partial_cmp_spec(&a, &b) == Some(Ordering::Less)) == (PartialOrdSpec::partial_cmp_spec(&b, &a) == Some(
            Ordering::Greater,
        )),
{
}

/// Positions order by their offsets.
pub proof fn lemma_byte_pos_order_by_offset(a: BytePos, b: BytePos)
    ensures
        (PartialOrdSpec::partial_cmp_spec(&a, &b) == Some(Ordering::Less)) == (a@ < b@),
        (PartialOrdSpec::partial_cmp_spec(&a, &b) == Some(Ordering::Greater)) == (b@ < a@),
        (PartialOrdSpec::partial_cmp_spec(&a, &b) == Some(Ordering::Equal)) == (a@ == b@),
{
}

} // verus!
