//! Pairing a value with the span it came from.

use vstd::prelude::*;

use crate::span::Span;
use crate::text::{decimal, join3};

verus! {

/// A value together with the source [`Span`] it was parsed from.
///
/// Both fields are public. Spans order before values, so a slice of
/// `Spanned<T>` sorts into source order.
#[derive(Clone, Copy, Debug, PartialEq, Eq, PartialOrd, Ord, Hash)]
pub struct Spanned<T> {
    /// The source span the value was read from.
    pub span: Span,
    /// The wrapped value.
    pub value: T,
}

impl<T> Spanned<T> {
    /// Pairs a value with its span.
    pub fn new(span: Span, value: T) -> (s: Self)
        ensures
            s.span == span,
            s.value == value,
    {
        Spanned { span, value }
    }

    /// Applies `f` to the value, keeping the span.
    pub fn map<U>(self, f: impl FnOnce(T) -> U) -> (r: Spanned<U>)
        requires
            call_requires(f, (self.value,)),
        ensures
            r.span == self.span,
            call_ensures(f, (self.value,), r.value),
    {
        let span = self.span;
        let value = f(self.value);
        Spanned { span, value }
    }

    /// Borrows the value, keeping the span, without consuming `self`.
    pub fn as_ref(&self) -> (r: Spanned<&T>)
        ensures
            r.span == self.span,
            *r.value == self.value,
    {
        Spanned { span: self.span, value: &self.value }
    }
}

impl<'a> Spanned<&'a str> {
    /// The pair written as `value @ start..end`, as `tok @ 2..5`.
    pub fn to_string(&self) -> (s: String)
        ensures
            s@ == self.value@ + seq![' ', '@', ' '] + decimal(self.span@.0 as nat) + seq!['.', '.']
                + decimal(self.span@.1 as nat),
    {
        let span = self.span.to_string();
        let sep = " @ ";
        proof {
            reveal_strlit(" @ ");
        }
        join3(self.value, sep, span.as_str())
    }
}

} // verus!
