//! The range type and its mathematical model.

use crate::order::Keyed;
use vstd::prelude::*;

verus! {

/// Mathematical model of a range: the half-open interval `[lower, upper)` of
/// character positions.
pub struct Span {
    /// The first position inside the interval.
    pub lower: int,
    /// The first position after the interval.
    pub upper: int,
}

impl Span {
    /// The interval is well formed: it starts at or after position zero and
    /// does not end before it starts.
    pub open spec fn is_ordered(self) -> bool {
        0 <= self.lower <= self.upper
    }

    /// The interval holds no position at all.
    pub open spec fn is_empty(self) -> bool {
        self.upper <= self.lower
    }

    /// The two intervals have no position in common.
    pub open spec fn is_disjoint_from(self, other: Span) -> bool {
        self.upper <= other.lower || other.upper <= self.lower
    }
}

/// The interval spanned by two bounds given in either order.
pub open spec fn normalized(a: int, b: int) -> Span {
    if a < b {
        Span { lower: a, upper: b }
    } else {
        Span { lower: b, upper: a }
    }
}

/// A half-open range `[lower, upper)` of character positions to highlight.
///
/// The bounds are private, so every value is built by [`HighlightRange::new`]
/// and has `lower <= upper`. Two equal bounds give a range that holds no
/// character; no text takes such a range.
#[derive(Debug, Clone, Copy, PartialEq, Eq)]
pub struct HighlightRange {
    /// inclusive
    lower: u32,
    /// exclusive
    upper: u32,
}

impl View for HighlightRange {
    type V = Span;

    closed spec fn view(&self) -> Span {
        Span { lower: self.lower as int, upper: self.upper as int }
    }
}

impl HighlightRange {
    #[verifier::type_invariant]
    spec fn bounds_are_ordered(self) -> bool {
        self.lower <= self.upper
    }

    /// Builds the range between the two bounds, swapping them where the first
    /// is not the smaller one.
    pub fn new(lower: u32, upper: u32) -> (range: Self)
        ensures
            range@ == normalized(lower as int, upper as int),
    {
        if lower < upper {
            HighlightRange { lower, upper }
        } else {
            HighlightRange { lower: upper, upper: lower }
        }
    }

    /// The first position inside the range.
    pub fn lower(&self) -> (lower: u32)
        ensures
            lower as int == self@.lower,
            self@.is_ordered(),
    {
        proof {
            use_type_invariant(self);
        }
        self.lower
    }

    /// The first position after the range.
    pub fn upper(&self) -> (upper: u32)
        ensures
            upper as int == self@.upper,
            self@.is_ordered(),
    {
        proof {
            use_type_invariant(self);
        }
        self.upper
    }
}

impl Keyed for HighlightRange {
    /// Ranges are put in order by their lower bound.
    open spec fn key(&self) -> int {
        self@.lower
    }

    fn sorts_no_later_than(&self, other: &Self) -> (no_later: bool) {
        self.lower <= other.lower
    }
}

/// The models of the given ranges, position by position.
pub open spec fn spans_of(ranges: Seq<HighlightRange>) -> Seq<Span> {
    Seq::new(ranges.len(), |i: int| ranges[i]@)
}

/// The order in which the two bounds are handed to [`HighlightRange::new`]
/// does not matter: both orders give the same range.
pub proof fn lemma_new_ignores_bound_order(first: HighlightRange, second: HighlightRange, a: u32, b: u32)
    requires
        first@ == normalized(a as int, b as int),
        second@ == normalized(b as int, a as int),
    ensures
        first == second,
{
}

} // verus!
