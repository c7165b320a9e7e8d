//! Validation of a set of ranges against the length of the text.

use crate::order::{is_stable_order, keys_of, rearranged, sorts_before, stable_sort_by_key};
use crate::range::{spans_of, HighlightRange, Span};
use vstd::prelude::*;

verus! {

/// Why a set of ranges cannot be applied to a text.
#[derive(Debug, Clone, Copy, PartialEq, Eq)]
pub enum HighlightingError {
    /// Two of the ranges overlap.
    OverlappingRanges,
    /// A range does not lie within the text: it refers to a position at or
    /// beyond the end of the text, or it holds no character at all.
    RangesOutOfBounds,
}

/// The range lies within a text of `input_len` characters: it holds at least
/// one character, and it ends no later than the text does.
pub open spec fn within_bounds(input_len: int, span: Span) -> bool {
    0 <= span.lower < span.upper <= input_len
}

/// Every range lies within a text of `input_len` characters.
pub open spec fn all_within_bounds(input_len: int, spans: Seq<Span>) -> bool {
    forall|i: int| 0 <= i < spans.len() ==> within_bounds(input_len, #[trigger] spans[i])
}

/// No two of the ranges overlap: every two of them are disjoint. Ranges that
/// touch, one ending where the other starts, are disjoint.
pub open spec fn no_overlap(spans: Seq<Span>) -> bool {
    forall|i: int, j: int|
        0 <= i < spans.len() && 0 <= j < spans.len() && i != j ==> (#[trigger] spans[i]).is_disjoint_from(
            #[trigger] spans[j],
        )
}

/// The outcome of validating `spans` against a text of `input_len`
/// characters. The bounds of all ranges are judged first, so a range out of
/// bounds is reported even where ranges overlap as well.
pub open spec fn validation(input_len: int, spans: Seq<Span>) -> Result<(), HighlightingError> {
    if !all_within_bounds(input_len, spans) {
        Err(HighlightingError::RangesOutOfBounds)
    } else if !no_overlap(spans) {
        Err(HighlightingError::OverlappingRanges)
    } else {
        Ok(())
    }
}

/// The lower bounds of the ranges, position by position.
pub open spec fn lower_bounds(spans: Seq<Span>) -> Seq<int> {
    Seq::new(spans.len(), |i: int| spans[i].lower)
}

/// With the ranges taken in the given order, none reaches into the next one.
pub open spec fn neighbours_do_not_overlap(spans: Seq<Span>, order: Seq<int>) -> bool {
    forall|k: int| 1 <= k < order.len() ==> spans[order[k - 1]].upper <= spans[#[trigger] order[k]].lower
}

/// In a chain of ranges in which none reaches into the next one, none
/// reaches into any later one.
proof fn lemma_chain_of_neighbours(spans: Seq<Span>, order: Seq<int>, p: int, q: int)
    requires
        order.len() == spans.len(),
        forall|k: int| 0 <= k < order.len() ==> 0 <= #[trigger] order[k] < spans.len(),
        forall|i: int| 0 <= i < spans.len() ==> !(#[trigger] spans[i]).is_empty(),
        neighbours_do_not_overlap(spans, order),
        0 <= p < q < order.len(),
    ensures
        spans[order[p]].upper <= spans[order[q]].lower,
    decreases q - p,
{
    assert(spans[order[q - 1]].upper <= spans[order[q]].lower);
    if p + 1 < q {
        lemma_chain_of_neighbours(spans, order, p, q - 1);
        assert(!spans[order[q - 1]].is_empty());
    }
}

/// To hold each range against the next one in sorted order is enough: ranges
/// that hold at least one position each do not overlap exactly if, once they
/// are put in ascending order of their lower bounds, none reaches into the
/// next one.
pub proof fn lemma_no_overlap_by_neighbours(spans: Seq<Span>, order: Seq<int>)
    requires
        forall|i: int| 0 <= i < spans.len() ==> !(#[trigger] spans[i]).is_empty(),
        is_stable_order(lower_bounds(spans), order),
    ensures
        no_overlap(spans) <==> neighbours_do_not_overlap(spans, order),
{
    let keys = lower_bounds(spans);
    if no_overlap(spans) {
        assert forall|k: int| 1 <= k < order.len() implies spans[order[k - 1]].upper <= spans[#[trigger] order[k]].lower by {
            let first = order[k - 1];
            let second = order[k];
            assert(sorts_before(keys, first, second));
            assert(spans[first].is_disjoint_from(spans[second]));
            assert(!spans[second].is_empty());
        }
    }
    if neighbours_do_not_overlap(spans, order) {
        assert forall|i: int, j: int| 0 <= i < spans.len() && 0 <= j < spans.len() && i != j implies (
        #[trigger] spans[i]).is_disjoint_from(#[trigger] spans[j]) by {
            assert(order.contains(i));
            assert(order.contains(j));
            let p = choose|p: int| 0 <= p < order.len() && order[p] == i;
            let q = choose|q: int| 0 <= q < order.len() && order[q] == j;
            if p < q {
                lemma_chain_of_neighbours(spans, order, p, q);
            } else {
                lemma_chain_of_neighbours(spans, order, q, p);
            }
        }
    }
}

/// Checks that every range lies within a text of `input_len` characters and
/// that no two ranges overlap. Ranges that touch, one ending where the other
/// starts, do not overlap. The order in which the ranges are given does not
/// matter.
///
/// The bounds of all ranges are checked first. Then a copy of the ranges is
/// put in ascending order of their lower bounds, and each range is held
/// against the next one.
pub fn validate_ranges(input_len: usize, highlights: &Vec<HighlightRange>) -> (res: Result<
    (),
    HighlightingError,
>)
    ensures
        res == validation(input_len as int, spans_of(highlights@)),
{
    let ghost spans = spans_of(highlights@);
    for i in 0..highlights.len()
        invariant
            spans == spans_of(highlights@),
            forall|j: int| 0 <= j < i ==> within_bounds(input_len as int, #[trigger] spans[j]),
    {
        let h = &highlights[i];
        if h.upper() as usize > input_len || h.lower() as usize >= input_len || h.lower() >= h.upper() {
            assert(!within_bounds(input_len as int, spans[i as int]));
            return Err(HighlightingError::RangesOutOfBounds);
        }
    }

    let sorted = stable_sort_by_key(highlights);
    let ghost order = choose|order: Seq<int>| #[trigger]
        is_stable_order(keys_of(highlights@), order) && sorted@ == rearranged(highlights@, order);
    assert(keys_of(highlights@) =~= lower_bounds(spans));

    let mut i: usize = 1;
    while i < sorted.len()
        invariant
            1 <= i,
            spans == spans_of(highlights@),
            is_stable_order(lower_bounds(spans), order),
            sorted@ == rearranged(highlights@, order),
            all_within_bounds(input_len as int, spans),
            forall|k: int| 1 <= k < i ==> spans[order[k - 1]].upper <= spans[#[trigger] order[k]].lower,
        decreases sorted.len() - i,
    {
        if sorted[i].lower() < sorted[i - 1].upper() {
            proof {
                lemma_no_overlap_by_neighbours(spans, order);
                assert(spans[order[i as int]].lower < spans[order[i - 1]].upper);
            }
            return Err(HighlightingError::OverlappingRanges);
        }
        i += 1;
    }
    proof {
        lemma_no_overlap_by_neighbours(spans, order);
    }
    Ok(())
}

} // verus!
