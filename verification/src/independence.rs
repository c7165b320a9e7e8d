//! The order in which ranges are given does not matter: neither for whether
//! they are accepted, nor for the highlighted text.

use crate::highlight::highlighting;
use crate::markup::{closing_markers_at, highlighted, highlighted_prefix, markers_at, opening_markers_at, MarkerText};
use crate::order::rearranged;
use crate::range::Span;
use crate::validate::{all_within_bounds, no_overlap, validation, within_bounds};
use vstd::prelude::*;

verus! {

/// `order` lists every index of a sequence of `len` elements once.
pub open spec fn is_permutation(order: Seq<int>, len: nat) -> bool {
    &&& order.len() == len
    &&& forall|k: int| 0 <= k < order.len() ==> 0 <= #[trigger] order[k] < len
    &&& forall|i: int| 0 <= i < len ==> #[trigger] order.contains(i)
    &&& forall|k1: int, k2: int|
        0 <= k1 < order.len() && 0 <= k2 < order.len() && k1 != k2 ==> #[trigger] order[k1] != #[trigger] order[k2]
}

/// Every range holds at least one position.
pub open spec fn none_empty(spans: Seq<Span>) -> bool {
    forall|i: int| 0 <= i < spans.len() ==> !(#[trigger] spans[i]).is_empty()
}

/// One of the ranges ends at `position`.
pub open spec fn some_range_ends_at(spans: Seq<Span>, position: int) -> bool {
    exists|i: int| 0 <= i < spans.len() && (#[trigger] spans[i]).upper == position
}

/// One of the ranges starts at `position`.
pub open spec fn some_range_starts_at(spans: Seq<Span>, position: int) -> bool {
    exists|i: int| 0 <= i < spans.len() && (#[trigger] spans[i]).lower == position
}

/// Ranges that are disjoint and hold at least one position each stay so when
/// the last of them is left out.
proof fn lemma_disjoint_without_last(spans: Seq<Span>)
    requires
        spans.len() > 0,
        none_empty(spans),
        no_overlap(spans),
    ensures
        none_empty(spans.drop_last()),
        no_overlap(spans.drop_last()),
{
    let rest = spans.drop_last();
    assert forall|i: int| 0 <= i < rest.len() implies !(#[trigger] rest[i]).is_empty() by {
        assert(rest[i] == spans[i]);
    }
    assert forall|i: int, j: int| 0 <= i < rest.len() && 0 <= j < rest.len() && i != j implies (
    #[trigger] rest[i]).is_disjoint_from(#[trigger] rest[j]) by {
        assert(rest[i] == spans[i] && rest[j] == spans[j]);
    }
}

/// Among disjoint ranges that hold at least one position each, at most one
/// ends at a position and at most one starts there. So there is one closing
/// marker where a range ends and none elsewhere, and one opening marker
/// where a range starts and none elsewhere.
pub proof fn lemma_markers_of_disjoint_ranges(spans: Seq<Span>, position: int, markers: MarkerText)
    requires
        none_empty(spans),
        no_overlap(spans),
    ensures
        some_range_ends_at(spans, position) ==> closing_markers_at(spans, position, markers) == markers.close,
        !some_range_ends_at(spans, position) ==> closing_markers_at(spans, position, markers) == Seq::<
            char,
        >::empty(),
        some_range_starts_at(spans, position) ==> opening_markers_at(spans, position, markers) == markers.open,
        !some_range_starts_at(spans, position) ==> opening_markers_at(spans, position, markers) == Seq::<
            char,
        >::empty(),
    decreases spans.len(),
{
    if spans.len() > 0 {
        let rest = spans.drop_last();
        let last = spans.len() - 1;
        lemma_disjoint_without_last(spans);
        lemma_markers_of_disjoint_ranges(rest, position, markers);

        if spans[last].upper == position {
            if some_range_ends_at(rest, position) {
                let i = choose|i: int| 0 <= i < rest.len() && (#[trigger] rest[i]).upper == position;
                assert(rest[i] == spans[i]);
                assert(!spans[i].is_disjoint_from(spans[last]));
            }
        } else if some_range_ends_at(spans, position) {
            let i = choose|i: int| 0 <= i < spans.len() && (#[trigger] spans[i]).upper == position;
            assert(rest[i].upper == position);
        } else if some_range_ends_at(rest, position) {
            let i = choose|i: int| 0 <= i < rest.len() && (#[trigger] rest[i]).upper == position;
            assert(spans[i].upper == position);
        }

        if spans[last].lower == position {
            if some_range_starts_at(rest, position) {
                let i = choose|i: int| 0 <= i < rest.len() && (#[trigger] rest[i]).lower == position;
                assert(rest[i] == spans[i]);
                assert(!spans[i].is_disjoint_from(spans[last]));
            }
        } else if some_range_starts_at(spans, position) {
            let i = choose|i: int| 0 <= i < spans.len() && (#[trigger] spans[i]).lower == position;
            assert(rest[i].lower == position);
        } else if some_range_starts_at(rest, position) {
            let i = choose|i: int| 0 <= i < rest.len() && (#[trigger] rest[i]).lower == position;
            assert(spans[i].lower == position);
        }
    }
}

/// Where a permutation lists the index `i`.
proof fn lemma_place_in_order(order: Seq<int>, i: int) -> (k: int)
    requires
        order.contains(i),
    ensures
        0 <= k < order.len(),
        order[k] == i,
{
    choose|k: int| 0 <= k < order.len() && order[k] == i
}

/// Putting ranges in another order changes neither whether they lie within
/// the text, nor whether each holds a position, nor whether they are
/// disjoint, nor the positions at which ranges start and end.
proof fn lemma_rearranged_ranges(spans: Seq<Span>, order: Seq<int>)
    requires
        is_permutation(order, spans.len()),
    ensures
        none_empty(spans) <==> none_empty(rearranged(spans, order)),
        no_overlap(spans) <==> no_overlap(rearranged(spans, order)),
        forall|input_len: int| #[trigger]
            all_within_bounds(input_len, spans) <==> all_within_bounds(input_len, rearranged(spans, order)),
        forall|position: int| #[trigger]
            some_range_ends_at(spans, position) <==> some_range_ends_at(rearranged(spans, order), position),
        forall|position: int| #[trigger]
            some_range_starts_at(spans, position) <==> some_range_starts_at(rearranged(spans, order), position),
{
    let other = rearranged(spans, order);
    assert forall|k: int| 0 <= k < other.len() implies #[trigger] other[k] == spans[order[k]] by {}
    if none_empty(other) {
        assert forall|i: int| 0 <= i < spans.len() implies !(#[trigger] spans[i]).is_empty() by {
            let k = lemma_place_in_order(order, i);
            assert(other[k] == spans[i]);
        }
    }
    if no_overlap(other) {
        assert forall|i: int, j: int| 0 <= i < spans.len() && 0 <= j < spans.len() && i != j implies (
        #[trigger] spans[i]).is_disjoint_from(#[trigger] spans[j]) by {
            let k1 = lemma_place_in_order(order, i);
            let k2 = lemma_place_in_order(order, j);
            assert(other[k1].is_disjoint_from(other[k2]));
        }
    }
    assert forall|input_len: int| #[trigger]
        all_within_bounds(input_len, spans) <==> all_within_bounds(input_len, other) by {
        if all_within_bounds(input_len, other) {
            assert forall|i: int| 0 <= i < spans.len() implies within_bounds(input_len, #[trigger] spans[i]) by {
                let k = lemma_place_in_order(order, i);
                assert(other[k] == spans[i]);
            }
        }
    }
    assert forall|position: int| #[trigger]
        some_range_ends_at(spans, position) <==> some_range_ends_at(other, position) by {
        if some_range_ends_at(spans, position) {
            let i = choose|i: int| 0 <= i < spans.len() && (#[trigger] spans[i]).upper == position;
            let k = lemma_place_in_order(order, i);
            assert(other[k].upper == position);
        }
        if some_range_ends_at(other, position) {
            let k = choose|k: int| 0 <= k < other.len() && (#[trigger] other[k]).upper == position;
            assert(spans[order[k]].upper == position);
        }
    }
    assert forall|position: int| #[trigger]
        some_range_starts_at(spans, position) <==> some_range_starts_at(other, position) by {
        if some_range_starts_at(spans, position) {
            let i = choose|i: int| 0 <= i < spans.len() && (#[trigger] spans[i]).lower == position;
            let k = lemma_place_in_order(order, i);
            assert(other[k].lower == position);
        }
        if some_range_starts_at(other, position) {
            let k = choose|k: int| 0 <= k < other.len() && (#[trigger] other[k]).lower == position;
            assert(spans[order[k]].lower == position);
        }
    }
}

/// Two sets of ranges that put in the same markers at every position give
/// the same highlighted prefixes.
proof fn lemma_same_markers_same_prefix(
    input: Seq<char>,
    spans: Seq<Span>,
    other: Seq<Span>,
    markers: MarkerText,
    upto: int,
)
    requires
        forall|position: int| #[trigger]
            markers_at(spans, position, markers) == markers_at(other, position, markers),
    ensures
        highlighted_prefix(input, spans, markers, upto) == highlighted_prefix(input, other, markers, upto),
    decreases upto,
{
    if upto > 0 {
        lemma_same_markers_same_prefix(input, spans, other, markers, upto - 1);
    }
}

/// Validation takes the ranges as a set: in whatever order they are given,
/// they are accepted or rejected alike.
pub proof fn lemma_validation_ignores_order(input_len: int, spans: Seq<Span>, order: Seq<int>)
    requires
        is_permutation(order, spans.len()),
    ensures
        validation(input_len, rearranged(spans, order)) == validation(input_len, spans),
{
    lemma_rearranged_ranges(spans, order);
    assert(all_within_bounds(input_len, spans) <==> all_within_bounds(input_len, rearranged(spans, order)));
}

/// The outcome of highlighting does not depend on the order in which the
/// ranges are given: they are accepted or rejected alike, and where they are
/// accepted the highlighted text is the same.
pub proof fn lemma_order_of_ranges_does_not_matter(
    input: Seq<char>,
    spans: Seq<Span>,
    order: Seq<int>,
    markers: MarkerText,
)
    requires
        is_permutation(order, spans.len()),
    ensures
        highlighting(input, rearranged(spans, order), markers) == highlighting(input, spans, markers),
{
    let other = rearranged(spans, order);
    let input_len = input.len() as int;
    lemma_validation_ignores_order(input_len, spans, order);
    if validation(input_len, spans) is Ok {
        assert(none_empty(spans)) by {
            assert forall|i: int| 0 <= i < spans.len() implies !(#[trigger] spans[i]).is_empty() by {
                assert(within_bounds(input_len, spans[i]));
            }
        }
        lemma_rearranged_ranges(spans, order);
        assert forall|position: int| #[trigger]
            markers_at(spans, position, markers) == markers_at(other, position, markers) by {
            lemma_markers_of_disjoint_ranges(spans, position, markers);
            lemma_markers_of_disjoint_ranges(other, position, markers);
            assert(some_range_ends_at(spans, position) <==> some_range_ends_at(other, position));
            assert(some_range_starts_at(spans, position) <==> some_range_starts_at(other, position));
        }
        lemma_same_markers_same_prefix(input, spans, other, markers, input_len);
        assert(highlighted(input, spans, markers) == highlighted(input, other, markers));
    }
}

} // verus!
