//! What a highlighted text is: the text with the marker of every range
//! boundary put in at the position of that boundary.
//!
//! Markers that fall on the same position stand in this order: first the
//! closing markers of the ranges that end there, then the opening markers of
//! the ranges that start there. So a range is closed before the next one is
//! opened: where one range ends at the position at which another starts, the
//! closing marker of the one is directly followed by the opening marker of
//! the other, and the two ranges are not merged into one.

use crate::range::Span;
use vstd::prelude::*;

verus! {

/// The texts put in at the start and at the end of a range.
pub struct MarkerText {
    /// Put in where a range starts.
    pub open: Seq<char>,
    /// Put in where a range ends.
    pub close: Seq<char>,
}

impl MarkerText {
    /// Number of characters that one range adds to the text.
    pub open spec fn len_per_range(self) -> nat {
        self.open.len() + self.close.len()
    }
}

/// The closing marker that `span` puts in at `position`: the range ends
/// there.
pub open spec fn closing_marker_of_span_at(span: Span, position: int, markers: MarkerText) -> Seq<char> {
    if span.upper == position {
        markers.close
    } else {
        Seq::empty()
    }
}

/// The opening marker that `span` puts in at `position`: the range starts
/// there.
pub open spec fn opening_marker_of_span_at(span: Span, position: int, markers: MarkerText) -> Seq<char> {
    if span.lower == position {
        markers.open
    } else {
        Seq::empty()
    }
}

/// The closing markers of the ranges that end at `position`.
pub open spec fn closing_markers_at(spans: Seq<Span>, position: int, markers: MarkerText) -> Seq<char>
    decreases spans.len(),
{
    if spans.len() == 0 {
        Seq::empty()
    } else {
        closing_markers_at(spans.drop_last(), position, markers) + closing_marker_of_span_at(
            spans.last(),
            position,
            markers,
        )
    }
}

/// The opening markers of the ranges that start at `position`.
pub open spec fn opening_markers_at(spans: Seq<Span>, position: int, markers: MarkerText) -> Seq<char>
    decreases spans.len(),
{
    if spans.len() == 0 {
        Seq::empty()
    } else {
        opening_markers_at(spans.drop_last(), position, markers) + opening_marker_of_span_at(
            spans.last(),
            position,
            markers,
        )
    }
}

/// All markers put in at `position`: the closing markers of the ranges that
/// end there, then the opening markers of the ranges that start there.
pub open spec fn markers_at(spans: Seq<Span>, position: int, markers: MarkerText) -> Seq<char> {
    closing_markers_at(spans, position, markers) + opening_markers_at(spans, position, markers)
}

/// The first `upto` characters of `input`, each of them preceded by the
/// markers put in at its position.
pub open spec fn highlighted_prefix(input: Seq<char>, spans: Seq<Span>, markers: MarkerText, upto: int) -> Seq<
    char,
>
    decreases upto,
{
    if upto <= 0 {
        Seq::empty()
    } else {
        highlighted_prefix(input, spans, markers, upto - 1) + markers_at(spans, upto - 1, markers)
            + seq![input[upto - 1]]
    }
}

/// The highlighted text: every character of `input` preceded by the markers
/// put in at its position, and at the end the markers put in after the last
/// character.
pub open spec fn highlighted(input: Seq<char>, spans: Seq<Span>, markers: MarkerText) -> Seq<char> {
    highlighted_prefix(input, spans, markers, input.len() as int) + markers_at(
        spans,
        input.len() as int,
        markers,
    )
}

/// Number of marker characters that `span` puts in at positions before
/// `upto`.
pub open spec fn marker_chars_of_span_before(span: Span, upto: int, markers: MarkerText) -> nat {
    (if span.lower < upto {
        markers.open.len()
    } else {
        0
    }) + (if span.upper < upto {
        markers.close.len()
    } else {
        0
    })
}

/// Number of marker characters put in at positions before `upto`.
pub open spec fn marker_chars_before(spans: Seq<Span>, upto: int, markers: MarkerText) -> nat
    decreases spans.len(),
{
    if spans.len() == 0 {
        0
    } else {
        marker_chars_before(spans.drop_last(), upto, markers) + marker_chars_of_span_before(
            spans.last(),
            upto,
            markers,
        )
    }
}

/// What is left of a highlighted `text` once the markers of `spans` are taken
/// out of it again: character `i` is the one that stands behind the markers
/// put in at the positions up to `i`.
pub open spec fn without_markers(text: Seq<char>, spans: Seq<Span>, markers: MarkerText) -> Seq<char> {
    Seq::new(
        (text.len() - spans.len() * markers.len_per_range()) as nat,
        |i: int| text[i + marker_chars_before(spans, i + 1, markers)],
    )
}

/// Every range is well formed and ends no later than a text of `input_len`
/// characters does.
pub open spec fn spans_fit(input_len: int, spans: Seq<Span>) -> bool {
    forall|i: int| 0 <= i < spans.len() ==> (#[trigger] spans[i]).is_ordered() && spans[i].upper <= input_len
}

/// The marker characters put in at one position are those counted before the
/// next position and not before this one.
proof fn lemma_marker_chars_at(spans: Seq<Span>, position: int, markers: MarkerText)
    ensures
        marker_chars_before(spans, position + 1, markers) == marker_chars_before(spans, position, markers)
            + markers_at(spans, position, markers).len(),
        markers_at(spans, position, markers).len() == closing_markers_at(spans, position, markers).len()
            + opening_markers_at(spans, position, markers).len(),
    decreases spans.len(),
{
    if spans.len() > 0 {
        lemma_marker_chars_at(spans.drop_last(), position, markers);
    }
}

/// No marker is put in before position zero.
proof fn lemma_no_marker_chars_before_start(spans: Seq<Span>, markers: MarkerText)
    requires
        forall|i: int| 0 <= i < spans.len() ==> (#[trigger] spans[i]).is_ordered(),
    ensures
        marker_chars_before(spans, 0, markers) == 0,
    decreases spans.len(),
{
    if spans.len() > 0 {
        assert(spans.last().is_ordered());
        assert forall|i: int| 0 <= i < spans.drop_last().len() implies (#[trigger] spans.drop_last()[i]).is_ordered() by {
            assert(spans.drop_last()[i] == spans[i]);
        }
        lemma_no_marker_chars_before_start(spans.drop_last(), markers);
    }
}

/// Behind the end of the text every range has put in both of its markers.
proof fn lemma_all_marker_chars(input_len: int, spans: Seq<Span>, markers: MarkerText)
    requires
        spans_fit(input_len, spans),
    ensures
        marker_chars_before(spans, input_len + 1, markers) == spans.len() * markers.len_per_range(),
    decreases spans.len(),
{
    if spans.len() > 0 {
        let rest = spans.drop_last();
        assert(spans.last().is_ordered() && spans.last().upper <= input_len);
        assert forall|i: int| 0 <= i < rest.len() implies (#[trigger] rest[i]).is_ordered() && rest[i].upper
            <= input_len by {
            assert(rest[i] == spans[i]);
        }
        lemma_all_marker_chars(input_len, rest, markers);
        assert(spans.len() * markers.len_per_range() == rest.len() * markers.len_per_range()
            + markers.len_per_range()) by (nonlinear_arith)
            requires
                spans.len() == rest.len() + 1,
        ;
    } else {
        assert(spans.len() * markers.len_per_range() == 0) by (nonlinear_arith)
            requires
                spans.len() == 0,
        ;
    }
}

/// The length of a highlighted prefix: its characters and the markers put in
/// before its end.
proof fn lemma_prefix_len(input: Seq<char>, spans: Seq<Span>, markers: MarkerText, upto: int)
    requires
        0 <= upto,
        forall|i: int| 0 <= i < spans.len() ==> (#[trigger] spans[i]).is_ordered(),
    ensures
        highlighted_prefix(input, spans, markers, upto).len() == upto + marker_chars_before(
            spans,
            upto,
            markers,
        ),
    decreases upto,
{
    if upto == 0 {
        lemma_no_marker_chars_before_start(spans, markers);
    } else {
        lemma_prefix_len(input, spans, markers, upto - 1);
        lemma_marker_chars_at(spans, upto - 1, markers);
    }
}

/// In a highlighted prefix, character `i` of the input stands behind the
/// markers put in at the positions up to `i`.
proof fn lemma_prefix_char(input: Seq<char>, spans: Seq<Span>, markers: MarkerText, upto: int, i: int)
    requires
        0 <= i < upto,
        forall|i: int| 0 <= i < spans.len() ==> (#[trigger] spans[i]).is_ordered(),
    ensures
        i + marker_chars_before(spans, i + 1, markers) < highlighted_prefix(input, spans, markers, upto).len(),
        highlighted_prefix(input, spans, markers, upto)[i + marker_chars_before(spans, i + 1, markers)]
            == input[i],
    decreases upto,
{
    let shorter = highlighted_prefix(input, spans, markers, upto - 1);
    let here = markers_at(spans, upto - 1, markers);
    lemma_prefix_len(input, spans, markers, upto - 1);
    lemma_prefix_len(input, spans, markers, upto);
    lemma_marker_chars_at(spans, upto - 1, markers);
    if i < upto - 1 {
        lemma_prefix_char(input, spans, markers, upto - 1, i);
        assert((shorter + here + seq![input[upto - 1]])[i + marker_chars_before(spans, i + 1, markers)]
            == shorter[i + marker_chars_before(spans, i + 1, markers)]);
    } else {
        assert((shorter + here + seq![input[upto - 1]])[(shorter.len() + here.len()) as int] == input[upto - 1]);
    }
}

/// Without ranges the text is left as it is.
pub proof fn lemma_no_ranges_no_change(input: Seq<char>, markers: MarkerText)
    ensures
        highlighted(input, Seq::<Span>::empty(), markers) == input,
{
    lemma_no_ranges_prefix(input, markers, input.len() as int);
    assert(input.take(input.len() as int) == input);
}

/// Without ranges a highlighted prefix is a prefix of the text.
proof fn lemma_no_ranges_prefix(input: Seq<char>, markers: MarkerText, upto: int)
    requires
        0 <= upto <= input.len(),
    ensures
        highlighted_prefix(input, Seq::<Span>::empty(), markers, upto) == input.take(upto),
    decreases upto,
{
    if upto > 0 {
        lemma_no_ranges_prefix(input, markers, upto - 1);
        assert(markers_at(Seq::<Span>::empty(), upto - 1, markers) =~= Seq::<char>::empty());
        assert(input.take(upto - 1) + Seq::<char>::empty() + seq![input[upto - 1]] == input.take(upto));
    }
}

/// Highlighting makes the text longer by the two markers of every range.
pub proof fn lemma_highlighted_len(input: Seq<char>, spans: Seq<Span>, markers: MarkerText)
    requires
        spans_fit(input.len() as int, spans),
    ensures
        highlighted(input, spans, markers).len() == input.len() + spans.len() * markers.len_per_range(),
{
    let n = input.len() as int;
    lemma_prefix_len(input, spans, markers, n);
    lemma_marker_chars_at(spans, n, markers);
    lemma_all_marker_chars(n, spans, markers);
}

/// Taking the markers out of a highlighted text gives back the text that was
/// highlighted.
pub proof fn lemma_without_markers_restores_input(input: Seq<char>, spans: Seq<Span>, markers: MarkerText)
    requires
        spans_fit(input.len() as int, spans),
    ensures
        without_markers(highlighted(input, spans, markers), spans, markers) == input,
{
    let n = input.len() as int;
    let text = highlighted(input, spans, markers);
    let rest = without_markers(text, spans, markers);
    lemma_highlighted_len(input, spans, markers);
    assert(rest.len() == input.len());
    assert forall|i: int| 0 <= i < n implies rest[i] == input[i] by {
        lemma_prefix_char(input, spans, markers, n, i);
    }
    assert(rest =~= input);
}

} // verus!
