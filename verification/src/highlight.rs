//! Putting the markers into the text.

use crate::boundary::{
    boundary_events, closing_key, event_markers_at, is_at, is_event_list, lemma_event_markers_push,
    lemma_events_at_position_by_rank, lemma_events_place_the_markers, lemma_marker_text_add, marker_of,
    opening_key, BoundaryEvent, HighlightingBoundry,
};
use crate::markup::{
    highlighted, highlighted_prefix, lemma_highlighted_len, lemma_no_ranges_no_change,
    lemma_without_markers_restores_input, markers_at, spans_fit, without_markers, MarkerText,
};
use crate::order::{
    has_key, is_stable_sort, lemma_nothing_selected, lemma_stable_sort_is_ascending,
    lemma_stable_sort_keeps_order_within_key, lemma_stable_sort_keeps_the_values, stable_sort_by_key,
};
use crate::range::{spans_of, HighlightRange, Span};
use crate::validate::{all_within_bounds, validate_ranges, validation, within_bounds, HighlightingError};
use vstd::prelude::*;
use vstd::string::{StrSliceExecFns, StringExecFns};

verus! {

/// The marker put in where a range starts, unless other markers are asked
/// for.
pub open spec fn default_open_marker() -> Seq<char> {
    "<em>"@
}

/// The marker put in where a range ends, unless other markers are asked for.
pub open spec fn default_close_marker() -> Seq<char> {
    "</em>"@
}

/// The pair of markers that is used unless other markers are asked for.
pub open spec fn default_marker_text() -> MarkerText {
    MarkerText { open: default_open_marker(), close: default_close_marker() }
}

/// The default markers, character by character.
pub proof fn lemma_default_marker_text()
    ensures
        default_open_marker() == seq!['<', 'e', 'm', '>'],
        default_close_marker() == seq!['<', '/', 'e', 'm', '>'],
        default_marker_text().len_per_range() == 9,
{
    reveal_strlit("<em>");
    reveal_strlit("</em>");
}

/// What highlighting gives: the highlighted text where the ranges are valid
/// for the text, else the reason why they are not.
pub open spec fn highlighting(input: Seq<char>, spans: Seq<Span>, markers: MarkerText) -> Result<
    Seq<char>,
    HighlightingError,
> {
    match validation(input.len() as int, spans) {
        Ok(_) => Ok(highlighted(input, spans, markers)),
        Err(error) => Err(error),
    }
}

/// The outcome of highlighting with the text taken as a sequence of
/// characters.
pub open spec fn text_of(res: Result<String, HighlightingError>) -> Result<Seq<char>, HighlightingError> {
    match res {
        Ok(text) => Ok(text@),
        Err(error) => Err(error),
    }
}

/// Ranges that validation accepts fit the text: the laws on the length and
/// on the content of a highlighted text hold of them.
pub proof fn lemma_accepted_ranges_fit(input_len: int, spans: Seq<Span>)
    requires
        validation(input_len, spans) is Ok,
    ensures
        spans_fit(input_len, spans),
{
    assert forall|i: int| 0 <= i < spans.len() implies (#[trigger] spans[i]).is_ordered() && spans[i].upper
        <= input_len by {
        assert(within_bounds(input_len, spans[i]));
    }
}

/// The texts to put in at the two ends of every range.
#[derive(Debug, PartialEq, Eq)]
pub struct HighlightMarkers {
    /// Put in where a range starts.
    pub open_marker: String,
    /// Put in where a range ends.
    pub close_marker: String,
}

impl View for HighlightMarkers {
    type V = MarkerText;

    open spec fn view(&self) -> MarkerText {
        MarkerText { open: self.open_marker@, close: self.close_marker@ }
    }
}

impl Clone for HighlightMarkers {
    fn clone(&self) -> (copy: Self)
        ensures
            copy@ == self@,
    {
        HighlightMarkers { open_marker: self.open_marker.clone(), close_marker: self.close_marker.clone() }
    }
}

impl Default for HighlightMarkers {
    /// The markers `<em>` and `</em>`.
    fn default() -> (markers: Self)
        ensures
            markers@ == default_marker_text(),
    {
        HighlightMarkers { open_marker: String::from_str("<em>"), close_marker: String::from_str("</em>") }
    }
}

/// The state of the walk over the boundary events: the output put together
/// so far and how much of the text it holds.
#[derive(Debug, Default)]
pub struct FoldState<'a> {
    /// The output put together so far.
    pub out: String,
    /// Number of characters of the text that `out` holds already.
    pub offset: usize,
    /// The text that is being highlighted.
    pub original: &'a str,
}

impl<'a> vstd::std_specs::convert::FromSpecImpl<&'a str> for FoldState<'a> {
    /// The state holds a freshly made string, so no value given beforehand
    /// is the result; `from` says what the result holds.
    open spec fn obeys_from_spec() -> bool {
        false
    }

    open spec fn from_spec(value: &'a str) -> Self {
        arbitrary()
    }
}

impl<'a> From<&'a str> for FoldState<'a> {
    /// The state before the first event: nothing put together yet.
    fn from(value: &'a str) -> (state: Self)
        ensures
            state.out@ == Seq::<char>::empty(),
            state.offset == 0,
            state.original == value,
    {
        FoldState { out: String::new(), offset: 0, original: value }
    }
}

impl<'a> FoldState<'a> {
    /// Takes one event: copies the text up to the position of the event and
    /// puts in the marker of the event.
    pub fn advance(self, event: &BoundaryEvent, markers: &HighlightMarkers) -> (next: Self)
        requires
            self.offset <= event.position <= self.original@.len(),
        ensures
            next.out@ == self.out@ + self.original@.subrange(self.offset as int, event.position as int)
                + marker_of(event.kind, markers@),
            next.offset == event.position,
            next.original == self.original,
    {
        let mut state = self;
        let next_text: &str = state.original.substring_char(state.offset, event.position);
        state.out.append(next_text);
        state.out.append(
            match event.kind {
                HighlightingBoundry::Start => markers.open_marker.as_str(),
                HighlightingBoundry::End => markers.close_marker.as_str(),
            },
        );
        state.offset = event.position;
        state
    }

    /// Ends the walk: copies what is left of the text.
    pub fn finish(self) -> (text: String)
        requires
            self.offset <= self.original@.len(),
        ensures
            text@ == self.out@ + self.original@.subrange(self.offset as int, self.original@.len() as int),
    {
        let len = self.original.unicode_len();
        self.out.concat(self.original.substring_char(self.offset, len))
    }
}

/// The events can be walked over from left to right: they are in ascending
/// order of position, and none lies behind the end of the text.
spec fn is_walkable(events: Seq<BoundaryEvent>, input_len: int) -> bool {
    &&& forall|k1: int, k2: int|
        0 <= k1 <= k2 < events.len() ==> (#[trigger] events[k1]).position <= (#[trigger] events[k2]).position
    &&& forall|k: int| 0 <= k < events.len() ==> (#[trigger] events[k]).position <= input_len
}

/// The events put in, at every position, the markers that the ranges ask for.
spec fn places_markers_of(events: Seq<BoundaryEvent>, spans: Seq<Span>, markers: MarkerText) -> bool {
    forall|position: int| #[trigger]
        event_markers_at(events, position, markers) == markers_at(spans, position, markers)
}

/// How much of the text has been copied after `done` events.
spec fn offset_after(events: Seq<BoundaryEvent>, done: int) -> int {
    if done <= 0 {
        0
    } else {
        events[done - 1].position as int
    }
}

/// The output put together after `done` events.
spec fn text_after(
    input: Seq<char>,
    spans: Seq<Span>,
    markers: MarkerText,
    events: Seq<BoundaryEvent>,
    done: int,
) -> Seq<char> {
    let offset = offset_after(events, done);
    highlighted_prefix(input, spans, markers, offset) + event_markers_at(events.take(done), offset, markers)
}

/// Over a stretch of text in which no marker is put in, the highlighted text
/// grows by the markers at the start of the stretch and the text itself.
proof fn lemma_stretch_without_markers(
    input: Seq<char>,
    spans: Seq<Span>,
    markers: MarkerText,
    from: int,
    to: int,
)
    requires
        0 <= from < to <= input.len(),
        forall|position: int|
            from < position < to ==> #[trigger] markers_at(spans, position, markers) == Seq::<char>::empty(),
    ensures
        highlighted_prefix(input, spans, markers, to) == highlighted_prefix(input, spans, markers, from)
            + markers_at(spans, from, markers) + input.subrange(from, to),
    decreases to - from,
{
    if from + 1 < to {
        lemma_stretch_without_markers(input, spans, markers, from, to - 1);
        assert(markers_at(spans, to - 1, markers) == Seq::<char>::empty());
        assert(input.subrange(from, to - 1) + seq![input[to - 1]] =~= input.subrange(from, to));
        assert(highlighted_prefix(input, spans, markers, to) =~= highlighted_prefix(input, spans, markers, from)
            + markers_at(spans, from, markers) + input.subrange(from, to));
    } else {
        assert(seq![input[from]] =~= input.subrange(from, to));
        assert(highlighted_prefix(input, spans, markers, from + 1 - 1) == highlighted_prefix(
            input,
            spans,
            markers,
            from,
        ));
    }
}

/// Once the walk has gone past a position, the events taken so far hold all
/// events at that position.
proof fn lemma_events_behind_are_taken(
    events: Seq<BoundaryEvent>,
    done: int,
    position: int,
    markers: MarkerText,
)
    requires
        0 <= done <= events.len(),
        forall|k: int| done <= k < events.len() ==> (#[trigger] events[k]).position != position,
    ensures
        event_markers_at(events.take(done), position, markers) == event_markers_at(events, position, markers),
{
    let taken = events.take(done);
    let ahead = events.skip(done);
    assert(events =~= taken + ahead);
    Seq::filter_distributes_over_add(taken, ahead, is_at(position));
    assert forall|k: int| 0 <= k < ahead.len() implies !is_at(position)(#[trigger] ahead[k]) by {
        assert(ahead[k] == events[done + k]);
    }
    lemma_nothing_selected(ahead, is_at(position));
    assert(taken.filter(is_at(position)) + Seq::<BoundaryEvent>::empty() =~= taken.filter(is_at(position)));
}

/// Where no event lies at a position, no marker is put in there.
proof fn lemma_no_event_no_marker(events: Seq<BoundaryEvent>, position: int, markers: MarkerText)
    requires
        forall|k: int| 0 <= k < events.len() ==> (#[trigger] events[k]).position != position,
    ensures
        event_markers_at(events, position, markers) == Seq::<char>::empty(),
{
    assert forall|k: int| 0 <= k < events.len() implies !is_at(position)(#[trigger] events[k]) by {}
    lemma_nothing_selected(events, is_at(position));
}

/// One step of the walk: copying the text up to the next event and putting
/// in its marker leads from the output after `done` events to the output
/// after one event more.
proof fn lemma_walk_step(
    input: Seq<char>,
    spans: Seq<Span>,
    markers: MarkerText,
    events: Seq<BoundaryEvent>,
    done: int,
)
    requires
        is_walkable(events, input.len() as int),
        places_markers_of(events, spans, markers),
        0 <= done < events.len(),
    ensures
        0 <= offset_after(events, done) <= events[done].position <= input.len(),
        text_after(input, spans, markers, events, done + 1) == text_after(input, spans, markers, events, done)
            + input.subrange(offset_after(events, done), events[done].position as int) + marker_of(
            events[done].kind,
            markers,
        ),
{
    let from = offset_after(events, done);
    let to = events[done].position as int;
    let taken = events.take(done);
    if done > 0 {
        assert(events[done - 1].position <= events[done].position);
    }
    assert(events.take(done + 1) =~= taken.push(events[done]));
    lemma_event_markers_push(taken, events[done], to, markers);
    if from == to {
        assert(input.subrange(from, to) =~= Seq::<char>::empty());
        assert(text_after(input, spans, markers, events, done + 1) =~= text_after(
            input,
            spans,
            markers,
            events,
            done,
        ) + input.subrange(from, to) + marker_of(events[done].kind, markers));
    } else {
        assert forall|k: int| 0 <= k < taken.len() implies (#[trigger] taken[k]).position != to by {
            assert(taken[k] == events[k]);
            assert(events[k].position <= events[done - 1].position);
        }
        lemma_no_event_no_marker(taken, to, markers);
        assert forall|k: int| done <= k < events.len() implies (#[trigger] events[k]).position != from by {
            assert(events[done].position <= events[k].position);
        }
        lemma_events_behind_are_taken(events, done, from, markers);
        assert(event_markers_at(events, from, markers) == markers_at(spans, from, markers));
        assert forall|position: int| from < position < to implies #[trigger] markers_at(
            spans,
            position,
            markers,
        ) == Seq::<char>::empty() by {
            assert forall|k: int| 0 <= k < events.len() implies (#[trigger] events[k]).position != position by {
                if k < done {
                    if done > 0 {
                        assert(events[k].position <= events[done - 1].position);
                    }
                } else {
                    assert(events[done].position <= events[k].position);
                }
            }
            lemma_no_event_no_marker(events, position, markers);
            assert(event_markers_at(events, position, markers) == markers_at(spans, position, markers));
        }
        lemma_stretch_without_markers(input, spans, markers, from, to);
        assert(text_after(input, spans, markers, events, done + 1) =~= text_after(
            input,
            spans,
            markers,
            events,
            done,
        ) + input.subrange(from, to) + marker_of(events[done].kind, markers));
    }
}

/// The end of the walk: the output after all events, followed by what is
/// left of the text, is the highlighted text.
proof fn lemma_walk_end(input: Seq<char>, spans: Seq<Span>, markers: MarkerText, events: Seq<BoundaryEvent>)
    requires
        is_walkable(events, input.len() as int),
        places_markers_of(events, spans, markers),
    ensures
        0 <= offset_after(events, events.len() as int) <= input.len(),
        highlighted(input, spans, markers) == text_after(input, spans, markers, events, events.len() as int)
            + input.subrange(offset_after(events, events.len() as int), input.len() as int),
{
    let done = events.len() as int;
    let from = offset_after(events, done);
    let to = input.len() as int;
    assert(events.take(done) =~= events);
    assert(event_markers_at(events, from, markers) == markers_at(spans, from, markers));
    if from == to {
        assert(input.subrange(from, to) =~= Seq::<char>::empty());
        assert(highlighted(input, spans, markers) =~= text_after(input, spans, markers, events, done)
            + input.subrange(from, to));
    } else {
        assert forall|position: int| from < position <= to implies #[trigger] markers_at(
            spans,
            position,
            markers,
        ) == Seq::<char>::empty() by {
            assert forall|k: int| 0 <= k < events.len() implies (#[trigger] events[k]).position != position by {
                assert(events[k].position <= events[done - 1].position);
            }
            lemma_no_event_no_marker(events, position, markers);
            assert(event_markers_at(events, position, markers) == markers_at(spans, position, markers));
        }
        lemma_stretch_without_markers(input, spans, markers, from, to);
        assert(markers_at(spans, to, markers) == Seq::<char>::empty());
        assert(highlighted(input, spans, markers) =~= text_after(input, spans, markers, events, done)
            + input.subrange(from, to));
    }
}

/// The sorted events of ranges that lie within the text can be walked over,
/// and they put in the markers that the ranges ask for.
proof fn lemma_sorted_events_fit(
    input_len: int,
    spans: Seq<Span>,
    markers: MarkerText,
    events: Seq<BoundaryEvent>,
    sorted: Seq<BoundaryEvent>,
)
    requires
        all_within_bounds(input_len, spans),
        is_event_list(events, spans),
        is_stable_sort(events, sorted),
    ensures
        sorted.len() == events.len(),
        is_walkable(sorted, input_len),
        places_markers_of(sorted, spans, markers),
{
    lemma_stable_sort_is_ascending(events, sorted);
    lemma_stable_sort_keeps_the_values(events, sorted);
    assert forall|k: int| 0 <= k < sorted.len() implies (#[trigger] sorted[k]).position <= input_len by {
        let from = choose|from: int| 0 <= from < events.len() && events[from] == sorted[k];
        let i = from / 2;
        assert(within_bounds(input_len, spans[i]));
        assert(from == 2 * i || from == 2 * i + 1);
    }
    assert forall|position: int| #[trigger]
        event_markers_at(sorted, position, markers) == markers_at(spans, position, markers) by {
        lemma_events_at_position_by_rank(sorted, position);
        lemma_marker_text_add(
            sorted.filter(has_key(closing_key(position))),
            sorted.filter(has_key(opening_key(position))),
            markers,
        );
        lemma_stable_sort_keeps_order_within_key(events, sorted, closing_key(position));
        lemma_stable_sort_keeps_order_within_key(events, sorted, opening_key(position));
        lemma_events_place_the_markers(events, spans, position, markers);
    }
}

/// Puts the given markers around every range of `input`. Positions count
/// characters.
///
/// The ranges are validated first; where they are rejected, no text is put
/// together. At a position at which one range ends and another starts, the
/// closing marker of the one stands before the opening marker of the other.
pub fn highlight_text_with(input: &str, highlights: Vec<HighlightRange>, markers: &HighlightMarkers) -> (res:
    Result<String, HighlightingError>)
    ensures
        text_of(res) == highlighting(input@, spans_of(highlights@), markers@),
        highlights@.len() == 0 ==> text_of(res) == Ok::<Seq<char>, HighlightingError>(input@),
        res is Ok ==> res->Ok_0@.len() == input@.len() + highlights@.len() * markers@.len_per_range(),
        res is Ok ==> without_markers(res->Ok_0@, spans_of(highlights@), markers@) == input@,
{
    let input_len = input.unicode_len();
    validate_ranges(input_len, &highlights)?;

    let ghost spans = spans_of(highlights@);
    let events = boundary_events(&highlights);
    let sorted = stable_sort_by_key(&events);
    proof {
        lemma_sorted_events_fit(input_len as int, spans, markers@, events@, sorted@);
    }

    let mut state = FoldState::from(input);
    let mut done: usize = 0;
    while done < sorted.len()
        invariant
            done <= sorted.len(),
            is_walkable(sorted@, input@.len() as int),
            places_markers_of(sorted@, spans, markers@),
            state.original == input,
            state.offset == offset_after(sorted@, done as int),
            state.out@ == text_after(input@, spans, markers@, sorted@, done as int),
        decreases sorted.len() - done,
    {
        proof {
            lemma_walk_step(input@, spans, markers@, sorted@, done as int);
        }
        state = state.advance(&sorted[done], markers);
        done += 1;
    }
    proof {
        lemma_walk_end(input@, spans, markers@, sorted@);
        lemma_accepted_ranges_fit(input@.len() as int, spans);
        lemma_highlighted_len(input@, spans, markers@);
        lemma_without_markers_restores_input(input@, spans, markers@);
        if highlights@.len() == 0 {
            assert(spans =~= Seq::<Span>::empty());
            lemma_no_ranges_no_change(input@, markers@);
        }
    }
    Ok(state.finish())
}

/// Puts `<em>` and `</em>` around every range of `input`. Positions count
/// characters.
///
/// The ranges are validated first; where they are rejected, no text is put
/// together. At a position at which one range ends and another starts, the
/// closing marker of the one stands before the opening marker of the other.
pub fn highlight_text(input: &str, highlights: Vec<HighlightRange>) -> (res: Result<String, HighlightingError>)
    ensures
        text_of(res) == highlighting(input@, spans_of(highlights@), default_marker_text()),
        highlights@.len() == 0 ==> text_of(res) == Ok::<Seq<char>, HighlightingError>(input@),
        res is Ok ==> res->Ok_0@.len() == input@.len() + 9 * highlights@.len(),
        res is Ok ==> without_markers(res->Ok_0@, spans_of(highlights@), default_marker_text()) == input@,
{
    proof {
        lemma_default_marker_text();
    }
    highlight_text_with(input, highlights, &HighlightMarkers::default())
}

} // verus!
