//! The boundary events of a set of ranges: where a marker goes, and which.

use crate::markup::{
    closing_marker_of_span_at, closing_markers_at, opening_marker_of_span_at, opening_markers_at, MarkerText,
};
use crate::order::{has_key, Keyed};
use crate::range::{spans_of, HighlightRange, Span};
use vstd::prelude::*;

verus! {

/// The two ends of a range.
#[derive(Debug, Clone, Copy, PartialEq, Eq)]
pub enum HighlightingBoundry {
    /// The range starts: the opening marker goes here.
    Start,
    /// The range ends: the closing marker goes here.
    End,
}

/// One end of one range: the position at which a marker is put in, and which
/// of the two markers it is.
#[derive(Debug, Clone, Copy, PartialEq, Eq)]
pub struct BoundaryEvent {
    /// Number of characters of the text that stand before the marker.
    pub position: usize,
    /// Which end of its range the event is.
    pub kind: HighlightingBoundry,
}

impl BoundaryEvent {
    /// The place of the event among the events at its position: ends go
    /// before starts, so that a range is closed before the next one is
    /// opened.
    pub open spec fn rank(&self) -> int {
        match self.kind {
            HighlightingBoundry::End => 0,
            HighlightingBoundry::Start => 1,
        }
    }

    /// Computes the rank of the event.
    fn compute_rank(&self) -> (rank: u8)
        ensures
            rank as int == self.rank(),
    {
        match self.kind {
            HighlightingBoundry::End => 0,
            HighlightingBoundry::Start => 1,
        }
    }
}

/// The key of the events that end a range at `position`.
pub open spec fn closing_key(position: int) -> int {
    2 * position
}

/// The key of the events that start a range at `position`.
pub open spec fn opening_key(position: int) -> int {
    2 * position + 1
}

impl Keyed for BoundaryEvent {
    /// Events are put in order by their position, and events at one position
    /// by their rank.
    open spec fn key(&self) -> int {
        2 * (self.position as int) + self.rank()
    }

    fn sorts_no_later_than(&self, other: &Self) -> (no_later: bool) {
        self.position < other.position || (self.position == other.position && self.compute_rank()
            <= other.compute_rank())
    }
}

/// Selects the events at `position`.
pub open spec fn is_at(position: int) -> spec_fn(BoundaryEvent) -> bool {
    |event: BoundaryEvent| event.position as int == position
}

/// `events` holds two events for each range, in the order of the ranges: one
/// that starts the range at its lower bound, then one that ends it at its
/// upper bound.
pub open spec fn is_event_list(events: Seq<BoundaryEvent>, spans: Seq<Span>) -> bool {
    &&& events.len() == 2 * spans.len()
    &&& forall|i: int|
        0 <= i < spans.len() ==> {
            &&& events[2 * i].position as int == (#[trigger] spans[i]).lower
            &&& events[2 * i].kind == HighlightingBoundry::Start
            &&& events[2 * i + 1].position as int == spans[i].upper
            &&& events[2 * i + 1].kind == HighlightingBoundry::End
        }
}

/// The marker that an event of this kind puts in.
pub open spec fn marker_of(kind: HighlightingBoundry, markers: MarkerText) -> Seq<char> {
    match kind {
        HighlightingBoundry::Start => markers.open,
        HighlightingBoundry::End => markers.close,
    }
}

/// The markers of the given events, one after the other.
pub open spec fn marker_text(events: Seq<BoundaryEvent>, markers: MarkerText) -> Seq<char>
    decreases events.len(),
{
    if events.len() == 0 {
        Seq::empty()
    } else {
        marker_text(events.drop_last(), markers) + marker_of(events.last().kind, markers)
    }
}

/// The markers that the events at `position` put in, in the order of the
/// events.
pub open spec fn event_markers_at(events: Seq<BoundaryEvent>, position: int, markers: MarkerText) -> Seq<
    char,
> {
    marker_text(events.filter(is_at(position)), markers)
}

/// One more event adds its marker to the markers of the events.
pub proof fn lemma_marker_text_push(events: Seq<BoundaryEvent>, event: BoundaryEvent, markers: MarkerText)
    ensures
        marker_text(events.push(event), markers) == marker_text(events, markers) + marker_of(event.kind, markers),
{
    assert(events.push(event).drop_last() =~= events);
}

/// The markers of two runs of events are those of the first run and then
/// those of the second.
pub proof fn lemma_marker_text_add(first: Seq<BoundaryEvent>, second: Seq<BoundaryEvent>, markers: MarkerText)
    ensures
        marker_text(first + second, markers) == marker_text(first, markers) + marker_text(second, markers),
    decreases second.len(),
{
    if second.len() == 0 {
        assert(first + second =~= first);
        assert(marker_text(first, markers) + marker_text(second, markers) =~= marker_text(first, markers));
    } else {
        lemma_marker_text_add(first, second.drop_last(), markers);
        assert((first + second).drop_last() =~= first + second.drop_last());
        assert(marker_text(first + second, markers) =~= marker_text(first, markers) + marker_text(
            second,
            markers,
        ));
    }
}

/// One more event adds its marker at its own position and nothing elsewhere.
pub proof fn lemma_event_markers_push(
    events: Seq<BoundaryEvent>,
    event: BoundaryEvent,
    position: int,
    markers: MarkerText,
)
    ensures
        event.position == position ==> event_markers_at(events.push(event), position, markers)
            == event_markers_at(events, position, markers) + marker_of(event.kind, markers),
        event.position != position ==> event_markers_at(events.push(event), position, markers)
            == event_markers_at(events, position, markers),
{
    events.lemma_filter_push(event, is_at(position));
    if event.position == position {
        lemma_marker_text_push(events.filter(is_at(position)), event, markers);
    }
}

/// Selecting events by a key picks, from one more event, that event where it
/// has the key.
proof fn lemma_selected_markers_push(
    events: Seq<BoundaryEvent>,
    event: BoundaryEvent,
    k: int,
    markers: MarkerText,
)
    ensures
        event.key() == k ==> marker_text(events.push(event).filter(has_key(k)), markers) == marker_text(
            events.filter(has_key(k)),
            markers,
        ) + marker_of(event.kind, markers),
        event.key() != k ==> marker_text(events.push(event).filter(has_key(k)), markers) == marker_text(
            events.filter(has_key(k)),
            markers,
        ),
{
    events.lemma_filter_push(event, has_key(k));
    if event.key() == k {
        lemma_marker_text_push(events.filter(has_key(k)), event, markers);
    }
}

/// Of the events of a set of ranges, the ends at a position put in the
/// closing markers that the ranges ask for there, and the starts the opening
/// markers.
pub proof fn lemma_events_place_the_markers(
    events: Seq<BoundaryEvent>,
    spans: Seq<Span>,
    position: int,
    markers: MarkerText,
)
    requires
        is_event_list(events, spans),
    ensures
        marker_text(events.filter(has_key(closing_key(position))), markers) == closing_markers_at(
            spans,
            position,
            markers,
        ),
        marker_text(events.filter(has_key(opening_key(position))), markers) == opening_markers_at(
            spans,
            position,
            markers,
        ),
    decreases spans.len(),
{
    if spans.len() == 0 {
        reveal(Seq::filter);
        assert(events.filter(has_key(closing_key(position))) =~= Seq::<BoundaryEvent>::empty());
        assert(events.filter(has_key(opening_key(position))) =~= Seq::<BoundaryEvent>::empty());
    } else {
        let last = spans.len() - 1;
        let earlier_spans = spans.drop_last();
        let earlier = events.take(2 * last);
        let start = events[2 * last];
        let end = events[2 * last + 1];
        assert forall|i: int| 0 <= i < earlier_spans.len() implies {
            &&& earlier[2 * i].position as int == (#[trigger] earlier_spans[i]).lower
            &&& earlier[2 * i].kind == HighlightingBoundry::Start
            &&& earlier[2 * i + 1].position as int == earlier_spans[i].upper
            &&& earlier[2 * i + 1].kind == HighlightingBoundry::End
        } by {
            assert(earlier_spans[i] == spans[i]);
        }
        lemma_events_place_the_markers(earlier, earlier_spans, position, markers);
        assert(spans[last] == spans.last());
        assert(events =~= earlier.push(start).push(end));
        lemma_selected_markers_push(earlier, start, closing_key(position), markers);
        lemma_selected_markers_push(earlier.push(start), end, closing_key(position), markers);
        lemma_selected_markers_push(earlier, start, opening_key(position), markers);
        lemma_selected_markers_push(earlier.push(start), end, opening_key(position), markers);
        assert(marker_text(events.filter(has_key(closing_key(position))), markers) =~= closing_markers_at(
            earlier_spans,
            position,
            markers,
        ) + closing_marker_of_span_at(spans.last(), position, markers));
        assert(marker_text(events.filter(has_key(opening_key(position))), markers) =~= opening_markers_at(
            earlier_spans,
            position,
            markers,
        ) + opening_marker_of_span_at(spans.last(), position, markers));
    }
}

/// Among events in ascending order of their keys, the events at a position
/// are the ends at that position and then the starts.
pub proof fn lemma_events_at_position_by_rank(events: Seq<BoundaryEvent>, position: int)
    requires
        forall|k1: int, k2: int|
            0 <= k1 <= k2 < events.len() ==> (#[trigger] events[k1]).key() <= (#[trigger] events[k2]).key(),
    ensures
        events.filter(is_at(position)) == events.filter(has_key(closing_key(position))) + events.filter(
            has_key(opening_key(position)),
        ),
    decreases events.len(),
{
    reveal(Seq::filter);
    let first = events.filter(has_key(closing_key(position)));
    let last = events.filter(has_key(opening_key(position)));
    if events.len() == 0 {
        assert(events.filter(is_at(position)) =~= first + last);
    } else {
        let earlier = events.drop_last();
        let event = events.last();
        assert forall|k1: int, k2: int| 0 <= k1 <= k2 < earlier.len() implies (#[trigger] earlier[k1]).key() <= (
        #[trigger] earlier[k2]).key() by {
            assert(earlier[k1] == events[k1] && earlier[k2] == events[k2]);
        }
        lemma_events_at_position_by_rank(earlier, position);
        if event.key() == closing_key(position) {
            assert forall|k: int| 0 <= k < earlier.len() implies !has_key::<BoundaryEvent>(opening_key(position))(
                #[trigger] earlier[k],
            ) by {
                assert(earlier[k] == events[k]);
                assert(events[k].key() <= events[events.len() - 1].key());
            }
            crate::order::lemma_nothing_selected(earlier, has_key(opening_key(position)));
        }
        assert(events.filter(is_at(position)) =~= first + last);
    }
}

/// Lists the boundary events of the ranges: for each range in turn its start
/// and then its end.
pub fn boundary_events(highlights: &Vec<HighlightRange>) -> (events: Vec<BoundaryEvent>)
    ensures
        is_event_list(events@, spans_of(highlights@)),
{
    let ghost spans = spans_of(highlights@);
    let mut events: Vec<BoundaryEvent> = Vec::new();
    for i in 0..highlights.len()
        invariant
            spans == spans_of(highlights@),
            is_event_list(events@, spans.take(i as int)),
    {
        let hr = &highlights[i];
        let ghost before = events@;
        events.push(BoundaryEvent { position: hr.lower() as usize, kind: HighlightingBoundry::Start });
        events.push(BoundaryEvent { position: hr.upper() as usize, kind: HighlightingBoundry::End });
        proof {
            let done = spans.take(i + 1);
            assert forall|j: int| 0 <= j < done.len() implies {
                &&& events@[2 * j].position as int == (#[trigger] done[j]).lower
                &&& events@[2 * j].kind == HighlightingBoundry::Start
                &&& events@[2 * j + 1].position as int == done[j].upper
                &&& events@[2 * j + 1].kind == HighlightingBoundry::End
            } by {
                if j < i {
                    assert(spans.take(i as int)[j] == done[j]);
                    assert(events@[2 * j] == before[2 * j]);
                    assert(events@[2 * j + 1] == before[2 * j + 1]);
                } else {
                    assert(done[j] == hr@);
                }
            }
            assert(is_event_list(events@, done));
        }
    }
    assert(spans.take(highlights@.len() as int) =~= spans);
    events
}

} // verus!
