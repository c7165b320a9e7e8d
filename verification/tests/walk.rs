use highlighter::{
    boundary_events, highlight_text_with, stable_sort_by_key, BoundaryEvent, FoldState, HighlightMarkers,
    HighlightRange, HighlightingBoundry, HighlightingError, Keyed,
};

fn event(position: usize, kind: HighlightingBoundry) -> BoundaryEvent {
    BoundaryEvent { position, kind }
}

fn square_brackets() -> HighlightMarkers {
    HighlightMarkers { open_marker: String::from("["), close_marker: String::from("]") }
}

#[test]
fn default_markers_are_emphasis_tags() {
    let markers = HighlightMarkers::default();
    assert_eq!("<em>", markers.open_marker);
    assert_eq!("</em>", markers.close_marker);
}

#[test]
fn cloned_markers_are_equal() {
    let markers = square_brackets();
    assert_eq!(markers, markers.clone());
}

#[test]
fn other_markers_are_put_in() {
    let actual = highlight_text_with(
        "Hello world",
        vec![HighlightRange::new(0, 5), HighlightRange::new(5, 11)],
        &square_brackets(),
    );
    assert_eq!(Ok(String::from("[Hello][ world]")), actual);
}

#[test]
fn other_markers_count_for_the_length() {
    let markers = HighlightMarkers { open_marker: String::from("<<"), close_marker: String::from(">>>") };
    let input = "Hello world";
    let actual =
        highlight_text_with(input, vec![HighlightRange::new(6, 11), HighlightRange::new(1, 2)], &markers).unwrap();
    assert_eq!("H<<e>>>llo <<world>>>", actual);
    assert_eq!(input.len() + 2 * (2 + 3), actual.len());
}

#[test]
fn empty_markers_leave_the_text_as_it_is() {
    let markers = HighlightMarkers { open_marker: String::new(), close_marker: String::new() };
    let actual = highlight_text_with("Hello world", vec![HighlightRange::new(2, 7)], &markers);
    assert_eq!(Ok(String::from("Hello world")), actual);
}

#[test]
fn other_markers_do_not_change_validation() {
    let actual = highlight_text_with(
        "Hello world",
        vec![HighlightRange::new(0, 5), HighlightRange::new(3, 11)],
        &square_brackets(),
    );
    assert_eq!(Err(HighlightingError::OverlappingRanges), actual);
    let actual = highlight_text_with("Hello world", vec![HighlightRange::new(0, 50)], &square_brackets());
    assert_eq!(Err(HighlightingError::RangesOutOfBounds), actual);
}

#[test]
fn every_range_gives_a_start_and_an_end() {
    let events = boundary_events(&vec![HighlightRange::new(6, 11), HighlightRange::new(5, 0)]);
    assert_eq!(
        vec![
            event(6, HighlightingBoundry::Start),
            event(11, HighlightingBoundry::End),
            event(0, HighlightingBoundry::Start),
            event(5, HighlightingBoundry::End),
        ],
        events
    );
}

#[test]
fn a_range_without_characters_gives_two_events_at_one_position() {
    let events = boundary_events(&vec![HighlightRange::new(4, 4)]);
    assert_eq!(vec![event(4, HighlightingBoundry::Start), event(4, HighlightingBoundry::End)], events);
}

#[test]
fn no_ranges_give_no_events() {
    assert_eq!(Vec::<BoundaryEvent>::new(), boundary_events(&vec![]));
}

#[test]
fn ranges_are_ordered_by_their_lower_bound() {
    let range = HighlightRange::new(9, 3);
    assert!(range.sorts_no_later_than(&HighlightRange::new(4, 5)));
    assert!(range.sorts_no_later_than(&HighlightRange::new(3, 3)));
    assert!(range.sorts_no_later_than(&range));
    assert!(!range.sorts_no_later_than(&HighlightRange::new(2, 20)));
}

#[test]
fn events_are_ordered_by_position_and_ends_go_first() {
    let end = event(7, HighlightingBoundry::End);
    let start = event(7, HighlightingBoundry::Start);
    assert!(end.sorts_no_later_than(&start));
    assert!(!start.sorts_no_later_than(&end));
    assert!(start.sorts_no_later_than(&start));
    assert!(end.sorts_no_later_than(&end));
    assert!(start.sorts_no_later_than(&event(8, HighlightingBoundry::End)));
    assert!(!end.sorts_no_later_than(&event(6, HighlightingBoundry::Start)));
}

#[test]
fn sorting_puts_events_in_order_of_position() {
    let events = vec![
        event(6, HighlightingBoundry::Start),
        event(11, HighlightingBoundry::End),
        event(0, HighlightingBoundry::Start),
        event(5, HighlightingBoundry::End),
    ];
    assert_eq!(
        vec![
            event(0, HighlightingBoundry::Start),
            event(5, HighlightingBoundry::End),
            event(6, HighlightingBoundry::Start),
            event(11, HighlightingBoundry::End),
        ],
        stable_sort_by_key(&events)
    );
}

#[test]
fn sorting_puts_ends_before_starts_at_one_position() {
    let events = vec![
        event(5, HighlightingBoundry::Start),
        event(9, HighlightingBoundry::End),
        event(2, HighlightingBoundry::Start),
        event(5, HighlightingBoundry::End),
    ];
    assert_eq!(
        vec![
            event(2, HighlightingBoundry::Start),
            event(5, HighlightingBoundry::End),
            event(5, HighlightingBoundry::Start),
            event(9, HighlightingBoundry::End),
        ],
        stable_sort_by_key(&events)
    );
}

#[test]
fn sorting_many_events() {
    let mut events = Vec::new();
    let mut expected = Vec::new();
    for i in 0..200usize {
        events.push(event(199 - i, HighlightingBoundry::Start));
        events.push(event(199 - i, HighlightingBoundry::End));
        expected.push(event(i, HighlightingBoundry::End));
        expected.push(event(i, HighlightingBoundry::Start));
    }
    assert_eq!(expected, stable_sort_by_key(&events));
}

#[test]
fn sorting_keeps_the_order_of_ranges_with_one_lower_bound() {
    let ranges = vec![
        HighlightRange::new(4, 9),
        HighlightRange::new(4, 6),
        HighlightRange::new(1, 2),
        HighlightRange::new(4, 4),
        HighlightRange::new(0, 8),
    ];
    assert_eq!(
        vec![
            HighlightRange::new(0, 8),
            HighlightRange::new(1, 2),
            HighlightRange::new(4, 9),
            HighlightRange::new(4, 6),
            HighlightRange::new(4, 4),
        ],
        stable_sort_by_key(&ranges)
    );
}

#[test]
fn sorting_nothing_or_one_value() {
    assert_eq!(Vec::<BoundaryEvent>::new(), stable_sort_by_key(&Vec::<BoundaryEvent>::new()));
    let one = vec![event(3, HighlightingBoundry::End)];
    assert_eq!(one, stable_sort_by_key(&one));
}

#[test]
fn sorting_does_not_change_its_argument() {
    let events = vec![event(6, HighlightingBoundry::Start), event(0, HighlightingBoundry::End)];
    let sorted = stable_sort_by_key(&events);
    assert_eq!(vec![event(6, HighlightingBoundry::Start), event(0, HighlightingBoundry::End)], events);
    assert_eq!(vec![event(0, HighlightingBoundry::End), event(6, HighlightingBoundry::Start)], sorted);
}

#[test]
fn the_walk_starts_with_nothing() {
    let state = FoldState::from("Hello world");
    assert_eq!("", state.out);
    assert_eq!(0, state.offset);
    assert_eq!("Hello world", state.original);
}

#[test]
fn a_step_copies_the_text_and_puts_in_the_marker() {
    let markers = HighlightMarkers::default();
    let state = FoldState::from("Hello world");
    let state = state.advance(&event(0, HighlightingBoundry::Start), &markers);
    assert_eq!("<em>", state.out);
    assert_eq!(0, state.offset);
    let state = state.advance(&event(5, HighlightingBoundry::End), &markers);
    assert_eq!("<em>Hello</em>", state.out);
    assert_eq!(5, state.offset);
    assert_eq!("Hello world", state.original);
    let state = state.advance(&event(11, HighlightingBoundry::Start), &markers);
    assert_eq!("<em>Hello</em> world<em>", state.out);
    assert_eq!(11, state.offset);
}

#[test]
fn the_end_of_the_walk_copies_the_rest() {
    let markers = HighlightMarkers::default();
    let state = FoldState::from("Hello world");
    assert_eq!("Hello world", FoldState::from("Hello world").finish());
    let state = state.advance(&event(6, HighlightingBoundry::End), &markers);
    assert_eq!("Hello </em>world", state.finish());
    let at_end = FoldState { out: String::from("x"), offset: 11, original: "Hello world" };
    assert_eq!("x", at_end.finish());
}
