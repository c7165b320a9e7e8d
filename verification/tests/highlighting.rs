use highlighter::{highlight_text, HighlightRange, HighlightingError};

#[test]
fn should_swap_false_upper_and_lower() {
    assert_eq!(HighlightRange::new(0, 5), HighlightRange::new(5, 0));
}

#[test]
fn should_hightlight() {
    let actual = highlight_text("Hello world", vec![HighlightRange::new(0, 5)]).unwrap();

    assert_eq!("<em>Hello</em> world", actual);
}

#[test]
fn should_hightlight_multiple_ranges() {
    let actual = highlight_text(
        "Hello world",
        vec![HighlightRange::new(0, 5), HighlightRange::new(6, 11)],
    )
    .unwrap();

    assert_eq!("<em>Hello</em> <em>world</em>", actual);
}

#[test]
fn should_hightlight_multiple_ranges_when_ranges_touch() {
    let actual = highlight_text(
        "Hello world",
        vec![HighlightRange::new(0, 5), HighlightRange::new(5, 11)],
    )
    .unwrap();

    assert_eq!("<em>Hello</em><em> world</em>", actual);
}

#[test]
fn should_return_err_invalid_ranges() {
    let actual = highlight_text(
        "Hello world",
        vec![HighlightRange::new(0, 5), HighlightRange::new(4, 11)],
    );

    assert_eq!(Err(HighlightingError::OverlappingRanges), actual);
}

#[test]
fn should_return_err_out_of_bounds() {
    let actual = highlight_text("Hello world", vec![HighlightRange::new(0, 50)]);

    assert_eq!(Err(HighlightingError::RangesOutOfBounds), actual);
}

#[test]
fn bounds_given_in_order_are_kept() {
    let range = HighlightRange::new(3, 9);
    assert_eq!(3, range.lower());
    assert_eq!(9, range.upper());
}

#[test]
fn bounds_given_in_reverse_are_swapped() {
    let range = HighlightRange::new(9, 3);
    assert_eq!(3, range.lower());
    assert_eq!(9, range.upper());
    assert_eq!(HighlightRange::new(3, 9), range);
}

#[test]
fn equal_bounds_give_a_range_without_characters() {
    let range = HighlightRange::new(4, 4);
    assert_eq!(4, range.lower());
    assert_eq!(4, range.upper());
}

#[test]
fn largest_bounds_are_accepted() {
    let range = HighlightRange::new(u32::MAX, 0);
    assert_eq!(0, range.lower());
    assert_eq!(u32::MAX, range.upper());
}

#[test]
fn different_ranges_are_not_equal() {
    assert_ne!(HighlightRange::new(0, 5), HighlightRange::new(0, 6));
    assert_ne!(HighlightRange::new(0, 5), HighlightRange::new(1, 5));
}

#[test]
fn no_ranges_leave_the_text_as_it_is() {
    assert_eq!(Ok(String::from("Hello world")), highlight_text("Hello world", vec![]));
    assert_eq!(Ok(String::new()), highlight_text("", vec![]));
}

#[test]
fn overlap_is_rejected() {
    let actual = highlight_text(
        "Hello world",
        vec![HighlightRange::new(0, 5), HighlightRange::new(3, 11)],
    );
    assert_eq!(Err(HighlightingError::OverlappingRanges), actual);
}

#[test]
fn overlap_is_rejected_in_any_order() {
    let actual = highlight_text(
        "Hello world",
        vec![HighlightRange::new(3, 11), HighlightRange::new(0, 5)],
    );
    assert_eq!(Err(HighlightingError::OverlappingRanges), actual);
}

#[test]
fn the_same_range_twice_overlaps() {
    let actual = highlight_text(
        "Hello world",
        vec![HighlightRange::new(0, 5), HighlightRange::new(0, 5)],
    );
    assert_eq!(Err(HighlightingError::OverlappingRanges), actual);
}

#[test]
fn a_range_inside_another_overlaps() {
    let actual = highlight_text(
        "Hello world",
        vec![HighlightRange::new(0, 11), HighlightRange::new(3, 5)],
    );
    assert_eq!(Err(HighlightingError::OverlappingRanges), actual);
}

#[test]
fn a_range_may_end_with_the_text() {
    let actual = highlight_text("Hello world", vec![HighlightRange::new(6, 11)]);
    assert_eq!(Ok(String::from("Hello <em>world</em>")), actual);
}

#[test]
fn a_range_may_cover_the_whole_text() {
    let actual = highlight_text("Hello world", vec![HighlightRange::new(0, 11)]);
    assert_eq!(Ok(String::from("<em>Hello world</em>")), actual);
}

#[test]
fn a_range_may_not_end_behind_the_text() {
    let actual = highlight_text("Hello world", vec![HighlightRange::new(6, 12)]);
    assert_eq!(Err(HighlightingError::RangesOutOfBounds), actual);
}

#[test]
fn a_range_may_not_start_at_the_end_of_the_text() {
    let actual = highlight_text("Hello world", vec![HighlightRange::new(11, 11)]);
    assert_eq!(Err(HighlightingError::RangesOutOfBounds), actual);
    let actual = highlight_text("Hello world", vec![HighlightRange::new(11, 12)]);
    assert_eq!(Err(HighlightingError::RangesOutOfBounds), actual);
}

#[test]
fn an_empty_text_takes_no_range() {
    let actual = highlight_text("", vec![HighlightRange::new(0, 0)]);
    assert_eq!(Err(HighlightingError::RangesOutOfBounds), actual);
    let actual = highlight_text("", vec![HighlightRange::new(0, 1)]);
    assert_eq!(Err(HighlightingError::RangesOutOfBounds), actual);
}

#[test]
fn bounds_are_judged_before_overlap() {
    let actual = highlight_text(
        "Hello world",
        vec![HighlightRange::new(0, 5), HighlightRange::new(3, 50)],
    );
    assert_eq!(Err(HighlightingError::RangesOutOfBounds), actual);
    let actual = highlight_text(
        "Hello world",
        vec![
            HighlightRange::new(0, 5),
            HighlightRange::new(3, 8),
            HighlightRange::new(20, 30),
        ],
    );
    assert_eq!(Err(HighlightingError::RangesOutOfBounds), actual);
}

#[test]
fn ranges_may_be_given_in_any_order() {
    let actual = highlight_text(
        "Hello world",
        vec![HighlightRange::new(6, 11), HighlightRange::new(0, 5)],
    );
    assert_eq!(Ok(String::from("<em>Hello</em> <em>world</em>")), actual);
}

#[test]
fn the_text_grows_by_nine_characters_for_every_range() {
    let input = "Hello world";
    let one = highlight_text(input, vec![HighlightRange::new(2, 4)]).unwrap();
    assert_eq!(input.len() + 9, one.len());
    let three = highlight_text(
        input,
        vec![
            HighlightRange::new(8, 11),
            HighlightRange::new(0, 1),
            HighlightRange::new(1, 8),
        ],
    )
    .unwrap();
    assert_eq!(input.len() + 27, three.len());
    assert_eq!("<em>H</em><em>ello wo</em><em>rld</em>", three);
}

#[test]
fn taking_the_markers_out_gives_the_text_back() {
    let input = "Hello world";
    let actual = highlight_text(
        input,
        vec![
            HighlightRange::new(7, 9),
            HighlightRange::new(0, 5),
            HighlightRange::new(5, 7),
        ],
    )
    .unwrap();
    assert_eq!("<em>Hello</em><em> w</em><em>or</em>ld", actual);
    assert_eq!(input, actual.replace("</em>", "").replace("<em>", ""));
}

#[test]
fn positions_count_characters() {
    let actual = highlight_text("héllo wörld", vec![HighlightRange::new(0, 5)]);
    assert_eq!(Ok(String::from("<em>héllo</em> wörld")), actual);
    let actual = highlight_text("héllo wörld", vec![HighlightRange::new(6, 11)]);
    assert_eq!(Ok(String::from("héllo <em>wörld</em>")), actual);
    let actual = highlight_text("héllo wörld", vec![HighlightRange::new(6, 12)]);
    assert_eq!(Err(HighlightingError::RangesOutOfBounds), actual);
}

#[test]
fn many_ranges_given_from_right_to_left() {
    let count: u32 = 500;
    let mut input = String::new();
    let mut expected = String::new();
    let mut ranges = Vec::new();
    for i in 0..count {
        input.push_str("ab");
        expected.push_str("<em>a</em>b");
        ranges.push(HighlightRange::new(2 * (count - 1 - i), 2 * (count - 1 - i) + 1));
    }
    assert_eq!(Ok(expected), highlight_text(&input, ranges));
}

#[test]
fn touching_ranges_given_in_reverse_are_closed_before_the_next_opens() {
    let actual = highlight_text(
        "Hello world",
        vec![HighlightRange::new(5, 11), HighlightRange::new(0, 5)],
    );
    assert_eq!(Ok(String::from("<em>Hello</em><em> world</em>")), actual);
}

#[test]
fn the_order_of_the_ranges_does_not_matter() {
    let expected = Ok(String::from("<em>He</em>l<em>lo</em><em> wor</em>ld"));
    let first = HighlightRange::new(0, 2);
    let second = HighlightRange::new(3, 5);
    let third = HighlightRange::new(5, 9);
    assert_eq!(expected, highlight_text("Hello world", vec![first, second, third]));
    assert_eq!(expected, highlight_text("Hello world", vec![first, third, second]));
    assert_eq!(expected, highlight_text("Hello world", vec![second, first, third]));
    assert_eq!(expected, highlight_text("Hello world", vec![second, third, first]));
    assert_eq!(expected, highlight_text("Hello world", vec![third, first, second]));
    assert_eq!(expected, highlight_text("Hello world", vec![third, second, first]));
}

#[test]
fn a_range_without_characters_is_out_of_bounds() {
    let actual = highlight_text("Hello world", vec![HighlightRange::new(3, 3)]);
    assert_eq!(Err(HighlightingError::RangesOutOfBounds), actual);
    let actual = highlight_text("Hello world", vec![HighlightRange::new(0, 0)]);
    assert_eq!(Err(HighlightingError::RangesOutOfBounds), actual);
}

#[test]
fn a_range_without_characters_is_out_of_bounds_among_other_ranges() {
    let actual = highlight_text(
        "Hello world",
        vec![HighlightRange::new(3, 3), HighlightRange::new(3, 5)],
    );
    assert_eq!(Err(HighlightingError::RangesOutOfBounds), actual);
    let actual = highlight_text(
        "Hello world",
        vec![HighlightRange::new(3, 5), HighlightRange::new(3, 3)],
    );
    assert_eq!(Err(HighlightingError::RangesOutOfBounds), actual);
    let actual = highlight_text(
        "Hello world",
        vec![HighlightRange::new(0, 5), HighlightRange::new(7, 7), HighlightRange::new(3, 9)],
    );
    assert_eq!(Err(HighlightingError::RangesOutOfBounds), actual);
}

#[test]
fn a_range_of_one_character() {
    let actual = highlight_text("Hello world", vec![HighlightRange::new(10, 11), HighlightRange::new(0, 1)]);
    assert_eq!(Ok(String::from("<em>H</em>ello worl<em>d</em>")), actual);
}
