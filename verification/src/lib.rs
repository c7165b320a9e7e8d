//! Annotates plain text with highlight markers: given a text and a set of
//! ranges, it gives the text with an opening marker put in where each range
//! starts and a closing marker where it ends.
//!
//! Positions count characters (Unicode scalar values), not bytes, both when
//! the ranges are validated and when the markers are put in.
//!
//! Highlighting works in two steps. [`validate_ranges`] checks that every
//! range holds at least one character and lies within the text, and that no
//! two ranges overlap; ranges that touch are accepted. [`highlight_text`]
//! then lists the two boundary events of every range, sorts them by position
//! and walks over them from left to right, copying the text between them.
//! Where the ranges are rejected, no text is put together at all.
//!
//! The ranges are taken as a set: the order in which they are given changes
//! nothing. Where one range ends at the position at which another starts,
//! the closing marker of the one is put in before the opening marker of the
//! other: `[(0, 5), (5, 11)]` turns `Hello world` into
//! `<em>Hello</em><em> world</em>`.

pub mod boundary;
pub mod highlight;
pub mod independence;
pub mod markup;
pub mod order;
pub mod range;
pub mod validate;

pub use boundary::{boundary_events, BoundaryEvent, HighlightingBoundry};
pub use highlight::{highlight_text, highlight_text_with, FoldState, HighlightMarkers};
pub use order::{stable_sort_by_key, Keyed};
pub use range::HighlightRange;
pub use validate::{validate_ranges, HighlightingError};
