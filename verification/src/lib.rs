//! Segmentation of a string into "print positions": minimal substrings that
//! each occupy one column on a monospace, ANSI-escape-aware display.
//!
//! A print position wraps one Unicode extended grapheme cluster together with
//! any adjacent ANSI escape sequences that occupy no column of their own:
//! style-setting sequences attach to the cluster that follows them, while a
//! small set of literal reset sequences attach to the cluster they terminate.
//!
//! The scanner consumes a borrowed string once, left to right, and emits
//! half-open byte ranges that cover the input exactly: strictly increasing,
//! contiguous, non-empty, starting at offset zero and ending at the length of
//! the string. The module [`laws`] states and proves these properties of the
//! scan function itself.

pub mod laws;
mod model;
pub mod print_position;
mod scanner;
mod segmentation;

pub use scanner::PrintPositionIndices;
pub use scanner::PrintPositions;
pub use scanner::print_position_indices;
pub use scanner::print_positions;

pub use segmentation::grapheme_bounds;
pub use segmentation::grapheme_cluster_ranges;
pub use segmentation::print_positions_of;
pub use segmentation::range_view;
pub use segmentation::span_ranges;

pub use model::EscapeState;
pub use model::absorb_resets;
pub use model::absorb_through;
pub use model::concat_ranges;
pub use model::escape_transition;
pub use model::is_segmentation;
pub use model::lemma_positions_adjacent;
pub use model::lemma_positions_between;
pub use model::lemma_positions_facts;
pub use model::lemma_positions_last;
pub use model::position_end;
pub use model::positions_wf;
pub use model::reset_prefix_len;
pub use model::scan_positions;
pub use model::start_of;
pub use model::visible_end;
