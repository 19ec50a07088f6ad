//! Fuzzy line matching: score candidate lines by similarity to a target
//! token, and order them from most to least similar.
//!
//! The scorer walks the target and a candidate line as two cursors,
//! scanning ahead in the line on a mismatch; every skipped line character
//! costs one penalty point.  The orderer returns a stable permutation of
//! the line indices, sorted by ascending distance.

mod rank;
mod score;

pub use rank::complete_part;
pub use rank::incomplete_part;
pub use rank::order_distances;
pub use rank::rank_before;
pub use rank::score_lines;
pub use rank::split_complete;
pub use score::complete_of;
pub use score::distance_of;
pub use score::find_char;
pub use score::get_distance;
pub use score::is_subsequence_of;
pub use score::lemma_complete_iff_subsequence;
pub use score::lemma_disjoint;
pub use score::lemma_distance_bounds;
pub use score::lemma_extra_trailing;
pub use score::lemma_find_char;
pub use score::lemma_missing_last;
pub use score::lemma_self_match;
pub use score::walk_distance;
