//! Set reconciliation over ascending `u32` identifier lists, and a
//! case-insensitive multi-term substring filter over a list of texts.
pub mod ordered;
pub mod reconcile;
pub mod search;
pub mod text;

pub use reconcile::{diff_sorted_unique_u32, merge_and_diff_sorted_unique_u32, merge_sorted_unique_u32};
pub use search::search_contains_indices;
pub use text::{contains_all_terms, split_terms};
