//! Approximate string matching for a spellchecking core.
//!
//! The crate computes the Levenshtein edit distance between Unicode strings,
//! exactly or under a caller-supplied bound, and ranks the entries of a
//! dictionary by their distance to a query word.

pub mod distance;
pub mod suggest;

pub use distance::lev;
pub use distance::levenshtein_distance;
pub use distance::levenshtein_distance_with_max;
pub use suggest::spell_check_rayon;
pub use suggest::spellcheck;
