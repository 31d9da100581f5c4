//! Jaro-Winkler similarity over byte strings, with a reusable scratch buffer.
//!
//! The scorer compares two strings as raw byte sequences and reports how
//! similar they are.  Everything that determines the score is computed and
//! verified here as exact integer quantities: the number of matching bytes
//! found inside the bounded Jaro window, the transposition count among those
//! matches, the length of the common prefix (capped at 4), and the two input
//! lengths.  The standard floating-point combination of those quantities,
//! `j = (m/min + m/max + (m-t)/m) / 3` followed by `j + 0.1 * p * (1 - j)`,
//! involves no further string logic and is left to callers, since this
//! verified core states its contracts over integers only.

pub mod laws;
pub mod model;
pub mod scorer;

pub use model::Similarity;
pub use scorer::JaroWinkler;
