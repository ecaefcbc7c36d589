//! Deterministic structural hashing for JSON values.
//!
//! A value's identifier is built level by level: every depth of the tree
//! contributes one `L<depth>:<hash>` part, computed from the keys, the
//! array positions and the kinds of the values found at that depth, but
//! never from the scalar values themselves. Same structure, same ID.

pub mod genome;
pub mod json;
pub mod laws;
pub mod similarity;
pub mod sums;
pub mod table;
pub mod text;
pub mod xxhash;

pub use genome::{Genome, GenomeConfig};
pub use json::{JsonMap, JsonValue};
pub use similarity::{LevelScore, Similarity};
pub use table::StrTable;
pub use xxhash::{hash_str, xx_hash32};
