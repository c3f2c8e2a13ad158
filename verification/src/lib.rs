//! Byte-level text chunking and splitting.
//!
//! The crate partitions a byte buffer into contiguous segments, reported as
//! half-open `(start, end)` byte-offset pairs or as materialized byte copies.
//! Three families of operations are provided:
//!
//! - size-bounded chunking ([`Chunker`], [`chunk_offsets`]): greedily emits
//!   segments of at most a target size, preferring to cut just after (or, with
//!   `prefix`, just before) the latest delimiter or pattern match in the
//!   window;
//! - delimiter and pattern splitting ([`split_offsets`],
//!   [`split_pattern_offsets`], [`PatternSplitter`]): emits one segment per
//!   match under an attachment policy, merging segments shorter than a
//!   minimum length;
//! - merge planning ([`find_merge_indices`], [`merge_splits`],
//!   [`merge_splits_flat`]): packs a sequence of token counts into groups
//!   that fit under a token budget.
//!
//! All logic is byte-oriented: offsets index the raw buffer, and nothing is
//! assumed about character encodings.

use vstd::prelude::*;

pub mod chunker;
pub mod merge;
pub mod segments;
pub mod splitter;

pub use chunker::chunk_offsets;
pub use chunker::flatten_offsets;
pub use chunker::Chunker;
pub use merge::find_merge_indices;
pub use merge::merge_splits;
pub use merge::merge_splits_flat;
pub use splitter::split_offsets;
pub use splitter::split_pattern_offsets;
pub use splitter::IncludeDelim;
pub use splitter::PatternError;
pub use splitter::PatternSplitter;

verus! {

/// Default target chunk size in bytes.
pub const DEFAULT_TARGET_SIZE: usize = 4096;

/// The default delimiter set: newline, full stop and question mark.
pub open spec fn spec_default_delimiters() -> Seq<u8> {
    seq![10u8, 46u8, 63u8]
}

/// Default target chunk size in bytes (4096).
pub fn default_target_size() -> (r: usize)
    ensures
        r == DEFAULT_TARGET_SIZE,
{
    DEFAULT_TARGET_SIZE
}

/// Default delimiters: the bytes `\n`, `.` and `?`.
pub fn default_delimiters() -> (r: Vec<u8>)
    ensures
        r@ == spec_default_delimiters(),
{
    let r: Vec<u8> = vec![10u8, 46u8, 63u8];
    proof {
        assert(r@ =~= spec_default_delimiters());
    }
    r
}

} // verus!
