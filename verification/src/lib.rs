use vstd::prelude::*;

pub mod commitments;
pub mod engine;
pub mod errors;
pub mod laws;
pub mod limited_store;
pub mod node;
pub mod parity_store;
pub mod piece_file;
pub mod plot;
pub mod providers;
pub mod record_heap;
pub mod records;
pub mod scale_codec;
pub mod status;
pub mod tag_index;
pub mod tagger;
pub mod util;
pub mod wire;

verus! {

/// Number of pieces processed per batch while building a commitment.
pub const BATCH_SIZE: u64 = 4096;

} // verus!
