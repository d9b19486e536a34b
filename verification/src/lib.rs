//! Continuation-based execution chunking for a zkVM.
//!
//! A single program trace is too long to fit into one proof of bounded
//! degree, so execution is split into fixed-size chunks, each independently
//! provable, with state (registers and memory) carried across chunk
//! boundaries via a Merkle commitment over memory pages and a bootloader
//! that loads the required pages at the start of each chunk.

use vstd::prelude::*;

pub mod bootloader;
pub mod driver;
pub mod laws;
pub mod merkle;
pub mod trace;
pub mod types;

verus! {

/// Base-2 logarithm of the page size in bytes.
pub const PAGE_SIZE_BYTES_LOG: u64 = 12;

/// Returns the page index of a byte address.
pub fn page_of_address(address: u64) -> (r: u64)
    ensures
        r == address >> PAGE_SIZE_BYTES_LOG,
{
    address >> PAGE_SIZE_BYTES_LOG
}

/// The pipeline name of one chunk: the base name, then the chunk's index
/// in decimal after a chunk marker.
pub fn chunk_pipeline_name(base: &str, index: u64) -> (r: String)
    ensures
        r@ == base@ + "_chunk_"@ + crate::types::decimal_of(index as nat),
{
    let mut r: String = base.to_owned();
    r.append("_chunk_");
    let digits = crate::types::decimal_string(index);
    r.append(digits.as_str());
    r
}

} // verus!
