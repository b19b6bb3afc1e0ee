//! What is asked of the file and what comes back.

use vstd::prelude::*;

verus! {

/// Which way a search goes.
#[derive(Copy, Clone, Debug, PartialEq, Eq, Structural)]
pub enum Direction {
    Forward,
    Backward,
}

/// What a save did.
#[derive(Debug)]
pub struct SaveReport {
    pub written_bytes: u64,
    pub dirty_blocks_written: usize,
    pub clean_blocks_copied: usize,
    pub duration_ms: u64,
}

/// What a search found.
#[derive(Debug)]
pub struct SearchResult {
    /// Where the matches start, in the order of the search.
    pub matches: Vec<u64>,
    pub scanned_blocks: usize,
    /// Whether the search stopped because it had found enough.
    pub has_more_behind: bool,
}

} // verus!
