//! How a document is laid out when it is opened: the blocks of the file, each as
//! long as it was logged last, and behind them what was split off and logged.

use crate::block::BlockId;
use crate::cache::{BlockCache, CacheModel};
use crate::content;
use crate::delta_table;
use crate::io_worker;
use vstd::prelude::*;

verus! {

/// What the log of the cache holds for each block.
pub open spec fn log_of(c: CacheModel) -> Map<BlockId, Seq<u8>> {
    match c.wal {
        Some(wal) => wal@,
        None => Map::empty(),
    }
}

/// How many bytes block `i` has in a file of `file_size` bytes.
pub open spec fn chunk_len(file_size: nat, block_size: nat, i: int) -> int {
    let rest = file_size - i * block_size;
    if rest < block_size {
        rest
    } else {
        block_size as int
    }
}

/// How many bytes block `i` has once the document is opened.
pub open spec fn opened_size(
    log: Map<BlockId, Seq<u8>>,
    file_size: nat,
    block_size: nat,
    i: int,
) -> int {
    if log.dom().contains(i as u64) {
        log[i as u64].len() as int
    } else {
        chunk_len(file_size, block_size, i)
    }
}

/// `sizes` are those of the blocks of the file, and of the logged blocks that
/// follow them without a gap.
pub open spec fn opened(
    log: Map<BlockId, Seq<u8>>,
    file_size: nat,
    block_size: nat,
    sizes: Seq<i64>,
) -> bool {
    let n = io_worker::block_count_of(file_size, block_size);
    &&& n <= sizes.len()
    &&& forall|i: int|
        0 <= i < sizes.len() ==> #[trigger] sizes[i] == opened_size(log, file_size, block_size, i)
    &&& forall|i: int|
        n <= i < sizes.len() ==> log.dom().contains(#[trigger] (i as u64))
    &&& !log.dom().contains(sizes.len() as u64)
}

/// The sizes are within the limits of the machine.
pub open spec fn countable(sizes: Seq<i64>) -> bool {
    &&& sizes.len() <= isize::MAX
    &&& delta_table::total(sizes) <= i64::MAX
}

/// `sizes` are the first ones of every layout.
spec fn begun(
    log: Map<BlockId, Seq<u8>>,
    file_size: nat,
    block_size: nat,
    sizes: Seq<i64>,
) -> bool {
    let n = io_worker::block_count_of(file_size, block_size);
    &&& forall|i: int|
        0 <= i < sizes.len() ==> #[trigger] sizes[i] == opened_size(log, file_size, block_size, i)
    &&& forall|i: int| n <= i < sizes.len() ==> log.dom().contains(#[trigger] (i as u64))
}

/// Where one block more does not fit, no layout does.
proof fn lemma_too_large(
    log: Map<BlockId, Seq<u8>>,
    file_size: nat,
    block_size: nat,
    first: Seq<i64>,
    all: Seq<i64>,
)
    requires
        begun(log, file_size, block_size, first),
        first.len() <= isize::MAX,
        first.len() < io_worker::block_count_of(file_size, block_size) || log.dom().contains(
            first.len() as u64,
        ),
        first.len() == isize::MAX || delta_table::total(first) + opened_size(
            log,
            file_size,
            block_size,
            first.len() as int,
        ) > i64::MAX,
        block_size > 0,
        opened(log, file_size, block_size, all),
    ensures
        !countable(all),
{
    let n = io_worker::block_count_of(file_size, block_size);
    let k = first.len() as int;
    if all.len() <= k {
        assert(log.dom().contains(all.len() as u64)) by {
            if all.len() < k {
                assert(log.dom().contains(all.len() as int as u64));
            }
        }
    }
    assert forall|i: int| 0 <= i < all.len() implies all[i] >= 0 by {
        if !log.dom().contains(i as u64) {
            lemma_chunk_len(file_size, block_size, i);
        }
    }
    assert forall|i: int| 0 <= i < k implies first[i] == all[i] by {
        assert(first[i] == opened_size(log, file_size, block_size, i));
    }
    delta_table::lemma_prefix_agrees(first, all, k);
    delta_table::lemma_prefix_monotone(all, k + 1, all.len() as int);
    assert(delta_table::prefix(all, k + 1) == delta_table::prefix(all, k) + all[k]);
}

/// A block of the file has at least one byte and at most as many as a block
/// holds.
pub proof fn lemma_chunk_len(file_size: nat, block_size: nat, i: int)
    requires
        block_size > 0,
        0 <= i < io_worker::block_count_of(file_size, block_size),
    ensures
        0 < chunk_len(file_size, block_size, i) <= block_size,
        0 <= i * block_size < file_size,
{
    let n = io_worker::block_count_of(file_size, block_size);
    io_worker::lemma_block_count(file_size, block_size);
    assert(0 <= i * block_size <= (n - 1) * block_size) by (nonlinear_arith)
        requires
            0 <= i <= n - 1,
    ;
}

/// The sizes of the blocks when a document is opened over a file of `file_size`
/// bytes, where they can be counted.
pub fn opened_sizes(cache: &BlockCache, file_size: u64, block_size: usize) -> (r: Option<Vec<i64>>)
    requires
        cache.wf(),
        block_size > 0,
    ensures
        match r {
            Some(sizes) => {
                &&& opened(log_of(cache@), file_size as nat, block_size as nat, sizes@)
                &&& countable(sizes@)
                &&& forall|i: int|
                    0 <= i < sizes@.len() ==> 0 <= #[trigger] sizes@[i] <= usize::MAX
            },
            None => forall|sizes: Seq<i64>|
                opened(log_of(cache@), file_size as nat, block_size as nat, sizes)
                    ==> !#[trigger] countable(sizes),
        },
{
    let n: u64 = io_worker::compute_block_count(file_size, block_size);
    let ghost log = log_of(cache@);
    let ghost size = file_size as nat;
    let ghost bs = block_size as nat;
    let mut sizes: Vec<i64> = Vec::new();
    let mut sum: i64 = 0;
    let mut i: u64 = 0;
    loop
        invariant
            cache.wf(),
            block_size > 0,
            log == log_of(cache@),
            size == file_size,
            bs == block_size,
            n == io_worker::block_count_of(size, bs),
            i == sizes@.len(),
            i <= isize::MAX,
            begun(log, size, bs, sizes@),
            forall|k: int| 0 <= k < sizes@.len() ==> 0 <= #[trigger] sizes@[k] <= usize::MAX,
            sum == delta_table::total(sizes@),
            sum >= 0,
        ensures
            opened(log, size, bs, sizes@),
            countable(sizes@),
            forall|k: int| 0 <= k < sizes@.len() ==> 0 <= #[trigger] sizes@[k] <= usize::MAX,
        decreases isize::MAX - i,
    {
        let entry = match cache.wal() {
            Some(wal) => wal.get(i),
            None => None,
        };
        let len: u64 = match entry {
            Some(e) => e.len as u64,
            None => {
                if i >= n {
                    break;
                }
                proof {
                    lemma_chunk_len(size, bs, i as int);
                }
                let rest: u64 = file_size - i * block_size as u64;
                if rest < block_size as u64 {
                    rest
                } else {
                    block_size as u64
                }
            },
        };
        assert(len == opened_size(log, size, bs, i as int));
        if i >= isize::MAX as u64 || len > (i64::MAX - sum) as u64 {
            proof {
                assert forall|all: Seq<i64>| opened(log, size, bs, all) implies !#[trigger] countable(
                    all,
                ) by {
                    lemma_too_large(log, size, bs, sizes@, all);
                }
            }
            return None;
        }
        let ghost before = sizes@;
        sizes.push(len as i64);
        proof {
            delta_table::lemma_prefix_agrees(before, sizes@, i as int);
        }
        sum = sum + len as i64;
        i = i + 1;
    }
    Some(sizes)
}

} // verus!
