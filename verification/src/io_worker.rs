//! The layout of the file on disk, where a block's bytes come from, and what
//! a save writes.

use crate::block::{BlockId, BlockModel};
use crate::cache::{BlockCache, CacheModel};
use crate::config::EditorConfig;
use crate::content;
use crate::delta_table;
use crate::error::IoError;
use crate::message::SaveReport;
use crate::wal;
use crate::wal::WalEntry;
use vstd::prelude::*;

verus! {

/// How many blocks of `block_size` bytes a file of `file_size` bytes has.
pub open spec fn block_count_of(file_size: nat, block_size: nat) -> nat {
    if file_size == 0 {
        0
    } else {
        ((file_size - 1) as nat / block_size + 1) as nat
    }
}

pub fn compute_block_count(file_size: u64, block_size: usize) -> (n: u64)
    requires
        file_size > 0 ==> block_size > 0,
    ensures
        n == block_count_of(file_size as nat, block_size as nat),
{
    if file_size == 0 {
        0
    } else {
        assert((file_size - 1) / (block_size as int) <= file_size - 1) by (nonlinear_arith)
            requires
                file_size > 0,
                block_size > 0,
        ;
        (file_size - 1) / block_size as u64 + 1
    }
}

/// How many blocks the cache holds if it may take `cap_bytes` bytes: four at
/// least.
pub fn compute_capacity_blocks(cfg: &EditorConfig, cap_bytes: usize) -> (n: usize)
    requires
        cfg.block_size > 0,
    ensures
        n == (if cap_bytes / cfg.block_size < 4 {
            4
        } else {
            cap_bytes / cfg.block_size
        }),
{
    let n: usize = cap_bytes / cfg.block_size;
    if n < 4 {
        4
    } else {
        n
    }
}

/// The blocks are enough for the file, and less one they are not.
pub proof fn lemma_block_count(file_size: nat, block_size: nat)
    requires
        block_size > 0,
    ensures
        ({
            let n = block_count_of(file_size, block_size);
            &&& n * block_size >= file_size
            &&& n * block_size < file_size + block_size
            &&& file_size > 0 ==> (n - 1) * block_size < file_size
            &&& n == 0 <==> file_size == 0
        }),
{
    let n = block_count_of(file_size, block_size);
    if file_size > 0 {
        let q = (file_size - 1) as nat / block_size;
        vstd::arithmetic::div_mod::lemma_fundamental_div_mod(file_size - 1, block_size as int);
        vstd::arithmetic::div_mod::lemma_mod_bound(file_size - 1, block_size as int);
        assert((q + 1) * block_size == q * block_size + block_size) by (nonlinear_arith);
        assert(block_size * q == q * block_size) by (nonlinear_arith);
    }
}

/// The blocks of a file have together as many bytes as the file.
pub proof fn lemma_blocks_total(file_size: nat, block_size: nat)
    requires
        0 < block_size <= i64::MAX,
    ensures
        delta_table::total(
            delta_table::initial_sizes(
                block_count_of(file_size, block_size),
                block_size as int,
                file_size as int,
            ),
        ) == file_size,
{
    let n = block_count_of(file_size, block_size);
    lemma_block_count(file_size, block_size);
    delta_table::lemma_initial_total(n, block_size as int, file_size as int);
    assert(n * block_size == (n - 1) * block_size + block_size) by (nonlinear_arith);
}

/// A block lies in the file if and only if its number is below the count.
proof fn lemma_block_in_file(file_size: nat, block_size: nat, id: nat)
    requires
        block_size > 0,
    ensures
        id < block_count_of(file_size, block_size) <==> id * block_size < file_size,
{
    let n = block_count_of(file_size, block_size);
    lemma_block_count(file_size, block_size);
    if id < n {
        assert(id * block_size <= (n - 1) * block_size) by (nonlinear_arith)
            requires
                id <= n - 1,
        ;
    } else {
        assert(n * block_size <= id * block_size) by (nonlinear_arith)
            requires
                n <= id,
        ;
    }
}

/// Where block `block_id` stands in a file of `file_size` bytes: its offset
/// and its length. A file with no bytes has nothing to read for any block.
pub fn block_extent(file_size: u64, block_id: BlockId, block_size: usize) -> (r: Result<
    (u64, usize),
    IoError,
>)
    requires
        block_size > 0,
    ensures
        file_size == 0 ==> r == Ok::<(u64, usize), IoError>((0, 0)),
        file_size > 0 ==> match r {
            Ok((offset, len)) => {
                &&& block_id < block_count_of(file_size as nat, block_size as nat)
                &&& offset == block_id * block_size
                &&& offset < file_size
                &&& len == (if offset + block_size > file_size {
                    file_size - offset
                } else {
                    block_size as int
                })
            },
            Err(e) => {
                &&& block_id >= block_count_of(file_size as nat, block_size as nat)
                &&& e == IoError::BlockOutOfRange(
                    block_id,
                    block_count_of(file_size as nat, block_size as nat) as u64,
                )
            },
        },
        forall|base: Seq<u8>| #[trigger]
            base.len() == file_size && r is Ok ==> base.subrange(
                (r->Ok_0).0 as int,
                (r->Ok_0).0 + (r->Ok_0).1,
            ) == content::chunk(base, block_size as nat, block_id as nat),
{
    if file_size == 0 {
        proof {
            assert(0 <= block_id * block_size) by (nonlinear_arith);
            assert forall|base: Seq<u8>| #[trigger] base.len() == file_size implies base.subrange(
                0,
                0,
            ) == content::chunk(base, block_size as nat, block_id as nat) by {
                assert(base.subrange(0, 0) =~= Seq::<u8>::empty());
            }
        }
        return Ok((0, 0));
    }
    let count: u64 = compute_block_count(file_size, block_size);
    if block_id >= count {
        return Err(IoError::BlockOutOfRange(block_id, count));
    }
    proof {
        lemma_block_in_file(file_size as nat, block_size as nat, block_id as nat);
        assert(0 <= block_id * block_size) by (nonlinear_arith);
    }
    let offset: u64 = block_id * block_size as u64;
    let rest: u64 = file_size - offset;
    let len: usize = if rest < block_size as u64 { rest as usize } else { block_size };
    Ok((offset, len))
}

/// Where a block's bytes are to be had.
pub enum BlockSource {
    /// Here.
    Ready(Vec<u8>),
    /// In the log.
    Log(WalEntry),
    /// In the file on disk.
    Disk { offset: u64, len: usize },
    /// Nowhere: the block holds nothing.
    Nothing,
}

impl BlockSource {
    /// What is read from this source is `bytes`, where the log is `log` and the
    /// file on disk `base`.
    pub open spec fn gives(
        &self,
        log: Option<wal::Wal>,
        base: Seq<u8>,
        id: BlockId,
        bytes: Seq<u8>,
    ) -> bool {
        match self {
            BlockSource::Ready(v) => v@ == bytes,
            BlockSource::Log(e) => {
                &&& log is Some
                &&& log->0@.dom().contains(id)
                &&& *e == log->0.extent(id)
                &&& bytes == log->0@[id]
            },
            BlockSource::Disk { offset, len } => {
                &&& *offset + *len <= base.len()
                &&& bytes == base.subrange(*offset as int, *offset + *len)
            },
            BlockSource::Nothing => bytes.len() == 0,
        }
    }
}

/// Where the bytes of block `block_id` are to be had: in the cache, else in
/// the log, else in the file on disk.
pub fn block_source(
    cache: &mut BlockCache,
    block_id: BlockId,
    block_size: usize,
    disk_file_size: u64,
) -> (source: BlockSource)
    requires
        old(cache).wf(),
        block_size > 0,
    ensures
        final(cache).wf(),
        final(cache)@ == old(cache)@.touched(block_id),
        source is Ready <==> old(cache)@.has(block_id),
        source is Log <==> {
            &&& !old(cache)@.has(block_id)
            &&& old(cache)@.wal is Some
            &&& old(cache)@.wal->0@.dom().contains(block_id)
        },
        forall|base: Seq<u8>|
            base.len() == disk_file_size && content::latest(old(cache)@.evicted, block_id) is None
                ==> #[trigger] source.gives(
                old(cache)@.wal,
                base,
                block_id,
                content::bytes_of(old(cache)@, base, block_size as nat, block_id),
            ),
{
    if let Some(s) = cache.try_get(block_id) {
        return BlockSource::Ready(s.contiguous);
    }
    if let Some(w) = cache.wal() {
        if let Some(e) = w.get(block_id) {
            return BlockSource::Log(e);
        }
    }
    match block_extent(disk_file_size, block_id, block_size) {
        Ok((offset, len)) => {
            proof {
                assert forall|base: Seq<u8>|
                    base.len() == disk_file_size && content::latest(
                        old(cache)@.evicted,
                        block_id,
                    ) is None implies #[trigger] (BlockSource::Disk { offset, len }).gives(
                    old(cache)@.wal,
                    base,
                    block_id,
                    content::bytes_of(old(cache)@, base, block_size as nat, block_id),
                ) by {
                    assert(base.len() == disk_file_size);
                }
            }
            BlockSource::Disk { offset, len }
        },
        Err(_) => {
            proof {
                lemma_block_in_file(disk_file_size as nat, block_size as nat, block_id as nat);
            }
            BlockSource::Nothing
        },
    }
}

/// The cache once the blocks from `from` up to `to` were asked for.
pub open spec fn touched_all(c: CacheModel, from: int, to: int) -> CacheModel
    decreases to - from,
{
    if from >= to {
        c
    } else {
        touched_all(c, from, to - 1).touched((to - 1) as u64)
    }
}

/// The first block from `from` on and before `end` that is not in the cache,
/// to be loaded ahead of its use.
pub fn next_to_prefetch(cache: &mut BlockCache, from: BlockId, end: BlockId) -> (id: Option<
    BlockId,
>)
    requires
        old(cache).wf(),
    ensures
        final(cache).wf(),
        match id {
            Some(id) => {
                &&& from <= id < end
                &&& !old(cache)@.has(id)
                &&& forall|k: BlockId| from <= k < id ==> #[trigger] old(cache)@.has(k)
                &&& final(cache)@ == touched_all(old(cache)@, from as int, id + 1)
            },
            None => {
                &&& forall|k: BlockId| from <= k < end ==> #[trigger] old(cache)@.has(k)
                &&& final(cache)@ == touched_all(old(cache)@, from as int, end as int)
            },
        },
{
    let mut id: BlockId = from;
    while id < end
        invariant
            cache.wf(),
            from <= id,
            id <= end || id == from,
            cache@ == touched_all(old(cache)@, from as int, id as int),
            cache@.blocks == old(cache)@.blocks,
            forall|k: BlockId| from <= k < id ==> #[trigger] old(cache)@.has(k),
        decreases end - id,
    {
        if !cache.touch(id) {
            return Some(id);
        }
        id = id + 1;
    }
    None
}

/// Up to which block a prefetch may go in a file of `file_size` bytes.
pub fn prefetch_end(end: BlockId, file_size: u64, block_size: usize) -> (n: BlockId)
    requires
        block_size > 0,
    ensures
        n == (if end < block_count_of(file_size as nat, block_size as nat) {
            end as int
        } else {
            block_count_of(file_size as nat, block_size as nat) as int
        }),
{
    let count: u64 = compute_block_count(file_size, block_size);
    if end < count {
        end
    } else {
        count
    }
}

/// How many bytes `entries` hold together.
pub open spec fn entries_len(entries: Seq<(BlockId, Vec<u8>)>) -> nat
    decreases entries.len(),
{
    if entries.len() == 0 {
        0
    } else {
        entries_len(entries.drop_last()) + entries.last().1@.len()
    }
}

/// The cache once every block with edits was written out.
pub open spec fn all_cleaned(c: CacheModel) -> CacheModel {
    CacheModel {
        blocks: Map::new(
            |id: BlockId| c.has(id),
            |id: BlockId|
                if c.blocks[id].unsaved() {
                    BlockModel::clean(c.blocks[id].bytes)
                } else {
                    c.blocks[id]
                },
        ),
        ..c
    }
}

/// `entries` are the blocks of `c` with edits, each once.
pub open spec fn edits_of(c: CacheModel, entries: Seq<(BlockId, Vec<u8>)>) -> bool {
    &&& forall|i: int|
        0 <= i < entries.len() ==> {
            &&& c.has(#[trigger] entries[i].0)
            &&& c.blocks[entries[i].0].unsaved()
            &&& entries[i].1@ == c.blocks[entries[i].0].bytes
        }
    &&& forall|i: int, j: int| 0 <= i < j < entries.len() ==> entries[i].0 != entries[j].0
    &&& forall|id: BlockId| #[trigger]
        c.has(id) && c.blocks[id].unsaved() ==> exists|i: int|
            0 <= i < entries.len() && #[trigger] entries[i].0 == id
}

/// The blocks with edits, which thereby count as stored, to be appended to the
/// log; and what is to be reported of that but for how long it took.
pub fn commit_save(cache: &mut BlockCache) -> (r: (Vec<(BlockId, Vec<u8>)>, SaveReport))
    requires
        old(cache).wf(),
    ensures
        final(cache).wf(),
        final(cache)@ == all_cleaned(old(cache)@),
        edits_of(old(cache)@, r.0@),
        r.1.written_bytes == (if entries_len(r.0@) <= u64::MAX {
            entries_len(r.0@) as int
        } else {
            u64::MAX as int
        }),
        r.1.dirty_blocks_written == r.0@.len(),
        r.1.clean_blocks_copied == 0,
        r.1.duration_ms == 0,
{
    let ghost c = cache@;
    let dirty = cache.dirty_ids();
    let mut entries: Vec<(BlockId, Vec<u8>)> = Vec::new();
    let mut written: u64 = 0;
    let mut i: usize = 0;
    while i < dirty.len()
        invariant
            cache.wf(),
            i <= dirty@.len(),
            entries@.len() == i,
            dirty@.no_duplicates(),
            forall|id: BlockId| #[trigger]
                dirty@.contains(id) <==> c.has(id) && c.blocks[id].unsaved(),
            forall|k: int| 0 <= k < i ==> #[trigger] entries@[k].0 == dirty@[k],
            forall|k: int| 0 <= k < i ==> #[trigger] entries@[k].1@ == c.blocks[dirty@[k]].bytes,
            cache@ == (CacheModel { blocks: cache@.blocks, ..c }),
            cache@.blocks.dom() == c.blocks.dom(),
            forall|id: BlockId|
                c.has(id) ==> #[trigger] cache@.blocks[id] == (if dirty@.subrange(
                    0,
                    i as int,
                ).contains(id) {
                    BlockModel::clean(c.blocks[id].bytes)
                } else {
                    c.blocks[id]
                }),
            written == (if entries_len(entries@) <= u64::MAX {
                entries_len(entries@) as int
            } else {
                u64::MAX as int
            }),
        decreases dirty@.len() - i,
    {
        let id: BlockId = dirty[i];
        let ghost done = dirty@.subrange(0, i as int);
        let ghost more = dirty@.subrange(0, i + 1);
        proof {
            assert(dirty@.contains(id));
            assert(more =~= done.push(id));
            assert forall|x: BlockId| #[trigger] more.contains(x) <==> done.contains(x) || x
                == id by {
                assert(more[i as int] == id);
                if done.contains(x) {
                    let k = choose|k: int| 0 <= k < done.len() && done[k] == x;
                    assert(more[k] == x);
                }
            }
            assert(cache@.has(id));
            assert(cache@.blocks[id].bytes == c.blocks[id].bytes);
        }
        let ghost before = entries@;
        if let Some(bytes) = cache.take_contiguous_and_mark_clean(id) {
            written = written.saturating_add(bytes.len() as u64);
            entries.push((id, bytes));
        }
        assert(entries@.drop_last() =~= before);
        assert(cache@.blocks.dom() =~= c.blocks.dom());
        i = i + 1;
    }
    proof {
        assert(dirty@.subrange(0, i as int) =~= dirty@);
        assert forall|id: BlockId| c.has(id) implies #[trigger] cache@.blocks[id] == all_cleaned(
            c,
        ).blocks[id] by {
            assert(dirty@.contains(id) <==> c.blocks[id].unsaved());
        }
        assert(cache@.blocks =~= all_cleaned(c).blocks);
        assert forall|i: int| 0 <= i < entries@.len() implies dirty@.contains(
            #[trigger] entries@[i].0,
        ) by {
            assert(entries@[i].0 == dirty@[i]);
        }
        assert forall|id: BlockId| #[trigger] c.has(id) && c.blocks[id].unsaved() implies exists|
            i: int,
        | 0 <= i < entries@.len() && entries@[i].0 == id by {
            assert(dirty@.contains(id));
            let k = choose|k: int| 0 <= k < dirty@.len() && dirty@[k] == id;
            assert(entries@[k].0 == dirty@[k]);
        }
    }
    let report = SaveReport {
        written_bytes: written,
        dirty_blocks_written: entries.len(),
        clean_blocks_copied: 0,
        duration_ms: 0,
    };
    (entries, report)
}

pub proof fn lemma_with_entries_other(
    m: Map<BlockId, Seq<u8>>,
    entries: Seq<(BlockId, Vec<u8>)>,
    id: BlockId,
)
    requires
        forall|i: int| 0 <= i < entries.len() ==> #[trigger] entries[i].0 != id,
    ensures
        wal::with_entries(m, entries).dom().contains(id) == m.dom().contains(id),
        m.dom().contains(id) ==> wal::with_entries(m, entries)[id] == m[id],
    decreases entries.len(),
{
    if entries.len() > 0 {
        assert forall|i: int| 0 <= i < entries.len() - 1 implies #[trigger] entries.drop_last()[i].0
            != id by {
            assert(entries[i].0 != id);
        }
        assert(entries[entries.len() - 1].0 != id);
        lemma_with_entries_other(m, entries.drop_last(), id);
    }
}

/// An incremental save changes nothing of what the blocks hold, leaves no
/// block with edits, and once it is in the log every block that had edits can
/// be read back from there, should the cache be lost.
pub proof fn law_commit_is_durable(
    before: CacheModel,
    entries: Seq<(BlockId, Vec<u8>)>,
    after: CacheModel,
    base: Seq<u8>,
    block_size: nat,
    id: BlockId,
)
    requires
        edits_of(before, entries),
        content::latest(before.evicted, id) is None,
        before.wal is Some,
        after.wal is Some,
        after.wal->0@ == wal::with_entries(before.wal->0@, entries),
        after == (CacheModel { wal: after.wal, ..all_cleaned(before) }),
    ensures
        content::bytes_of(after, base, block_size, id) == content::bytes_of(
            before,
            base,
            block_size,
            id,
        ),
        after.has(id) ==> !after.blocks[id].unsaved(),
        before.has(id) && before.blocks[id].unsaved() ==> content::stored(
            after,
            base,
            block_size,
            id,
        ) == before.blocks[id].bytes,
{
    if before.has(id) && before.blocks[id].unsaved() {
        let k = choose|k: int| 0 <= k < entries.len() && #[trigger] entries[k].0 == id;
        assert forall|j: int| k < j < entries.len() implies entries[j].0 != entries[k].0 by {}
        wal::law_latest_wins(before.wal->0@, entries, k);
    } else {
        assert forall|i: int| 0 <= i < entries.len() implies #[trigger] entries[i].0 != id by {}
        lemma_with_entries_other(before.wal->0@, entries, id);
    }
}

/// What a save reports to have written are the bytes of all its blocks together.
pub proof fn law_written_bytes_add_up(
    entries: Seq<(BlockId, Vec<u8>)>,
    id: BlockId,
    bytes: Vec<u8>,
)
    ensures
        entries_len(Seq::empty()) == 0,
        entries_len(entries.push((id, bytes))) == entries_len(entries) + bytes@.len(),
{
    assert(entries.push((id, bytes)).drop_last() =~= entries);
}

/// A file has as many blocks as it takes to hold its bytes: every byte is in one of
/// them, and none of them is without a byte.
pub proof fn law_blocks_hold_file(file_size: nat, block_size: nat, p: int)
    requires
        block_size > 0,
        0 <= p < file_size,
    ensures
        p / (block_size as int) < block_count_of(file_size, block_size),
        block_count_of(file_size, block_size) > 0,
        (block_count_of(file_size, block_size) - 1) * block_size < file_size,
        block_count_of(0, block_size) == 0,
{
    lemma_block_count(file_size, block_size);
    vstd::arithmetic::div_mod::lemma_div_is_ordered(p, file_size - 1, block_size as int);
}

} // verus!
