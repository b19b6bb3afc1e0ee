//! What the edited file holds: the blocks in order, each as it is in the
//! cache, else as it waits to be logged, else as it was logged last, else as it
//! is in the file on disk.

use crate::block;
use crate::block::{BlockId, BlockModel};
use crate::cache::CacheModel;
use crate::delta_table;
use vstd::prelude::*;

verus! {

/// Block `id` of the file on disk.
pub open spec fn chunk(base: Seq<u8>, block_size: nat, id: nat) -> Seq<u8> {
    let start = id * block_size;
    if start >= base.len() {
        Seq::empty()
    } else if start + block_size <= base.len() {
        base.subrange(start as int, (start + block_size) as int)
    } else {
        base.subrange(start as int, base.len() as int)
    }
}

/// The latest bytes of block `id` among `entries`.
pub open spec fn latest(entries: Seq<(BlockId, Seq<u8>)>, id: BlockId) -> Option<Seq<u8>>
    decreases entries.len(),
{
    if entries.len() == 0 {
        None
    } else if entries.last().0 == id {
        Some(entries.last().1)
    } else {
        latest(entries.drop_last(), id)
    }
}

/// The bytes of block `id` apart from the cache.
pub open spec fn stored(c: CacheModel, base: Seq<u8>, block_size: nat, id: BlockId) -> Seq<u8> {
    match latest(c.evicted, id) {
        Some(bytes) => bytes,
        None => if c.wal is Some && c.wal->0@.dom().contains(id) {
            c.wal->0@[id]
        } else {
            chunk(base, block_size, id as nat)
        },
    }
}

/// The bytes of block `id`.
pub open spec fn bytes_of(c: CacheModel, base: Seq<u8>, block_size: nat, id: BlockId) -> Seq<u8> {
    if c.has(id) {
        c.blocks[id].bytes
    } else {
        stored(c, base, block_size, id)
    }
}

/// Every block in the cache without edits is stored as it is.
pub open spec fn safe(c: CacheModel, base: Seq<u8>, block_size: nat) -> bool {
    forall|id: BlockId|
        #[trigger] c.has(id) && !c.blocks[id].unsaved() ==> stored(c, base, block_size, id)
            == c.blocks[id].bytes
}

/// The runs of bytes in `blocks`, one behind the other.
pub open spec fn joined(blocks: Seq<Seq<u8>>) -> Seq<u8>
    decreases blocks.len(),
{
    if blocks.len() == 0 {
        Seq::empty()
    } else {
        joined(blocks.drop_last()) + blocks.last()
    }
}

pub proof fn lemma_joined_append(a: Seq<Seq<u8>>, b: Seq<Seq<u8>>)
    ensures
        joined(a + b) == joined(a) + joined(b),
    decreases b.len(),
{
    if b.len() == 0 {
        assert(a + b =~= a);
        assert(joined(a) + joined(b) =~= joined(a));
    } else {
        assert((a + b).drop_last() =~= a + b.drop_last());
        lemma_joined_append(a, b.drop_last());
        assert(joined(a + b) =~= joined(a) + joined(b));
    }
}

/// Where the sizes are those of the blocks, a prefix sum is the length of the
/// blocks before.
pub proof fn lemma_prefix_is_length(sizes: Seq<i64>, blocks: Seq<Seq<u8>>, k: int)
    requires
        0 <= k <= blocks.len(),
        sizes.len() == blocks.len(),
        forall|i: int| 0 <= i < blocks.len() ==> #[trigger] sizes[i] == blocks[i].len(),
    ensures
        delta_table::prefix(sizes, k) == joined(blocks.subrange(0, k)).len(),
    decreases k,
{
    if k > 0 {
        lemma_prefix_is_length(sizes, blocks, k - 1);
        assert(blocks.subrange(0, k).drop_last() =~= blocks.subrange(0, k - 1));
        assert(sizes[k - 1] == blocks[k - 1].len());
    }
}

/// What is before, in and behind block `i`.
pub proof fn lemma_joined_around(blocks: Seq<Seq<u8>>, i: int)
    requires
        0 <= i < blocks.len(),
    ensures
        joined(blocks) == joined(blocks.subrange(0, i)) + blocks[i] + joined(
            blocks.subrange(i + 1, blocks.len() as int),
        ),
{
    let before = blocks.subrange(0, i);
    let behind = blocks.subrange(i + 1, blocks.len() as int);
    let upto = blocks.subrange(0, i + 1);
    assert(upto.drop_last() =~= before);
    assert(blocks =~= upto + behind);
    lemma_joined_append(upto, behind);
}

/// An insertion into one block is an insertion into the whole.
pub proof fn lemma_joined_insert(blocks: Seq<Seq<u8>>, i: int, pos: int, bytes: Seq<u8>)
    requires
        0 <= i < blocks.len(),
        0 <= pos <= blocks[i].len(),
    ensures
        joined(blocks.update(i, block::spliced_in(blocks[i], pos, bytes))) == block::spliced_in(
            joined(blocks),
            joined(blocks.subrange(0, i)).len() + pos,
            bytes,
        ),
{
    let news = blocks.update(i, block::spliced_in(blocks[i], pos, bytes));
    lemma_joined_around(blocks, i);
    lemma_joined_around(news, i);
    assert(news.subrange(0, i) =~= blocks.subrange(0, i));
    assert(news.subrange(i + 1, news.len() as int) =~= blocks.subrange(
        i + 1,
        blocks.len() as int,
    ));
    assert(joined(news) =~= block::spliced_in(
        joined(blocks),
        joined(blocks.subrange(0, i)).len() + pos,
        bytes,
    ));
}

/// A deletion from one block is a deletion from the whole.
pub proof fn lemma_joined_delete(blocks: Seq<Seq<u8>>, i: int, pos: int, end: int)
    requires
        0 <= i < blocks.len(),
        0 <= pos <= end <= blocks[i].len(),
    ensures
        joined(blocks.update(i, block::spliced_out(blocks[i], pos, end))) == block::spliced_out(
            joined(blocks),
            joined(blocks.subrange(0, i)).len() + pos,
            joined(blocks.subrange(0, i)).len() + end,
        ),
{
    let news = blocks.update(i, block::spliced_out(blocks[i], pos, end));
    lemma_joined_around(blocks, i);
    lemma_joined_around(news, i);
    assert(news.subrange(0, i) =~= blocks.subrange(0, i));
    assert(news.subrange(i + 1, news.len() as int) =~= blocks.subrange(
        i + 1,
        blocks.len() as int,
    ));
    assert(joined(news) =~= block::spliced_out(
        joined(blocks),
        joined(blocks.subrange(0, i)).len() + pos,
        joined(blocks.subrange(0, i)).len() + end,
    ));
}

/// `blocks` with block `i` cut in two at `at`.
pub open spec fn cut(blocks: Seq<Seq<u8>>, i: int, at: int) -> Seq<Seq<u8>> {
    blocks.update(i, blocks[i].subrange(0, at)).insert(
        i + 1,
        blocks[i].subrange(at, blocks[i].len() as int),
    )
}

/// `blocks` with block `i + 1` joined to block `i`.
pub open spec fn fused(blocks: Seq<Seq<u8>>, i: int) -> Seq<Seq<u8>> {
    blocks.remove(i + 1).update(i, blocks[i] + blocks[i + 1])
}

/// Cutting a block in two changes nothing of the whole.
pub proof fn lemma_joined_cut(blocks: Seq<Seq<u8>>, i: int, at: int)
    requires
        0 <= i < blocks.len(),
        0 <= at <= blocks[i].len(),
    ensures
        joined(cut(blocks, i, at)) == joined(blocks),
{
    let news = cut(blocks, i, at);
    lemma_joined_around(blocks, i);
    lemma_joined_around(news, i);
    let behind = news.subrange(i + 1, news.len() as int);
    lemma_joined_around(behind, 0);
    assert(news.subrange(0, i) =~= blocks.subrange(0, i));
    assert(behind.subrange(0, 0) =~= Seq::empty());
    assert(behind.subrange(1, behind.len() as int) =~= blocks.subrange(
        i + 1,
        blocks.len() as int,
    ));
    assert(news[i] + behind[0] =~= blocks[i]);
    assert(joined(news) =~= joined(blocks));
}

/// Joining neighbours changes nothing of the whole.
pub proof fn lemma_joined_fuse(blocks: Seq<Seq<u8>>, i: int)
    requires
        0 <= i,
        i + 1 < blocks.len(),
    ensures
        joined(fused(blocks, i)) == joined(blocks),
{
    let news = fused(blocks, i);
    assert(cut(news, i, blocks[i].len() as int) =~= blocks) by {
        assert(news[i].subrange(0, blocks[i].len() as int) =~= blocks[i]);
        assert(news[i].subrange(blocks[i].len() as int, news[i].len() as int) =~= blocks[i + 1]);
    }
    lemma_joined_cut(news, i, blocks[i].len() as int);
}

proof fn lemma_latest_push(entries: Seq<(BlockId, Seq<u8>)>, v: BlockId, bytes: Seq<u8>)
    ensures
        latest(entries.push((v, bytes)), v) == Some(bytes),
        forall|id: BlockId|
            id != v ==> #[trigger] latest(entries.push((v, bytes)), id) == latest(entries, id),
{
    assert(entries.push((v, bytes)).drop_last() =~= entries);
}

/// A block that has to go does not change what any block holds.
pub proof fn lemma_evict_keeps(
    c: CacheModel,
    v: BlockId,
    base: Seq<u8>,
    block_size: nat,
    id: BlockId,
)
    requires
        c.has(v),
        safe(c, base, block_size),
    ensures
        bytes_of(c.evict(v), base, block_size, id) == bytes_of(c, base, block_size, id),
        id != v ==> stored(c.evict(v), base, block_size, id) == stored(c, base, block_size, id),
{
    lemma_latest_push(c.evicted, v, c.blocks[v].bytes);
}

/// Making room does not change what any block holds, nor what is stored of a
/// block that stays.
pub proof fn lemma_make_room_keeps(
    c: CacheModel,
    base: Seq<u8>,
    block_size: nat,
    id: BlockId,
)
    requires
        safe(c, base, block_size),
    ensures
        bytes_of(c.make_room(), base, block_size, id) == bytes_of(c, base, block_size, id),
        c.make_room().has(id) ==> stored(c.make_room(), base, block_size, id) == stored(
            c,
            base,
            block_size,
            id,
        ),
    decreases c.lru.len(),
{
    if c.blocks.len() >= c.capacity && c.lru.len() > 0 {
        let v = c.lru.last();
        let rest = CacheModel { lru: c.lru.drop_last(), ..c };
        assert(stored(rest, base, block_size, id) == stored(c, base, block_size, id));
        assert(safe(rest, base, block_size)) by {
            assert forall|i: BlockId|
                #[trigger] rest.has(i) && !rest.blocks[i].unsaved() implies stored(
                rest,
                base,
                block_size,
                i,
            ) == rest.blocks[i].bytes by {
                assert(c.has(i));
            }
        }
        if c.pinned.dom().contains(v) || !c.has(v) {
            lemma_make_room_keeps(rest, base, block_size, id);
        } else {
            let next = rest.evict(v);
            next.lemma_make_room();
            assert(!next.has(v));
            lemma_evict_keeps(rest, v, base, block_size, id);
            assert(safe(next, base, block_size)) by {
                assert forall|i: BlockId|
                    #[trigger] next.has(i) && !next.blocks[i].unsaved() implies stored(
                    next,
                    base,
                    block_size,
                    i,
                ) == next.blocks[i].bytes by {
                    assert(rest.has(i));
                    lemma_evict_keeps(rest, v, base, block_size, i);
                }
            }
            lemma_make_room_keeps(next, base, block_size, id);
        }
    }
}

/// Taking a block in changes that block alone.
pub proof fn lemma_loaded_keeps(
    c: CacheModel,
    new: BlockId,
    b: BlockModel,
    base: Seq<u8>,
    block_size: nat,
    id: BlockId,
)
    requires
        safe(c, base, block_size),
    ensures
        bytes_of(c.loaded(new, b), base, block_size, id) == (if id == new {
            b.bytes
        } else {
            bytes_of(c, base, block_size, id)
        }),
        c.loaded(new, b).has(id) && id != new ==> {
            &&& c.has(id)
            &&& c.loaded(new, b).blocks[id] == c.blocks[id]
            &&& stored(c.loaded(new, b), base, block_size, id) == stored(c, base, block_size, id)
        },
{
    c.lemma_loaded(new, b);
    let served = CacheModel { pending: c.pending.remove(new), ..c };
    if !c.has(new) {
        assert(safe(served, base, block_size)) by {
            assert forall|i: BlockId|
                #[trigger] served.has(i) && !served.blocks[i].unsaved() implies stored(
                served,
                base,
                block_size,
                i,
            ) == served.blocks[i].bytes by {
                assert(c.has(i));
            }
        }
        served.lemma_make_room();
        assert(stored(served, base, block_size, id) == stored(c, base, block_size, id));
        lemma_make_room_keeps(served, base, block_size, id);
    }
}

/// A block that is taken in with edits, or as it is stored, leaves every block
/// without edits stored as it is.
pub proof fn lemma_loaded_safe(
    c: CacheModel,
    new: BlockId,
    b: BlockModel,
    base: Seq<u8>,
    block_size: nat,
)
    requires
        safe(c, base, block_size),
        b.unsaved() || b.bytes == stored(c, base, block_size, new),
    ensures
        safe(c.loaded(new, b), base, block_size),
{
    let d = c.loaded(new, b);
    c.lemma_loaded(new, b);
    assert forall|id: BlockId| #[trigger] d.has(id) && !d.blocks[id].unsaved() implies stored(
        d,
        base,
        block_size,
        id,
    ) == d.blocks[id].bytes by {
        lemma_loaded_keeps(c, new, b, base, block_size, id);
        if id == new {
            lemma_stored_of_new(c, new, b, base, block_size);
        }
    }
}

/// What is stored of a block that is taken in does not change thereby.
proof fn lemma_stored_of_new(
    c: CacheModel,
    new: BlockId,
    b: BlockModel,
    base: Seq<u8>,
    block_size: nat,
)
    requires
        safe(c, base, block_size),
    ensures
        stored(c.loaded(new, b), base, block_size, new) == stored(c, base, block_size, new),
{
    let served = CacheModel { pending: c.pending.remove(new), ..c };
    if !c.has(new) {
        assert(safe(served, base, block_size)) by {
            assert forall|i: BlockId|
                #[trigger] served.has(i) && !served.blocks[i].unsaved() implies stored(
                served,
                base,
                block_size,
                i,
            ) == served.blocks[i].bytes by {
                assert(c.has(i));
            }
        }
        lemma_make_room_keeps(served, base, block_size, new);
        served.lemma_make_room();
        assert(!served.make_room().has(new));
        assert(stored(served, base, block_size, new) == stored(c, base, block_size, new));
    }
}

/// An edit of a block in the cache changes that block alone.
pub proof fn lemma_edited_bytes(
    c: CacheModel,
    b: BlockId,
    bytes: Seq<u8>,
    base: Seq<u8>,
    block_size: nat,
    id: BlockId,
)
    requires
        c.has(b),
    ensures
        c.edited(b, bytes).has(b),
        c.edited(b, bytes).blocks[b].bytes == bytes,
        c.edited(b, bytes).has(id) == c.has(id),
        id != b ==> c.edited(b, bytes).blocks[id] == c.blocks[id],
        c.edited(b, bytes).evicted == c.evicted,
        c.edited(b, bytes).wal == c.wal,
        bytes_of(c.edited(b, bytes), base, block_size, id) == (if id == b {
            bytes
        } else {
            bytes_of(c, base, block_size, id)
        }),
        c.edited(b, bytes).blocks[b].unsaved(),
{
}

/// An edit leaves every block without edits stored as it is.
pub proof fn lemma_edited_safe(
    c: CacheModel,
    b: BlockId,
    bytes: Seq<u8>,
    base: Seq<u8>,
    block_size: nat,
)
    requires
        c.has(b),
        safe(c, base, block_size),
    ensures
        safe(c.edited(b, bytes), base, block_size),
{
    let d = c.edited(b, bytes);
    assert forall|id: BlockId| #[trigger] d.has(id) && !d.blocks[id].unsaved() implies stored(
        d,
        base,
        block_size,
        id,
    ) == d.blocks[id].bytes by {
        lemma_edited_bytes(c, b, bytes, base, block_size, id);
        assert(c.has(id));
    }
}

/// So do requests for blocks.
pub proof fn lemma_touched_safe(c: CacheModel, b: BlockId, base: Seq<u8>, block_size: nat)
    requires
        safe(c, base, block_size),
    ensures
        safe(c.touched(b), base, block_size),
{
    let d = c.touched(b);
    assert forall|id: BlockId| #[trigger] d.has(id) && !d.blocks[id].unsaved() implies stored(
        d,
        base,
        block_size,
        id,
    ) == d.blocks[id].bytes by {
        assert(c.has(id));
    }
}

/// So does cutting a block in two.
pub proof fn lemma_split_safe(
    c: CacheModel,
    b: BlockId,
    at: int,
    base: Seq<u8>,
    block_size: nat,
)
    requires
        c.has(b),
        b < u64::MAX,
        safe(c, base, block_size),
    ensures
        safe(c.split(b, at), base, block_size),
{
    let d = c.split(b, at);
    assert forall|id: BlockId| #[trigger] d.has(id) && !d.blocks[id].unsaved() implies stored(
        d,
        base,
        block_size,
        id,
    ) == d.blocks[id].bytes by {
        assert(c.has(id));
    }
}

/// So does joining two.
pub proof fn lemma_merge_safe(
    c: CacheModel,
    target: BlockId,
    removed: BlockId,
    base: Seq<u8>,
    block_size: nat,
)
    requires
        c.has(target),
        safe(c, base, block_size),
    ensures
        safe(c.merge(target, removed), base, block_size),
{
    let d = c.merge(target, removed);
    assert forall|id: BlockId| #[trigger] d.has(id) && !d.blocks[id].unsaved() implies stored(
        d,
        base,
        block_size,
        id,
    ) == d.blocks[id].bytes by {
        assert(c.has(id));
    }
}

/// A block that holds nothing keeps the rest as it is.
pub proof fn lemma_vacated_safe(c: CacheModel, id: BlockId, base: Seq<u8>, block_size: nat)
    requires
        safe(c, base, block_size),
    ensures
        safe(c.vacated(id), base, block_size),
{
    let d = c.vacated(id);
    assert forall|k: BlockId| #[trigger] d.has(k) && !d.blocks[k].unsaved() implies stored(
        d,
        base,
        block_size,
        k,
    ) == d.blocks[k].bytes by {
        assert(c.has(k));
    }
}

/// No edit is lost for want of memory: when a block that is loaded takes the
/// place of others, every block holds what it held, and those that go the next
/// time will too.
pub proof fn law_eviction_loses_nothing(
    c: CacheModel,
    new: BlockId,
    base: Seq<u8>,
    block_size: nat,
    id: BlockId,
)
    requires
        safe(c, base, block_size),
        !c.has(new),
    ensures
        ({
            let d = c.loaded(new, BlockModel::clean(stored(c, base, block_size, new)));
            &&& bytes_of(d, base, block_size, id) == bytes_of(c, base, block_size, id)
            &&& safe(d, base, block_size)
        }),
{
    let b = BlockModel::clean(stored(c, base, block_size, new));
    lemma_loaded_keeps(c, new, b, base, block_size, id);
    lemma_loaded_safe(c, new, b, base, block_size);
}

} // verus!
