//! What the cache keeps and what it lets go.

use crate::block::{BlockId, BlockModel};
use crate::cache;
use crate::cache::CacheModel;
use vstd::prelude::*;

verus! {

/// Every request for a block is counted: as a hit where the block is there, and as a
/// miss where it is not. A request changes nothing else but the order of use.
pub proof fn law_requests_are_counted(c: CacheModel, id: BlockId)
    requires
        c.hits < u64::MAX,
        c.misses < u64::MAX,
    ensures
        ({
            let d = c.touched(id);
            &&& c.blocks.dom().contains(id) ==> d.hits == c.hits + 1 && d.misses == c.misses
            &&& !c.blocks.dom().contains(id) ==> d.misses == c.misses + 1 && d.hits == c.hits
                && d.lru == c.lru
            &&& d.blocks == c.blocks
            &&& d.pinned == c.pinned
            &&& d.pending == c.pending
            &&& d.capacity == c.capacity
            &&& d.evictions == c.evictions
            &&& d.evicted == c.evicted
            &&& d.wal == c.wal
        }),
{
}

proof fn lemma_without_first(s: Seq<BlockId>, x: BlockId, k: int)
    requires
        0 <= k < s.len(),
        s[k] == x,
        forall|i: int| 0 <= i < k ==> #[trigger] s[i] != x,
    ensures
        cache::without_first(s, x) == s.take(k) + s.skip(k + 1),
    decreases s.len(),
{
    if k == 0 {
        assert(s.subrange(1, s.len() as int) =~= s.take(0) + s.skip(1));
    } else {
        let rest = s.subrange(1, s.len() as int);
        assert forall|i: int| 0 <= i < k - 1 implies #[trigger] rest[i] != x by {
            assert(s[i + 1] != x);
        }
        lemma_without_first(rest, x, k - 1);
        assert(s[0] != x);
        assert(seq![s[0]] + (rest.take(k - 1) + rest.skip(k)) =~= s.take(k) + s.skip(k + 1));
    }
}

/// A block that is asked for and is there becomes the latest in use; the others keep
/// their order.
pub proof fn law_used_block_is_latest(c: CacheModel, k: int)
    requires
        c.lru.no_duplicates(),
        0 <= k < c.lru.len(),
        c.has(c.lru[k]),
        !c.pinned.dom().contains(c.lru[k]),
    ensures
        c.touched(c.lru[k]).lru == seq![c.lru[k]] + c.lru.take(k) + c.lru.skip(k + 1),
{
    let id = c.lru[k];
    lemma_without_first(c.lru, id, k);
    assert(seq![id] + (c.lru.take(k) + c.lru.skip(k + 1)) =~= seq![id] + c.lru.take(k)
        + c.lru.skip(k + 1));
}

/// Every block of the cache may go, and its use is known.
pub open spec fn all_free(c: CacheModel) -> bool {
    &&& c.lru.no_duplicates()
    &&& c.lru.len() == c.blocks.len()
    &&& c.blocks.dom().finite()
    &&& forall|i: int|
        0 <= i < c.lru.len() ==> c.has(#[trigger] c.lru[i]) && !c.pinned.dom().contains(c.lru[i])
}

proof fn lemma_room(c: CacheModel)
    requires
        all_free(c),
        c.capacity >= 1,
    ensures
        ({
            let room = c.make_room();
            let n = if c.blocks.len() < c.capacity {
                c.lru.len() as int
            } else {
                c.capacity - 1
            };
            &&& room.lru == c.lru.take(n)
            &&& room.blocks.len() == n
            &&& room.blocks.dom().finite()
            &&& forall|i: int| 0 <= i < n ==> room.has(#[trigger] c.lru[i])
            &&& forall|i: int| n <= i < c.lru.len() ==> !room.has(#[trigger] c.lru[i])
        }),
    decreases c.lru.len(),
{
    if c.blocks.len() >= c.capacity && c.lru.len() > 0 {
        let last = c.lru.len() - 1;
        let v = c.lru.last();
        assert(c.lru[last] == v);
        let rest = CacheModel { lru: c.lru.drop_last(), ..c };
        let d = rest.evict(v);
        assert forall|i: int| 0 <= i < d.lru.len() implies d.has(#[trigger] d.lru[i])
            && !d.pinned.dom().contains(d.lru[i]) by {
            assert(c.lru[i] == d.lru[i]);
            assert(c.lru[i] != c.lru[last]);
        }
        lemma_room(d);
        d.lemma_make_room();
        let n = c.capacity - 1;
        if d.blocks.len() < d.capacity {
            assert(d.blocks.len() == n);
            assert(d.lru.take(d.lru.len() as int) =~= d.lru);
        }
        assert(d.lru.take(n) =~= c.lru.take(n));
        assert forall|i: int| 0 <= i < n implies c.make_room().has(#[trigger] c.lru[i]) by {
            assert(d.lru[i] == c.lru[i]);
        }
        assert forall|i: int| n <= i < c.lru.len() implies !c.make_room().has(
            #[trigger] c.lru[i],
        ) by {
            if i < last {
                assert(d.lru[i] == c.lru[i]);
            } else {
                assert(!d.has(v));
            }
        }
    } else {
        assert(c.lru.take(c.lru.len() as int) =~= c.lru);
    }
}

/// A block that arrives is there, as the latest in use. Where there is room for it, no
/// other block goes. Where there is none, those go that were used longest ago, and
/// no more than have to: as many stay as fit beside the new one.
pub proof fn law_arriving_block_finds_room(c: CacheModel, id: BlockId, b: BlockModel, i: int)
    requires
        all_free(c),
        !c.has(id),
        c.capacity >= 1,
        0 <= i < c.lru.len(),
    ensures
        ({
            let d = c.loaded(id, b);
            &&& d.has(id)
            &&& d.blocks[id] == b
            &&& d.lru[0] == id
            &&& d.blocks.len() <= c.capacity || d.blocks.len() == c.blocks.len() + 1
            &&& c.blocks.len() <= c.capacity ==> d.blocks.len() <= c.capacity
            &&& c.blocks.len() < c.capacity ==> d.has(c.lru[i])
            &&& c.blocks.len() >= c.capacity ==> (d.has(c.lru[i]) <==> i < c.capacity - 1)
        }),
{
    let served = CacheModel { pending: c.pending.remove(id), ..c };
    lemma_room(served);
    served.lemma_make_room();
    c.lemma_loaded(id, b);
    assert(c.lru[i] != id);
}

/// The blocks that are there are at most as many as fit, also behind one that
/// arrived.
pub proof fn law_cache_is_not_overfilled(c: CacheModel, id: BlockId, b: BlockModel)
    requires
        all_free(c),
        c.capacity >= 1,
        c.blocks.len() <= c.capacity,
    ensures
        c.loaded(id, b).blocks.len() <= c.capacity,
{
    let served = CacheModel { pending: c.pending.remove(id), ..c };
    lemma_room(served);
    served.lemma_make_room();
}

/// An edit changes the bytes of its block and leaves it with edits that are not
/// stored. Of the other blocks nothing changes, and no block goes.
pub proof fn law_edited_block_is_unsaved(c: CacheModel, id: BlockId, bytes: Seq<u8>, other: BlockId)
    requires
        c.has(id),
        c.pins(id) < usize::MAX,
        other != id,
    ensures
        ({
            let d = c.edited(id, bytes);
            &&& d.has(id)
            &&& d.blocks[id].bytes == bytes
            &&& d.blocks[id].unsaved()
            &&& d.has(other) == c.has(other)
            &&& c.has(other) ==> d.blocks[other] == c.blocks[other]
            &&& d.evicted == c.evicted
            &&& d.wal == c.wal
        }),
{
}

/// A block that is read has no edits, and one that was written out has none either;
/// neither changes its bytes.
pub proof fn law_stored_block_is_not_unsaved(c: CacheModel, id: BlockId, bytes: Seq<u8>)
    ensures
        !BlockModel::clean(bytes).unsaved(),
        BlockModel::clean(bytes).bytes == bytes,
        BlockModel::cut_off(bytes).unsaved(),
        BlockModel::cut_off(bytes).bytes == bytes,
        c.has(id) ==> c.cleaned(id).has(id) && !c.cleaned(id).blocks[id].unsaved() && c.cleaned(
            id,
        ).blocks[id].bytes == c.blocks[id].bytes,
{
}

/// Of a block that has to go, the edits that are not stored are put aside, and
/// nothing is put aside of any other block.
pub proof fn law_edits_are_put_aside(c: CacheModel, v: BlockId)
    requires
        c.has(v),
    ensures
        ({
            let d = c.evict(v);
            &&& !d.has(v)
            &&& c.blocks[v].unsaved() ==> d.evicted == c.evicted + seq![(v, c.blocks[v].bytes)]
            &&& !c.blocks[v].unsaved() ==> d.evicted == c.evicted
            &&& c.evictions < u64::MAX ==> d.evictions == c.evictions + 1
            &&& forall|id: BlockId| id != v ==> #[trigger] d.has(id) == c.has(id)
        }),
{
    assert(c.evicted.push((v, c.blocks[v].bytes)) =~= c.evicted + seq![(v, c.blocks[v].bytes)]);
}

/// A block stays pinned until it was handed back as often as it was pinned. From then
/// on it counts as edited and is the first to go.
pub proof fn law_pins_are_counted(c: CacheModel, id: BlockId)
    requires
        c.has(id),
        c.pins(id) < usize::MAX,
        forall|k: BlockId| #[trigger] c.pinned.dom().contains(k) ==> c.pinned[k] > 0,
    ensures
        c.pin(id).pins(id) == c.pins(id) + 1,
        c.pin(id).blocks[id].bytes == c.blocks[id].bytes,
        c.pin(id).blocks[id].unsaved(),
        c.pin(id).unpin(id).pins(id) == c.pins(id),
        c.pin(id).unpin(id).blocks[id].bytes == c.blocks[id].bytes,
        c.pin(id).unpin(id).blocks[id].unsaved(),
        c.pins(id) == 0 ==> {
            &&& !c.pin(id).unpin(id).pinned.dom().contains(id)
            &&& c.pin(id).unpin(id).lru.last() == id
        },
{
    lemma_without(c.lru, id);
}

proof fn lemma_without(s: Seq<BlockId>, x: BlockId)
    ensures
        !cache::without(s, x).contains(x),
    decreases s.len(),
{
    if s.len() > 0 {
        lemma_without(s.drop_last(), x);
        let rest = cache::without(s.drop_last(), x);
        if s.last() != x && rest.push(s.last()).contains(x) {
            let i = choose|i: int|
                0 <= i < rest.push(s.last()).len() && rest.push(s.last())[i] == x;
            assert(i < rest.len());
            assert(rest[i] == x);
        }
    }
}

/// A block that arrives again takes the place of the one with its number; of the
/// others nothing changes, and none goes.
pub proof fn law_block_arrives_again(c: CacheModel, id: BlockId, b: BlockModel, other: BlockId)
    requires
        c.has(id),
        other != id,
    ensures
        ({
            let d = c.loaded(id, b);
            &&& d.has(id)
            &&& d.blocks[id] == b
            &&& d.has(other) == c.has(other)
            &&& d.blocks[other] == c.blocks[other]
            &&& d.lru == c.lru
            &&& d.evicted == c.evicted
            &&& d.evictions == c.evictions
        }),
{
}

} // verus!
