//! The blocks held in memory. When there is no room for another block, the
//! one that was used longest ago goes; a block that is being edited stays.

use crate::block::{Block, BlockData, BlockId, BlockModel, BlockState, GapBuffer};
use crate::config::EditorConfig;
use crate::error::{CacheError, EditError};
use crate::text;
use crate::wal::Wal;
use std::collections::{HashMap, VecDeque};
use std::sync::Arc;
use vstd::prelude::*;

verus! {

broadcast use vstd::std_specs::hash::group_hash_axioms;

/// A copy of a block, to be read without holding on to the cache.
#[derive(Clone, Debug)]
pub struct BlockSnapshot {
    pub id: BlockId,
    pub raw_len: usize,
    pub len: usize,
    pub state: BlockState,
    pub contiguous: Vec<u8>,
}

impl BlockSnapshot {
    /// This is a copy of the block `id` that `b` describes.
    pub open spec fn copies(&self, id: BlockId, b: BlockModel) -> bool {
        &&& self.id == id
        &&& self.raw_len == b.raw_len
        &&& self.len == b.bytes.len()
        &&& self.state == b.state
        &&& self.contiguous@ == b.bytes
    }

    pub fn from_block(b: &Block) -> (snap: Self)
        requires
            b.wf(),
        ensures
            snap.copies(b.id, b.model()),
    {
        Self {
            id: b.id,
            raw_len: b.raw_len,
            len: b.len(),
            state: b.state,
            contiguous: b.data.to_contiguous(),
        }
    }
}

/// Counts that tell how well the cache does.
#[derive(Clone, Debug)]
pub struct CacheStats {
    pub hits: u64,
    pub misses: u64,
    pub evictions: u64,
    pub size_blocks: usize,
    pub capacity_blocks: usize,
    pub pinned_blocks: usize,
}

impl Default for CacheStats {
    fn default() -> (s: Self)
        ensures
            s.hits == 0 && s.misses == 0 && s.evictions == 0,
            s.size_blocks == 0 && s.capacity_blocks == 0 && s.pinned_blocks == 0,
    {
        Self {
            hits: 0,
            misses: 0,
            evictions: 0,
            size_blocks: 0,
            capacity_blocks: 0,
            pinned_blocks: 0,
        }
    }
}

/// What comes of asking for a block.
pub enum GetOutcome {
    Hit(BlockSnapshot),
    /// The block has to be loaded. The number is that of the request: it comes
    /// back when the block is there.
    MissNeedLoad(u64),
}

/// Who waits for a block that has arrived, and what they get.
pub struct Delivery {
    pub waiting: Vec<u64>,
    pub snapshot: BlockSnapshot,
}

/// A block pinned for an edit. It is to be handed back when the edit is done.
pub struct EditGuard {
    block_id: BlockId,
}

impl EditGuard {
    pub closed spec fn id(&self) -> BlockId {
        self.block_id
    }
}

/// A counter one further on; after the largest number comes zero.
pub open spec fn counted(x: u64) -> u64 {
    if x == u64::MAX {
        0
    } else {
        (x + 1) as u64
    }
}

/// `s` without the first `x`.
pub open spec fn without_first(s: Seq<BlockId>, x: BlockId) -> Seq<BlockId>
    decreases s.len(),
{
    if s.len() == 0 {
        s
    } else if s[0] == x {
        s.subrange(1, s.len() as int)
    } else {
        seq![s[0]] + without_first(s.subrange(1, s.len() as int), x)
    }
}

/// `s` without any `x`.
pub open spec fn without(s: Seq<BlockId>, x: BlockId) -> Seq<BlockId>
    decreases s.len(),
{
    if s.len() == 0 {
        s
    } else if s.last() == x {
        without(s.drop_last(), x)
    } else {
        without(s.drop_last(), x).push(s.last())
    }
}

/// What there is to know of a cache.
#[verifier::ext_equal]
pub struct CacheModel {
    pub blocks: Map<BlockId, BlockModel>,
    /// How many edits of a block are under way.
    pub pinned: Map<BlockId, usize>,
    /// Who waits for a block.
    pub pending: Map<BlockId, Seq<u64>>,
    /// The order of use, the latest first.
    pub lru: Seq<BlockId>,
    pub capacity: usize,
    pub hits: u64,
    pub misses: u64,
    pub evictions: u64,
    /// The number of the next request.
    pub next_request: u64,
    /// Blocks with edits that had to go and are not in the log yet.
    pub evicted: Seq<(BlockId, Seq<u8>)>,
    pub wal: Option<Wal>,
}

impl CacheModel {
    pub open spec fn has(self, id: BlockId) -> bool {
        self.blocks.dom().contains(id)
    }

    /// After a request for block `id`.
    pub open spec fn touched(self, id: BlockId) -> CacheModel {
        if self.has(id) {
            CacheModel {
                hits: counted(self.hits),
                lru: if self.pinned.dom().contains(id) {
                    self.lru
                } else {
                    seq![id] + without_first(self.lru, id)
                },
                ..self
            }
        } else {
            CacheModel { misses: counted(self.misses), ..self }
        }
    }

    /// How many edits hold on to block `id`.
    pub open spec fn pins(self, id: BlockId) -> usize {
        if self.pinned.dom().contains(id) {
            self.pinned[id]
        } else {
            0
        }
    }

    /// After the blocks `ids` were asked for, one after the other.
    pub open spec fn after_asking(self, ids: Seq<BlockId>) -> CacheModel
        decreases ids.len(),
    {
        if ids.len() == 0 {
            self
        } else {
            self.after_asking(ids.drop_last()).touched(ids.last())
        }
    }

    /// `later` differs only by requests for blocks.
    pub open spec fn only_asked(self, later: CacheModel) -> bool {
        exists|ids: Seq<BlockId>| later == #[trigger] self.after_asking(ids)
    }

    /// After block `v` had to go.
    pub open spec fn evict(self, v: BlockId) -> CacheModel {
        CacheModel {
            blocks: self.blocks.remove(v),
            evictions: counted(self.evictions),
            evicted: if self.blocks[v].unsaved() {
                self.evicted.push((v, self.blocks[v].bytes))
            } else {
                self.evicted
            },
            ..self
        }
    }

    /// After blocks had to go, the one used longest ago first, until there is
    /// room for one more or none is left that may go.
    pub open spec fn make_room(self) -> CacheModel
        decreases self.lru.len(),
    {
        if self.blocks.len() >= self.capacity && self.lru.len() > 0 {
            let v = self.lru.last();
            let rest = CacheModel { lru: self.lru.drop_last(), ..self };
            if self.pinned.dom().contains(v) || !self.has(v) {
                rest.make_room()
            } else {
                rest.evict(v).make_room()
            }
        } else {
            self
        }
    }

    /// After block `id` arrived as `b`.
    pub open spec fn loaded(self, id: BlockId, b: BlockModel) -> CacheModel {
        let served = CacheModel { pending: self.pending.remove(id), ..self };
        if self.has(id) {
            CacheModel { blocks: served.blocks.insert(id, b), ..served }
        } else {
            let room = served.make_room();
            CacheModel {
                blocks: room.blocks.insert(id, b),
                lru: seq![id] + room.lru,
                ..room
            }
        }
    }

    /// After block `id` was pinned.
    pub open spec fn pin(self, id: BlockId) -> CacheModel {
        let count = if self.pinned.dom().contains(id) {
            self.pinned[id] as int
        } else {
            0
        };
        let held = CacheModel {
            lru: without(self.lru, id),
            pinned: self.pinned.insert(id, (count + 1) as usize),
            ..self
        };
        if self.has(id) {
            held.with_block(
                id,
                BlockModel { gap: true, state: BlockState::InGapBuffer, ..self.blocks[id] },
            )
        } else {
            held
        }
    }

    /// After block `id` was handed back.
    pub open spec fn unpin(self, id: BlockId) -> CacheModel {
        if !self.pinned.dom().contains(id) {
            self
        } else if self.pinned[id] > 1 {
            CacheModel { pinned: self.pinned.insert(id, (self.pinned[id] - 1) as usize), ..self }
        } else {
            let free = CacheModel {
                pinned: self.pinned.remove(id),
                lru: if self.lru.contains(id) {
                    self.lru
                } else {
                    self.lru.push(id)
                },
                ..self
            };
            if self.has(id) && self.blocks[id].state is InGapBuffer {
                free.with_block(id, BlockModel { state: BlockState::Dirty, ..self.blocks[id] })
            } else {
                free
            }
        }
    }

    /// After the bytes of block `id` became `bytes` in an edit.
    pub open spec fn edited(self, id: BlockId, bytes: Seq<u8>) -> CacheModel {
        let held = self.pin(id);
        held.with_block(id, BlockModel { bytes, ..held.blocks[id] }).unpin(id)
    }

    /// With block `id` as `b`.
    pub open spec fn with_block(self, id: BlockId, b: BlockModel) -> CacheModel {
        CacheModel { blocks: self.blocks.insert(id, b), ..self }
    }

    /// After the bytes of block `id` were written out.
    pub open spec fn cleaned(self, id: BlockId) -> CacheModel {
        if self.has(id) {
            self.with_block(id, BlockModel::clean(self.blocks[id].bytes))
        } else {
            self
        }
    }

    /// After everything that was held was given up, and the log with it.
    pub open spec fn emptied(self) -> CacheModel {
        CacheModel {
            blocks: Map::empty(),
            pinned: Map::empty(),
            lru: Seq::empty(),
            evicted: Seq::empty(),
            wal: None,
            ..self
        }
    }

    /// After block `removed` was joined to the end of block `target`.
    pub open spec fn merge(self, target: BlockId, removed: BlockId) -> CacheModel {
        CacheModel {
            blocks: self.blocks.insert(
                target,
                BlockModel {
                    bytes: self.blocks[target].bytes + self.blocks[removed].bytes,
                    state: BlockState::InGapBuffer,
                    gap: true,
                    ..self.blocks[target]
                },
            ).remove(removed),
            lru: without(self.lru, removed),
            pinned: self.pinned.remove(removed),
            ..self
        }
    }

    /// With block `id` as one that holds nothing, which is stored nowhere yet. It
    /// is the first to go.
    pub open spec fn vacated(self, id: BlockId) -> CacheModel {
        CacheModel {
            blocks: self.blocks.insert(id, BlockModel::cut_off(Seq::empty())),
            lru: without(self.lru, id).push(id),
            ..self
        }
    }

    /// After the bytes of block `id` from `at` on became a block of their own
    /// behind it. Neither half is stored.
    pub open spec fn split(self, id: BlockId, at: int) -> CacheModel {
        let bytes = self.blocks[id].bytes;
        let right = (id + 1) as u64;
        CacheModel {
            blocks: self.blocks.insert(
                id,
                BlockModel {
                    bytes: bytes.subrange(0, at),
                    state: BlockState::Dirty,
                    gap: true,
                    ..self.blocks[id]
                },
            ).insert(right, BlockModel::cut_off(bytes.subrange(at, bytes.len() as int))),
            lru: seq![right] + without(self.lru, right),
            ..self
        }
    }
}

/// What is said of an edit of a block that is not in the cache.
pub open spec fn pin_message(id: BlockId) -> Seq<char> {
    "pin 块 "@ + text::dec(id as nat) + " 失败"@
}

/// What is said of joining blocks that are not both in the cache.
pub open spec fn merge_message(has_removed: bool, target: BlockId, removed: BlockId) -> Seq<char> {
    if has_removed {
        "合并目标块 "@ + text::dec(target as nat) + " 不在缓存"@
    } else {
        "合并块 "@ + text::dec(removed as nat) + " 不在缓存"@
    }
}

/// What is said of splitting a block that is not in the cache.
pub open spec fn split_missing_message(id: BlockId) -> Seq<char> {
    "分裂目标块 "@ + text::dec(id as nat) + " 不在缓存"@
}

/// The blocks held in memory.
pub struct BlockCache {
    map: HashMap<BlockId, Block>,
    pinned: HashMap<BlockId, usize>,
    pending: HashMap<BlockId, Vec<u64>>,
    lru: VecDeque<BlockId>,
    capacity_blocks: usize,
    hits: u64,
    misses: u64,
    evictions: u64,
    next_request: u64,
    evicted: Vec<(BlockId, Vec<u8>)>,
    config: Arc<EditorConfig>,
    wal: Option<Wal>,
}

/// Pairs of block numbers and bytes as pairs of block numbers and sequences.
pub open spec fn entries_view(entries: Seq<(BlockId, Vec<u8>)>) -> Seq<(BlockId, Seq<u8>)> {
    Seq::new(entries.len(), |i: int| (entries[i].0, entries[i].1@))
}

impl View for BlockCache {
    type V = CacheModel;

    closed spec fn view(&self) -> CacheModel {
        CacheModel {
            blocks: Map::new(
                |id: BlockId| self.map@.dom().contains(id),
                |id: BlockId| self.map@[id].model(),
            ),
            pinned: self.pinned@,
            pending: Map::new(
                |id: BlockId| self.pending@.dom().contains(id),
                |id: BlockId| self.pending@[id]@,
            ),
            lru: self.lru@,
            capacity: self.capacity_blocks,
            hits: self.hits,
            misses: self.misses,
            evictions: self.evictions,
            next_request: self.next_request,
            evicted: entries_view(self.evicted@),
            wal: self.wal,
        }
    }
}

fn count(x: u64) -> (y: u64)
    ensures
        y == counted(x),
{
    if x == u64::MAX {
        0
    } else {
        x + 1
    }
}

impl BlockCache {
    pub closed spec fn wf(&self) -> bool {
        &&& forall|id: BlockId| #[trigger]
            self.map@.dom().contains(id) ==> self.map@[id].wf() && self.map@[id].id == id
        &&& forall|id: BlockId| #[trigger] self.pinned@.dom().contains(id) ==> self.pinned@[id] > 0
        &&& self.wal matches Some(wal) ==> wal.wf()
    }

    /// The gap buffer of block `id`.
    pub closed spec fn gap(&self, id: BlockId) -> GapBuffer {
        self.map@[id].data->Gap_0
    }

    pub fn new(config: Arc<EditorConfig>, capacity_blocks: usize) -> (cache: Self)
        ensures
            cache.wf(),
            cache@ == (CacheModel {
                blocks: Map::empty(),
                pinned: Map::empty(),
                pending: Map::empty(),
                lru: Seq::empty(),
                capacity: capacity_blocks,
                hits: 0,
                misses: 0,
                evictions: 0,
                next_request: 0,
                evicted: Seq::empty(),
                wal: None,
            }),
    {
        let cache = Self {
            map: HashMap::new(),
            pinned: HashMap::new(),
            pending: HashMap::new(),
            lru: VecDeque::new(),
            capacity_blocks,
            hits: 0,
            misses: 0,
            evictions: 0,
            next_request: 0,
            evicted: Vec::new(),
            config,
            wal: None,
        };
        assert(cache@.blocks =~= Map::empty());
        assert(cache@.pending =~= Map::empty());
        assert(cache@.evicted =~= Seq::empty());
        cache
    }

    pub fn new_for_test(config: Arc<EditorConfig>, capacity_blocks: usize) -> (cache: Self)
        ensures
            cache.wf(),
            cache@ == (CacheModel {
                blocks: Map::empty(),
                pinned: Map::empty(),
                pending: Map::empty(),
                lru: Seq::empty(),
                capacity: capacity_blocks,
                hits: 0,
                misses: 0,
                evictions: 0,
                next_request: 0,
                evicted: Seq::empty(),
                wal: None,
            }),
    {
        Self::new(config, capacity_blocks)
    }

    /// Puts a log beside the cache, for the edits of blocks that have to go.
    pub fn attach_wal(&mut self, wal: Wal)
        requires
            old(self).wf(),
            wal.wf(),
        ensures
            final(self).wf(),
            final(self)@ == (CacheModel { wal: Some(wal), ..old(self)@ }),
    {
        self.wal = Some(wal);
    }

    /// Takes the log away.
    pub fn detach_wal(&mut self)
        requires
            old(self).wf(),
        ensures
            final(self).wf(),
            final(self)@ == (CacheModel { wal: None, ..old(self)@ }),
    {
        self.wal = None;
    }

    /// Gives up every block and takes the log away.
    pub fn clear(&mut self)
        requires
            old(self).wf(),
        ensures
            final(self).wf(),
            final(self)@ == old(self)@.emptied(),
    {
        self.map = HashMap::new();
        self.pinned = HashMap::new();
        self.lru = VecDeque::new();
        self.evicted = Vec::new();
        self.wal = None;
        assert(self@ =~= old(self)@.emptied()) by {
            assert(self@.blocks =~= Map::empty());
            assert(self@.pinned =~= Map::empty());
            assert(self@.lru =~= Seq::empty());
            assert(self@.evicted =~= Seq::empty());
        }
    }

    /// The log beside the cache, if there is one.
    pub fn wal(&self) -> (wal: Option<&Wal>)
        requires
            self.wf(),
        ensures
            match wal {
                Some(w) => self@.wal == Some(*w) && w.wf(),
                None => self@.wal is None,
            },
    {
        self.wal.as_ref()
    }

    pub fn stats(&self) -> (s: CacheStats)
        requires
            self.wf(),
        ensures
            s.hits == self@.hits,
            s.misses == self@.misses,
            s.evictions == self@.evictions,
            s.size_blocks == self@.blocks.len(),
            s.capacity_blocks == self@.capacity,
            s.pinned_blocks == self@.pinned.len(),
    {
        assert(self@.blocks.dom() =~= self.map@.dom());
        CacheStats {
            hits: self.hits,
            misses: self.misses,
            evictions: self.evictions,
            size_blocks: self.map.len(),
            capacity_blocks: self.capacity_blocks,
            pinned_blocks: self.pinned.len(),
        }
    }

    /// Makes block `id` the latest in use, and says whether it is there.
    pub fn touch(&mut self, id: BlockId) -> (found: bool)
        requires
            old(self).wf(),
        ensures
            final(self).wf(),
            final(self)@ == old(self)@.touched(id),
            found == old(self)@.has(id),
    {
        if !self.map.contains_key(&id) {
            self.misses = count(self.misses);
            return false;
        }
        self.hits = count(self.hits);
        if !self.pinned.contains_key(&id) {
            remove_first(&mut self.lru, id);
            self.lru.push_front(id);
            assert(self.lru@ =~= seq![id] + without_first(old(self).lru@, id));
        }
        true
    }

    /// A copy of block `id`, which thereby is the latest in use.
    pub fn try_get(&mut self, id: BlockId) -> (snap: Option<BlockSnapshot>)
        requires
            old(self).wf(),
        ensures
            final(self).wf(),
            final(self)@ == old(self)@.touched(id),
            match snap {
                Some(s) => old(self)@.has(id) && s.copies(id, old(self)@.blocks[id]),
                None => !old(self)@.has(id),
            },
    {
        if !self.touch(id) {
            return None;
        }
        match self.map.get(&id) {
            Some(b) => Some(BlockSnapshot::from_block(b)),
            None => None,
        }
    }

    /// A copy of block `id`, or a request that is answered when it arrives.
    pub fn get_or_register_pending(&mut self, id: BlockId) -> (outcome: GetOutcome)
        requires
            old(self).wf(),
        ensures
            final(self).wf(),
            match outcome {
                GetOutcome::Hit(s) => {
                    &&& old(self)@.has(id)
                    &&& s.copies(id, old(self)@.blocks[id])
                    &&& final(self)@ == old(self)@.touched(id)
                },
                GetOutcome::MissNeedLoad(request) => {
                    let waiting = if old(self)@.pending.dom().contains(id) {
                        old(self)@.pending[id]
                    } else {
                        Seq::empty()
                    };
                    &&& !old(self)@.has(id)
                    &&& request == old(self)@.next_request
                    &&& final(self)@ == (CacheModel {
                        pending: old(self)@.pending.insert(id, waiting.push(request)),
                        next_request: counted(request),
                        ..old(self)@.touched(id)
                    })
                },
            },
    {
        if let Some(s) = self.try_get(id) {
            return GetOutcome::Hit(s);
        }
        let request: u64 = self.next_request;
        self.next_request = count(request);
        let mut waiting: Vec<u64> = match self.pending.remove(&id) {
            Some(v) => v,
            None => Vec::new(),
        };
        waiting.push(request);
        self.pending.insert(id, waiting);
        assert(self@.pending =~= old(self)@.pending.insert(id, waiting@));
        GetOutcome::MissNeedLoad(request)
    }

    /// Takes a block in that was loaded, in place of one with its number or
    /// else as the latest in use. Other blocks may have to go.
    pub fn insert_loaded(&mut self, block: Block) -> (delivery: Delivery)
        requires
            old(self).wf(),
            block.wf(),
        ensures
            final(self).wf(),
            final(self)@ == old(self)@.loaded(block.id, block.model()),
            delivery.snapshot.copies(block.id, block.model()),
            delivery.waiting@ == (if old(self)@.pending.dom().contains(block.id) {
                old(self)@.pending[block.id]
            } else {
                Seq::empty()
            }),
    {
        let id: BlockId = block.id;
        let ghost model = block.model();
        let snapshot = BlockSnapshot::from_block(&block);
        let waiting: Vec<u64> = match self.pending.remove(&id) {
            Some(v) => v,
            None => Vec::new(),
        };
        assert(self@.pending =~= old(self)@.pending.remove(id));
        let ghost served = self@;
        if self.map.contains_key(&id) {
            self.map.insert(id, block);
            assert(self@.blocks =~= served.blocks.insert(id, model));
        } else {
            self.make_room();
            proof {
                served.lemma_make_room();
            }
            let ghost room = self@;
            self.map.insert(id, block);
            self.lru.push_front(id);
            assert(self@.blocks =~= room.blocks.insert(id, model));
            assert(self@.lru =~= seq![id] + room.lru);
        }
        Delivery { waiting, snapshot }
    }

    /// Lets blocks go until there is room for one more or none is left that
    /// may go.
    fn make_room(&mut self)
        requires
            old(self).wf(),
        ensures
            final(self).wf(),
            final(self)@ == old(self)@.make_room(),
    {
        loop
            invariant
                self.wf(),
                self@.make_room() == old(self)@.make_room(),
            ensures
                self.wf(),
                self@ == old(self)@.make_room(),
            decreases self.lru@.len(),
        {
            let ghost before = self@;
            proof {
                assert(before.blocks.dom() =~= self.map@.dom());
            }
            if self.map.len() < self.capacity_blocks {
                break ;
            }
            match self.lru.pop_back() {
                None => {
                    break ;
                },
                Some(v) => {
                    assert(self.lru@ =~= before.lru.drop_last());
                    let ghost rest = self@;
                    if !self.pinned.contains_key(&v) {
                        match self.map.remove(&v) {
                            Some(b) => {
                                self.evictions = count(self.evictions);
                                if let BlockState::Clean = b.state {
                                } else {
                                    self.evicted.push((v, b.into_contiguous_bytes()));
                                }
                                assert(self@.blocks =~= rest.blocks.remove(v));
                                assert(self@.evicted =~= rest.evict(v).evicted);
                            },
                            None => {
                                assert(self@.blocks =~= rest.blocks);
                            },
                        }
                    }
                },
            }
        }
    }

    /// Pins block `id` for an edit: it is turned into a gap buffer and does
    /// not have to go until it is handed back.
    pub fn pin_for_edit(&mut self, id: BlockId) -> (r: Result<EditGuard, CacheError>)
        requires
            old(self).wf(),
            old(self)@.pins(id) < usize::MAX,
        ensures
            final(self).wf(),
            final(self)@ == old(self)@.pin(id),
            match r {
                Ok(guard) => old(self)@.has(id) && guard.id() == id,
                Err(e) => !old(self)@.has(id) && e == CacheError::BlockPinned(id),
            },
            r is Ok ==> final(self).gap(id).wf() && final(self).gap(id)@ == old(
                self,
            )@.blocks[id].bytes,
    {
        remove_all(&mut self.lru, id);
        let count: usize = match self.pinned.get(&id) {
            Some(n) => *n,
            None => 0,
        };
        self.pinned.insert(id, count + 1);
        match self.map.remove(&id) {
            Some(mut block) => {
                let _ = block.to_gap();
                block.state = BlockState::InGapBuffer;
                let ghost model = block.model();
                self.map.insert(id, block);
                assert(self@.blocks =~= old(self)@.blocks.insert(id, model));
                Ok(EditGuard { block_id: id })
            },
            None => {
                assert(self@.blocks =~= old(self)@.blocks);
                Err(CacheError::BlockPinned(id))
            },
        }
    }

    /// Hands a pinned block back. The block counts as edited and is the first
    /// that has to go.
    pub fn release(&mut self, guard: EditGuard)
        requires
            old(self).wf(),
        ensures
            final(self).wf(),
            final(self)@ == old(self)@.unpin(guard.id()),
    {
        let id: BlockId = guard.block_id;
        let count: usize = match self.pinned.get(&id) {
            Some(n) => *n,
            None => 0,
        };
        if count == 0 {
            return ;
        }
        if count > 1 {
            self.pinned.insert(id, count - 1);
            return ;
        }
        self.pinned.remove(&id);
        if !contains(&self.lru, id) {
            self.lru.push_back(id);
        }
        match self.map.remove(&id) {
            Some(mut block) => {
                if let BlockState::InGapBuffer = block.state {
                    block.state = BlockState::Dirty;
                }
                let ghost model = block.model();
                self.map.insert(id, block);
                assert(self@.blocks =~= old(self)@.blocks.insert(id, model));
                assert(old(self)@.blocks[id].state !is InGapBuffer ==> self@.blocks =~= old(
                    self,
                )@.blocks);
            },
            None => {
                assert(self@.blocks =~= old(self)@.blocks);
            },
        }
    }

    /// Lets `f` work on the gap buffer of a pinned block.
    pub fn with_pin_mut<F, R>(&mut self, id: BlockId, f: F) -> (r: Result<R, EditError>) where
        F: FnOnce(&mut GapBuffer) -> Result<R, EditError>,

        requires
            old(self).wf(),
            old(self)@.has(id) && old(self)@.blocks[id].gap ==> {
                &&& forall|g: &mut GapBuffer| #[trigger]
                    call_requires(f, (g,)) <== *g == old(self).gap(id)
                &&& forall|g: &mut GapBuffer, r: Result<R, EditError>| #[trigger]
                    call_ensures(f, (g,), r) && *g == old(self).gap(id) ==> (*final(g)).wf()
            },
        ensures
            final(self).wf(),
            !old(self)@.has(id) ==> {
                &&& r matches Err(EditError::OffsetOutOfRange(a, b)) && a == id && b == 0
                &&& final(self)@ == old(self)@
            },
            old(self)@.has(id) && !old(self)@.blocks[id].gap ==> {
                &&& r matches Err(EditError::GapBuffer(m)) && m@ == "block not in gap mode"@
                &&& final(self)@ == old(self)@
            },
            old(self)@.has(id) && old(self)@.blocks[id].gap ==> exists|g: &mut GapBuffer| {
                &&& *g == old(self).gap(id)
                &&& #[trigger] call_ensures(f, (g,), r)
                &&& final(self).gap(id) == *final(g)
                &&& final(self)@ == old(self)@.with_block(
                    id,
                    BlockModel { bytes: (*final(g))@, ..old(self)@.blocks[id] },
                )
            },
    {
        match self.map.remove(&id) {
            Some(mut block) => {
                let r = match &mut block.data {
                    BlockData::Gap(g) => f(g),
                    BlockData::Raw(_) => Err(
                        EditError::GapBuffer("block not in gap mode".to_string()),
                    ),
                };
                let ghost model = block.model();
                self.map.insert(id, block);
                assert(self@.blocks =~= old(self)@.blocks.insert(id, model));
                r
            },
            None => {
                assert(self@.blocks =~= old(self)@.blocks);
                Err(EditError::OffsetOutOfRange(id, 0))
            },
        }
    }

    /// How many edits hold on to block `id`.
    pub fn pin_count(&self, id: BlockId) -> (n: usize)
        ensures
            n == self@.pins(id),
    {
        match self.pinned.get(&id) {
            Some(n) => *n,
            None => 0,
        }
    }

    /// How many blocks the cache is to hold at most.
    pub fn capacity(&self) -> (n: usize)
        ensures
            n == self@.capacity,
    {
        self.capacity_blocks
    }

    /// How many bytes block `id` holds, if it is there.
    pub fn block_len(&self, id: BlockId) -> (n: Option<usize>)
        requires
            self.wf(),
        ensures
            match n {
                Some(n) => self@.has(id) && n == self@.blocks[id].bytes.len(),
                None => !self@.has(id),
            },
    {
        match self.map.get(&id) {
            Some(b) => Some(b.len()),
            None => None,
        }
    }

    /// Pins block `id`, or says that it is not there.
    fn pin_or_say(&mut self, id: BlockId) -> (r: Result<EditGuard, EditError>)
        requires
            old(self).wf(),
            old(self)@.pins(id) < usize::MAX,
        ensures
            final(self).wf(),
            final(self)@ == old(self)@.pin(id),
            match r {
                Ok(guard) => old(self)@.has(id) && guard.id() == id,
                Err(e) => !old(self)@.has(id) && (e matches EditError::GapBuffer(m) && m@
                    == pin_message(id)),
            },
            r is Ok ==> final(self).gap(id).wf() && final(self).gap(id)@ == old(
                self,
            )@.blocks[id].bytes,
    {
        match self.pin_for_edit(id) {
            Ok(guard) => Ok(guard),
            Err(_) => {
                let mut m = "pin 块 ".to_string();
                text::push_dec(&mut m, id);
                m.append(" 失败");
                Err(EditError::GapBuffer(m))
            },
        }
    }

    /// Inserts into block `id`, pinned meanwhile.
    pub fn insert_in_block(&mut self, id: BlockId, pos: usize, bytes: &[u8]) -> (r: Result<
        (),
        EditError,
    >)
        requires
            old(self).wf(),
            old(self)@.pins(id) < usize::MAX,
            old(self)@.has(id) ==> old(self)@.blocks[id].bytes.len() + bytes@.len() <= usize::MAX,
        ensures
            final(self).wf(),
            r is Ok <==> old(self)@.has(id) && pos <= old(self)@.blocks[id].bytes.len(),
            r is Ok ==> final(self)@ == old(self)@.edited(
                id,
                crate::block::spliced_in(old(self)@.blocks[id].bytes, pos as int, bytes@),
            ),
            r matches Err(e) ==> if old(self)@.has(id) {
                &&& final(self)@ == old(self)@.edited(id, old(self)@.blocks[id].bytes)
                &&& e matches EditError::GapBuffer(m) && m@ == crate::block::insert_message(
                    pos as nat,
                    old(self)@.blocks[id].bytes.len(),
                )
            } else {
                &&& final(self)@ == old(self)@.pin(id)
                &&& e matches EditError::GapBuffer(m) && m@ == pin_message(id)
            },
    {
        let guard = match self.pin_or_say(id) {
            Ok(guard) => guard,
            Err(e) => {
                return Err(e);
            },
        };
        let edit = |gap: &mut GapBuffer| -> (r: Result<(), EditError>)
                requires
                    (*gap).wf(),
                    (*gap)@.len() + bytes@.len() <= usize::MAX,
                ensures
                    (*final(gap)).wf(),
                    r is Ok <==> pos <= (*old(gap))@.len(),
                    r is Ok ==> (*final(gap))@ == crate::block::spliced_in(
                        (*old(gap))@,
                        pos as int,
                        bytes@,
                    ),
                    r matches Err(e) ==> (*final(gap))@ == (*old(gap))@ && (e matches EditError::GapBuffer(m)
                        && m@ == crate::block::insert_message(pos as nat, (*old(gap))@.len())),
            { gap.insert(pos, bytes) };
        let r = self.with_pin_mut(id, edit);
        self.release(guard);
        r
    }

    /// Deletes from block `id`, pinned meanwhile.
    pub fn delete_in_block(&mut self, id: BlockId, pos: usize, len: usize) -> (r: Result<
        (),
        EditError,
    >)
        requires
            old(self).wf(),
            old(self)@.pins(id) < usize::MAX,
            pos + len <= usize::MAX,
        ensures
            final(self).wf(),
            r is Ok <==> old(self)@.has(id) && (len == 0 || pos + len <= old(
                self,
            )@.blocks[id].bytes.len()),
            r is Ok ==> final(self)@ == old(self)@.edited(
                id,
                if len == 0 {
                    old(self)@.blocks[id].bytes
                } else {
                    crate::block::spliced_out(
                        old(self)@.blocks[id].bytes,
                        pos as int,
                        pos + len,
                    )
                },
            ),
            r matches Err(e) ==> if old(self)@.has(id) {
                &&& final(self)@ == old(self)@.edited(id, old(self)@.blocks[id].bytes)
                &&& e matches EditError::GapBuffer(m) && m@ == crate::block::delete_message(
                    pos as nat,
                    (pos + len) as nat,
                    old(self)@.blocks[id].bytes.len(),
                )
            } else {
                &&& final(self)@ == old(self)@.pin(id)
                &&& e matches EditError::GapBuffer(m) && m@ == pin_message(id)
            },
    {
        let guard = match self.pin_or_say(id) {
            Ok(guard) => guard,
            Err(e) => {
                return Err(e);
            },
        };
        let edit = |gap: &mut GapBuffer| -> (r: Result<(), EditError>)
                requires
                    (*gap).wf(),
                    pos + len <= usize::MAX,
                ensures
                    (*final(gap)).wf(),
                    r is Ok <==> len == 0 || pos + len <= (*old(gap))@.len(),
                    r is Ok ==> (*final(gap))@ == (if len == 0 {
                        (*old(gap))@
                    } else {
                        crate::block::spliced_out((*old(gap))@, pos as int, pos + len)
                    }),
                    r matches Err(e) ==> (*final(gap))@ == (*old(gap))@ && (e matches EditError::GapBuffer(m)
                        && m@ == crate::block::delete_message(
                        pos as nat,
                        (pos + len) as nat,
                        (*old(gap))@.len(),
                    )),
            { gap.delete(pos, len) };
        let r = self.with_pin_mut(id, edit);
        self.release(guard);
        r
    }

    /// Cuts block `id` off at `at`, pinned meanwhile, and hands out the bytes
    /// behind the cut.
    pub fn cut_block(&mut self, id: BlockId, at: usize) -> (right: Option<Vec<u8>>)
        requires
            old(self).wf(),
            old(self)@.pins(id) < usize::MAX,
        ensures
            final(self).wf(),
            right is Some <==> old(self)@.has(id) && at <= old(self)@.blocks[id].bytes.len(),
            right matches Some(v) ==> {
                let bytes = old(self)@.blocks[id].bytes;
                &&& v@ == bytes.subrange(at as int, bytes.len() as int)
                &&& final(self)@ == old(self)@.edited(id, bytes.subrange(0, at as int))
            },
            right is None ==> final(self)@ == (if old(self)@.has(id) {
                old(self)@.edited(id, old(self)@.blocks[id].bytes)
            } else {
                old(self)@.pin(id)
            }),
    {
        let guard = match self.pin_for_edit(id) {
            Ok(guard) => guard,
            Err(_) => {
                return None;
            },
        };
        let edit = |gap: &mut GapBuffer| -> (r: Result<Vec<u8>, EditError>)
                requires
                    (*gap).wf(),
                ensures
                    (*final(gap)).wf(),
                    r is Ok <==> at <= (*old(gap))@.len(),
                    r matches Ok(v) ==> {
                        &&& v@ == (*old(gap))@.subrange(at as int, (*old(gap))@.len() as int)
                        &&& (*final(gap))@ == (*old(gap))@.subrange(0, at as int)
                    },
                    r is Err ==> (*final(gap))@ == (*old(gap))@,
            {
                match gap.split_at(at) {
                    Ok(right) => Ok(right.as_contiguous()),
                    Err(e) => Err(e),
                }
            };
        let r = self.with_pin_mut(id, edit);
        self.release(guard);
        match r {
            Ok(v) => Some(v),
            Err(_) => None,
        }
    }

    /// The blocks with edits that are not stored, in no particular order.
    pub fn dirty_ids(&self) -> (ids: Vec<BlockId>)
        requires
            self.wf(),
        ensures
            ids@.no_duplicates(),
            forall|id: BlockId| #[trigger]
                ids@.contains(id) <==> self@.has(id) && self@.blocks[id].unsaved(),
    {
        let mut ids: Vec<BlockId> = Vec::new();
        let ghost mut seen: Seq<BlockId> = Seq::empty();
        for k in it: self.map.keys()
            invariant
                self.wf(),
                it.seq().unref().to_set() == self.map@.dom(),
                it.seq().no_duplicates(),
                seen.len() == it.index(),
                forall|i: int|
                    #![trigger seen[i]]
                    #![trigger it.seq()[i]]
                    0 <= i < seen.len() ==> seen[i] == *it.seq()[i],
                ids@.no_duplicates(),
                forall|id: BlockId| #[trigger]
                    ids@.contains(id) <==> self@.has(id) && self@.blocks[id].unsaved()
                        && seen.contains(id),
            ensures
                forall|id: BlockId| #[trigger] self.map@.dom().contains(id) ==> seen.contains(id),
        {
            let id: BlockId = *k;
            assert(*it.seq()[it.index() as int] == id);
            assert(it.seq().unref()[it.index() as int] == id);
            assert(self.map@.dom().contains(id));
            assert(!seen.contains(id));
            let ghost before = seen;
            let ghost ids_before = ids@;
            proof {
                seen = seen.push(id);
                lemma_contains_push(before, id);
            }
            assert(self@.blocks[id] == self.map@[id].model());
            match self.map.get(&id) {
                Some(b) => {
                    if let BlockState::Clean = b.state {
                    } else {
                        ids.push(id);
                    }
                },
                None => {},
            }
            proof {
                assert(!ids_before.contains(id));
                if ids@.len() > ids_before.len() {
                    lemma_contains_push(ids_before, id);
                }
            }
        }
        proof {
            assert forall|id: BlockId| self@.has(id) implies #[trigger] seen.contains(id) by {
                assert(self.map@.dom().contains(id));
            }
        }
        ids
    }

    /// The bytes of block `id`, which thereby counts as stored.
    pub fn take_contiguous_and_mark_clean(&mut self, id: BlockId) -> (bytes: Option<Vec<u8>>)
        requires
            old(self).wf(),
        ensures
            final(self).wf(),
            final(self)@ == old(self)@.cleaned(id),
            match bytes {
                Some(b) => old(self)@.has(id) && b@ == old(self)@.blocks[id].bytes,
                None => !old(self)@.has(id),
            },
    {
        match self.map.remove(&id) {
            Some(block) => {
                let bytes = block.into_contiguous_bytes();
                let copy = bytes.clone();
                assert(copy@ =~= bytes@);
                self.map.insert(id, Block::new_clean(id, copy));
                assert(self@.blocks =~= old(self)@.cleaned(id).blocks);
                Some(bytes)
            },
            None => {
                assert(self@.blocks =~= old(self)@.blocks);
                None
            },
        }
    }

    /// Joins the bytes of block `removed` to the end of block `target`, and
    /// drops block `removed`.
    pub fn merge_blocks(&mut self, target: BlockId, removed: BlockId) -> (r: Result<(), EditError>)
        requires
            old(self).wf(),
            old(self)@.has(target) && old(self)@.has(removed) ==> old(
                self,
            )@.blocks[target].bytes.len() + old(self)@.blocks[removed].bytes.len() <= usize::MAX,
        ensures
            final(self).wf(),
            r is Ok <==> old(self)@.has(target) && old(self)@.has(removed),
            r is Ok ==> final(self)@ == old(self)@.merge(target, removed),
            r matches Err(e) ==> {
                &&& final(self)@ == old(self)@
                &&& e matches EditError::GapBuffer(m) && m@ == merge_message(
                    old(self)@.has(removed),
                    target,
                    removed,
                )
            },
    {
        let removed_bytes: Vec<u8> = match self.map.get(&removed) {
            Some(b) => b.data.to_contiguous(),
            None => {
                let mut m = "合并块 ".to_string();
                text::push_dec(&mut m, removed);
                m.append(" 不在缓存");
                return Err(EditError::GapBuffer(m));
            },
        };
        match self.map.remove(&target) {
            Some(mut block) => {
                let gap = block.to_gap();
                let at: usize = gap.len();
                match gap.insert(at, removed_bytes.as_slice()) {
                    Ok(_) => {},
                    Err(e) => {
                        return Err(e);
                    },
                }
                block.state = BlockState::InGapBuffer;
                let ghost model = block.model();
                assert(model.bytes =~= old(self)@.blocks[target].bytes + old(
                    self,
                )@.blocks[removed].bytes);
                self.map.insert(target, block);
                assert(self@.blocks =~= old(self)@.blocks.insert(target, model));
                remove_all(&mut self.lru, removed);
                self.map.remove(&removed);
                self.pinned.remove(&removed);
                assert(self@.blocks =~= old(self)@.blocks.insert(target, model).remove(removed));
                Ok(())
            },
            None => {
                assert(self@.blocks =~= old(self)@.blocks);
                let mut m = "合并目标块 ".to_string();
                text::push_dec(&mut m, target);
                m.append(" 不在缓存");
                Err(EditError::GapBuffer(m))
            },
        }
    }

    /// Makes block `id` one that holds nothing, so that the log will say so.
    pub fn vacate(&mut self, id: BlockId)
        requires
            old(self).wf(),
        ensures
            final(self).wf(),
            final(self)@ == old(self)@.vacated(id),
    {
        let nothing: Vec<u8> = Vec::new();
        let block = Block::new_cut_off(id, nothing);
        let ghost model = block.model();
        assert(nothing@ =~= Seq::<u8>::empty());
        self.map.insert(id, block);
        remove_all(&mut self.lru, id);
        self.lru.push_back(id);
        assert(self@.blocks =~= old(self)@.blocks.insert(id, model));
        assert(self@.lru =~= without(old(self)@.lru, id).push(id));
    }

    /// Makes the bytes of block `block_id` from `split_at` on a block of their
    /// own, numbered one higher, in place of one with that number. Says how
    /// many bytes that block holds.
    pub fn split_block(&mut self, block_id: BlockId, split_at: usize) -> (r: Result<
        usize,
        EditError,
    >)
        requires
            old(self).wf(),
            block_id < u64::MAX,
        ensures
            final(self).wf(),
            r is Ok <==> old(self)@.has(block_id) && split_at <= old(
                self,
            )@.blocks[block_id].bytes.len(),
            r matches Ok(n) ==> {
                &&& final(self)@ == old(self)@.split(block_id, split_at as int)
                &&& n == old(self)@.blocks[block_id].bytes.len() - split_at
            },
            r matches Err(e) ==> if old(self)@.has(block_id) {
                &&& final(self)@ == old(self)@.with_block(
                    block_id,
                    BlockModel { gap: true, ..old(self)@.blocks[block_id] },
                )
                &&& e matches EditError::GapBuffer(m) && m@ == crate::block::split_message(
                    split_at as nat,
                    old(self)@.blocks[block_id].bytes.len(),
                )
            } else {
                &&& final(self)@ == old(self)@
                &&& e matches EditError::GapBuffer(m) && m@ == split_missing_message(block_id)
            },
    {
        match self.map.remove(&block_id) {
            Some(mut block) => {
                let r = block.to_gap().split_at(split_at);
                if r.is_ok() {
                    block.state = BlockState::Dirty;
                }
                let ghost model = block.model();
                self.map.insert(block_id, block);
                assert(self@.blocks =~= old(self)@.blocks.insert(block_id, model));
                match r {
                    Ok(right) => {
                        let right_bytes = right.as_contiguous();
                        let n: usize = right_bytes.len();
                        let new_id: BlockId = block_id + 1;
                        let ghost left = self@;
                        remove_all(&mut self.lru, new_id);
                        let new_block = Block::new_cut_off(new_id, right_bytes);
                        let ghost new_model = new_block.model();
                        self.map.insert(new_id, new_block);
                        self.lru.push_front(new_id);
                        assert(self@.blocks =~= left.blocks.insert(new_id, new_model));
                        assert(self@.lru =~= seq![new_id] + without(left.lru, new_id));
                        Ok(n)
                    },
                    Err(e) => Err(e),
                }
            },
            None => {
                assert(self@.blocks =~= old(self)@.blocks);
                let mut m = "分裂目标块 ".to_string();
                text::push_dec(&mut m, block_id);
                m.append(" 不在缓存");
                Err(EditError::GapBuffer(m))
            },
        }
    }

    /// The blocks with edits that had to go since the last call, to be
    /// appended to the log.
    pub fn take_evicted(&mut self) -> (entries: Vec<(BlockId, Vec<u8>)>)
        requires
            old(self).wf(),
        ensures
            final(self).wf(),
            entries_view(entries@) == old(self)@.evicted,
            final(self)@ == (CacheModel { evicted: Seq::empty(), ..old(self)@ }),
    {
        let mut entries: Vec<(BlockId, Vec<u8>)> = Vec::new();
        entries.append(&mut self.evicted);
        assert(entries@ =~= old(self).evicted@);
        assert(self@.evicted =~= Seq::empty());
        entries
    }

    /// Notes in the log that a block was appended to its file, which was cut
    /// where the log ended.
    pub fn note_appended(&mut self, id: BlockId, bytes: &[u8])
        requires
            old(self).wf(),
            bytes@.len() <= u32::MAX,
            old(self)@.wal matches Some(wal) ==> wal.end_offset() + 8 + bytes@.len() <= u64::MAX,
        ensures
            final(self).wf(),
            final(self)@ == (CacheModel { wal: final(self)@.wal, ..old(self)@ }),
            match (old(self)@.wal, final(self)@.wal) {
                (Some(before), Some(after)) => {
                    &&& after@ == before@.insert(id, bytes@)
                    &&& after.end_offset() == before.end_offset() + 8 + bytes@.len()
                    &&& forall|image: Seq<u8>|
                        before.describes(image) ==> #[trigger] after.describes(
                            image.take(before.end_offset() as int) + crate::wal::record(
                                id,
                                bytes@,
                            ),
                        )
                    &&& id <= u32::MAX ==> forall|image: Seq<u8>|
                        before.replays(image) ==> #[trigger] after.replays(
                            image.take(before.end_offset() as int) + crate::wal::record(
                                id,
                                bytes@,
                            ),
                        )
                },
                (None, None) => true,
                _ => false,
            },
    {
        match self.wal.take() {
            Some(mut wal) => {
                let _ = wal.append_one(id, bytes);
                self.wal = Some(wal);
            },
            None => {},
        }
    }
}

impl CacheModel {
    /// Taking a block in takes other blocks away and adds none.
    pub proof fn lemma_loaded(self, new: BlockId, b: BlockModel)
        ensures
            self.loaded(new, b).has(new),
            self.loaded(new, b).blocks[new] == b,
            self.loaded(new, b).pinned == self.pinned,
            self.loaded(new, b).capacity == self.capacity,
            self.loaded(new, b).wal == self.wal,
            forall|id: BlockId| #[trigger]
                self.loaded(new, b).has(id) && id != new ==> self.has(id) && self.loaded(
                    new,
                    b,
                ).blocks[id] == self.blocks[id],
    {
        let served = CacheModel { pending: self.pending.remove(new), ..self };
        served.lemma_make_room();
        assert forall|id: BlockId| #[trigger]
            self.loaded(new, b).has(id) && id != new implies self.has(id) && self.loaded(
            new,
            b,
        ).blocks[id] == self.blocks[id] by {
            if !self.has(new) {
                assert(served.make_room().has(id));
            }
        }
    }

    /// Making room takes blocks away and adds none.
    pub proof fn lemma_make_room(self)
        ensures
            self.make_room().blocks.dom().subset_of(self.blocks.dom()),
            self.make_room().pinned == self.pinned,
            self.make_room().pending == self.pending,
            self.make_room().capacity == self.capacity,
            self.make_room().wal == self.wal,
            forall|id: BlockId| #[trigger]
                self.make_room().has(id) ==> self.make_room().blocks[id] == self.blocks[id],
        decreases self.lru.len(),
    {
        if self.blocks.len() >= self.capacity && self.lru.len() > 0 {
            let v = self.lru.last();
            let rest = CacheModel { lru: self.lru.drop_last(), ..self };
            if self.pinned.dom().contains(v) || !self.has(v) {
                rest.lemma_make_room();
            } else {
                rest.evict(v).lemma_make_room();
            }
        }
    }
}

proof fn lemma_contains_push(s: Seq<BlockId>, x: BlockId)
    ensures
        forall|y: BlockId| #[trigger] s.push(x).contains(y) <==> s.contains(y) || y == x,
{
    assert(s.push(x)[s.len() as int] == x);
    assert forall|y: BlockId| s.contains(y) implies #[trigger] s.push(x).contains(y) by {
        let i = choose|i: int| 0 <= i < s.len() && s[i] == y;
        assert(s.push(x)[i] == y);
    }
}

/// Whether `x` is in `q`.
fn contains(q: &VecDeque<BlockId>, x: BlockId) -> (b: bool)
    ensures
        b == q@.contains(x),
{
    let mut i: usize = 0;
    while i < q.len()
        invariant
            i <= q@.len(),
            forall|k: int| 0 <= k < i ==> q@[k] != x,
        decreases q@.len() - i,
    {
        if q[i] == x {
            assert(q@[i as int] == x);
            return true;
        }
        i = i + 1;
    }
    false
}

/// Takes the first `x` out of `q`, if there is one.
fn remove_first(q: &mut VecDeque<BlockId>, x: BlockId)
    ensures
        final(q)@ == without_first(old(q)@, x),
{
    let mut i: usize = 0;
    while i < q.len()
        invariant
            q@ == old(q)@,
            i <= q@.len(),
            forall|k: int| 0 <= k < i ==> q@[k] != x,
        decreases q@.len() - i,
    {
        if q[i] == x {
            proof {
                lemma_without_first(q@, x, i as int);
            }
            q.remove(i);
            return ;
        }
        i = i + 1;
    }
    proof {
        lemma_without_first_absent(q@, x);
    }
}

proof fn lemma_without_first(s: Seq<BlockId>, x: BlockId, i: int)
    requires
        0 <= i < s.len(),
        s[i] == x,
        forall|k: int| 0 <= k < i ==> s[k] != x,
    ensures
        without_first(s, x) == s.remove(i),
    decreases s.len(),
{
    let rest = s.subrange(1, s.len() as int);
    if i > 0 {
        assert(rest[i - 1] == x);
        lemma_without_first(rest, x, i - 1);
        assert(without_first(s, x) =~= s.remove(i));
    } else {
        assert(rest =~= s.remove(0));
    }
}

proof fn lemma_without_first_absent(s: Seq<BlockId>, x: BlockId)
    requires
        forall|k: int| 0 <= k < s.len() ==> s[k] != x,
    ensures
        without_first(s, x) == s,
    decreases s.len(),
{
    if s.len() > 0 {
        let rest = s.subrange(1, s.len() as int);
        lemma_without_first_absent(rest, x);
        assert(seq![s[0]] + rest =~= s);
    }
}

/// Takes every `x` out of `q`.
fn remove_all(q: &mut VecDeque<BlockId>, x: BlockId)
    ensures
        final(q)@ == without(old(q)@, x),
{
    let mut kept: VecDeque<BlockId> = VecDeque::new();
    let mut i: usize = 0;
    while i < q.len()
        invariant
            q@ == old(q)@,
            i <= q@.len(),
            kept@ == without(q@.subrange(0, i as int), x),
        decreases q@.len() - i,
    {
        let y: BlockId = q[i];
        assert(q@.subrange(0, i + 1).drop_last() =~= q@.subrange(0, i as int));
        if y != x {
            kept.push_back(y);
        }
        i = i + 1;
    }
    assert(q@.subrange(0, i as int) =~= q@);
    *q = kept;
}

/// A block that is being edited stays when room is made.
pub proof fn law_pinned_blocks_stay(c: CacheModel, new: BlockId, b: BlockModel, id: BlockId)
    requires
        c.has(id),
        c.pinned.dom().contains(id),
    ensures
        c.loaded(new, b).has(id),
{
    let served = CacheModel { pending: c.pending.remove(new), ..c };
    lemma_pinned_stay(served, id);
}

proof fn lemma_pinned_stay(c: CacheModel, id: BlockId)
    requires
        c.has(id),
        c.pinned.dom().contains(id),
    ensures
        c.make_room().has(id),
    decreases c.lru.len(),
{
    if c.blocks.len() >= c.capacity && c.lru.len() > 0 {
        let v = c.lru.last();
        let rest = CacheModel { lru: c.lru.drop_last(), ..c };
        if c.pinned.dom().contains(v) || !c.has(v) {
            lemma_pinned_stay(rest, id);
        } else {
            lemma_pinned_stay(rest.evict(v), id);
        }
    }
}

/// When room is made, a block does not have to go before one that was used
/// longer ago and may go.
pub proof fn law_oldest_goes_first(c: CacheModel, i: int, j: int)
    requires
        0 <= i < j < c.lru.len(),
        c.lru.no_duplicates(),
        c.has(c.lru[i]),
        c.has(c.lru[j]),
        !c.pinned.dom().contains(c.lru[j]),
        c.make_room().has(c.lru[j]),
    ensures
        c.make_room().has(c.lru[i]),
    decreases c.lru.len(),
{
    if c.blocks.len() >= c.capacity && c.lru.len() > 0 {
        let v = c.lru.last();
        let rest = CacheModel { lru: c.lru.drop_last(), ..c };
        if j == c.lru.len() - 1 {
            rest.evict(v).lemma_make_room();
        } else if c.pinned.dom().contains(v) || !c.has(v) {
            law_oldest_goes_first(rest, i, j);
        } else {
            law_oldest_goes_first(rest.evict(v), i, j);
        }
    }
}

/// Room is made until a block fits in or none is left that may go.
pub proof fn law_room_is_made(c: CacheModel)
    ensures
        c.make_room().blocks.len() < c.capacity || c.make_room().lru.len() == 0,
    decreases c.lru.len(),
{
    if c.blocks.len() >= c.capacity && c.lru.len() > 0 {
        let v = c.lru.last();
        let rest = CacheModel { lru: c.lru.drop_last(), ..c };
        if c.pinned.dom().contains(v) || !c.has(v) {
            law_room_is_made(rest);
        } else {
            law_room_is_made(rest.evict(v));
        }
    }
}

/// Requests for blocks change nothing but the counts and the order of use.
pub broadcast proof fn lemma_asked_frame(a: CacheModel, b: CacheModel)
    requires
        #[trigger] a.only_asked(b),
    ensures
        b == (CacheModel { lru: b.lru, hits: b.hits, misses: b.misses, ..a }),
{
    let ids = choose|ids: Seq<BlockId>| b == #[trigger] a.after_asking(ids);
    lemma_after_asking_frame(a, ids);
}

proof fn lemma_after_asking_frame(a: CacheModel, ids: Seq<BlockId>)
    ensures
        ({
            let b = a.after_asking(ids);
            b == (CacheModel { lru: b.lru, hits: b.hits, misses: b.misses, ..a })
        }),
    decreases ids.len(),
{
    if ids.len() > 0 {
        lemma_after_asking_frame(a, ids.drop_last());
    }
}

/// No request is made.
pub broadcast proof fn lemma_asked_nothing(a: CacheModel)
    ensures
        #[trigger] a.only_asked(a),
{
    assert(a == a.after_asking(Seq::empty()));
}

/// One request is made.
pub broadcast proof fn lemma_asked_once(a: CacheModel, id: BlockId)
    ensures
        a.only_asked(#[trigger] a.touched(id)),
{
    let ids = seq![id];
    assert(ids.drop_last() =~= Seq::<BlockId>::empty());
    assert(a.after_asking(ids.drop_last()) == a);
    assert(a.touched(id) == a.after_asking(ids));
}

/// Requests are made, and then more.
pub broadcast proof fn lemma_asked_more(a: CacheModel, b: CacheModel, c: CacheModel)
    requires
        #[trigger] a.only_asked(b),
        #[trigger] b.only_asked(c),
    ensures
        a.only_asked(c),
{
    let first = choose|ids: Seq<BlockId>| b == #[trigger] a.after_asking(ids);
    let second = choose|ids: Seq<BlockId>| c == #[trigger] b.after_asking(ids);
    lemma_after_asking_append(a, first, second);
    assert(c == a.after_asking(first + second));
}

proof fn lemma_after_asking_append(a: CacheModel, x: Seq<BlockId>, y: Seq<BlockId>)
    ensures
        a.after_asking(x + y) == a.after_asking(x).after_asking(y),
    decreases y.len(),
{
    if y.len() == 0 {
        assert(x + y =~= x);
    } else {
        assert((x + y).drop_last() =~= x + y.drop_last());
        lemma_after_asking_append(a, x, y.drop_last());
    }
}

pub broadcast group group_asked {
    lemma_asked_frame,
    lemma_asked_nothing,
    lemma_asked_once,
    lemma_asked_more,
}

} // verus!
