//! Which line is where. The newlines of a block are looked for when they are
//! first needed, and remembered until the document is edited, as are the starts
//! of the lines that were asked for.

use crate::block::BlockId;
use crate::cache;
use crate::content;
use crate::delta_table;
use crate::editor::Editor;
use std::collections::HashMap;
use vstd::prelude::*;

verus! {

broadcast use {
    vstd::std_specs::hash::group_hash_axioms,
    crate::cache::lemma_asked_frame,
    crate::cache::lemma_asked_nothing,
    crate::cache::lemma_asked_once,
};

/// What was asked for, or the block that has to be loaded first.
pub enum Fetch<T> {
    Ready(T),
    Missing(BlockId),
}

/// Where in `bytes` the newlines are. A place beyond the range of `u32` is
/// reduced to it.
pub open spec fn positions(bytes: Seq<u8>) -> Seq<u32>
    decreases bytes.len(),
{
    if bytes.len() == 0 {
        Seq::empty()
    } else if bytes.last() == 10u8 {
        positions(bytes.drop_last()).push((bytes.len() - 1) as u32)
    } else {
        positions(bytes.drop_last())
    }
}

/// The newlines of each block, by its number.
pub type NewlineTable = spec_fn(BlockId) -> Seq<u32>;

/// The newlines of each block are in order and within the block.
pub open spec fn laid_out(table: NewlineTable, sizes: Seq<i64>) -> bool {
    forall|id: int, k: int|
        0 <= id < sizes.len() && 0 <= k < table(id as u64).len() ==> {
            &&& #[trigger] table(id as u64)[k] < sizes[id]
            &&& k > 0 ==> table(id as u64)[k - 1] < table(id as u64)[k]
        }
}

/// The places `s`, moved by `by`.
pub open spec fn moved(s: Seq<u32>, by: int) -> Seq<int> {
    Seq::new(s.len(), |i: int| by + s[i])
}

/// Where in the document the newlines of the first `k` blocks are.
pub open spec fn newlines_upto(table: NewlineTable, sizes: Seq<i64>, k: int) -> Seq<int>
    decreases k,
{
    if k <= 0 {
        Seq::empty()
    } else {
        newlines_upto(table, sizes, k - 1) + moved(
            table((k - 1) as u64),
            delta_table::prefix(sizes, k - 1),
        )
    }
}

/// Where in the document the newlines are.
pub open spec fn newlines(table: NewlineTable, sizes: Seq<i64>) -> Seq<int> {
    newlines_upto(table, sizes, sizes.len() as int)
}

/// Where line `line` starts: behind as many newlines, or at the end of the
/// document where there are fewer.
pub open spec fn start_of(nls: Seq<int>, file_size: int, line: int) -> int {
    if line <= 0 {
        0
    } else if line <= nls.len() {
        nls[line - 1] + 1
    } else {
        file_size
    }
}

/// `c` newlines are before `offset`, the first ones.
pub open spec fn splits_at(nls: Seq<int>, offset: int, c: int) -> bool {
    &&& 0 <= c <= nls.len()
    &&& forall|i: int| 0 <= i < c ==> #[trigger] nls[i] < offset
    &&& forall|i: int| c <= i < nls.len() ==> #[trigger] nls[i] >= offset
}

/// How many of `nls`, which are in order, are before `offset`.
pub open spec fn count_before(nls: Seq<int>, offset: int) -> int
    decreases nls.len(),
{
    if nls.len() == 0 {
        0
    } else if nls.last() < offset {
        nls.len() as int
    } else {
        count_before(nls.drop_last(), offset)
    }
}

/// The lines of which the index knows the start.
pub struct LineIndex {
    block_newlines: HashMap<BlockId, Vec<u32>>,
    /// Line numbers and where the lines start, in order.
    line_starts: Vec<(u64, u64)>,
    total_lines_cache: Option<u64>,
    /// The block that was asked for last. Its newlines are looked for as soon as
    /// it is there, so that it is not asked for again.
    awaited: Option<BlockId>,
    epoch: u64,
}

/// The last of the lines `starts`, which are in order, that is not behind `line`.
spec fn floor_of(starts: Seq<(u64, u64)>, line: u64) -> int
    decreases starts.len(),
{
    if starts.len() <= 1 || starts.last().0 <= line {
        starts.len() - 1
    } else {
        floor_of(starts.drop_last(), line)
    }
}

proof fn lemma_floor_of(starts: Seq<(u64, u64)>, line: u64, i: int)
    requires
        0 <= i < starts.len(),
        forall|j: int, k: int|
            0 <= j < k < starts.len() ==> (#[trigger] starts[j]).0 < (#[trigger] starts[k]).0,
        starts[i].0 <= line,
        i + 1 < starts.len() ==> line < starts[i + 1].0,
    ensures
        floor_of(starts, line) == i,
    decreases starts.len(),
{
    if i + 1 < starts.len() {
        let front = starts.drop_last();
        assert(line < starts.last().0);
        assert forall|j: int, k: int| 0 <= j < k < front.len() implies (#[trigger] front[j]).0 < (
        #[trigger] front[k]).0 by {
            assert(starts[j].0 < starts[k].0);
        }
        lemma_floor_of(front, line, i);
    }
}

/// The furthest start among the first `k` lines that is not behind `offset`.
spec fn furthest(starts: Seq<(u64, u64)>, offset: int, k: int) -> int
    decreases k,
{
    if k <= 0 {
        0
    } else {
        let before = furthest(starts, offset, k - 1);
        let b = starts[k - 1].1 as int;
        if before < b <= offset {
            b
        } else {
            before
        }
    }
}

/// The newlines of block `b` are known, or can be looked for, or it cannot be
/// read.
pub open spec fn in_reach(
    index: LineIndex,
    ed: Editor,
    unreadable: Seq<BlockId>,
    b: BlockId,
) -> bool {
    ||| index.scanned(ed.edit_epoch, b)
    ||| ed.cache@.has(b)
    ||| unreadable.contains(b)
}

/// Every block with bytes from the one that holds the byte at `from` up to the
/// one that holds the byte at `to` is in reach.
pub open spec fn walked_to(
    index: LineIndex,
    ed: Editor,
    unreadable: Seq<BlockId>,
    from: int,
    to: int,
) -> bool {
    let sizes = ed.delta_table.sizes();
    let first = delta_table::block_at(sizes, from);
    let last = delta_table::block_at(sizes, to);
    &&& first <= last
    &&& forall|b: BlockId|
        first <= b < last && sizes[b as int] > 0 ==> #[trigger] in_reach(index, ed, unreadable, b)
}

/// Block `id` is the first one out of reach, from the block that holds the byte
/// at `from` on. Blocks without bytes do not count.
pub open spec fn first_missing(
    index: LineIndex,
    ed: Editor,
    unreadable: Seq<BlockId>,
    from: int,
    id: BlockId,
) -> bool {
    let sizes = ed.delta_table.sizes();
    &&& delta_table::block_at(sizes, from) <= id < ed.block_count
    &&& !in_reach(index, ed, unreadable, id)
    &&& forall|b: BlockId|
        delta_table::block_at(sizes, from) <= b < id && sizes[b as int] > 0
            ==> #[trigger] in_reach(index, ed, unreadable, b)
}

/// `b` is `a` after it was asked: nothing that was known is forgotten, and the
/// block that was asked for last is known where it was there.
pub open spec fn learned(a: LineIndex, ed: Editor, b: LineIndex) -> bool {
    let e = ed.edit_epoch;
    &&& forall|id: BlockId| #[trigger] a.scanned(e, id) ==> b.scanned(e, id)
    &&& forall|line: u64| #[trigger] a.knows_line(e, line) ==> b.knows_line(e, line)
    &&& forall|id: BlockId| #[trigger] a.awaits(e, id) && ed.cache@.has(id) ==> b.scanned(e, id)
}

/// Block `id` has to be loaded for `b`, which was `a`: it is a block of the
/// document that is neither in the cache nor given up, its newlines are not
/// known, and they will be once it is there.
pub open spec fn asks(
    a: LineIndex,
    ed: Editor,
    unreadable: Seq<BlockId>,
    id: BlockId,
    b: LineIndex,
) -> bool {
    &&& id < ed.block_count
    &&& !ed.cache@.has(id)
    &&& !unreadable.contains(id)
    &&& !a.scanned(ed.edit_epoch, id)
    &&& b.awaits(ed.edit_epoch, id)
}

/// What is known of each block is what `table` says: of the blocks in the
/// cache from their bytes, and of those that cannot be read that there is no
/// newline in them.
pub open spec fn shows(ed: Editor, unreadable: Seq<BlockId>, table: NewlineTable) -> bool {
    &&& forall|id: BlockId| #[trigger]
        ed.cache@.has(id) ==> positions(ed.cache@.blocks[id].bytes) == table(id)
    &&& forall|i: int|
        0 <= i < unreadable.len() && !ed.cache@.has(#[trigger] unreadable[i]) ==> table(
            unreadable[i],
        ).len() == 0
}

impl LineIndex {
    /// Lines are known in order and from the first.
    pub closed spec fn wf(&self) -> bool {
        &&& self.line_starts@.len() > 0
        &&& self.line_starts@[0] == (0u64, 0u64)
        &&& forall|i: int, j: int|
            0 <= i < j < self.line_starts@.len() ==> (#[trigger] self.line_starts@[i]).0 < (
            #[trigger] self.line_starts@[j]).0
    }

    /// What the index holds is what `table` says, or is out of date.
    pub closed spec fn agrees(&self, ed: Editor, table: NewlineTable) -> bool {
        let sizes = ed.delta_table.sizes();
        let nls = newlines(table, sizes);
        self.epoch == ed.edit_epoch ==> {
            &&& forall|id: BlockId| #[trigger]
                self.block_newlines@.dom().contains(id) ==> self.block_newlines@[id]@ == table(id)
            &&& forall|i: int|
                0 <= i < self.line_starts@.len() ==> {
                    &&& (#[trigger] self.line_starts@[i]).0 <= nls.len()
                    &&& self.line_starts@[i].1 == start_of(
                        nls,
                        ed.file_size as int,
                        self.line_starts@[i].0 as int,
                    )
                }
            &&& self.total_lines_cache matches Some(t) ==> t == nls.len() + 1
        }
    }

    /// The newlines of block `id` are known as of the edit `epoch`.
    pub closed spec fn scanned(&self, epoch: u64, id: BlockId) -> bool {
        self.epoch == epoch && self.block_newlines@.dom().contains(id)
    }

    /// Where line `line` starts is known as of the edit `epoch`.
    pub closed spec fn knows_line(&self, epoch: u64, line: u64) -> bool {
        self.epoch == epoch && self.knows(line)
    }

    /// Block `id` was asked for last, as of the edit `epoch`.
    pub closed spec fn awaits(&self, epoch: u64, id: BlockId) -> bool {
        self.epoch == epoch && self.awaited == Some(id)
    }

    /// From where on the start of line `line` is looked for: the start of the
    /// last known line that is not behind it.
    pub closed spec fn known_start(&self, epoch: u64, line: u64) -> int {
        if self.epoch == epoch {
            self.line_starts@[floor_of(self.line_starts@, line)].1 as int
        } else {
            0
        }
    }

    /// From where on newlines up to `offset` are counted: the furthest start of a
    /// known line that is not behind it.
    pub closed spec fn known_before(&self, epoch: u64, offset: int) -> int {
        if self.epoch == epoch {
            furthest(self.line_starts@, offset, self.line_starts@.len() as int)
        } else {
            0
        }
    }

    /// Nothing is known but where the first line starts.
    pub closed spec fn blank(&self) -> bool {
        &&& self.block_newlines@ == Map::<BlockId, Vec<u32>>::empty()
        &&& self.line_starts@ == seq![(0u64, 0u64)]
        &&& self.total_lines_cache is None
        &&& self.awaited is None
    }

    pub fn new() -> (index: Self)
        ensures
            index.wf(),
            index.blank(),
            forall|ed: Editor, table: NewlineTable| #[trigger] index.agrees(ed, table),
    {
        let mut line_starts: Vec<(u64, u64)> = Vec::new();
        line_starts.push((0, 0));
        assert(line_starts@ =~= seq![(0u64, 0u64)]);
        Self {
            block_newlines: HashMap::new(),
            line_starts,
            total_lines_cache: None,
            awaited: None,
            epoch: 0,
        }
    }

    /// Forgets everything if the document was edited since.
    fn ensure_fresh(&mut self, ed: &Editor)
        requires
            old(self).wf(),
        ensures
            final(self).wf(),
            final(self).epoch == ed.edit_epoch,
            old(self).epoch == ed.edit_epoch ==> *final(self) == *old(self),
            old(self).epoch != ed.edit_epoch ==> final(self).blank(),
            forall|table: NewlineTable| #[trigger]
                old(self).agrees(*ed, table) ==> final(self).agrees(*ed, table),
    {
        if self.epoch != ed.edit_epoch {
            self.invalidate();
            self.epoch = ed.edit_epoch;
        }
    }

    /// Forgets everything.
    pub fn invalidate(&mut self)
        ensures
            final(self).wf(),
            final(self).blank(),
            forall|ed: Editor, table: NewlineTable| #[trigger] final(self).agrees(ed, table),
    {
        let epoch: u64 = self.epoch;
        *self = Self::new();
        self.epoch = epoch;
    }

    /// The newlines of block `block_id`.
    fn block_newlines(&mut self, ed: &mut Editor, block_id: BlockId, unreadable: &Vec<BlockId>) -> (r:
        Fetch<Vec<u32>>)
        requires
            old(self).wf(),
            old(ed).wf(),
        ensures
            final(self).wf(),
            final(ed).wf(),
            *final(ed) == (Editor { cache: final(ed).cache, ..*old(ed) }),
            old(ed).cache@.only_asked(final(ed).cache@),
            final(self).epoch == old(ed).edit_epoch,
            final(self).line_starts@ == (if old(self).epoch == old(ed).edit_epoch {
                old(self).line_starts@
            } else {
                seq![(0u64, 0u64)]
            }),
            forall|id: BlockId|
                id != block_id ==> final(self).scanned(old(ed).edit_epoch, id) == #[trigger] old(
                    self,
                ).scanned(old(ed).edit_epoch, id),
            old(self).scanned(old(ed).edit_epoch, block_id) ==> final(self).scanned(
                old(ed).edit_epoch,
                block_id,
            ),
            old(ed).cache@.has(block_id) ==> final(self).scanned(old(ed).edit_epoch, block_id),
            r is Ready <==> in_reach(*old(self), *old(ed), unreadable@, block_id),
            forall|id: BlockId| #[trigger]
                in_reach(*final(self), *final(ed), unreadable@, id) == in_reach(
                    *old(self),
                    *old(ed),
                    unreadable@,
                    id,
                ),
            r matches Fetch::Missing(id) ==> {
                &&& id == block_id
                &&& final(self).awaited == Some(id)
            },
            r is Ready && old(self).epoch == old(ed).edit_epoch ==> final(self).awaited
                == old(self).awaited,
            forall|table: NewlineTable|
                #[trigger] old(self).agrees(*old(ed), table) && shows(*old(ed), unreadable@, table)
                    ==> {
                    &&& final(self).agrees(*final(ed), table)
                    &&& shows(*final(ed), unreadable@, table)
                    &&& r matches Fetch::Ready(v) ==> v@ == table(block_id)
                },
    {
        self.ensure_fresh(ed);
        if let Some(v) = self.block_newlines.get(&block_id) {
            let copy = v.clone();
            assert(copy@ =~= v@);
            return Fetch::Ready(copy);
        }
        match ed.cache.try_get(block_id) {
            Some(snap) => {
                let found = find_newlines(snap.contiguous.as_slice());
                let copy = found.clone();
                assert(copy@ =~= found@);
                let ghost before = *self;
                self.block_newlines.insert(block_id, copy);
                proof {
                    assert forall|table: NewlineTable|
                        #[trigger] old(self).agrees(*old(ed), table) && shows(
                            *old(ed),
                            unreadable@,
                            table,
                        ) implies self.agrees(*ed, table) && found@ == table(block_id) && shows(
                        *ed,
                        unreadable@,
                        table,
                    ) by {
                        lemma_shows_kept(*old(ed), *ed, unreadable@, table);
                        assert(before.agrees(*old(ed), table));
                        assert(old(ed).cache@.has(block_id));
                        assert(found@ == table(block_id));
                        assert forall|id: BlockId| #[trigger]
                            self.block_newlines@.dom().contains(
                                id,
                            ) implies self.block_newlines@[id]@ == table(id) by {
                            if id != block_id {
                                assert(before.block_newlines@.dom().contains(id));
                            }
                        }
                    }
                }
                Fetch::Ready(found)
            },
            None => {
                if listed(unreadable, block_id) {
                    let none: Vec<u32> = Vec::new();
                    proof {
                        let i = choose|i: int|
                            0 <= i < unreadable@.len() && unreadable@[i] == block_id;
                        assert(unreadable@[i] == block_id);
                        assert forall|table: NewlineTable|
                            #[trigger] old(self).agrees(*old(ed), table) && shows(
                                *old(ed),
                                unreadable@,
                                table,
                            ) implies none@ == table(block_id) && self.agrees(*ed, table) && shows(
                            *ed,
                            unreadable@,
                            table,
                        ) by {
                            lemma_shows_kept(*old(ed), *ed, unreadable@, table);
                            assert(table(unreadable@[i]).len() == 0);
                            assert(none@ =~= table(block_id));
                            assert(self.agrees(*old(ed), table));
                        }
                    }
                    Fetch::Ready(none)
                } else {
                    proof {
                        assert forall|table: NewlineTable|
                            #[trigger] old(self).agrees(*old(ed), table) && shows(
                                *old(ed),
                                unreadable@,
                                table,
                            ) implies self.agrees(*ed, table) && shows(
                            *ed,
                            unreadable@,
                            table,
                        ) by {
                            lemma_shows_kept(*old(ed), *ed, unreadable@, table);
                            assert(self.agrees(*old(ed), table));
                        }
                    }
                    let ghost before = *self;
                    self.awaited = Some(block_id);
                    proof {
                        assert forall|table: NewlineTable| before.agrees(
                            *ed,
                            table,
                        ) implies #[trigger] self.agrees(*ed, table) by {}
                    }
                    Fetch::Missing(block_id)
                }
            },
        }
    }

    /// Forgets everything if the document was edited since, and else looks for
    /// the newlines of the block that was asked for last, if it is there.
    fn catch_up(&mut self, ed: &mut Editor, unreadable: &Vec<BlockId>)
        requires
            old(self).wf(),
            old(ed).wf(),
        ensures
            final(self).wf(),
            final(ed).wf(),
            *final(ed) == (Editor { cache: final(ed).cache, ..*old(ed) }),
            old(ed).cache@.only_asked(final(ed).cache@),
            final(self).epoch == old(ed).edit_epoch,
            final(self).line_starts@ == (if old(self).epoch == old(ed).edit_epoch {
                old(self).line_starts@
            } else {
                seq![(0u64, 0u64)]
            }),
            learned(*old(self), *old(ed), *final(self)),
            forall|id: BlockId| #[trigger]
                in_reach(*final(self), *final(ed), unreadable@, id) == in_reach(
                    *old(self),
                    *old(ed),
                    unreadable@,
                    id,
                ),
            forall|table: NewlineTable| #[trigger]
                reads(*old(self), *old(ed), unreadable@, table) ==> reads(
                    *final(self),
                    *final(ed),
                    unreadable@,
                    table,
                ),
    {
        self.ensure_fresh(ed);
        let ghost fresh = *self;
        if let Some(id) = self.awaited {
            if ed.cache.block_len(id).is_some() {
                let _ = self.block_newlines(ed, id, unreadable);
            }
        }
        proof {
            let e = old(ed).edit_epoch;
            assert forall|id: BlockId| #[trigger] old(self).scanned(e, id) implies self.scanned(
                e,
                id,
            ) by {
                assert(fresh.scanned(e, id));
            }
            assert forall|id: BlockId| #[trigger]
                in_reach(*self, *ed, unreadable@, id) == in_reach(
                    *old(self),
                    *old(ed),
                    unreadable@,
                    id,
                ) by {
                assert(fresh.scanned(e, id) == old(self).scanned(e, id));
                assert(ed.cache@.has(id) == old(ed).cache@.has(id));
            }
            assert forall|table: NewlineTable| #[trigger]
                reads(*old(self), *old(ed), unreadable@, table) implies reads(
                *self,
                *ed,
                unreadable@,
                table,
            ) by {
                assert(fresh.agrees(*old(ed), table));
            }
        }
    }
}

/// Asking for blocks does not change what is known of them.
proof fn lemma_shows_kept(a: Editor, b: Editor, unreadable: Seq<BlockId>, table: NewlineTable)
    requires
        shows(a, unreadable, table),
        a.cache@.only_asked(b.cache@),
    ensures
        shows(b, unreadable, table),
{
    assert forall|id: BlockId| #[trigger] b.cache@.has(id) implies positions(
        b.cache@.blocks[id].bytes,
    ) == table(id) by {
        assert(a.cache@.has(id));
    }
    assert forall|i: int|
        0 <= i < unreadable.len() && !b.cache@.has(#[trigger] unreadable[i]) implies table(
        unreadable[i],
    ).len() == 0 by {
        assert(!a.cache@.has(unreadable[i]));
    }
}

/// The index and the editor show what `table` says of the blocks, and the
/// recorded sizes add up to the document.
pub open spec fn reads(
    index: LineIndex,
    ed: Editor,
    unreadable: Seq<BlockId>,
    table: NewlineTable,
) -> bool {
    &&& index.agrees(ed, table)
    &&& shows(ed, unreadable, table)
    &&& laid_out(table, ed.delta_table.sizes())
    &&& ed.file_size == delta_table::total(ed.delta_table.sizes())
}

pub proof fn lemma_count_before(nls: Seq<int>, offset: int, c: int)
    requires
        splits_at(nls, offset, c),
    ensures
        count_before(nls, offset) == c,
    decreases nls.len(),
{
    if nls.len() > 0 && nls.last() >= offset {
        assert(c < nls.len());
        assert forall|i: int| 0 <= i < c implies #[trigger] nls.drop_last()[i] < offset by {
            assert(nls[i] < offset);
        }
        assert forall|i: int| c <= i < nls.len() - 1 implies #[trigger] nls.drop_last()[i]
            >= offset by {
            assert(nls[i] >= offset);
        }
        lemma_count_before(nls.drop_last(), offset, c);
    } else if nls.len() > 0 {
        assert(nls[nls.len() - 1] < offset);
    }
}

/// The newlines of the first blocks come first, in order and within those
/// blocks, and the others behind.
proof fn lemma_newlines_upto(table: NewlineTable, sizes: Seq<i64>, k: int, n: int)
    requires
        laid_out(table, sizes),
        forall|i: int| 0 <= i < sizes.len() ==> sizes[i] >= 0,
        0 <= k <= n <= sizes.len(),
    ensures
        ({
            let part = newlines_upto(table, sizes, k);
            let all = newlines_upto(table, sizes, n);
            &&& part.len() <= all.len()
            &&& forall|i: int| 0 <= i < part.len() ==> #[trigger] all[i] == part[i]
            &&& forall|i: int|
                0 <= i < part.len() ==> 0 <= #[trigger] all[i] < delta_table::prefix(sizes, k)
            &&& forall|i: int|
                part.len() <= i < all.len() ==> delta_table::prefix(sizes, k)
                    <= #[trigger] all[i] < delta_table::prefix(sizes, n)
            &&& forall|i: int, j: int| 0 <= i < j < all.len() ==> all[i] < all[j]
            &&& all.len() <= delta_table::prefix(sizes, n)
        }),
    decreases n,
{
    delta_table::lemma_prefix_monotone(sizes, k, n);
    if n > 0 {
        let last = n - 1;
        let t = table(last as u64);
        let start = delta_table::prefix(sizes, last);
        assert(delta_table::prefix(sizes, n) == start + sizes[last]);
        lemma_increasing(table, sizes, last);
        let before = newlines_upto(table, sizes, last);
        let all = newlines_upto(table, sizes, n);
        assert(all =~= before + moved(t, start));
        let k0 = if k < n {
            k
        } else {
            last
        };
        lemma_newlines_upto(table, sizes, k0, last);
        delta_table::lemma_prefix_monotone(sizes, k0, last);
        assert forall|i: int| 0 <= i < before.len() implies #[trigger] before[i] < start by {
            if i < newlines_upto(table, sizes, k0).len() {
                assert(before[i] < delta_table::prefix(sizes, k0));
            }
        }
        assert forall|i: int, j: int| 0 <= i < j < all.len() implies all[i] < all[j] by {
            if j >= before.len() {
                assert(all[j] == start + t[j - before.len()]);
                if i >= before.len() {
                    assert(all[i] == start + t[i - before.len()]);
                } else {
                    assert(all[i] == before[i]);
                }
            } else {
                assert(all[i] == before[i] && all[j] == before[j]);
            }
        }
        assert forall|i: int| before.len() <= i < all.len() implies start <= #[trigger] all[i]
            < start + sizes[last] by {
            assert(all[i] == start + t[i - before.len()]);
            assert(t[i - before.len()] < sizes[last]);
        }
        let part = newlines_upto(table, sizes, k);
        if k < n {
            delta_table::lemma_prefix_monotone(sizes, k, last);
            assert forall|i: int| 0 <= i < part.len() implies #[trigger] all[i] == part[i] by {
                assert(all[i] == before[i]);
            }
            assert forall|i: int| part.len() <= i < all.len() implies delta_table::prefix(sizes, k)
                <= #[trigger] all[i] < delta_table::prefix(sizes, n) by {
                if i < before.len() {
                    assert(all[i] == before[i]);
                }
            }
            assert forall|i: int| 0 <= i < part.len() implies 0 <= #[trigger] all[i]
                < delta_table::prefix(sizes, k) by {
                assert(all[i] == before[i]);
            }
        } else {
            assert forall|i: int| 0 <= i < part.len() implies 0 <= #[trigger] all[i]
                < delta_table::prefix(sizes, k) by {
                if i < before.len() {
                    assert(all[i] == before[i]);
                }
            }
        }
        if t.len() > 0 {
            lemma_fits(t, sizes[last] as int);
        }
    }
}

/// The newlines of a block are in order.
proof fn lemma_increasing(table: NewlineTable, sizes: Seq<i64>, id: int)
    requires
        laid_out(table, sizes),
        0 <= id < sizes.len(),
    ensures
        ({
            let t = table(id as u64);
            &&& forall|i: int, j: int| 0 <= i < j < t.len() ==> t[i] < t[j]
            &&& forall|i: int| 0 <= i < t.len() ==> #[trigger] t[i] < sizes[id]
        }),
{
    let t = table(id as u64);
    assert forall|i: int, j: int| 0 <= i < j < t.len() implies t[i] < t[j] by {
        lemma_increasing_pair(table, sizes, id, i, j);
    }
}

proof fn lemma_increasing_pair(table: NewlineTable, sizes: Seq<i64>, id: int, i: int, j: int)
    requires
        laid_out(table, sizes),
        0 <= id < sizes.len(),
        0 <= i < j < table(id as u64).len(),
    ensures
        table(id as u64)[i] < table(id as u64)[j],
    decreases j,
{
    assert(table(id as u64)[j] < sizes[id]);
    if i < j - 1 {
        lemma_increasing_pair(table, sizes, id, i, j - 1);
    }
}

/// Different numbers below a bound are no more than the bound.
proof fn lemma_fits(s: Seq<u32>, bound: int)
    requires
        forall|i: int, j: int| 0 <= i < j < s.len() ==> s[i] < s[j],
        forall|i: int| 0 <= i < s.len() ==> s[i] < bound,
        s.len() > 0,
    ensures
        s.len() <= bound,
{
    lemma_fits_at(s, s.len() - 1);
}

proof fn lemma_fits_at(s: Seq<u32>, i: int)
    requires
        forall|i: int, j: int| 0 <= i < j < s.len() ==> s[i] < s[j],
        0 <= i < s.len(),
    ensures
        s[i] >= i,
    decreases i,
{
    if i > 0 {
        lemma_fits_at(s, i - 1);
    }
}

/// The newlines of block `b` are those of the document from its start to its
/// end.
proof fn lemma_newlines_of_block(table: NewlineTable, sizes: Seq<i64>, b: int)
    requires
        laid_out(table, sizes),
        forall|i: int| 0 <= i < sizes.len() ==> sizes[i] >= 0,
        0 <= b < sizes.len(),
    ensures
        ({
            let all = newlines(table, sizes);
            let a = newlines_upto(table, sizes, b).len();
            let t = table(b as u64);
            &&& a + t.len() <= all.len()
            &&& forall|i: int| 0 <= i < a ==> #[trigger] all[i] < delta_table::prefix(sizes, b)
            &&& forall|i: int|
                0 <= i < t.len() ==> all[a + i] == delta_table::prefix(sizes, b) + #[trigger] t[i]
            &&& forall|i: int|
                a + t.len() <= i < all.len() ==> #[trigger] all[i] >= delta_table::prefix(
                    sizes,
                    b + 1,
                )
            &&& forall|i: int, j: int| 0 <= i < j < all.len() ==> all[i] < all[j]
            &&& forall|i: int, j: int| 0 <= i < j < t.len() ==> t[i] < t[j]
            &&& forall|i: int| 0 <= i < t.len() ==> #[trigger] t[i] < sizes[b]
            &&& all.len() <= delta_table::total(sizes)
        }),
{
    let n = sizes.len() as int;
    lemma_newlines_upto(table, sizes, b, n);
    lemma_newlines_upto(table, sizes, b + 1, n);
    lemma_increasing(table, sizes, b);
    let all = newlines(table, sizes);
    let a = newlines_upto(table, sizes, b).len();
    let t = table(b as u64);
    let with = newlines_upto(table, sizes, b + 1);
    assert(with =~= newlines_upto(table, sizes, b) + moved(t, delta_table::prefix(sizes, b)));
    assert forall|i: int| 0 <= i < t.len() implies all[a + i] == delta_table::prefix(sizes, b)
        + #[trigger] t[i] by {
        assert(all[a + i] == with[a + i]);
    }
}

/// From `offset` in block `b` on: the newlines of the block from the `j`th on,
/// the first that is not before `offset`, come next in the document.
proof fn lemma_step(
    table: NewlineTable,
    sizes: Seq<i64>,
    b: int,
    nls: Seq<u32>,
    offset: int,
    j: int,
)
    requires
        laid_out(table, sizes),
        forall|i: int| 0 <= i < sizes.len() ==> sizes[i] >= 0,
        0 <= b < sizes.len(),
        nls == table(b as u64),
        delta_table::prefix(sizes, b) <= offset,
        0 <= j <= nls.len(),
        forall|i: int|
            0 <= i < j ==> #[trigger] nls[i] < offset - delta_table::prefix(sizes, b),
        j < nls.len() ==> nls[j] >= offset - delta_table::prefix(sizes, b),
        offset < delta_table::prefix(sizes, b + 1),
    ensures
        ({
            let all = newlines(table, sizes);
            let start = delta_table::prefix(sizes, b);
            let c = count_before(all, offset);
            &&& c + nls.len() - j <= all.len()
            &&& forall|i: int| j <= i < nls.len() ==> all[c + i - j] == start + #[trigger] nls[i]
            &&& count_before(all, delta_table::prefix(sizes, b + 1)) == c + nls.len() - j
            &&& b + 1 == sizes.len() ==> c + nls.len() - j == all.len()
        }),
{
    let all = newlines(table, sizes);
    let a = newlines_upto(table, sizes, b).len();
    let start = delta_table::prefix(sizes, b);
    let next = delta_table::prefix(sizes, b + 1);
    lemma_newlines_of_block(table, sizes, b);
    assert(next == start + sizes[b]);
    assert forall|i: int| 0 <= i < nls.len() implies all[a + i] == start + #[trigger] nls[i] by {}
    assert(splits_at(all, offset, a + j)) by {
        assert forall|i: int| 0 <= i < a + j implies #[trigger] all[i] < offset by {
            if i >= a {
                assert(all[a + (i - a)] == start + nls[i - a]);
            }
        }
        assert forall|i: int| a + j <= i < all.len() implies #[trigger] all[i] >= offset by {
            if i < a + nls.len() {
                assert(all[a + (i - a)] == start + nls[i - a]);
                if i > a + j {
                    assert(nls[j] < nls[i - a]);
                }
            }
        }
    }
    lemma_count_before(all, offset, a + j);
    assert(splits_at(all, next, (a + nls.len()) as int)) by {
        assert forall|i: int| 0 <= i < a + nls.len() implies #[trigger] all[i] < next by {
            if i >= a {
                assert(all[a + (i - a)] == start + nls[i - a]);
                assert(nls[i - a] < sizes[b]);
            }
        }
    }
    lemma_count_before(all, next, (a + nls.len()) as int);
    if b + 1 == sizes.len() {
        assert(newlines_upto(table, sizes, b + 1) =~= newlines_upto(table, sizes, b) + moved(
            table(b as u64),
            start,
        ));
    }
    assert forall|i: int| j <= i < nls.len() implies all[(a + j) + i - j] == start
        + #[trigger] nls[i] by {
        assert(all[a + i] == start + nls[i]);
    }
}

/// Behind block `b`, which holds the byte at `offset`, goes on the last block
/// that starts there; those before it have no bytes.
proof fn lemma_next_block(sizes: Seq<i64>, offset: int, b: int)
    requires
        forall|i: int| 0 <= i < sizes.len() ==> sizes[i] >= 0,
        delta_table::located(sizes, offset, b),
    ensures
        ({
            let next = delta_table::prefix(sizes, b + 1);
            let then = delta_table::block_at(sizes, next);
            &&& b <= then < sizes.len()
            &&& forall|c: int| b < c < then ==> #[trigger] sizes[c] == 0
        }),
{
    let next = delta_table::prefix(sizes, b + 1);
    let then = delta_table::block_at(sizes, next);
    delta_table::lemma_prefix_monotone(sizes, 0, b + 1);
    delta_table::lemma_prefix_monotone(sizes, b, b + 1);
    delta_table::lemma_block_at(sizes, next, sizes.len() - 1);
    assert(then >= b) by {
        if then < b {
            assert(next < delta_table::prefix(sizes, b));
        }
    }
    assert forall|c: int| b < c < then implies #[trigger] sizes[c] == 0 by {
        delta_table::lemma_prefix_monotone(sizes, b + 1, c);
        delta_table::lemma_prefix_monotone(sizes, c + 1, then);
        assert(delta_table::prefix(sizes, c + 1) == delta_table::prefix(sizes, c) + sizes[c]);
    }
}

/// What was learned stays learned while more is.
proof fn lemma_learned(a: LineIndex, ed: Editor, b: LineIndex, c: LineIndex)
    requires
        learned(a, ed, b),
        b.epoch == ed.edit_epoch,
        c.epoch == ed.edit_epoch,
        forall|id: BlockId| #[trigger]
            b.scanned(ed.edit_epoch, id) ==> c.scanned(ed.edit_epoch, id),
        b.line_starts@ == c.line_starts@ || forall|line: u64| #[trigger]
            b.knows(line) ==> c.knows(line),
    ensures
        learned(a, ed, c),
{
    let e = ed.edit_epoch;
    assert forall|line: u64| #[trigger] a.knows_line(e, line) implies c.knows_line(e, line) by {
        assert(b.knows_line(e, line));
        assert(b.knows(line));
        if b.line_starts@ == c.line_starts@ {
            let i = choose|i: int|
                0 <= i < b.line_starts@.len() && (#[trigger] b.line_starts@[i]).0 == line;
            assert(c.line_starts@[i].0 == line);
        }
    }
}

/// The first block out of reach is the same where the same blocks are in reach.
proof fn lemma_same_reach(
    a: LineIndex,
    before: Editor,
    b: LineIndex,
    after: Editor,
    unreadable: Seq<BlockId>,
    from: int,
    id: BlockId,
)
    requires
        after.delta_table == before.delta_table,
        after.block_count == before.block_count,
        forall|k: BlockId| #[trigger]
            in_reach(b, after, unreadable, k) == in_reach(a, before, unreadable, k),
        first_missing(b, after, unreadable, from, id),
    ensures
        first_missing(a, before, unreadable, from, id),
{
    let sizes = before.delta_table.sizes();
    assert(!in_reach(b, after, unreadable, id));
    assert forall|k: BlockId|
        delta_table::block_at(sizes, from) <= k < id && sizes[k as int]
            > 0 implies #[trigger] in_reach(a, before, unreadable, k) by {
        assert(in_reach(b, after, unreadable, k));
    }
}

/// Once the block that holds the byte at `to` is in reach, the next one is come
/// to.
proof fn lemma_walk_on(
    index: LineIndex,
    ed: Editor,
    unreadable: Seq<BlockId>,
    from: int,
    to: int,
)
    requires
        ed.wf(),
        ed.block_count > 0,
        to >= 0,
        walked_to(index, ed, unreadable, from, to),
        in_reach(
            index,
            ed,
            unreadable,
            delta_table::block_at(ed.delta_table.sizes(), to) as u64,
        ),
    ensures
        walked_to(
            index,
            ed,
            unreadable,
            from,
            delta_table::prefix(
                ed.delta_table.sizes(),
                delta_table::block_at(ed.delta_table.sizes(), to) + 1,
            ),
        ),
{
    let sizes = ed.delta_table.sizes();
    ed.delta_table.lemma_wf();
    delta_table::lemma_block_at(sizes, to, sizes.len() - 1);
    lemma_next_block(sizes, to, delta_table::block_at(sizes, to));
}

/// A byte with less than `line` newlines before it is before the start of that
/// line.
proof fn lemma_before_line(nls: Seq<int>, file_size: int, offset: int, line: int)
    requires
        in_order(nls, file_size),
        0 <= offset < file_size,
        count_before(nls, offset) < line,
    ensures
        offset < start_of(nls, file_size, line),
{
    lemma_line_of(nls, file_size, offset);
    if line <= nls.len() {
        assert(nls[line - 1] >= offset);
    }
}

/// As many newlines are before the start of a line as its number says.
pub proof fn lemma_start_of(nls: Seq<int>, file_size: int, line: int)
    requires
        forall|i: int, j: int| 0 <= i < j < nls.len() ==> nls[i] < nls[j],
        forall|i: int| 0 <= i < nls.len() ==> #[trigger] nls[i] >= 0,
        0 <= line <= nls.len(),
    ensures
        count_before(nls, start_of(nls, file_size, line)) == line,
{
    lemma_count_before(nls, start_of(nls, file_size, line), line);
}

/// Newlines are in order and within a document of `file_size` bytes.
pub open spec fn in_order(nls: Seq<int>, file_size: int) -> bool {
    &&& forall|i: int, j: int| 0 <= i < j < nls.len() ==> nls[i] < nls[j]
    &&& forall|i: int| 0 <= i < nls.len() ==> 0 <= #[trigger] nls[i] < file_size
}

/// The newlines that the index goes by are in order and within the document.
pub proof fn lemma_reads_in_order(
    index: LineIndex,
    ed: Editor,
    unreadable: Seq<BlockId>,
    table: NewlineTable,
)
    requires
        ed.wf(),
        reads(index, ed, unreadable, table),
    ensures
        in_order(newlines(table, ed.delta_table.sizes()), ed.file_size as int),
{
    let sizes = ed.delta_table.sizes();
    ed.delta_table.lemma_wf();
    lemma_newlines_upto(table, sizes, 0, sizes.len() as int);
}

/// There are not more newlines than can be counted.
pub proof fn lemma_few_lines(
    index: LineIndex,
    ed: Editor,
    unreadable: Seq<BlockId>,
    table: NewlineTable,
)
    requires
        ed.wf(),
        reads(index, ed, unreadable, table),
    ensures
        newlines(table, ed.delta_table.sizes()).len() <= i64::MAX,
{
    let sizes = ed.delta_table.sizes();
    ed.delta_table.lemma_wf();
    lemma_newlines_upto(table, sizes, 0, sizes.len() as int);
    delta_table::lemma_run_fits(sizes, 0, sizes.len() as int);
}

/// What the index goes by does not depend on the cursor and the like.
pub proof fn lemma_reads_kept(
    index: LineIndex,
    a: Editor,
    b: Editor,
    unreadable: Seq<BlockId>,
    table: NewlineTable,
)
    requires
        reads(index, a, unreadable, table),
        b.delta_table == a.delta_table,
        b.file_size == a.file_size,
        b.edit_epoch == a.edit_epoch,
        a.cache@.only_asked(b.cache@),
    ensures
        reads(index, b, unreadable, table),
{
    lemma_shows_kept(a, b, unreadable, table);
}

/// The line of `offset` starts at or before it, and the next one behind it.
pub proof fn lemma_line_of(nls: Seq<int>, file_size: int, offset: int)
    requires
        in_order(nls, file_size),
        0 <= offset <= file_size,
    ensures
        ({
            let line = count_before(nls, offset);
            &&& 0 <= line <= nls.len()
            &&& splits_at(nls, offset, line)
            &&& 0 <= start_of(nls, file_size, line) <= offset
        }),
    decreases nls.len(),
{
    if nls.len() > 0 && nls.last() >= offset {
        let front = nls.drop_last();
        lemma_line_of(front, file_size, offset);
        let line = count_before(front, offset);
        assert forall|i: int| line <= i < nls.len() implies #[trigger] nls[i] >= offset by {
            if i < front.len() {
                assert(front[i] >= offset);
            }
        }
        assert forall|i: int| 0 <= i < line implies #[trigger] nls[i] < offset by {
            assert(front[i] < offset);
        }
    } else if nls.len() > 0 {
        assert forall|i: int| 0 <= i < nls.len() implies #[trigger] nls[i] < offset by {
            if i < nls.len() - 1 {
                assert(nls[i] < nls[nls.len() - 1]);
            }
        }
        assert(nls[nls.len() - 1] < offset);
    }
}

impl Default for LineIndex {
    fn default() -> (index: Self)
        ensures
            index.wf(),
            forall|ed: Editor, table: NewlineTable| #[trigger] index.agrees(ed, table),
    {
        Self::new()
    }
}

/// Whether `id` is in `ids`.
pub fn listed(ids: &Vec<BlockId>, id: BlockId) -> (b: bool)
    ensures
        b == ids@.contains(id),
{
    let mut i: usize = 0;
    while i < ids.len()
        invariant
            i <= ids@.len(),
            forall|k: int| 0 <= k < i ==> ids@[k] != id,
        decreases ids@.len() - i,
    {
        if ids[i] == id {
            assert(ids@[i as int] == id);
            return true;
        }
        i = i + 1;
    }
    false
}

/// Where in `bytes` the newlines are.
fn find_newlines(bytes: &[u8]) -> (found: Vec<u32>)
    ensures
        found@ == positions(bytes@),
{
    let mut found: Vec<u32> = Vec::new();
    let mut i: usize = 0;
    while i < bytes.len()
        invariant
            i <= bytes@.len(),
            found@ == positions(bytes@.subrange(0, i as int)),
        decreases bytes@.len() - i,
    {
        assert(bytes@.subrange(0, i + 1).drop_last() =~= bytes@.subrange(0, i as int));
        if bytes[i] == 10 {
            found.push(
                #[verifier::truncate]
                (i as u32),
            );
        }
        i = i + 1;
    }
    assert(bytes@.subrange(0, i as int) =~= bytes@);
    found
}

impl LineIndex {
    /// Where the `n`th line behind `from` starts, if there is one.
    fn advance_lines(&mut self, ed: &mut Editor, from: u64, n: u64, unreadable: &Vec<BlockId>) -> (r:
        Fetch<Option<u64>>)
        requires
            old(self).wf(),
            old(self).epoch == old(ed).edit_epoch,
            old(ed).wf(),
        ensures
            final(self).wf(),
            final(self).epoch == old(ed).edit_epoch,
            final(self).line_starts@ == old(self).line_starts@,
            final(ed).wf(),
            *final(ed) == (Editor { cache: final(ed).cache, ..*old(ed) }),
            old(ed).cache@.only_asked(final(ed).cache@),
            forall|id: BlockId| #[trigger]
                old(self).scanned(old(ed).edit_epoch, id) ==> final(self).scanned(
                    old(ed).edit_epoch,
                    id,
                ),
            r matches Fetch::Missing(id) ==> {
                &&& first_missing(*old(self), *old(ed), unreadable@, from as int, id)
                &&& final(self).awaits(old(ed).edit_epoch, id)
            },
            forall|table: NewlineTable| #[trigger]
                reads(*old(self), *old(ed), unreadable@, table) ==> {
                    let nls = newlines(table, old(ed).delta_table.sizes());
                    let line = count_before(nls, from as int) + n;
                    &&& reads(*final(self), *final(ed), unreadable@, table)
                    &&& r matches Fetch::Missing(id) ==> delta_table::prefix(
                        old(ed).delta_table.sizes(),
                        id as int,
                    ) < start_of(nls, old(ed).file_size as int, line)
                    &&& r matches Fetch::Ready(start) ==> start == (if n == 0 {
                        Some(from)
                    } else if line <= nls.len() {
                        Some((nls[line - 1] + 1) as u64)
                    } else {
                        None
                    })
                },
    {
        if n == 0 {
            return Fetch::Ready(Some(from));
        }
        let mut remaining: u64 = n;
        let mut offset: u64 = from;
        while offset < ed.file_size
            invariant
                remaining > 0,
                n > 0,
                self.wf(),
                self.epoch == old(ed).edit_epoch,
                self.line_starts@ == old(self).line_starts@,
                walked_to(*old(self), *old(ed), unreadable@, from as int, offset as int),
                forall|id: BlockId| #[trigger]
                    in_reach(*self, *ed, unreadable@, id) == in_reach(
                        *old(self),
                        *old(ed),
                        unreadable@,
                        id,
                    ),
                forall|id: BlockId| #[trigger]
                    old(self).scanned(old(ed).edit_epoch, id) ==> self.scanned(
                        old(ed).edit_epoch,
                        id,
                    ),
                old(ed).wf(),
                ed.wf(),
                *ed == (Editor { cache: ed.cache, ..*old(ed) }),
                old(ed).cache@.only_asked(ed.cache@),
                forall|table: NewlineTable| #[trigger]
                    reads(*old(self), *old(ed), unreadable@, table) ==> {
                        let nls = newlines(table, ed.delta_table.sizes());
                        &&& reads(*self, *ed, unreadable@, table)
                        &&& count_before(nls, offset as int) + remaining == count_before(
                            nls,
                            from as int,
                        ) + n
                    },
            decreases ed.file_size - offset,
        {
            let ghost sizes = ed.delta_table.sizes();
            let (block_id, _) = ed.delta_table.locate_offset(offset);
            let ghost asked = ed.cache@;
            let got = self.block_newlines(ed, block_id, unreadable);
            proof {
                cache::lemma_asked_more(old(ed).cache@, asked, ed.cache@);
            }
            let nls = match got {
                Fetch::Ready(v) => v,
                Fetch::Missing(id) => {
                    proof {
                        delta_table::lemma_prefix_monotone(sizes, 0, block_id as int);
                        assert forall|table: NewlineTable| #[trigger]
                            reads(*old(self), *old(ed), unreadable@, table) implies {
                            let all = newlines(table, sizes);
                            let line = count_before(all, from as int) + n;
                            &&& reads(*self, *ed, unreadable@, table)
                            &&& delta_table::prefix(sizes, id as int) < start_of(
                                all,
                                ed.file_size as int,
                                line,
                            )
                        } by {
                            let all = newlines(table, sizes);
                            lemma_reads_in_order(*self, *ed, unreadable@, table);
                            lemma_before_line(
                                all,
                                ed.file_size as int,
                                offset as int,
                                count_before(all, from as int) + n,
                            );
                        }
                    }
                    return Fetch::Missing(id);
                },
            };
            proof {
                lemma_walk_on(*old(self), *old(ed), unreadable@, from as int, offset as int);
                delta_table::lemma_prefix_monotone(sizes, 0, block_id as int);
                delta_table::lemma_prefix_monotone(
                    sizes,
                    block_id + 1,
                    sizes.len() as int,
                );
                ed.delta_table.lemma_wf();
                delta_table::lemma_run_fits(sizes, 0, sizes.len() as int);
                assert(delta_table::prefix(sizes, block_id + 1) == delta_table::prefix(
                    sizes,
                    block_id as int,
                ) + sizes[block_id as int]);
            }
            let block_start: u64 = ed.delta_table.block_start_offset(
                block_id,
                ed.config.block_size,
            );
            let next: u64 = block_start + ed.delta_table.block_size(block_id) as u64;
            let inner: u64 = offset - block_start;
            let mut j: usize = 0;
            while j < nls.len() && (nls[j] as u64) < inner
                invariant
                    j <= nls@.len(),
                    forall|i: int| 0 <= i < j ==> #[trigger] nls@[i] < inner,
                decreases nls@.len() - j,
            {
                j = j + 1;
            }
            let rest: u64 = (nls.len() - j) as u64;
            proof {
                assert forall|table: NewlineTable| #[trigger]
                    reads(*old(self), *old(ed), unreadable@, table) implies {
                    let all = newlines(table, sizes);
                    let c = count_before(all, offset as int);
                    &&& nls@ == table(block_id)
                    &&& offset < next
                    &&& c + rest <= all.len()
                    &&& forall|i: int|
                        j <= i < nls@.len() ==> all[c + i - j] == block_start + #[trigger] nls@[i]
                    &&& count_before(all, next as int) == c + rest
                    &&& block_id + 1 == sizes.len() ==> c + rest == all.len()
                } by {
                    lemma_step(table, sizes, block_id as int, nls@, offset as int, j as int);
                }
            }
            if rest >= remaining {
                let p: u32 = nls[j + (remaining - 1) as usize];
                proof {
                    assert forall|table: NewlineTable| #[trigger]
                        reads(*old(self), *old(ed), unreadable@, table) implies {
                        let all = newlines(table, sizes);
                        let line = count_before(all, from as int) + n;
                        &&& line <= all.len()
                        &&& all[line - 1] == block_start + p
                    } by {
                        let all = newlines(table, sizes);
                        let c = count_before(all, offset as int);
                        let i = j + (remaining - 1);
                        assert(all[c + i - j] == block_start + nls@[i]);
                    }
                }
                return Fetch::Ready(Some(block_start + p as u64 + 1));
            }
            remaining = remaining - rest;
            if next >= ed.file_size || next <= offset {
                proof {
                    assert forall|table: NewlineTable| #[trigger]
                        reads(*old(self), *old(ed), unreadable@, table) implies {
                        let all = newlines(table, sizes);
                        count_before(all, from as int) + n > all.len()
                    } by {
                        let all = newlines(table, sizes);
                        lemma_newlines_upto(table, sizes, 0, sizes.len() as int);
                        lemma_count_before(all, next as int, all.len() as int);
                    }
                }
                return Fetch::Ready(None);
            }
            offset = next;
        }
        proof {
            assert forall|table: NewlineTable| #[trigger]
                reads(*old(self), *old(ed), unreadable@, table) implies {
                let all = newlines(table, old(ed).delta_table.sizes());
                count_before(all, from as int) + n > all.len()
            } by {
                let sizes = old(ed).delta_table.sizes();
                let all = newlines(table, sizes);
                lemma_newlines_upto(table, sizes, 0, sizes.len() as int);
                lemma_count_before(all, offset as int, all.len() as int);
            }
        }
        Fetch::Ready(None)
    }
}

impl LineIndex {
    /// The last known line that is not behind `line`.
    fn floor(&self, line: u64) -> (i: usize)
        requires
            self.wf(),
        ensures
            i == floor_of(self.line_starts@, line),
            i < self.line_starts.len(),
            self.line_starts@[i as int].0 <= line,
            i + 1 < self.line_starts@.len() ==> line < self.line_starts@[i + 1].0,
    {
        let mut lo: usize = 0;
        let mut hi: usize = self.line_starts.len();
        while hi - lo > 1
            invariant
                self.wf(),
                lo < hi <= self.line_starts@.len(),
                self.line_starts@[lo as int].0 <= line,
                hi < self.line_starts@.len() ==> line < self.line_starts@[hi as int].0,
            decreases hi - lo,
        {
            let mid: usize = lo + (hi - lo) / 2;
            if self.line_starts[mid].0 <= line {
                lo = mid;
            } else {
                hi = mid;
            }
        }
        proof {
            lemma_floor_of(self.line_starts@, line, lo as int);
        }
        lo
    }

    /// Remembers where line `line` starts, in its order, unless that is known.
    fn remember(&mut self, line: u64, start: u64)
        requires
            old(self).wf(),
        ensures
            final(self).wf(),
            *final(self) == (LineIndex { line_starts: final(self).line_starts, ..*old(self) }),
            final(self).knows(line),
            forall|l: u64| #[trigger] old(self).knows(l) ==> final(self).knows(l),
            old(self).knows(line) ==> *final(self) == *old(self),
            !old(self).knows(line) ==> exists|i: int|
                0 <= i <= old(self).line_starts@.len() && final(self).line_starts@
                    == #[trigger] old(self).line_starts@.insert(i, (line, start)),
            forall|ed: Editor, table: NewlineTable|
                #[trigger] old(self).agrees(ed, table) && (old(self).epoch == ed.edit_epoch ==> {
                    let nls = newlines(table, ed.delta_table.sizes());
                    line <= nls.len() && start == start_of(nls, ed.file_size as int, line as int)
                }) ==> final(self).agrees(ed, table),
    {
        let i: usize = self.floor(line);
        if self.line_starts[i].0 == line {
            assert(self.line_starts@[i as int].0 == line);
            return ;
        }
        let ghost before = self.line_starts@;
        self.line_starts.insert(i + 1, (line, start));
        proof {
            let after = self.line_starts@;
            assert(after[i + 1].0 == line);
            assert forall|l: u64| #[trigger] old(self).knows(l) implies self.knows(l) by {
                let k = choose|k: int| 0 <= k < before.len() && (#[trigger] before[k]).0 == l;
                let there = if k <= i {
                    k
                } else {
                    k + 1
                };
                assert(after[there] == before[k]);
            }
            assert(after == before.insert(i + 1, (line, start)));
            assert(!old(self).knows(line)) by {
                assert forall|k: int| 0 <= k < before.len() implies (#[trigger] before[k]).0
                    != line by {
                    if k < i {
                        assert(before[k].0 < before[i as int].0);
                    } else if k > i + 1 {
                        assert(before[i + 1].0 < before[k].0);
                    }
                }
            }
            assert forall|a: int, b: int| 0 <= a < b < after.len() implies (#[trigger] after[a]).0
                < (#[trigger] after[b]).0 by {
                let x = if a <= i {
                    a
                } else {
                    a - 1
                };
                let y = if b <= i {
                    b
                } else {
                    b - 1
                };
                assert(a != i + 1 ==> after[a] == before[x]);
                assert(b != i + 1 ==> after[b] == before[y]);
                if a == i + 1 && b > i + 2 {
                    assert(before[i + 1].0 < before[b - 1].0);
                }
                if b == i + 1 && a < i {
                    assert(before[a].0 < before[i as int].0);
                }
            }
            assert forall|ed: Editor, table: NewlineTable|
                #[trigger] old(self).agrees(ed, table) && (old(self).epoch == ed.edit_epoch ==> {
                    let nls = newlines(table, ed.delta_table.sizes());
                    line <= nls.len() && start == start_of(nls, ed.file_size as int, line as int)
                }) implies self.agrees(ed, table) by {
                if self.epoch == ed.edit_epoch {
                    let nls = newlines(table, ed.delta_table.sizes());
                    assert forall|k: int| 0 <= k < after.len() implies {
                        &&& (#[trigger] after[k]).0 <= nls.len()
                        &&& after[k].1 == start_of(nls, ed.file_size as int, after[k].0 as int)
                    } by {
                        if k <= i {
                            assert(after[k] == before[k]);
                        } else if k > i + 1 {
                            assert(after[k] == before[k - 1]);
                        }
                    }
                }
            }
        }
    }

    /// Where line `line` starts is known.
    spec fn knows(&self, line: u64) -> bool {
        exists|i: int|
            0 <= i < self.line_starts@.len() && (#[trigger] self.line_starts@[i]).0 == line
    }

    /// Where line `line` starts, counted from zero; the end of the document
    /// where there are not as many lines.
    pub fn line_start(&mut self, ed: &mut Editor, line: u64, unreadable: &Vec<BlockId>) -> (r: Fetch<
        u64,
    >)
        requires
            old(self).wf(),
            old(ed).wf(),
        ensures
            final(self).wf(),
            final(ed).wf(),
            *final(ed) == (Editor { cache: final(ed).cache, ..*old(ed) }),
            old(ed).cache@.only_asked(final(ed).cache@),
            learned(*old(self), *old(ed), *final(self)),
            r matches Fetch::Missing(id) ==> {
                &&& asks(*old(self), *old(ed), unreadable@, id, *final(self))
                &&& first_missing(
                    *old(self),
                    *old(ed),
                    unreadable@,
                    old(self).known_start(old(ed).edit_epoch, line),
                    id,
                )
            },
            forall|table: NewlineTable| #[trigger]
                reads(*old(self), *old(ed), unreadable@, table) ==> {
                    let nls = newlines(table, old(ed).delta_table.sizes());
                    &&& reads(*final(self), *final(ed), unreadable@, table)
                    &&& r matches Fetch::Ready(start) ==> {
                        &&& start == start_of(nls, old(ed).file_size as int, line as int)
                        &&& line <= nls.len() ==> final(self).knows_line(
                            old(ed).edit_epoch,
                            line,
                        )
                    }
                    &&& r matches Fetch::Missing(id) ==> delta_table::prefix(
                        old(ed).delta_table.sizes(),
                        id as int,
                    ) < start_of(nls, old(ed).file_size as int, line as int)
                },
    {
        self.catch_up(ed, unreadable);
        let ghost fresh = *self;
        let ghost caught = *ed;
        let i: usize = self.floor(line);
        let (known, start) = self.line_starts[i];
        proof {
            assert(self.line_starts@[i as int] == (known, start));
            assert forall|table: NewlineTable| #[trigger]
                reads(*old(self), *old(ed), unreadable@, table) implies {
                let nls = newlines(table, ed.delta_table.sizes());
                &&& known <= nls.len()
                &&& start == start_of(nls, ed.file_size as int, known as int)
                &&& count_before(nls, start as int) == known
            } by {
                assert(reads(fresh, caught, unreadable@, table));
                let sizes = ed.delta_table.sizes();
                lemma_newlines_upto(table, sizes, 0, sizes.len() as int);
                lemma_start_of(newlines(table, sizes), ed.file_size as int, known as int);
            }
        }
        if known == line {
            return Fetch::Ready(start);
        }
        let ghost asked = ed.cache@;
        let got = self.advance_lines(ed, start, line - known, unreadable);
        proof {
            cache::lemma_asked_more(old(ed).cache@, asked, ed.cache@);
            lemma_learned(*old(self), *old(ed), fresh, *self);
        }
        match got {
            Fetch::Missing(id) => {
                proof {
                    lemma_same_reach(
                        *old(self),
                        *old(ed),
                        fresh,
                        caught,
                        unreadable@,
                        start as int,
                        id,
                    );
                    assert forall|table: NewlineTable| #[trigger]
                        reads(*old(self), *old(ed), unreadable@, table) implies reads(
                        *self,
                        *ed,
                        unreadable@,
                        table,
                    ) by {
                        assert(reads(fresh, caught, unreadable@, table));
                    }
                }
                Fetch::Missing(id)
            },
            Fetch::Ready(Some(found)) => {
                let ghost walked = *self;
                self.remember(line, found);
                proof {
                    lemma_learned(*old(self), *old(ed), walked, *self);
                    assert forall|table: NewlineTable| #[trigger]
                        reads(*old(self), *old(ed), unreadable@, table) implies {
                        &&& reads(*self, *ed, unreadable@, table)
                        &&& found == start_of(
                            newlines(table, ed.delta_table.sizes()),
                            ed.file_size as int,
                            line as int,
                        )
                    } by {
                        assert(reads(fresh, caught, unreadable@, table));
                        assert(walked.agrees(*ed, table));
                        let sizes = ed.delta_table.sizes();
                        lemma_newlines_upto(table, sizes, 0, sizes.len() as int);
                        ed.delta_table.lemma_wf();
                        delta_table::lemma_run_fits(sizes, 0, sizes.len() as int);
                    }
                }
                Fetch::Ready(found)
            },
            Fetch::Ready(None) => {
                proof {
                    assert forall|table: NewlineTable| #[trigger]
                        reads(*old(self), *old(ed), unreadable@, table) implies {
                        &&& reads(*self, *ed, unreadable@, table)
                        &&& ed.file_size == start_of(
                            newlines(table, ed.delta_table.sizes()),
                            ed.file_size as int,
                            line as int,
                        )
                    } by {
                        assert(reads(fresh, caught, unreadable@, table));
                    }
                }
                Fetch::Ready(ed.file_size)
            },
        }
    }

    /// How many lines the document has: one more than newlines.
    pub fn total_lines(&mut self, ed: &mut Editor, unreadable: &Vec<BlockId>) -> (r: Fetch<u64>)
        requires
            old(self).wf(),
            old(ed).wf(),
        ensures
            final(self).wf(),
            final(ed).wf(),
            *final(ed) == (Editor { cache: final(ed).cache, ..*old(ed) }),
            old(ed).cache@.only_asked(final(ed).cache@),
            learned(*old(self), *old(ed), *final(self)),
            r matches Fetch::Missing(id) ==> {
                &&& asks(*old(self), *old(ed), unreadable@, id, *final(self))
                &&& forall|b: BlockId|
                    b < id ==> #[trigger] in_reach(*old(self), *old(ed), unreadable@, b)
            },
            forall|table: NewlineTable| #[trigger]
                reads(*old(self), *old(ed), unreadable@, table) ==> {
                    &&& reads(*final(self), *final(ed), unreadable@, table)
                    &&& r matches Fetch::Ready(n) ==> n == newlines(
                        table,
                        old(ed).delta_table.sizes(),
                    ).len() + 1
                },
    {
        self.catch_up(ed, unreadable);
        let ghost fresh = *self;
        if let Some(total) = self.total_lines_cache {
            return Fetch::Ready(total);
        }
        let mut count: u64 = 0;
        let mut block: BlockId = 0;
        while block < ed.block_count
            invariant
                self.wf(),
                self.epoch == old(ed).edit_epoch,
                old(ed).wf(),
                ed.wf(),
                *ed == (Editor { cache: ed.cache, ..*old(ed) }),
                old(ed).cache@.only_asked(ed.cache@),
                block <= ed.block_count,
                learned(*old(self), *old(ed), fresh),
                fresh.epoch == old(ed).edit_epoch,
                self.line_starts@ == fresh.line_starts@,
                forall|id: BlockId| #[trigger]
                    fresh.scanned(old(ed).edit_epoch, id) ==> self.scanned(old(ed).edit_epoch, id),
                forall|id: BlockId| #[trigger]
                    in_reach(*self, *ed, unreadable@, id) == in_reach(
                        *old(self),
                        *old(ed),
                        unreadable@,
                        id,
                    ),
                forall|b: BlockId|
                    b < block ==> #[trigger] in_reach(*old(self), *old(ed), unreadable@, b),
                forall|table: NewlineTable| #[trigger]
                    reads(*old(self), *old(ed), unreadable@, table) ==> {
                        &&& reads(*self, *ed, unreadable@, table)
                        &&& count == newlines_upto(
                            table,
                            ed.delta_table.sizes(),
                            block as int,
                        ).len()
                    },
            decreases ed.block_count - block,
        {
            let ghost before = count;
            let ghost asked = ed.cache@;
            let got = self.block_newlines(ed, block, unreadable);
            proof {
                cache::lemma_asked_more(old(ed).cache@, asked, ed.cache@);
                lemma_learned(*old(self), *old(ed), fresh, *self);
                let _ = in_reach(*self, *ed, unreadable@, block);
            }
            let nls = match got {
                Fetch::Ready(v) => v,
                Fetch::Missing(id) => {
                    return Fetch::Missing(id);
                },
            };
            count = count.saturating_add(nls.len() as u64);
            proof {
                assert forall|table: NewlineTable| #[trigger]
                    reads(*old(self), *old(ed), unreadable@, table) implies count
                    == newlines_upto(table, ed.delta_table.sizes(), block + 1).len() by {
                    let sizes = ed.delta_table.sizes();
                    lemma_newlines_upto(table, sizes, 0, block + 1);
                    lemma_newlines_upto(table, sizes, block + 1, sizes.len() as int);
                    ed.delta_table.lemma_wf();
                    delta_table::lemma_run_fits(sizes, 0, block + 1);
                }
            }
            block = block + 1;
        }
        let total: u64 = count.saturating_add(1);
        let ghost walked = *self;
        self.total_lines_cache = Some(total);
        proof {
            lemma_learned(*old(self), *old(ed), fresh, *self);
            assert forall|table: NewlineTable| #[trigger]
                reads(*old(self), *old(ed), unreadable@, table) implies {
                &&& reads(*self, *ed, unreadable@, table)
                &&& total == newlines(table, ed.delta_table.sizes()).len() + 1
            } by {
                assert(reads(walked, *ed, unreadable@, table));
                let sizes = ed.delta_table.sizes();
                lemma_newlines_upto(table, sizes, 0, sizes.len() as int);
                ed.delta_table.lemma_wf();
                delta_table::lemma_run_fits(sizes, 0, sizes.len() as int);
            }
        }
        Fetch::Ready(total)
    }
}

impl LineIndex {
    /// The line that the byte at `offset` is in, and how far into it the byte
    /// is, both counted from zero. An offset behind the end is taken for the
    /// end.
    #[verifier::rlimit(60)]
    #[verifier::spinoff_prover]
    pub fn offset_to_line(&mut self, ed: &mut Editor, offset: u64, unreadable: &Vec<BlockId>) -> (r:
        Fetch<(u64, u64)>)
        requires
            old(self).wf(),
            old(ed).wf(),
        ensures
            final(self).wf(),
            final(ed).wf(),
            *final(ed) == (Editor { cache: final(ed).cache, ..*old(ed) }),
            old(ed).cache@.only_asked(final(ed).cache@),
            learned(*old(self), *old(ed), *final(self)),
            r matches Fetch::Missing(id) ==> {
                let at = if offset < old(ed).file_size {
                    offset
                } else {
                    old(ed).file_size
                };
                &&& asks(*old(self), *old(ed), unreadable@, id, *final(self))
                &&& first_missing(
                    *old(self),
                    *old(ed),
                    unreadable@,
                    old(self).known_before(old(ed).edit_epoch, at as int),
                    id,
                )
                &&& delta_table::prefix(old(ed).delta_table.sizes(), id as int) < at
            },
            r matches Fetch::Ready((line, _)) ==> final(self).knows_line(
                old(ed).edit_epoch,
                line,
            ),
            r matches Fetch::Ready((_, col)) ==> col <= offset && col <= old(ed).file_size,
            forall|table: NewlineTable| #[trigger]
                reads(*old(self), *old(ed), unreadable@, table) ==> {
                    let nls = newlines(table, old(ed).delta_table.sizes());
                    let at = if offset < old(ed).file_size {
                        offset
                    } else {
                        old(ed).file_size
                    };
                    let line = count_before(nls, at as int);
                    &&& reads(*final(self), *final(ed), unreadable@, table)
                    &&& r matches Fetch::Ready(place) ==> {
                        &&& place.0 == line
                        &&& place.1 == at - start_of(nls, old(ed).file_size as int, line)
                    }
                },
    {
        self.catch_up(ed, unreadable);
        let ghost fresh = *self;
        let ghost caught = *ed;
        let goal: u64 = if offset < ed.file_size { offset } else { ed.file_size };
        let mut line: u64 = 0;
        let mut line_start: u64 = 0;
        let mut i: usize = 0;
        while i < self.line_starts.len()
            invariant
                *self == fresh,
                self.wf(),
                i <= self.line_starts@.len(),
                line_start <= goal,
                line_start == furthest(self.line_starts@, goal as int, i as int),
                exists|k: int|
                    0 <= k < self.line_starts@.len() && #[trigger] self.line_starts@[k] == (
                        line,
                        line_start,
                    ),
            decreases self.line_starts@.len() - i,
        {
            let (l, b) = self.line_starts[i];
            if b <= goal && b > line_start {
                assert(self.line_starts@[i as int] == (l, b));
                line = l;
                line_start = b;
            }
            i = i + 1;
        }
        proof {
            assert forall|table: NewlineTable| #[trigger]
                reads(*old(self), *old(ed), unreadable@, table) implies {
                let nls = newlines(table, ed.delta_table.sizes());
                &&& reads(*self, *ed, unreadable@, table)
                &&& line <= nls.len()
                &&& line_start == start_of(nls, ed.file_size as int, line as int)
                &&& count_before(nls, line_start as int) == line
            } by {
                let sizes = ed.delta_table.sizes();
                lemma_newlines_upto(table, sizes, 0, sizes.len() as int);
                let k = choose|k: int|
                    0 <= k < self.line_starts@.len() && #[trigger] self.line_starts@[k] == (
                        line,
                        line_start,
                    );
                assert(self.line_starts@[k] == (line, line_start));
                lemma_start_of(newlines(table, sizes), ed.file_size as int, line as int);
            }
        }
        let ghost from = line_start as int;
        let mut pos: u64 = line_start;
        let mut done = pos >= goal;
        while !done
            invariant
                self.wf(),
                self.epoch == old(ed).edit_epoch,
                old(ed).wf(),
                ed.wf(),
                *ed == (Editor { cache: ed.cache, ..*old(ed) }),
                old(ed).cache@.only_asked(ed.cache@),
                goal == (if offset < old(ed).file_size {
                    offset
                } else {
                    old(ed).file_size
                }),
                learned(*old(self), *old(ed), fresh),
                fresh.epoch == old(ed).edit_epoch,
                self.line_starts@ == fresh.line_starts@,
                from == old(self).known_before(old(ed).edit_epoch, goal as int),
                walked_to(*old(self), *old(ed), unreadable@, from, pos as int),
                forall|id: BlockId| #[trigger]
                    fresh.scanned(old(ed).edit_epoch, id) ==> self.scanned(old(ed).edit_epoch, id),
                forall|id: BlockId| #[trigger]
                    in_reach(*self, *ed, unreadable@, id) == in_reach(
                        *old(self),
                        *old(ed),
                        unreadable@,
                        id,
                    ),
                goal <= ed.file_size,
                line_start <= goal,
                !done ==> pos < goal,
                pos <= goal,
                forall|table: NewlineTable| #[trigger]
                    reads(*old(self), *old(ed), unreadable@, table) ==> {
                        let nls = newlines(table, ed.delta_table.sizes());
                        let at = if done {
                            goal
                        } else {
                            pos
                        };
                        &&& reads(*self, *ed, unreadable@, table)
                        &&& line == count_before(nls, at as int)
                        &&& line <= nls.len()
                        &&& line_start == start_of(nls, ed.file_size as int, line as int)
                    },
            decreases goal - pos, (if done { 0int } else { 1int }),
        {
            let ghost sizes = ed.delta_table.sizes();
            let ghost line_before = line;
            let (block_id, _) = ed.delta_table.locate_offset(pos);
            let ghost asked = ed.cache@;
            let got = self.block_newlines(ed, block_id, unreadable);
            proof {
                cache::lemma_asked_more(old(ed).cache@, asked, ed.cache@);
                lemma_learned(*old(self), *old(ed), fresh, *self);
                delta_table::lemma_prefix_monotone(sizes, 0, block_id as int);
            }
            let nls = match got {
                Fetch::Ready(v) => v,
                Fetch::Missing(id) => {
                    return Fetch::Missing(id);
                },
            };
            proof {
                lemma_walk_on(*old(self), *old(ed), unreadable@, from, pos as int);
                delta_table::lemma_prefix_monotone(sizes, 0, block_id as int);
                delta_table::lemma_prefix_monotone(sizes, block_id + 1, sizes.len() as int);
                ed.delta_table.lemma_wf();
                delta_table::lemma_run_fits(sizes, 0, sizes.len() as int);
                assert(delta_table::prefix(sizes, block_id + 1) == delta_table::prefix(
                    sizes,
                    block_id as int,
                ) + sizes[block_id as int]);
            }
            let block_start: u64 = ed.delta_table.block_start_offset(
                block_id,
                ed.config.block_size,
            );
            let block_end: u64 = block_start + ed.delta_table.block_size(block_id) as u64;
            let inner: u64 = pos - block_start;
            let limit: u64 = goal - block_start;
            let mut j: usize = 0;
            while j < nls.len() && (nls[j] as u64) < inner
                invariant
                    j <= nls@.len(),
                    forall|i: int| 0 <= i < j ==> #[trigger] nls@[i] < inner,
                decreases nls@.len() - j,
            {
                j = j + 1;
            }
            let mut k: usize = j;
            let ghost start_before = line_start;
            while k < nls.len() && (nls[k] as u64) < limit
                invariant
                    j <= k <= nls@.len(),
                    block_start + limit == goal,
                    forall|i: int| j <= i < k ==> #[trigger] nls@[i] < limit,
                    line == (if line_before + (k - j) <= u64::MAX {
                        line_before + (k - j)
                    } else {
                        u64::MAX as int
                    }),
                    line_start <= goal,
                    line_start == (if k == j {
                        start_before as int
                    } else {
                        block_start + nls@[k - 1] + 1
                    }),
                decreases nls@.len() - k,
            {
                line = line.saturating_add(1);
                line_start = block_start + nls[k] as u64 + 1;
                k = k + 1;
            }
            let over = block_end >= goal || block_end <= pos;
            proof {
                assert forall|table: NewlineTable| #[trigger]
                    reads(*old(self), *old(ed), unreadable@, table) implies {
                    let all = newlines(table, sizes);
                    let at = if over {
                        goal
                    } else {
                        block_end
                    };
                    &&& reads(*self, *ed, unreadable@, table)
                    &&& line == count_before(all, at as int)
                    &&& line <= all.len()
                    &&& line_start == start_of(all, ed.file_size as int, line as int)
                } by {
                    lemma_walk(
                        table,
                        sizes,
                        ed.file_size as int,
                        block_id as int,
                        nls@,
                        pos as int,
                        goal as int,
                        j as int,
                        k as int,
                    );
                }
            }
            if over {
                done = true;
            } else {
                pos = block_end;
            }
        }
        let col: u64 = goal - line_start;
        let ghost walked = *self;
        self.remember(line, line_start);
        proof {
            lemma_learned(*old(self), *old(ed), fresh, walked);
            lemma_learned(*old(self), *old(ed), walked, *self);
            assert forall|table: NewlineTable| #[trigger]
                reads(*old(self), *old(ed), unreadable@, table) implies {
                let nls = newlines(table, ed.delta_table.sizes());
                &&& reads(*self, *ed, unreadable@, table)
                &&& line == count_before(nls, goal as int)
                &&& line_start == start_of(nls, ed.file_size as int, line as int)
            } by {
                assert(walked.agrees(*ed, table));
            }
        }
        Fetch::Ready((line, col))
    }
}

impl LineIndex {
    /// Line `line`, or the last line where there are not as many, and where it
    /// starts.
    pub fn line_or_last(&mut self, ed: &mut Editor, line: u64, unreadable: &Vec<BlockId>) -> (r:
        Fetch<(u64, u64)>)
        requires
            old(self).wf(),
            old(ed).wf(),
        ensures
            final(self).wf(),
            final(ed).wf(),
            *final(ed) == (Editor { cache: final(ed).cache, ..*old(ed) }),
            old(ed).cache@.only_asked(final(ed).cache@),
            learned(*old(self), *old(ed), *final(self)),
            r matches Fetch::Missing(id) ==> asks(
                *old(self),
                *old(ed),
                unreadable@,
                id,
                *final(self),
            ),
            forall|table: NewlineTable| #[trigger]
                reads(*old(self), *old(ed), unreadable@, table) ==> {
                    let nls = newlines(table, old(ed).delta_table.sizes());
                    let size = old(ed).file_size as int;
                    &&& reads(*final(self), *final(ed), unreadable@, table)
                    &&& r matches Fetch::Ready((found, start)) ==> {
                        &&& found == (if line <= nls.len() {
                            line as int
                        } else {
                            nls.len() as int
                        })
                        &&& start == start_of(nls, size, found as int)
                    }
                    &&& r matches Fetch::Missing(id) ==> delta_table::prefix(
                        old(ed).delta_table.sizes(),
                        id as int,
                    ) < start_of(nls, size, line as int)
                },
    {
        broadcast use crate::cache::group_asked;

        let start: u64 = match self.line_start(ed, line, unreadable) {
            Fetch::Ready(b) => b,
            Fetch::Missing(id) => {
                return Fetch::Missing(id);
            },
        };
        if start < ed.file_size {
            return Fetch::Ready((line, start));
        }
        proof {
            assert forall|table: NewlineTable| #[trigger]
                reads(*old(self), *old(ed), unreadable@, table) implies {
                let nls = newlines(table, old(ed).delta_table.sizes());
                &&& count_before(nls, ed.file_size as int) == nls.len()
                &&& start == ed.file_size
                &&& start_of(nls, ed.file_size as int, nls.len() as int) <= ed.file_size
            } by {
                let nls = newlines(table, old(ed).delta_table.sizes());
                lemma_reads_in_order(*self, *ed, unreadable@, table);
                lemma_count_before(nls, ed.file_size as int, nls.len() as int);
                if nls.len() > 0 {
                    assert(nls[nls.len() - 1] < ed.file_size);
                }
                if 0 < line <= nls.len() {
                    assert(nls[line - 1] < ed.file_size);
                }
            }
        }
        let (last, _) = match self.offset_to_line(ed, ed.file_size, unreadable) {
            Fetch::Ready(place) => place,
            Fetch::Missing(id) => {
                return Fetch::Missing(id);
            },
        };
        if line <= last {
            return Fetch::Ready((line, start));
        }
        match self.line_start(ed, last, unreadable) {
            Fetch::Ready(b) => Fetch::Ready((last, b)),
            Fetch::Missing(id) => Fetch::Missing(id),
        }
    }
}

/// A walk through block `b` from `pos` up to `offset`, or to the end of the
/// block where that is before: the newlines on the way are the `j`th to the
/// `k`th of the block.
proof fn lemma_walk(
    table: NewlineTable,
    sizes: Seq<i64>,
    file_size: int,
    b: int,
    nls: Seq<u32>,
    pos: int,
    offset: int,
    j: int,
    k: int,
)
    requires
        laid_out(table, sizes),
        forall|i: int| 0 <= i < sizes.len() ==> sizes[i] >= 0,
        0 <= b < sizes.len(),
        nls == table(b as u64),
        delta_table::prefix(sizes, b) <= pos < offset,
        pos < delta_table::prefix(sizes, b + 1),
        0 <= j <= k <= nls.len(),
        forall|i: int| 0 <= i < j ==> #[trigger] nls[i] < pos - delta_table::prefix(sizes, b),
        j < nls.len() ==> nls[j] >= pos - delta_table::prefix(sizes, b),
        forall|i: int| j <= i < k ==> #[trigger] nls[i] < offset - delta_table::prefix(sizes, b),
        k < nls.len() ==> nls[k] >= offset - delta_table::prefix(sizes, b),
        delta_table::total(sizes) <= i64::MAX,
    ensures
        ({
            let all = newlines(table, sizes);
            let end = delta_table::prefix(sizes, b + 1);
            let at = if end >= offset {
                offset
            } else {
                end
            };
            let c = count_before(all, pos);
            &&& count_before(all, at) == c + (k - j)
            &&& c + (k - j) <= all.len() <= i64::MAX
            &&& k > j ==> start_of(all, file_size, c + (k - j)) == delta_table::prefix(sizes, b)
                + nls[k - 1] + 1
        }),
{
    let all = newlines(table, sizes);
    let start = delta_table::prefix(sizes, b);
    let end = delta_table::prefix(sizes, b + 1);
    let at = if end >= offset {
        offset
    } else {
        end
    };
    lemma_step(table, sizes, b, nls, pos, j);
    lemma_newlines_of_block(table, sizes, b);
    let a = newlines_upto(table, sizes, b).len();
    let c = count_before(all, pos);
    assert(end == start + sizes[b]);
    assert(splits_at(all, pos, a + j)) by {
        assert forall|i: int| 0 <= i < a + j implies #[trigger] all[i] < pos by {
            if i >= a {
                assert(all[a + (i - a)] == start + nls[i - a]);
            }
        }
        assert forall|i: int| a + j <= i < all.len() implies #[trigger] all[i] >= pos by {
            if i < a + nls.len() {
                assert(all[a + (i - a)] == start + nls[i - a]);
                if i > a + j {
                    assert(nls[j] < nls[i - a]);
                }
            }
        }
    }
    lemma_count_before(all, pos, a + j);
    assert(splits_at(all, at, a + k)) by {
        assert forall|i: int| 0 <= i < a + k implies #[trigger] all[i] < at by {
            if i >= a {
                assert(all[a + (i - a)] == start + nls[i - a]);
                assert(nls[i - a] < sizes[b]);
                if i - a >= j {
                    assert(nls[i - a] < offset - start);
                }
            }
        }
        assert forall|i: int| a + k <= i < all.len() implies #[trigger] all[i] >= at by {
            if i < a + nls.len() {
                assert(all[a + (i - a)] == start + nls[i - a]);
                if i > a + k {
                    assert(nls[k] < nls[i - a]);
                }
            }
        }
    }
    lemma_count_before(all, at, a + k);
    if k > j {
        assert(all[a + (k - 1)] == start + nls[k - 1]);
    }
}

/// Line numbers and offsets go together: the start of a line is in that line,
/// and every offset is in the line that starts last at or before it.
pub proof fn law_lines_and_offsets_agree(nls: Seq<int>, file_size: int, line: int, offset: int)
    requires
        in_order(nls, file_size),
        0 <= line <= nls.len(),
        0 <= offset <= file_size,
    ensures
        count_before(nls, start_of(nls, file_size, line)) == line,
        start_of(nls, file_size, count_before(nls, offset)) <= offset,
        count_before(nls, offset) < nls.len() ==> offset < start_of(
            nls,
            file_size,
            count_before(nls, offset) + 1,
        ),
{
    lemma_start_of(nls, file_size, line);
    lemma_line_of(nls, file_size, offset);
}

/// A line further on does not start before.
pub proof fn lemma_starts_in_order(nls: Seq<int>, file_size: int, a: int, b: int)
    requires
        in_order(nls, file_size),
        0 <= file_size,
        a <= b,
    ensures
        0 <= start_of(nls, file_size, a) <= start_of(nls, file_size, b) <= file_size,
{
    if 0 < a <= nls.len() {
        assert(0 <= nls[a - 1] < file_size);
    }
    if 0 < b <= nls.len() {
        assert(0 <= nls[b - 1] < file_size);
        if 0 < a < b {
            assert(nls[a - 1] < nls[b - 1]);
        }
    }
}

/// The question at index `k` asked for block `ids[k]`, which was loaded before the
/// next question, of the same document. `indexes[k]` is the index before that
/// question, and `indexes[k + 1]` after it.
pub open spec fn asked_in_turn(
    indexes: Seq<LineIndex>,
    eds: Seq<Editor>,
    unreadable: Seq<BlockId>,
    ids: Seq<BlockId>,
    k: int,
) -> bool {
    &&& learned(indexes[k], eds[k], indexes[k + 1])
    &&& asks(indexes[k], eds[k], unreadable, ids[k], indexes[k + 1])
    &&& eds[k + 1].cache@.has(ids[k])
    &&& eds[k + 1].edit_epoch == eds[k].edit_epoch
    &&& eds[k + 1].block_count == eds[k].block_count
}

/// Asking comes to an end: while the document is not edited and every block that
/// is asked for is loaded before the next question, no block is asked for twice,
/// so that there are at most as many requests as blocks.
pub proof fn law_asking_comes_to_an_end(
    indexes: Seq<LineIndex>,
    eds: Seq<Editor>,
    unreadable: Seq<BlockId>,
    ids: Seq<BlockId>,
)
    requires
        forall|k: int| 0 <= k < ids.len() ==> #[trigger] asked_in_turn(
            indexes,
            eds,
            unreadable,
            ids,
            k,
        ),
    ensures
        ids.no_duplicates(),
        ids.len() <= eds[0].block_count,
{
    let e = eds[0].edit_epoch;
    let count = eds[0].block_count;
    assert forall|k: int| 0 <= k < ids.len() implies #[trigger] ids[k] < count by {
        assert(asked_in_turn(indexes, eds, unreadable, ids, k));
        lemma_same_document(indexes, eds, unreadable, ids, k);
    }
    assert forall|i: int, j: int| 0 <= i < j < ids.len() implies ids[i] != ids[j] by {
        assert(asked_in_turn(indexes, eds, unreadable, ids, i));
        assert(asked_in_turn(indexes, eds, unreadable, ids, j));
        lemma_same_document(indexes, eds, unreadable, ids, j);
        if j > i + 1 {
            lemma_asked_is_known(indexes, eds, unreadable, ids, i, j);
        }
    }
    lemma_distinct_below(ids, count as nat);
}

proof fn lemma_same_document(
    indexes: Seq<LineIndex>,
    eds: Seq<Editor>,
    unreadable: Seq<BlockId>,
    ids: Seq<BlockId>,
    k: int,
)
    requires
        forall|k: int| 0 <= k < ids.len() ==> #[trigger] asked_in_turn(
            indexes,
            eds,
            unreadable,
            ids,
            k,
        ),
        0 <= k <= ids.len(),
    ensures
        eds[k].edit_epoch == eds[0].edit_epoch,
        eds[k].block_count == eds[0].block_count,
    decreases k,
{
    if k > 0 {
        lemma_same_document(indexes, eds, unreadable, ids, k - 1);
        assert(asked_in_turn(indexes, eds, unreadable, ids, k - 1));
    }
}

/// A block that was asked for is known from the next question on.
proof fn lemma_asked_is_known(
    indexes: Seq<LineIndex>,
    eds: Seq<Editor>,
    unreadable: Seq<BlockId>,
    ids: Seq<BlockId>,
    i: int,
    j: int,
)
    requires
        forall|k: int| 0 <= k < ids.len() ==> #[trigger] asked_in_turn(
            indexes,
            eds,
            unreadable,
            ids,
            k,
        ),
        0 <= i,
        i + 2 <= j <= ids.len(),
    ensures
        indexes[j].scanned(eds[0].edit_epoch, ids[i]),
    decreases j,
{
    let e = eds[0].edit_epoch;
    assert(asked_in_turn(indexes, eds, unreadable, ids, j - 1));
    lemma_same_document(indexes, eds, unreadable, ids, j - 1);
    if j == i + 2 {
        assert(asked_in_turn(indexes, eds, unreadable, ids, i));
        lemma_same_document(indexes, eds, unreadable, ids, i);
        assert(indexes[i + 1].awaits(e, ids[i]));
    } else {
        lemma_asked_is_known(indexes, eds, unreadable, ids, i, j - 1);
        assert(indexes[j - 1].scanned(e, ids[i]));
    }
}

/// There are at most `n` different numbers below `n`.
proof fn lemma_distinct_below(ids: Seq<BlockId>, n: nat)
    requires
        ids.no_duplicates(),
        forall|k: int| 0 <= k < ids.len() ==> #[trigger] ids[k] < n,
    ensures
        ids.len() <= n,
{
    let below = Set::new(|i: int| 0 <= i < n);
    let numbers = ids.map_values(|id: BlockId| id as int);
    assert(numbers.no_duplicates()) by {
        assert forall|i: int, j: int|
            0 <= i < numbers.len() && 0 <= j < numbers.len() && i != j implies numbers[i]
            != numbers[j] by {
            assert(ids[i] != ids[j]);
        }
    }
    numbers.unique_seq_to_set();
    vstd::set_lib::lemma_int_range(0, n as int);
    assert(vstd::set_lib::set_int_range(0, n as int) =~= below);
    assert(numbers.to_set().subset_of(below)) by {
        assert forall|x: int| numbers.to_set().contains(x) implies below.contains(x) by {
            let k = choose|k: int| 0 <= k < numbers.len() && numbers[k] == x;
            assert(ids[k] < n);
        }
    }
    vstd::set_lib::lemma_len_subset(numbers.to_set(), below);
}

/// Where in `s` the newlines are.
pub open spec fn newline_places(s: Seq<u8>) -> Seq<int>
    decreases s.len(),
{
    if s.len() == 0 {
        Seq::empty()
    } else if s.last() == 10u8 {
        newline_places(s.drop_last()).push(s.len() - 1)
    } else {
        newline_places(s.drop_last())
    }
}

/// The newlines of each block of the document over the file `base` on disk.
pub open spec fn table_of(ed: Editor, base: Seq<u8>) -> NewlineTable {
    |id: BlockId| positions(content::bytes_of(ed.cache@, base, ed.block_size(), id))
}

proof fn lemma_positions(bytes: Seq<u8>)
    requires
        bytes.len() <= u32::MAX,
    ensures
        positions(bytes).len() == newline_places(bytes).len(),
        forall|i: int|
            0 <= i < positions(bytes).len() ==> #[trigger] positions(bytes)[i] == newline_places(
                bytes,
            )[i],
        forall|i: int| 0 <= i < positions(bytes).len() ==> #[trigger] positions(bytes)[i] < bytes.len(),
        forall|i: int, j: int|
            0 <= i < j < positions(bytes).len() ==> positions(bytes)[i] < positions(bytes)[j],
    decreases bytes.len(),
{
    if bytes.len() > 0 {
        lemma_positions(bytes.drop_last());
    }
}

pub proof fn lemma_places_append(a: Seq<u8>, b: Seq<u8>)
    ensures
        newline_places(a + b) == newline_places(a) + newline_places(b).map_values(
            |p: int| a.len() + p,
        ),
    decreases b.len(),
{
    let by = |p: int| a.len() + p;
    if b.len() == 0 {
        assert(a + b =~= a);
        assert(newline_places(a) + newline_places(b).map_values(by) =~= newline_places(a));
    } else {
        assert((a + b).drop_last() =~= a + b.drop_last());
        lemma_places_append(a, b.drop_last());
        assert(newline_places(a + b) =~= newline_places(a) + newline_places(b).map_values(by));
    }
}

proof fn lemma_newlines_joined(ed: Editor, base: Seq<u8>, k: int)
    requires
        ed.wf(),
        ed.consistent(base),
        forall|i: int|
            0 <= i < ed.block_count ==> #[trigger] ed.blocks(base)[i].len() <= u32::MAX,
        0 <= k <= ed.block_count,
    ensures
        newlines_upto(table_of(ed, base), ed.delta_table.sizes(), k) == newline_places(
            content::joined(ed.blocks(base).subrange(0, k)),
        ),
    decreases k,
{
    let sizes = ed.delta_table.sizes();
    let blocks = ed.blocks(base);
    let table = table_of(ed, base);
    if k > 0 {
        lemma_newlines_joined(ed, base, k - 1);
        let part = blocks.subrange(0, k);
        let before = blocks.subrange(0, k - 1);
        assert(part.drop_last() =~= before);
        assert(blocks[k - 1].len() <= u32::MAX);
        lemma_positions(blocks[k - 1]);
        lemma_places_append(content::joined(before), blocks[k - 1]);
        content::lemma_prefix_is_length(sizes, blocks, k - 1);
        assert(table((k - 1) as u64) == positions(blocks[k - 1]));
        assert(moved(table((k - 1) as u64), delta_table::prefix(sizes, k - 1)) =~= newline_places(
            blocks[k - 1],
        ).map_values(|p: int| content::joined(before).len() + p));
    } else {
        assert(blocks.subrange(0, 0) =~= Seq::<Seq<u8>>::empty());
    }
}

/// The lines are those of the document: where the recorded sizes are right, no
/// block is so large that a place in it is out of range, and every block can
/// be read, the newlines that line numbers go by are the newlines of the
/// document.
pub proof fn law_lines_follow_document(ed: Editor, base: Seq<u8>, unreadable: Seq<BlockId>)
    requires
        ed.wf(),
        ed.consistent(base),
        forall|i: int|
            0 <= i < ed.block_count ==> #[trigger] ed.blocks(base)[i].len() <= u32::MAX,
        unreadable.len() == 0,
    ensures
        newlines(table_of(ed, base), ed.delta_table.sizes()) == newline_places(ed.content(base)),
        laid_out(table_of(ed, base), ed.delta_table.sizes()),
        shows(ed, unreadable, table_of(ed, base)),
{
    let table = table_of(ed, base);
    let sizes = ed.delta_table.sizes();
    let blocks = ed.blocks(base);
    lemma_newlines_joined(ed, base, ed.block_count as int);
    assert(blocks.subrange(0, ed.block_count as int) =~= blocks);
    assert forall|id: int, k: int|
        0 <= id < sizes.len() && 0 <= k < table(id as u64).len() implies {
        &&& #[trigger] table(id as u64)[k] < sizes[id]
        &&& k > 0 ==> table(id as u64)[k - 1] < table(id as u64)[k]
    } by {
        assert(blocks[id].len() <= u32::MAX);
        assert(table(id as u64) == positions(blocks[id]));
        assert(sizes[id] == blocks[id].len());
        lemma_positions(blocks[id]);
    }
}

/// Newlines are within the bytes that they are of.
pub proof fn lemma_places_within(s: Seq<u8>)
    ensures
        forall|i: int| 0 <= i < newline_places(s).len() ==> 0 <= #[trigger] newline_places(s)[i]
            < s.len(),
    decreases s.len(),
{
    if s.len() > 0 {
        let front = newline_places(s.drop_last());
        lemma_places_within(s.drop_last());
        assert forall|i: int| 0 <= i < newline_places(s).len() implies 0
            <= #[trigger] newline_places(s)[i] < s.len() by {
            if i < front.len() {
                assert(newline_places(s)[i] == front[i]);
            }
        }
    }
}

/// The line and the column of an offset are those of the document: the line is
/// the number of newlines before it, and the column how far it is behind the last
/// of them. An offset behind the end is taken for the end.
pub proof fn law_line_and_column_follow_document(ed: Editor, base: Seq<u8>, offset: int)
    requires
        ed.wf(),
        ed.consistent(base),
        forall|i: int|
            0 <= i < ed.block_count ==> #[trigger] ed.blocks(base)[i].len() <= u32::MAX,
        offset >= 0,
    ensures
        ({
            let at = if offset < ed.file_size {
                offset
            } else {
                ed.file_size as int
            };
            let nls = newlines(table_of(ed, base), ed.delta_table.sizes());
            let before = newline_places(ed.content(base).take(at));
            let line = count_before(nls, at);
            &&& line == before.len()
            &&& line < nls.len() + 1
            &&& start_of(nls, ed.file_size as int, line) == (if before.len() == 0 {
                0
            } else {
                before.last() + 1
            })
            &&& start_of(nls, ed.file_size as int, line) <= at
        }),
{
    let at = if offset < ed.file_size {
        offset
    } else {
        ed.file_size as int
    };
    let doc = ed.content(base);
    let none: Seq<BlockId> = Seq::empty();
    law_lines_follow_document(ed, base, none);
    crate::edit_laws::lemma_content_length(ed, base);
    let head = doc.take(at);
    let tail = doc.skip(at);
    assert(head + tail =~= doc);
    lemma_places_append(head, tail);
    lemma_places_within(head);
    lemma_places_within(tail);
    let nls = newline_places(doc);
    let before = newline_places(head);
    assert(splits_at(nls, at, before.len() as int)) by {
        assert forall|i: int| 0 <= i < before.len() implies #[trigger] nls[i] < at by {
            assert(nls[i] == before[i]);
        }
        assert forall|i: int| before.len() <= i < nls.len() implies #[trigger] nls[i] >= at by {
            assert(nls[i] == at + newline_places(tail)[i - before.len()]);
        }
    }
    lemma_count_before(nls, at, before.len() as int);
    if before.len() > 0 {
        assert(nls[before.len() - 1] == before.last());
    }
}

/// An index that knows nothing of the document yet goes by its newlines, whatever is
/// in the cache, where the recorded sizes are right, no block is so large that a
/// place in it is out of range, and every block can be read.
pub proof fn law_index_goes_by_document(
    index: LineIndex,
    ed: Editor,
    base: Seq<u8>,
    unreadable: Seq<BlockId>,
)
    requires
        index.agrees(ed, table_of(ed, base)),
        ed.wf(),
        ed.consistent(base),
        forall|i: int|
            0 <= i < ed.block_count ==> #[trigger] ed.blocks(base)[i].len() <= u32::MAX,
        unreadable.len() == 0,
    ensures
        reads(index, ed, unreadable, table_of(ed, base)),
        newlines(table_of(ed, base), ed.delta_table.sizes()) == newline_places(ed.content(base)),
{
    law_lines_follow_document(ed, base, unreadable);
}

/// What is known of a document does not count once it was edited: an index that
/// knows a block or a line as of one edit goes by whatever the document holds after
/// another.
pub proof fn law_edited_document_is_read_anew(
    index: LineIndex,
    epoch: u64,
    id: BlockId,
    line: u64,
    ed: Editor,
    table: NewlineTable,
)
    requires
        index.scanned(epoch, id) || index.knows_line(epoch, line),
        ed.edit_epoch != epoch,
    ensures
        index.agrees(ed, table),
        !index.scanned(ed.edit_epoch, id),
        !index.knows_line(ed.edit_epoch, line),
{
}

} // verus!
