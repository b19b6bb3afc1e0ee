//! What the log gives back should the program end unexpectedly: a document that
//! was saved is the same when it is opened again.

use crate::block::{BlockId, BlockModel};
use crate::cache;
use crate::cache::CacheModel;
use crate::content;
use crate::delta_table;
use crate::edit_laws;
use crate::editor;
use crate::editor::{Editor, Step, UndoEntry};
use crate::error::EditError;
use crate::io_worker;
use crate::layout;
use crate::wal;
use vstd::prelude::*;

verus! {

/// Block `id` is in the log or on its way there.
pub open spec fn noted(c: CacheModel, id: BlockId) -> bool {
    ||| c.has(id) && c.blocks[id].unsaved()
    ||| content::latest(c.evicted, id) is Some
    ||| layout::log_of(c).dom().contains(id)
}

/// Of a document of `count` blocks nothing is found behind the last block, and
/// every block that the file `base` does not have is noted.
pub open spec fn accounted(c: CacheModel, count: int, base: Seq<u8>, block_size: nat) -> bool {
    &&& forall|id: BlockId|
        id >= count ==> (#[trigger] content::bytes_of(c, base, block_size, id)).len() == 0
    &&& forall|id: BlockId|
        io_worker::block_count_of(base.len(), block_size) <= id < count ==> #[trigger] noted(c, id)
}

impl Editor {
    /// Once it is saved, the document can be opened again over the file `base`
    /// from its log.
    pub open spec fn recoverable(&self, base: Seq<u8>) -> bool {
        accounted(self.cache@, self.block_count as int, base, self.block_size())
    }
}

/// A request for a block changes nothing.
proof fn lemma_touched_accounted(
    c: CacheModel,
    b: BlockId,
    count: int,
    base: Seq<u8>,
    block_size: nat,
)
    requires
        accounted(c, count, base, block_size),
    ensures
        accounted(c.touched(b), count, base, block_size),
{
    let d = c.touched(b);
    assert forall|id: BlockId| id >= count implies (#[trigger] content::bytes_of(
        d,
        base,
        block_size,
        id,
    )).len() == 0 by {
        assert(content::bytes_of(c, base, block_size, id).len() == 0);
    }
    assert forall|id: BlockId|
        io_worker::block_count_of(base.len(), block_size) <= id < count implies #[trigger] noted(
        d,
        id,
    ) by {
        assert(noted(c, id));
    }
}

/// An edit of a block, which may be a new last one, or of one behind the last
/// that it leaves empty.
proof fn lemma_edited_accounted(
    c: CacheModel,
    b: BlockId,
    bytes: Seq<u8>,
    count: int,
    later: int,
    base: Seq<u8>,
    block_size: nat,
)
    requires
        accounted(c, count, base, block_size),
        c.has(b),
        later == count || (later == count + 1 && b == count) || (later == count - 1 && b == later),
        b < later || bytes.len() == 0,
    ensures
        accounted(c.edited(b, bytes), later, base, block_size),
{
    let d = c.edited(b, bytes);
    assert forall|id: BlockId| id >= later implies (#[trigger] content::bytes_of(
        d,
        base,
        block_size,
        id,
    )).len() == 0 by {
        content::lemma_edited_bytes(c, b, bytes, base, block_size, id);
        if id != b {
            assert(content::bytes_of(c, base, block_size, id).len() == 0);
        }
    }
    assert forall|id: BlockId|
        io_worker::block_count_of(base.len(), block_size) <= id < later implies #[trigger] noted(
        d,
        id,
    ) by {
        content::lemma_edited_bytes(c, b, bytes, base, block_size, id);
        if id != b {
            assert(noted(c, id));
        }
    }
}

/// A block that has to go stays noted.
proof fn lemma_room_noted(c: CacheModel, id: BlockId)
    requires
        noted(c, id),
    ensures
        noted(c.make_room(), id),
    decreases c.lru.len(),
{
    if c.blocks.len() >= c.capacity && c.lru.len() > 0 {
        let v = c.lru.last();
        let rest = CacheModel { lru: c.lru.drop_last(), ..c };
        assert(noted(rest, id));
        if c.pinned.dom().contains(v) || !c.has(v) {
            lemma_room_noted(rest, id);
        } else {
            let gone = rest.evict(v);
            if c.blocks[v].unsaved() {
                assert(gone.evicted.drop_last() =~= c.evicted);
                assert(gone.evicted.last() == (v, c.blocks[v].bytes));
            }
            assert(noted(gone, id));
            lemma_room_noted(gone, id);
        }
    }
}

/// A block that arrives keeps the others noted.
proof fn lemma_loaded_noted(c: CacheModel, new: BlockId, b: BlockModel, id: BlockId)
    requires
        noted(c, id),
        id != new,
    ensures
        noted(c.loaded(new, b), id),
{
    let served = CacheModel { pending: c.pending.remove(new), ..c };
    assert(noted(served, id));
    if !c.has(new) {
        lemma_room_noted(served, id);
        assert(noted(served.make_room(), id));
    }
}

/// A block that was cut off becomes the last one.
proof fn lemma_cut_off_accounted(
    c: CacheModel,
    new: BlockId,
    bytes: Seq<u8>,
    base: Seq<u8>,
    block_size: nat,
)
    requires
        accounted(c, new as int, base, block_size),
        content::safe(c, base, block_size),
    ensures
        accounted(c.loaded(new, BlockModel::cut_off(bytes)), new + 1, base, block_size),
{
    let b = BlockModel::cut_off(bytes);
    let d = c.loaded(new, b);
    c.lemma_loaded(new, b);
    assert forall|id: BlockId| id >= new + 1 implies (#[trigger] content::bytes_of(
        d,
        base,
        block_size,
        id,
    )).len() == 0 by {
        content::lemma_loaded_keeps(c, new, b, base, block_size, id);
        assert(content::bytes_of(c, base, block_size, id).len() == 0);
    }
    assert forall|id: BlockId|
        io_worker::block_count_of(base.len(), block_size) <= id < new + 1 implies #[trigger] noted(
        d,
        id,
    ) by {
        if id != new {
            assert(noted(c, id));
            lemma_loaded_noted(c, new, b, id);
        }
    }
}

/// A block that is read as it is stored changes nothing, whichever blocks have
/// to go for it.
pub proof fn law_load_stays_recoverable(
    before: Editor,
    id: BlockId,
    bytes: Seq<u8>,
    after: Editor,
    base: Seq<u8>,
)
    requires
        before.recoverable(base),
        before.safe(base),
        !before.cache@.has(id),
        bytes == content::stored(before.cache@, base, before.block_size(), id),
        after == (Editor { cache: after.cache, ..before }),
        after.cache@ == before.cache@.loaded(id, BlockModel::clean(bytes)),
    ensures
        after.recoverable(base),
{
    let c = before.cache@;
    let b = BlockModel::clean(bytes);
    let bs = before.block_size();
    let d = after.cache@;
    assert forall|k: BlockId| k >= before.block_count implies (#[trigger] content::bytes_of(
        d,
        base,
        bs,
        k,
    )).len() == 0 by {
        content::lemma_loaded_keeps(c, id, b, base, bs, k);
        assert(content::bytes_of(c, base, bs, k).len() == 0);
    }
    assert forall|k: BlockId|
        io_worker::block_count_of(base.len(), bs) <= k
            < before.block_count implies #[trigger] noted(d, k) by {
        assert(noted(c, k));
        if k != id {
            lemma_loaded_noted(c, id, b, k);
        } else {
            let served = CacheModel { pending: c.pending.remove(id), ..c };
            assert(noted(served, id));
            lemma_room_noted(served, id);
            assert(noted(served.make_room(), id));
            served.lemma_make_room();
            assert(!served.make_room().has(id));
        }
    }
}

/// An insertion keeps the document recoverable.
pub proof fn law_insert_stays_recoverable(
    before: Editor,
    bytes: Seq<u8>,
    after: Editor,
    base: Seq<u8>,
)
    requires
        before.wf(),
        before.editable(bytes.len() as int),
        before.consistent(base),
        before.safe(base),
        before.recoverable(base),
        before.cursor_byte <= before.file_size,
        before.cache_to_edit().has(before.cursor_block()),
        editor::inserted(before, bytes, after),
    ensures
        after.recoverable(base),
{
    let bs = before.block_size();
    let b = before.cursor_block();
    let c = before.cache_to_edit();
    let count = before.block_count as int;
    let all = before.sizes_to_edit().len() as int;
    let spliced = crate::block::spliced_in(c.blocks[b].bytes, before.cursor_inner() as int, bytes);
    let c2 = before.cache_with(bytes);
    edit_laws::lemma_editable_place(before, base);
    if before.fresh() {
        let first = BlockModel::clean(Seq::empty());
        assert forall|id: BlockId| id >= count implies (#[trigger] content::bytes_of(
            c,
            base,
            bs,
            id,
        )).len() == 0 by {
            content::lemma_loaded_keeps(before.cache@, 0, first, base, bs, id);
            assert(content::bytes_of(before.cache@, base, bs, id).len() == 0);
        }
    }
    lemma_touched_accounted(c, b, count, base, bs);
    lemma_edited_accounted(c.touched(b), b, spliced, count, all, base, bs);
    assert(content::safe(c2, base, bs)) by {
        if before.fresh() {
            edit_laws::lemma_first_edit_safe(before.cache@, spliced, base, bs);
        } else {
            content::lemma_touched_safe(c, b, base, bs);
            content::lemma_edited_safe(c.touched(b), b, spliced, base, bs);
        }
    }
    lemma_touched_accounted(c2, b, all, base, bs);
    content::lemma_touched_safe(c2, b, base, bs);
    if before.split_with(bytes) is Some {
        let whole = c2.blocks[b].bytes;
        let left = whole.subrange(0, whole.len() as int / 2);
        let tail = whole.subrange(whole.len() as int / 2, whole.len() as int);
        lemma_edited_accounted(c2.touched(b), b, left, all, all, base, bs);
        content::lemma_edited_safe(c2.touched(b), b, left, base, bs);
        lemma_cut_off_accounted(editor::halved(c2, b), (b + 1) as u64, tail, base, bs);
    }
}

/// So does the join of the last two blocks.
proof fn lemma_fused_accounted(
    c: CacheModel,
    left: BlockId,
    count: int,
    base: Seq<u8>,
    block_size: nat,
)
    requires
        accounted(c, count, base, block_size),
        left + 2 == count,
        count <= u64::MAX,
        c.has(left),
        c.has((left + 1) as u64),
    ensures
        accounted(editor::fused(c, left), count - 1, base, block_size),
{
    let right = (left + 1) as u64;
    let cut = c.edited(right, Seq::empty());
    lemma_edited_accounted(c, right, Seq::empty(), count, count - 1, base, block_size);
    content::lemma_edited_bytes(c, right, Seq::empty(), base, block_size, left);
    lemma_edited_accounted(
        cut,
        left,
        c.blocks[left].bytes + c.blocks[right].bytes,
        count - 1,
        count - 1,
        base,
        block_size,
    );
}

/// A deletion keeps the document recoverable.
pub proof fn law_delete_stays_recoverable(before: Editor, n: int, after: Editor, base: Seq<u8>)
    requires
        before.wf(),
        before.recoverable(base),
        before.cache@.has(before.cursor_block()),
        before.cursor_block() < before.block_count,
        editor::deleted(before, n, after),
    ensures
        after.recoverable(base),
{
    let bs = before.block_size();
    let b = before.cursor_block();
    let inner = before.cursor_inner();
    let count = before.block_count as int;
    let one = before.cache@.touched(b);
    let two = one.touched(b);
    lemma_touched_accounted(before.cache@, b, count, base, bs);
    lemma_touched_accounted(one, b, count, base, bs);
    let asked = match before.partner_without(n) {
        Some(o) => two.touched(o),
        None => two,
    };
    if let Some(o) = before.partner_without(n) {
        lemma_touched_accounted(two, o, count, base, bs);
    }
    let cut = crate::block::spliced_out(before.cache@.blocks[b].bytes, inner as int, inner + n);
    lemma_edited_accounted(asked, b, cut, count, count, base, bs);
    edit_laws::lemma_merge_place(before, n);
    if let Some((right, _)) = before.merge_without(n) {
        lemma_fused_accounted(before.cache_without(n), (right - 1) as u64, count, base, bs);
    }
}

/// Cutting the last block in two makes the second half the last one.
proof fn lemma_split_accounted(
    c: CacheModel,
    b: BlockId,
    at: int,
    count: int,
    base: Seq<u8>,
    block_size: nat,
)
    requires
        accounted(c, count, base, block_size),
        c.has(b),
        b + 1 == count,
        count <= u64::MAX,
    ensures
        accounted(c.split(b, at), count + 1, base, block_size),
{
    let d = c.split(b, at);
    assert forall|id: BlockId| id >= count + 1 implies (#[trigger] content::bytes_of(
        d,
        base,
        block_size,
        id,
    )).len() == 0 by {
        assert(content::bytes_of(c, base, block_size, id).len() == 0);
    }
    assert forall|id: BlockId|
        io_worker::block_count_of(base.len(), block_size) <= id < count
            + 1 implies #[trigger] noted(d, id) by {
        if id < b {
            assert(noted(c, id));
        }
    }
}

/// Joining the halves of a split leaves nothing in the place of the second.
proof fn lemma_unsplit_accounted(
    c: CacheModel,
    b: BlockId,
    right: BlockId,
    base: Seq<u8>,
    block_size: nat,
)
    requires
        accounted(c, right + 1, base, block_size),
        c.has(b),
        b + 1 == right,
    ensures
        accounted(c.merge(b, right).vacated(right), right as int, base, block_size),
{
    let d = c.merge(b, right).vacated(right);
    assert forall|id: BlockId| id >= right implies (#[trigger] content::bytes_of(
        d,
        base,
        block_size,
        id,
    )).len() == 0 by {
        if id > right {
            assert(content::bytes_of(c, base, block_size, id).len() == 0);
        }
    }
    assert forall|id: BlockId|
        io_worker::block_count_of(base.len(), block_size) <= id < right implies #[trigger] noted(
        d,
        id,
    ) by {
        assert(noted(c, id));
    }
}

/// Whatever comes of undoing the last edit, the document stays recoverable.
pub proof fn law_undo_stays_recoverable(
    before: Editor,
    unreadable: Option<BlockId>,
    step: Step<Result<(), EditError>>,
    after: Editor,
    base: Seq<u8>,
)
    requires
        before.wf(),
        before.recoverable(base),
        editor::undo_outcome(before, unreadable, step, after),
    ensures
        after.recoverable(base),
{
    let bs = before.block_size();
    let c = before.cache@;
    let count = before.block_count as int;
    let e = before.undo_stack@.last();
    if step != Step::Done(Ok::<(), EditError>(())) {
        assert forall|b: BlockId| accounted(#[trigger] c.touched(b), count, base, bs) by {
            lemma_touched_accounted(c, b, count, base, bs);
        }
    } else {
        match e {
            UndoEntry::InsertBytes { block_id: b, inner_pos, bytes, split, .. } => {
                let (joined, _, _, later) = before.unsplit(b, split);
                if let Some((right, _)) = split {
                    lemma_unsplit_accounted(c, b, right, base, bs);
                }
                lemma_touched_accounted(joined, b, later, base, bs);
                lemma_edited_accounted(
                    joined.touched(b),
                    b,
                    editor::without_run(
                        joined.blocks[b].bytes,
                        inner_pos as int,
                        bytes@.len() as int,
                    ),
                    later,
                    later,
                    base,
                    bs,
                );
            },
            UndoEntry::DeleteBytes { block_id: b, inner_pos, bytes, merge, .. } => {
                let home = Editor::home_of(b, merge);
                let (apart, _, _, later) = before.unmerged(b, merge);
                lemma_touched_accounted(c, home, count, base, bs);
                if let Some((_, at)) = merge {
                    lemma_split_accounted(c.touched(home), home, at as int, count, base, bs);
                }
                lemma_edited_accounted(
                    apart,
                    b,
                    crate::block::spliced_in(apart.blocks[b].bytes, inner_pos as int, bytes@),
                    later,
                    later,
                    base,
                    bs,
                );
            },
        }
    }
}

/// Whatever comes of redoing the last edit that was undone, the document stays
/// recoverable.
pub proof fn law_redo_stays_recoverable(
    before: Editor,
    unreadable: Option<BlockId>,
    step: Step<Result<(), EditError>>,
    after: Editor,
    base: Seq<u8>,
)
    requires
        before.wf(),
        before.recoverable(base),
        editor::redo_outcome(before, unreadable, step, after),
    ensures
        after.recoverable(base),
{
    let bs = before.block_size();
    let c = before.cache@;
    let count = before.block_count as int;
    let e = before.redo_stack@.last();
    if step != Step::Done(Ok::<(), EditError>(())) {
        assert forall|b: BlockId| accounted(#[trigger] c.touched(b), count, base, bs) by {
            lemma_touched_accounted(c, b, count, base, bs);
        }
        assert forall|b: BlockId, o: BlockId|
            accounted(#[trigger] c.touched(b).touched(o), count, base, bs) by {
            lemma_touched_accounted(c.touched(b), o, count, base, bs);
        }
    } else {
        match e {
            UndoEntry::InsertBytes { block_id: b, inner_pos, bytes, split, .. } => {
                let spliced = crate::block::spliced_in(c.blocks[b].bytes, inner_pos as int, bytes@);
                let filled = c.touched(b).edited(b, spliced);
                lemma_touched_accounted(c, b, count, base, bs);
                lemma_edited_accounted(c.touched(b), b, spliced, count, count, base, bs);
                content::lemma_edited_bytes(c.touched(b), b, spliced, base, bs, b);
                if let Some((_, at)) = split {
                    lemma_split_accounted(filled, b, at as int, count, base, bs);
                }
            },
            UndoEntry::DeleteBytes { block_id: b, inner_pos, bytes, merge, .. } => {
                let asked = editor::asked_again(c, e);
                let rest = editor::without_run(
                    c.blocks[b].bytes,
                    inner_pos as int,
                    bytes@.len() as int,
                );
                let cut = asked.edited(b, rest);
                let sizes = before.delta_table.sizes();
                let shrunk = sizes.update(b as int, (sizes[b as int] - bytes@.len()) as i64);
                lemma_touched_accounted(c, b, count, base, bs);
                if let Some(o) = editor::other_of(b, merge) {
                    lemma_touched_accounted(c.touched(b), o, count, base, bs);
                }
                lemma_edited_accounted(asked, b, rest, count, count, base, bs);
                if let Some((right, _)) = editor::merge_again(cut, shrunk, merge) {
                    lemma_fused_accounted(cut, (right - 1) as u64, count, base, bs);
                }
            },
        }
    }
}

/// A document that was opened without a log is recoverable.
pub proof fn law_open_is_recoverable(ed: Editor, base: Seq<u8>)
    requires
        ed.wf(),
        ed.config.block_size > 0,
        layout::log_of(ed.cache@).dom().is_empty(),
        layout::opened(
            layout::log_of(ed.cache@),
            base.len(),
            ed.block_size(),
            ed.delta_table.sizes(),
        ),
        ed.cache@.blocks == Map::<BlockId, BlockModel>::empty(),
        ed.cache@.evicted == Seq::<(BlockId, Seq<u8>)>::empty(),
    ensures
        ed.recoverable(base),
{
    let bs = ed.block_size();
    let n = io_worker::block_count_of(base.len(), bs);
    let log = layout::log_of(ed.cache@);
    io_worker::lemma_block_count(base.len(), bs);
    if ed.block_count > n {
        assert(log.dom().contains(n as int as u64));
    }
    assert forall|id: BlockId| id >= ed.block_count implies (#[trigger] content::bytes_of(
        ed.cache@,
        base,
        bs,
        id,
    )).len() == 0 by {
        assert(!ed.cache@.has(id));
        assert(!log.dom().contains(id));
        assert(n * bs <= id * bs) by (nonlinear_arith)
            requires
                n <= id,
        ;
    }
}

/// The log once blocks that had to go were appended to it.
proof fn lemma_appended(
    log: Map<BlockId, Seq<u8>>,
    entries: Seq<(BlockId, Vec<u8>)>,
    id: BlockId,
)
    ensures
        ({
            let later = wal::with_entries(log, entries);
            match content::latest(cache::entries_view(entries), id) {
                Some(bytes) => later.dom().contains(id) && later[id] == bytes,
                None => {
                    &&& later.dom().contains(id) == log.dom().contains(id)
                    &&& log.dom().contains(id) ==> later[id] == log[id]
                },
            }
        }),
    decreases entries.len(),
{
    if entries.len() > 0 {
        lemma_appended(log, entries.drop_last(), id);
        let views = cache::entries_view(entries);
        assert(views.drop_last() =~= cache::entries_view(entries.drop_last()));
        assert(views.last() == (entries.last().0, entries.last().1@));
    }
}

/// Blocks that had to go are as they were once they are in the log: the document
/// holds the same, no block without edits would be lost, and it is recoverable.
pub proof fn law_evicted_edits_are_kept(
    before: Editor,
    entries: Seq<(BlockId, Vec<u8>)>,
    after: Editor,
    base: Seq<u8>,
)
    requires
        before.recoverable(base),
        before.safe(base),
        before.cache@.wal is Some,
        cache::entries_view(entries) == before.cache@.evicted,
        after == (Editor { cache: after.cache, ..before }),
        after.cache@ == (CacheModel {
            evicted: Seq::empty(),
            wal: after.cache@.wal,
            ..before.cache@
        }),
        after.cache@.wal is Some,
        after.cache@.wal->0@ == wal::with_entries(before.cache@.wal->0@, entries),
    ensures
        after.blocks(base) == before.blocks(base),
        after.content(base) == before.content(base),
        after.safe(base),
        after.recoverable(base),
{
    let bs = before.block_size();
    let c = before.cache@;
    let d = after.cache@;
    let n = io_worker::block_count_of(base.len(), bs);
    assert forall|id: BlockId| #[trigger] content::stored(d, base, bs, id) == content::stored(
        c,
        base,
        bs,
        id,
    ) && d.has(id) == c.has(id) by {
        lemma_appended(c.wal->0@, entries, id);
    }
    assert forall|id: BlockId| #[trigger] d.has(id) && !d.blocks[id].unsaved() implies content::stored(
        d,
        base,
        bs,
        id,
    ) == d.blocks[id].bytes by {
        assert(c.has(id));
        assert(content::stored(d, base, bs, id) == content::stored(c, base, bs, id));
    }
    assert forall|id: BlockId| #[trigger] content::bytes_of(d, base, bs, id) == content::bytes_of(
        c,
        base,
        bs,
        id,
    ) by {
        assert(content::stored(d, base, bs, id) == content::stored(c, base, bs, id));
    }
    assert(after.blocks(base) =~= before.blocks(base));
    assert forall|id: BlockId| id >= after.block_count implies (#[trigger] content::bytes_of(
        d,
        base,
        bs,
        id,
    )).len() == 0 by {
        assert(content::bytes_of(c, base, bs, id).len() == 0);
    }
    assert forall|id: BlockId| n <= id < after.block_count implies #[trigger] noted(d, id) by {
        assert(noted(c, id));
        lemma_appended(c.wal->0@, entries, id);
    }
}

/// What was saved is not lost: once the edits of a document are in its log, a
/// document that is opened over the same file with that log holds the same, and
/// is recoverable in turn.
pub proof fn law_saved_edits_come_back(
    before: Editor,
    entries: Seq<(BlockId, Vec<u8>)>,
    after: Editor,
    base: Seq<u8>,
)
    requires
        before.recoverable(base),
        before.safe(base),
        before.cache@.wal is Some,
        before.cache@.evicted == Seq::<(BlockId, Seq<u8>)>::empty(),
        io_worker::edits_of(before.cache@, entries),
        after.wf(),
        after.config.block_size > 0,
        after.block_size() == before.block_size(),
        layout::log_of(after.cache@) == wal::with_entries(before.cache@.wal->0@, entries),
        layout::opened(
            layout::log_of(after.cache@),
            base.len(),
            after.block_size(),
            after.delta_table.sizes(),
        ),
        after.file_size == delta_table::total(after.delta_table.sizes()),
        after.cache@.blocks == Map::<BlockId, BlockModel>::empty(),
        after.cache@.evicted == Seq::<(BlockId, Seq<u8>)>::empty(),
    ensures
        after.content(base) == before.content(base),
        after.consistent(base),
        after.safe(base),
        after.recoverable(base),
{
    let bs = before.block_size();
    let log = layout::log_of(after.cache@);
    let n = io_worker::block_count_of(base.len(), bs);
    edit_laws::law_open_shows_file(after, base);
    assert forall|id: BlockId| #[trigger] content::bytes_of(after.cache@, base, bs, id)
        == content::bytes_of(before.cache@, base, bs, id) by {
        lemma_logged(before.cache@, entries, id);
        assert(!after.cache@.has(id));
        assert(before.cache@.has(id) ==> before.cache@.blocks[id].unsaved() || content::stored(
            before.cache@,
            base,
            bs,
            id,
        ) == before.cache@.blocks[id].bytes);
    }
    assert forall|id: BlockId| noted(before.cache@, id) implies log.dom().contains(id) by {
        lemma_logged(before.cache@, entries, id);
    }
    if after.block_count < before.block_count {
        assert(noted(before.cache@, after.block_count));
    }
    let olds = before.blocks(base);
    let news = after.blocks(base);
    let more = news.subrange(olds.len() as int, news.len() as int);
    assert(news =~= olds + more) by {
        assert forall|i: int| 0 <= i < olds.len() implies news[i] == olds[i] by {
            assert(content::bytes_of(after.cache@, base, bs, i as u64) == content::bytes_of(
                before.cache@,
                base,
                bs,
                i as u64,
            ));
        }
    }
    assert forall|i: int| 0 <= i < more.len() implies (#[trigger] more[i]).len() == 0 by {
        let id = (olds.len() + i) as u64;
        assert(more[i] == content::bytes_of(after.cache@, base, bs, id));
        assert(content::bytes_of(before.cache@, base, bs, id).len() == 0);
    }
    content::lemma_joined_append(olds, more);
    lemma_joined_nothing(more);
    assert(content::joined(olds) + Seq::<u8>::empty() =~= content::joined(olds));
    assert forall|id: BlockId| id >= after.block_count implies (#[trigger] content::bytes_of(
        after.cache@,
        base,
        bs,
        id,
    )).len() == 0 by {
        assert(content::bytes_of(before.cache@, base, bs, id).len() == 0);
    }
    assert forall|id: BlockId| n <= id < after.block_count implies #[trigger] noted(
        after.cache@,
        id,
    ) by {
        assert(log.dom().contains(id as int as u64));
    }
}

/// What the log holds of a block once the edits are in it.
proof fn lemma_logged(c: CacheModel, entries: Seq<(BlockId, Vec<u8>)>, id: BlockId)
    requires
        c.wal is Some,
        io_worker::edits_of(c, entries),
    ensures
        ({
            let log = wal::with_entries(c.wal->0@, entries);
            if c.has(id) && c.blocks[id].unsaved() {
                log.dom().contains(id) && log[id] == c.blocks[id].bytes
            } else {
                &&& log.dom().contains(id) == c.wal->0@.dom().contains(id)
                &&& c.wal->0@.dom().contains(id) ==> log[id] == c.wal->0@[id]
            }
        }),
{
    if c.has(id) && c.blocks[id].unsaved() {
        let k = choose|k: int| 0 <= k < entries.len() && #[trigger] entries[k].0 == id;
        assert forall|j: int| k < j < entries.len() implies entries[j].0 != entries[k].0 by {}
        wal::law_latest_wins(c.wal->0@, entries, k);
    } else {
        assert forall|i: int| 0 <= i < entries.len() implies #[trigger] entries[i].0 != id by {}
        io_worker::lemma_with_entries_other(c.wal->0@, entries, id);
    }
}

/// Runs without bytes have none together.
proof fn lemma_joined_nothing(blocks: Seq<Seq<u8>>)
    requires
        forall|i: int| 0 <= i < blocks.len() ==> (#[trigger] blocks[i]).len() == 0,
    ensures
        content::joined(blocks) == Seq::<u8>::empty(),
    decreases blocks.len(),
{
    if blocks.len() > 0 {
        lemma_joined_nothing(blocks.drop_last());
        assert(blocks.last().len() == 0);
    }
}

} // verus!
