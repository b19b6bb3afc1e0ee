//! When an edit has to succeed, and what has become of the document then.

use crate::block::{BlockId, BlockModel};
use crate::cache;
use crate::delta_table;
use crate::edit_laws;
use crate::editor;
use crate::editor::{Editor, Step, UndoEntry};
use crate::error::EditError;
use vstd::prelude::*;

verus! {

/// The document may be changed: it is not read-only and has a log, and what is
/// recorded of it is right.
pub open spec fn changeable(ed: Editor, base: Seq<u8>) -> bool {
    &&& ed.wf()
    &&& ed.consistent(base)
    &&& ed.safe(base)
    &&& !ed.read_only
    &&& ed.cache@.wal is Some
}

/// Every block of the document that the cursor is in or at the edge of is in the
/// cache.
pub open spec fn cursor_cached(ed: Editor) -> bool {
    let sizes = ed.delta_table.sizes();
    forall|id: u64|
        id < ed.block_count && delta_table::prefix(sizes, id as int) <= ed.cursor_byte
            <= delta_table::prefix(sizes, id + 1) ==> #[trigger] ed.cache@.has(id)
}

/// The block that the cursor is found in is at the cursor.
proof fn lemma_found_at_cursor(ed: Editor, base: Seq<u8>)
    requires
        ed.wf(),
        ed.consistent(base),
        ed.cursor_byte <= ed.file_size,
        ed.block_count > 0,
    ensures
        ({
            let sizes = ed.delta_table.sizes();
            let b = ed.cursor_block();
            &&& b < ed.block_count
            &&& delta_table::prefix(sizes, b as int) <= ed.cursor_byte <= delta_table::prefix(
                sizes,
                b + 1,
            )
            &&& b + 1 < ed.block_count ==> ed.cursor_byte < delta_table::prefix(sizes, b + 1)
            &&& ed.cache@.has(b) ==> ed.cache@.blocks[b].bytes.len() == sizes[b as int]
            &&& delta_table::located(sizes, ed.cursor_byte as int, b as int)
        }),
{
    let sizes = ed.delta_table.sizes();
    edit_laws::lemma_cursor_place(ed, base);
    delta_table::lemma_block_at(sizes, ed.cursor_byte as int, sizes.len() - 1);
    let b = ed.cursor_block();
    assert(delta_table::prefix(sizes, b + 1) == delta_table::prefix(sizes, b as int)
        + sizes[b as int]);
    assert(sizes[b as int] == ed.blocks(base)[b as int].len());
    if b + 1 < ed.block_count {
        assert(ed.cursor_byte < delta_table::prefix(sizes, b + 1));
    }
}

/// An insertion succeeds where the cursor is in the document and the blocks at the
/// cursor are in the cache; it fails only where one of these cannot be read. The
/// document is then what was before the cursor, the
/// bytes, and what was behind it; it is that much longer, and the cursor is behind
/// what was put in.
pub proof fn law_insertion_succeeds(
    before: Editor,
    bytes: Seq<u8>,
    unreadable: Option<BlockId>,
    step: Step<Result<(), EditError>>,
    after: Editor,
    base: Seq<u8>,
)
    requires
        changeable(before, base),
        before.editable(bytes.len() as int),
        0 < bytes.len() <= usize::MAX,
        before.cursor_byte <= before.file_size,
        editor::insert_outcome(before, bytes, unreadable, step, after),
        after.wf(),
    ensures
        cursor_cached(before) ==> step == Step::Done(Ok::<(), EditError>(())),
        step is Done && step != Step::Done(Ok::<(), EditError>(())) ==> {
            let sizes = before.delta_table.sizes();
            &&& unreadable matches Some(id) && id < before.block_count && !before.cache@.has(id)
                && delta_table::prefix(sizes, id as int) <= before.cursor_byte
                <= delta_table::prefix(sizes, id + 1)
        },
        step == Step::Done(Ok::<(), EditError>(())) ==> {
            let doc = before.content(base);
            let at = before.cursor_byte as int;
            &&& after.content(base) == doc.take(at) + bytes + doc.skip(at)
            &&& after.file_size == before.file_size + bytes.len()
            &&& after.cursor_byte == before.cursor_byte + bytes.len()
            &&& after.edit_epoch == before.edit_epoch + 1
            &&& changeable(after, base)
        },
        step != Step::Done(Ok::<(), EditError>(())) ==> {
            &&& after.content(base) == before.content(base)
            &&& after.cursor_byte == before.cursor_byte
            &&& after.file_size == before.file_size
        },
{
    let b = before.cursor_block();
    let c = before.cache_to_edit();
    let doc = before.content(base);
    let at = before.cursor_byte as int;
    if before.fresh() {
        reveal_with_fuel(delta_table::prefix, 2);
        before.cache@.lemma_loaded(0, BlockModel::clean(Seq::empty()));
        assert(b == 0);
    } else {
        lemma_found_at_cursor(before, base);
    }
    edit_laws::lemma_content_length(before, base);
    if c.has(b) {
        edit_laws::lemma_editable_place(before, base);
        edit_laws::law_insert_splices(before, bytes, after, base);
        assert(doc.take(at) + bytes + doc.skip(at) =~= crate::block::spliced_in(doc, at, bytes));
        lemma_log_kept_by_insert(before, bytes, after);
    } else {
        cache::lemma_asked_once(before.cache@, b);
        edit_laws::lemma_only_moved(before, after, base);
    }
}

/// An insertion leaves the log as it is.
proof fn lemma_log_kept_by_insert(before: Editor, bytes: Seq<u8>, after: Editor)
    requires
        before.cache_to_edit().has(before.cursor_block()),
        editor::inserted(before, bytes, after),
    ensures
        after.cache@.wal == before.cache@.wal,
{
    let b = before.cursor_block();
    let c = before.cache_with(bytes);
    before.cache@.lemma_loaded(0, BlockModel::clean(Seq::empty()));
    if before.split_with(bytes) is Some {
        let all = c.blocks[b].bytes;
        editor::halved(c, b).lemma_loaded(
            (b + 1) as u64,
            BlockModel::cut_off(all.subrange(all.len() as int / 2, all.len() as int)),
        );
    }
}

/// A deletion of bytes of one block succeeds, also where it reaches the end of the
/// document, if the block and those beside it are in the cache; it fails only where
/// the block cannot be read. The document is then without these bytes, and that much shorter, and the cursor is where it was.
pub proof fn law_deletion_succeeds(
    before: Editor,
    n: int,
    b: int,
    unreadable: Option<BlockId>,
    step: Step<Result<(), EditError>>,
    after: Editor,
    base: Seq<u8>,
)
    requires
        changeable(before, base),
        0 < n,
        0 <= b < before.block_count,
        delta_table::prefix(before.delta_table.sizes(), b) <= before.cursor_byte,
        before.cursor_byte + n <= delta_table::prefix(before.delta_table.sizes(), b + 1),
        before.cursor_byte + n <= before.file_size,
        before.edit_epoch < u64::MAX,
        editor::delete_outcome(before, n, unreadable, step, after),
        after.wf(),
    ensures
        (forall|id: u64|
            id < before.block_count && b - 1 <= id <= b + 1 ==> #[trigger] before.cache@.has(id))
            ==> step == Step::Done(Ok::<(), EditError>(())),
        step is Done && step != Step::Done(Ok::<(), EditError>(())) ==> !before.cache@.has(b as u64)
            && unreadable == Some(b as u64),
        step == Step::Done(Ok::<(), EditError>(())) ==> {
            let doc = before.content(base);
            let at = before.cursor_byte as int;
            &&& after.content(base) == doc.take(at) + doc.skip(at + n)
            &&& after.file_size == before.file_size - n
            &&& after.cursor_byte == before.cursor_byte
            &&& after.edit_epoch == before.edit_epoch + 1
            &&& changeable(after, base)
        },
        step != Step::Done(Ok::<(), EditError>(())) ==> {
            &&& after.content(base) == before.content(base)
            &&& after.cursor_byte == before.cursor_byte
            &&& after.file_size == before.file_size
        },
{
    let sizes = before.delta_table.sizes();
    let doc = before.content(base);
    let at = before.cursor_byte as int;
    edit_laws::lemma_cursor_place(before, base);
    lemma_found_at_cursor(before, base);
    edit_laws::lemma_content_length(before, base);
    let found = before.cursor_block();
    assert(delta_table::prefix(sizes, b + 1) == delta_table::prefix(sizes, b) + sizes[b]);
    delta_table::law_locate_inverts_start(
        sizes,
        b,
        at - delta_table::prefix(sizes, b),
        found as int,
    );
    assert(found == b);
    if before.cache@.has(found) {
        match before.partner_without(n) {
            Some(o) => {
                assert(b - 1 <= o <= b + 1 && o < before.block_count);
            },
            None => {},
        }
        if step is Done {
            edit_laws::law_delete_splices(before, n, after, base);
            assert(doc.take(at) + doc.skip(at + n) =~= crate::block::spliced_out(
                doc,
                at,
                at + n,
            ));
            edit_laws::lemma_wal_kept(before, n, after);
        } else {
            cache::lemma_asked_once(before.cache@, found);
            cache::lemma_asked_once(before.cache@.touched(found), found);
            cache::lemma_asked_once(
                before.cache@.touched(found).touched(found),
                before.partner_without(n)->0,
            );
            cache::lemma_asked_more(
                before.cache@,
                before.cache@.touched(found),
                before.cache@.touched(found).touched(found),
            );
            cache::lemma_asked_more(
                before.cache@,
                before.cache@.touched(found).touched(found),
                after.cache@,
            );
            edit_laws::lemma_only_moved(before, after, base);
        }
    } else {
        cache::lemma_asked_once(before.cache@, found);
        edit_laws::lemma_only_moved(before, after, base);
    }
}

/// An edit out of the document fails, and says where it would have reached and how
/// long the document is: an insertion behind the end, and a deletion that goes on
/// beyond it.
pub proof fn law_edits_end_with_document(
    before: Editor,
    bytes: Seq<u8>,
    n: int,
    unreadable: Option<BlockId>,
    inserted: Step<Result<(), EditError>>,
    after_insert: Editor,
    deleted: Step<Result<(), EditError>>,
    after_delete: Editor,
)
    requires
        !before.read_only,
        before.cache@.wal is Some,
        0 < n,
        before.cursor_byte + n <= u64::MAX,
        editor::insert_outcome(before, bytes, unreadable, inserted, after_insert),
        editor::delete_outcome(before, n, unreadable, deleted, after_delete),
    ensures
        before.cursor_byte > before.file_size ==> {
            &&& inserted == Step::Done(
                Err::<(), EditError>(
                    EditError::OffsetOutOfRange(before.cursor_byte, before.file_size),
                ),
            )
            &&& after_insert == before
        },
        before.cursor_byte + n > before.file_size ==> {
            &&& deleted == Step::Done(
                Err::<(), EditError>(
                    EditError::OffsetOutOfRange((before.cursor_byte + n) as u64, before.file_size),
                ),
            )
            &&& after_delete == before
        },
        before.cursor_byte <= before.file_size ==> !(inserted matches Step::Done(Err(
            EditError::OffsetOutOfRange(_, _),
        ))),
        before.cursor_byte + n <= before.file_size ==> !(deleted matches Step::Done(Err(
            EditError::OffsetOutOfRange(_, _),
        ))),
{
}

/// A deletion over the end of its block is refused and leaves the document as it
/// is.
pub proof fn law_deletion_stays_in_block(
    before: Editor,
    n: int,
    b: int,
    unreadable: Option<BlockId>,
    step: Step<Result<(), EditError>>,
    after: Editor,
    base: Seq<u8>,
)
    requires
        changeable(before, base),
        0 <= b < before.block_count,
        delta_table::prefix(before.delta_table.sizes(), b) <= before.cursor_byte
            < delta_table::prefix(before.delta_table.sizes(), b + 1),
        delta_table::prefix(before.delta_table.sizes(), b + 1) < before.cursor_byte + n
            <= before.file_size,
        before.cache@.has(b as u64),
        editor::delete_outcome(before, n, unreadable, step, after),
    ensures
        editor::refused(step, "跨块删除在 Task9 实现"@),
        after.content(base) == before.content(base),
        after.cursor_byte == before.cursor_byte,
        after.undo_stack == before.undo_stack,
{
    let sizes = before.delta_table.sizes();
    edit_laws::lemma_cursor_place(before, base);
    lemma_found_at_cursor(before, base);
    let found = before.cursor_block();
    assert(delta_table::prefix(sizes, b + 1) == delta_table::prefix(sizes, b) + sizes[b]);
    delta_table::law_locate_inverts_start(
        sizes,
        b,
        before.cursor_byte - delta_table::prefix(sizes, b),
        found as int,
    );
    cache::lemma_asked_once(before.cache@, found);
    cache::lemma_asked_once(before.cache@.touched(found), found);
    cache::lemma_asked_more(before.cache@, before.cache@.touched(found), after.cache@);
    edit_laws::lemma_only_moved(before, after, base);
}

/// What an edit still needs is missing: the log where there is none, or a block of
/// the document that is not in the cache, at the cursor or beside its block.
pub proof fn law_edit_asks_for_what_is_missing(
    before: Editor,
    bytes: Seq<u8>,
    n: int,
    unreadable: Option<BlockId>,
    step: Step<Result<(), EditError>>,
    after: Editor,
    base: Seq<u8>,
)
    requires
        before.wf(),
        before.consistent(base),
        before.cursor_byte <= before.file_size,
        0 < n,
        editor::insert_outcome(before, bytes, unreadable, step, after) || editor::delete_outcome(
            before,
            n,
            unreadable,
            step,
            after,
        ),
    ensures
        step is NeedWal <==> !before.read_only && before.cache@.wal is None,
        step matches Step::NeedBlock(id) ==> {
            &&& id < before.block_count
            &&& !before.cache@.has(id)
            &&& unreadable != Some(id)
            &&& delta_table::prefix(before.delta_table.sizes(), id - 1) <= before.cursor_byte
            &&& id + 2 <= before.block_count ==> before.cursor_byte <= delta_table::prefix(
                before.delta_table.sizes(),
                id + 2,
            )
        },
{
    let sizes = before.delta_table.sizes();
    before.cache@.lemma_loaded(0, BlockModel::clean(Seq::empty()));
    if !before.fresh() {
        lemma_found_at_cursor(before, base);
        let b = before.cursor_block();
        if step is NeedBlock {
            let id = step->NeedBlock_0;
            assert(b - 1 <= id <= b + 1);
            assert(delta_table::prefix(sizes, -1) == 0);
            if id == b {
                if b > 0 {
                    delta_table::lemma_prefix_monotone(sizes, b - 1, b as int);
                }
                if b + 2 <= sizes.len() {
                    delta_table::lemma_prefix_monotone(sizes, b + 1, b + 2);
                }
            } else if id < b {
                if id > 0 {
                    delta_table::lemma_prefix_monotone(sizes, id - 1, b as int);
                }
            } else {
                if id + 2 <= sizes.len() {
                    delta_table::lemma_prefix_monotone(sizes, b + 1, id + 2);
                }
            }
        }
    } else {
        reveal_with_fuel(delta_table::prefix, 2);
    }
}

/// Every edit can be undone: it is the last entry of the history, behind those that
/// were there before, of which the oldest go where there are more than the history
/// may hold. What was undone before can no longer be redone.
pub proof fn law_edit_enters_history(before: Editor, bytes: Seq<u8>, n: int, after: Editor)
    requires
        editor::inserted(before, bytes, after) || editor::deleted(before, n, after),
        before.config.undo_limit > 0,
        0 < n,
        before.cursor_inner() + n <= before.cache@.blocks[before.cursor_block()].bytes.len(),
    ensures
        after.redo_stack@.len() == 0,
        after.undo_stack@.len() == (if before.undo_stack@.len() < before.config.undo_limit {
            before.undo_stack@.len() + 1int
        } else {
            before.config.undo_limit as int
        }),
        ({
            let kept = after.undo_stack@.len() - 1;
            let old_len = before.undo_stack@.len() as int;
            forall|i: int|
                0 <= i < kept ==> #[trigger] after.undo_stack@[i] == before.undo_stack@[old_len
                    - kept + i]
        }),
        match after.undo_stack@.last() {
            UndoEntry::InsertBytes { bytes: b, cursor_before, .. } => {
                &&& editor::inserted(before, bytes, after)
                &&& b@ == bytes
                &&& cursor_before == before.cursor_byte
            },
            UndoEntry::DeleteBytes { bytes: b, cursor_before, .. } => {
                &&& editor::deleted(before, n, after)
                &&& b@.len() == n
                &&& cursor_before == before.cursor_byte
            },
        },
{
}

/// A block that an insertion makes longer than one and a half times the block size
/// is cut into halves, if it is the last one. No other block changes its size, and
/// the sizes are those of the blocks.
pub proof fn law_large_block_is_halved(
    before: Editor,
    bytes: Seq<u8>,
    b: int,
    after: Editor,
    base: Seq<u8>,
)
    requires
        before.wf(),
        before.consistent(base),
        before.safe(base),
        before.editable(bytes.len() as int),
        bytes.len() <= usize::MAX,
        before.cursor_byte <= before.file_size,
        before.cache_to_edit().has(before.cursor_block()),
        editor::inserted(before, bytes, after),
        before.block_count == 0 ==> b == 0,
        before.block_count > 0 ==> {
            let sizes = before.delta_table.sizes();
            &&& 0 <= b < before.block_count
            &&& delta_table::prefix(sizes, b) <= before.cursor_byte
            &&& b + 1 < before.block_count ==> before.cursor_byte < delta_table::prefix(sizes, b + 1)
        },
    ensures
        ({
            let sizes = if before.block_count == 0 {
                seq![0i64]
            } else {
                before.delta_table.sizes()
            };
            let len = sizes[b] + bytes.len();
            if 2 * len > 3 * before.config.block_size && b + 1 == sizes.len() {
                after.delta_table.sizes() == sizes.update(b, (len / 2) as i64).push(
                    (len - len / 2) as i64,
                )
            } else {
                after.delta_table.sizes() == sizes.update(b, len as i64)
            }
        }),
        after.consistent(base),
{
    edit_laws::lemma_editable_place(before, base);
    edit_laws::law_insert_splices(before, bytes, after, base);
    let sizes = before.sizes_to_edit();
    let found = before.cursor_block();
    if before.fresh() {
        reveal_with_fuel(delta_table::prefix, 2);
    } else {
        lemma_found_at_cursor(before, base);
        if found < b {
            assert(before.cursor_byte < delta_table::prefix(sizes, b));
        } else if found > b {
            delta_table::lemma_prefix_monotone(sizes, b + 1, found as int);
        }
    }
    assert(found == b);
    let len = sizes[b] + bytes.len();
    if b + 1 == sizes.len() {
        assert(sizes.update(b, len as i64).update(b, (len / 2) as i64).insert(
            b + 1,
            (len - len / 2) as i64,
        ) =~= sizes.update(b, (len / 2) as i64).push((len - len / 2) as i64));
    }
}

/// A block of which a deletion leaves less than half a block size goes together
/// with the one beside it where one of the two is the last: there is a block less.
/// Every other deletion leaves the number of blocks as it is. No other block
/// changes its size, and the sizes are those of the blocks.
pub proof fn law_small_block_joins_neighbour(
    before: Editor,
    n: int,
    b: int,
    after: Editor,
    base: Seq<u8>,
)
    requires
        before.wf(),
        before.consistent(base),
        before.safe(base),
        0 < n,
        0 <= b < before.block_count,
        delta_table::prefix(before.delta_table.sizes(), b) <= before.cursor_byte,
        before.cursor_byte + n <= delta_table::prefix(before.delta_table.sizes(), b + 1),
        before.cursor_byte + n <= before.file_size,
        before.cache@.capacity >= 2,
        before.cache@.pinned.dom().is_empty(),
        forall|id: u64|
            id < before.block_count && b - 1 <= id <= b + 1 ==> #[trigger] before.cache@.has(id),
        before.file_size <= usize::MAX,
        editor::deleted(before, n, after),
    ensures
        ({
            let sizes = before.delta_table.sizes();
            let rest = sizes[b] - n;
            let count = sizes.len() as int;
            if 2 * rest < before.config.block_size && count >= 2 && b + 2 >= count {
                &&& after.block_count == count - 1
                &&& after.delta_table.sizes() == sizes.take(count - 2).push(
                    (sizes[count - 2] + sizes[count - 1] - n) as i64,
                )
            } else {
                &&& after.block_count == count
                &&& after.delta_table.sizes() == sizes.update(b, rest as i64)
            }
        }),
        after.consistent(base),
{
    let sizes = before.delta_table.sizes();
    let count = sizes.len() as int;
    edit_laws::lemma_cursor_place(before, base);
    lemma_found_at_cursor(before, base);
    let found = before.cursor_block();
    assert(delta_table::prefix(sizes, b + 1) == delta_table::prefix(sizes, b) + sizes[b]);
    delta_table::law_locate_inverts_start(
        sizes,
        b,
        before.cursor_byte - delta_table::prefix(sizes, b),
        found as int,
    );
    edit_laws::law_delete_splices(before, n, after, base);
    if let Some(o) = before.partner_without(n) {
        let left = editor::first_of(found, o);
        let c = before.cache_without(n);
        assert(left == count - 2);
        assert(before.cache@.has(left) && before.cache@.has((left + 1) as u64));
        lemma_deleted_lengths(before, n, base);
        delta_table::lemma_prefix_monotone(sizes, 0, left as int);
        assert(delta_table::prefix(sizes, left + 1) == delta_table::prefix(sizes, left as int)
            + sizes[left as int]);
        assert(delta_table::prefix(sizes, left + 2) == delta_table::prefix(sizes, left + 1)
            + sizes[left + 1]);
        assert(editor::merge_due(c, before.sizes_without(n), left));
        assert(delta_table::merged(before.sizes_without(n), left as int) =~= sizes.take(
            count - 2,
        ).push((sizes[count - 2] + sizes[count - 1] - n) as i64));
    }
}

/// What the cache holds of blocks once bytes are deleted, before any join.
proof fn lemma_deleted_lengths(before: Editor, n: int, base: Seq<u8>)
    requires
        before.wf(),
        before.consistent(base),
        0 < n,
        before.cursor_block() < before.block_count,
        before.cache@.has(before.cursor_block()),
        before.cache@.pinned.dom().is_empty(),
        before.cursor_inner() + n <= before.cache@.blocks[before.cursor_block()].bytes.len(),
    ensures
        ({
            let c = before.cache_without(n);
            let b = before.cursor_block();
            &&& forall|id: u64| #[trigger] c.has(id) == before.cache@.has(id)
            &&& forall|id: u64| #[trigger] c.pins(id) == 0
            &&& c.blocks[b].bytes.len() == before.cache@.blocks[b].bytes.len() - n
            &&& forall|id: u64|
                id != b && before.cache@.has(id) ==> #[trigger] c.blocks[id].bytes
                    == before.cache@.blocks[id].bytes
            &&& forall|id: u64|
                id < before.block_count && before.cache@.has(id)
                    ==> (#[trigger] before.cache@.blocks[id]).bytes.len()
                    == before.delta_table.sizes()[id as int]
        }),
{
    assert forall|id: u64| id < before.block_count && before.cache@.has(id) implies (
    #[trigger] before.cache@.blocks[id]).bytes.len() == before.delta_table.sizes()[id as int] by {
        assert(before.blocks(base)[id as int] == before.cache@.blocks[id].bytes);
        assert(before.delta_table.sizes()[id as int] == before.blocks(base)[id as int].len());
    }
}

/// A document without edits to undo or to redo says so and stays as it is. An edit
/// that is undone is the next one to be redone, and one that is redone the next one
/// to be undone, with the same bytes and the same place of the cursor. What cannot
/// be undone or redone stays where it is.
pub proof fn law_nothing_to_undo_or_redo(
    before: Editor,
    unreadable: Option<BlockId>,
    undone: Step<Result<(), EditError>>,
    after_undo: Editor,
    redone: Step<Result<(), EditError>>,
    after_redo: Editor,
)
    requires
        !before.read_only,
        before.cache@.wal is Some,
        editor::undo_outcome(before, unreadable, undone, after_undo),
        editor::redo_outcome(before, unreadable, redone, after_redo),
    ensures
        before.undo_stack@.len() == 0 <==> undone == Step::Done(
            Err::<(), EditError>(EditError::NothingToUndo),
        ),
        before.redo_stack@.len() == 0 <==> redone == Step::Done(
            Err::<(), EditError>(EditError::NothingToRedo),
        ),
        before.undo_stack@.len() == 0 ==> after_undo == before,
        before.redo_stack@.len() == 0 ==> after_redo == before,
        undone is Done && undone != Step::Done(Ok::<(), EditError>(())) ==> {
            &&& after_undo.undo_stack == before.undo_stack
            &&& after_undo.redo_stack == before.redo_stack
        },
        redone is Done && redone != Step::Done(Ok::<(), EditError>(())) ==> {
            &&& after_redo.undo_stack == before.undo_stack
            &&& after_redo.redo_stack == before.redo_stack
        },
        undone == Step::Done(Ok::<(), EditError>(())) ==> {
            &&& after_undo.undo_stack@ == before.undo_stack@.drop_last()
            &&& after_undo.redo_stack@ == before.redo_stack@.push(before.undo_stack@.last())
        },
        redone == Step::Done(Ok::<(), EditError>(())) ==> {
            &&& after_redo.edit_epoch == (before.edit_epoch + 1) as u64
            &&& after_redo.redo_stack@ == before.redo_stack@.drop_last()
            &&& after_redo.undo_stack@.len() == before.undo_stack@.len() + 1
            &&& after_redo.undo_stack@.drop_last() == before.undo_stack@
            &&& match (before.redo_stack@.last(), after_redo.undo_stack@.last()) {
                (
                    UndoEntry::InsertBytes { bytes: a, cursor_before: x, .. },
                    UndoEntry::InsertBytes { bytes: b, cursor_before: y, .. },
                ) => a@ == b@ && x == y,
                (
                    UndoEntry::DeleteBytes { bytes: a, cursor_before: x, .. },
                    UndoEntry::DeleteBytes { bytes: b, cursor_before: y, .. },
                ) => a@ == b@ && x == y,
                _ => false,
            }
        },
{
    if redone == Step::Done(Ok::<(), EditError>(())) {
        assert(after_redo.undo_stack@.drop_last() =~= before.undo_stack@);
    }
}

/// An edit of nothing succeeds and changes nothing.
pub proof fn law_empty_edits_change_nothing(
    before: Editor,
    unreadable: Option<BlockId>,
    inserted: Step<Result<(), EditError>>,
    after_insert: Editor,
    deleted: Step<Result<(), EditError>>,
    after_delete: Editor,
)
    requires
        !before.read_only,
        before.cache@.wal is Some,
        before.cursor_byte <= before.file_size,
        editor::insert_outcome(before, Seq::empty(), unreadable, inserted, after_insert),
        editor::delete_outcome(before, 0, unreadable, deleted, after_delete),
    ensures
        inserted == Step::Done(Ok::<(), EditError>(())),
        after_insert == before,
        deleted == Step::Done(Ok::<(), EditError>(())),
        after_delete == before,
{
}

/// A document can be edited as long as its bytes can be counted with those that are
/// put in: no smaller limit stands in the way.
pub proof fn law_edits_are_within_limits(ed: Editor, base: Seq<u8>, n: int)
    requires
        ed.wf(),
        ed.consistent(base),
        ed.cursor_byte <= ed.file_size,
        0 <= n,
        2 * ed.file_size + n <= i64::MAX,
        ed.file_size + n <= usize::MAX,
        ed.block_count + 3 < usize::MAX,
        ed.edit_epoch < u64::MAX,
        forall|id: u64| #[trigger] ed.cache@.pins(id) < usize::MAX,
        ed.block_count == 0 ==> !ed.cache@.has(0),
    ensures
        ed.editable(n),
        ed.block_count > 0 ==> ed.deletable(n),
{
    let sizes = ed.delta_table.sizes();
    let b = ed.cursor_block();
    if ed.block_count > 0 {
        lemma_found_at_cursor(ed, base);
        edit_laws::lemma_cursor_place(ed, base);
        editor::lemma_size_in_total(sizes, b as int);
    } else {
        reveal_with_fuel(delta_table::prefix, 2);
        assert(b == 0);
    }
}

/// A save that takes the place of the file counts as a change of the layout, leaves
/// nothing to be undone or redone, needs no log and holds no block; the cursor, the
/// settings and how the document is shown stay.
pub proof fn law_fold_starts_anew(before: Editor, size: nat, after: Editor)
    requires
        editor::folded(before, size, after),
        before.edit_epoch < u64::MAX,
        size <= u64::MAX,
    ensures
        after.edit_epoch == before.edit_epoch + 1,
        after.undo_stack@.len() == 0,
        after.redo_stack@.len() == 0,
        after.cache@.wal is None,
        forall|id: BlockId| !#[trigger] after.cache@.has(id),
        after.cache@.evicted.len() == 0,
        after.cache@.capacity == before.cache@.capacity,
        after.file_size == size,
        after.original_file_size == size,
        after.cursor_byte == before.cursor_byte,
        after.config == before.config,
        after.mode == before.mode,
        after.file_path == before.file_path,
        after.text_encoding == before.text_encoding,
        after.read_only == before.read_only,
        after.last_search == before.last_search,
{
}

/// An edit changes the sizes of blocks but not what they were at first: these add up
/// to what they did, so that all blocks together have grown by as much as the
/// document has.
pub proof fn law_growth_follows_edits(
    before: Editor,
    bytes: Seq<u8>,
    n: int,
    inserted: Editor,
    deleted: Editor,
    base: Seq<u8>,
)
    requires
        before.wf(),
        before.consistent(base),
        before.safe(base),
        before.block_count > 0,
        before.editable(bytes.len() as int),
        bytes.len() <= usize::MAX,
        0 < n,
        before.cursor_byte + n <= before.file_size,
        before.cache@.has(before.cursor_block()),
        before.cursor_inner() + n <= before.cache@.blocks[before.cursor_block()].bytes.len(),
        editor::inserted(before, bytes, inserted),
        editor::deleted(before, n, deleted),
    ensures
        delta_table::total(inserted.delta_table.originals()) == delta_table::total(
            before.delta_table.originals(),
        ),
        inserted.delta_table.growth() == before.delta_table.growth() + bytes.len(),
        delta_table::total(deleted.delta_table.originals()) == delta_table::total(
            before.delta_table.originals(),
        ),
        deleted.delta_table.growth() == before.delta_table.growth() - n,
{
    let originals = before.delta_table.originals();
    before.delta_table.lemma_wf();
    edit_laws::lemma_cursor_place(before, base);
    edit_laws::law_insert_splices(before, bytes, inserted, base);
    edit_laws::law_delete_splices(before, n, deleted, base);
    let b = before.cursor_block();
    if before.split_with(bytes) is Some {
        delta_table::lemma_prefix_insert(originals, b + 1, 0i64, originals.len() as int + 1);
    }
    edit_laws::lemma_merge_place(before, n);
    match before.merge_without(n) {
        Some((right, _)) => {
            delta_table::law_merge_keeps_offsets(originals, right - 1, 0);
        },
        None => {},
    }
}

/// What undoing or redoing an edit still needs is missing: the log where there is
/// none, or a block of the document that is neither in the cache nor given up. The
/// document and what can be undone and redone are as they were then.
pub proof fn law_history_asks_for_what_is_missing(
    before: Editor,
    unreadable: Option<BlockId>,
    step: Step<Result<(), EditError>>,
    after: Editor,
    base: Seq<u8>,
)
    requires
        before.wf(),
        editor::undo_outcome(before, unreadable, step, after) || editor::redo_outcome(
            before,
            unreadable,
            step,
            after,
        ),
    ensures
        step is NeedWal <==> !before.read_only && before.cache@.wal is None,
        step matches Step::NeedBlock(id) ==> {
            &&& id < before.block_count
            &&& !before.cache@.has(id)
            &&& unreadable != Some(id)
        },
        step != Step::Done(Ok::<(), EditError>(())) ==> {
            &&& after.content(base) == before.content(base)
            &&& after.undo_stack == before.undo_stack
            &&& after.redo_stack == before.redo_stack
            &&& after.cursor_byte == before.cursor_byte
            &&& after.file_size == before.file_size
            &&& after.edit_epoch == before.edit_epoch
        },
{
    if step != Step::Done(Ok::<(), EditError>(())) {
        assert(after.cache@.blocks == before.cache@.blocks);
        assert(after.cache@.evicted == before.cache@.evicted);
        assert(after.cache@.wal == before.cache@.wal);
        assert(after.blocks(base) =~= before.blocks(base));
    }
}

/// A refused edit says why: the document may not be changed, the block could not be
/// loaded, or the deletion goes over the end of its block.
pub proof fn law_refusals_say_why(id: BlockId)
    ensures
        editor::read_only_message() == "只读模式，禁止修改"@,
        editor::load_message(id) == "加载块 "@ + crate::text::dec(id as nat) + " 失败"@,
        editor::cross_block_message() == "跨块删除在 Task9 实现"@,
{
}

} // verus!
