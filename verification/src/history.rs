//! What a run of edits leaves when it is undone, and when it is redone.

use crate::block;
use crate::content;
use crate::delta_table;
use crate::edit_laws;
use crate::editor;
use crate::editor::{Editor, Step, UndoEntry};
use crate::error::EditError;
use vstd::prelude::*;

verus! {

/// `b` holds the same document as `a`, over the file `base` on disk, in the same
/// blocks.
pub open spec fn same_document(a: Editor, b: Editor, base: Seq<u8>) -> bool {
    &&& b.config == a.config
    &&& b.block_count == a.block_count
    &&& b.delta_table.sizes() == a.delta_table.sizes()
    &&& b.file_size == a.file_size
    &&& b.blocks(base) == a.blocks(base)
}

/// `b` is `a` but for what edits do not depend on: the cursor may have moved, and
/// blocks may have been loaded, logged or let go.
pub open spec fn carried(a: Editor, b: Editor, base: Seq<u8>) -> bool {
    &&& same_document(a, b, base)
    &&& b.undo_stack@ == a.undo_stack@
    &&& b.redo_stack@ == a.redo_stack@
}

/// The document may be changed: it has a log and a block, no edit would be lost,
/// and two blocks fit into the cache, where none is held.
pub open spec fn ready(ed: Editor, base: Seq<u8>) -> bool {
    &&& ed.wf()
    &&& ed.consistent(base)
    &&& ed.safe(base)
    &&& !ed.read_only
    &&& ed.cache@.wal is Some
    &&& ed.cache@.capacity >= 2
    &&& ed.cache@.pinned.dom().is_empty()
    &&& 0 < ed.block_count
    &&& ed.block_count + 2 < usize::MAX
}

/// `b` is `a` after `bytes` were put in at the cursor.
pub open spec fn insert_done(a: Editor, bytes: Seq<u8>, b: Editor) -> bool {
    &&& 0 < bytes.len() <= usize::MAX
    &&& a.editable(bytes.len() as int)
    &&& editor::inserted(a, bytes, b)
}

/// `b` is `a` after `n` bytes were deleted from the cursor on.
pub open spec fn delete_done(a: Editor, n: int, b: Editor) -> bool {
    &&& 0 < n
    &&& a.cursor_byte + n <= a.file_size
    &&& a.cursor_inner() + n <= a.cache@.blocks[a.cursor_block()].bytes.len()
    &&& editor::deleted(a, n, b)
}

/// `b` is `a` after an edit, and the history has room for it.
pub open spec fn edit_done(a: Editor, b: Editor, base: Seq<u8>) -> bool {
    &&& ready(a, base)
    &&& a.cursor_byte <= a.file_size
    &&& a.cache@.has(a.cursor_block())
    &&& a.undo_stack@.len() < a.config.undo_limit
    &&& (exists|bytes: Seq<u8>| #[trigger] insert_done(a, bytes, b)) || (exists|n: int| #[trigger]
        delete_done(a, n, b))
}

/// Undoing the last edit of `a` needed no further block, and `b` is what came of
/// it.
pub open spec fn undo_done(
    a: Editor,
    step: Step<Result<(), EditError>>,
    b: Editor,
    base: Seq<u8>,
) -> bool {
    &&& ready(a, base)
    &&& a.undo_fits()
    &&& !(step is NeedBlock)
    &&& editor::undo_outcome(a, None, step, b)
}

/// Redoing the last edit that was undone needed no further block, and `b` is what
/// came of it.
pub open spec fn redo_done(
    a: Editor,
    step: Step<Result<(), EditError>>,
    b: Editor,
    base: Seq<u8>,
) -> bool {
    &&& ready(a, base)
    &&& a.redo_fits()
    &&& !(step is NeedBlock)
    &&& editor::redo_outcome(a, None, step, b)
}

/// The same bytes in runs of the same lengths are the same runs.
proof fn lemma_same_runs(x: Seq<Seq<u8>>, y: Seq<Seq<u8>>)
    requires
        x.len() == y.len(),
        forall|i: int| 0 <= i < x.len() ==> (#[trigger] x[i]).len() == y[i].len(),
        content::joined(x) == content::joined(y),
    ensures
        x == y,
    decreases x.len(),
{
    if x.len() > 0 {
        let a = content::joined(x.drop_last());
        let b = content::joined(y.drop_last());
        assert(x[x.len() - 1].len() == y[x.len() - 1].len());
        assert(a.len() + x.last().len() == content::joined(x).len());
        assert(b.len() + y.last().len() == content::joined(y).len());
        assert(a =~= content::joined(x).take(a.len() as int));
        assert(b =~= content::joined(y).take(b.len() as int));
        assert(x.last() =~= content::joined(x).skip(a.len() as int));
        assert(y.last() =~= content::joined(y).skip(b.len() as int));
        assert forall|i: int| 0 <= i < x.len() - 1 implies (#[trigger] x.drop_last()[i]).len()
            == y.drop_last()[i].len() by {
            assert(x[i].len() == y[i].len());
        }
        lemma_same_runs(x.drop_last(), y.drop_last());
        assert(x =~= x.drop_last().push(x.last()));
        assert(y =~= y.drop_last().push(y.last()));
    } else {
        assert(x =~= y);
    }
}

/// Documents of the same bytes in blocks of the same sizes are the same.
proof fn lemma_same_document(a: Editor, b: Editor, base: Seq<u8>)
    requires
        a.wf(),
        b.wf(),
        a.consistent(base),
        b.consistent(base),
        b.config == a.config,
        b.block_count == a.block_count,
        b.delta_table.sizes() == a.delta_table.sizes(),
        b.content(base) == a.content(base),
    ensures
        same_document(a, b, base),
{
    let x = a.blocks(base);
    let y = b.blocks(base);
    assert forall|i: int| 0 <= i < x.len() implies (#[trigger] x[i]).len() == y[i].len() by {
        assert(a.delta_table.sizes()[i] == x[i].len());
        assert(b.delta_table.sizes()[i] == y[i].len());
    }
    lemma_same_runs(x, y);
}

/// What an insertion leaves: the bytes of its block, the entry of the history, and
/// the sizes once the halves of a split are joined.
proof fn lemma_insert_left(a: Editor, bytes: Seq<u8>, b: Editor, base: Seq<u8>)
    requires
        edit_done(a, b, base),
        insert_done(a, bytes, b),
        b.wf(),
    ensures
        b.consistent(base),
        b.safe(base),
        ({
            let blk = a.cursor_block();
            let sizes = a.delta_table.sizes();
            let split = a.split_with(bytes);
            let whole = block::spliced_in(
                a.cache@.blocks[blk].bytes,
                a.cursor_inner() as int,
                bytes,
            );
            let e = b.undo_stack@.last();
            &&& e.is_insert(blk, a.cursor_inner(), bytes, a.cursor_byte, split)
            &&& b.undo_stack@.len() > 0
            &&& b.undo_stack@.drop_last() == a.undo_stack@
            &&& blk < a.block_count
            &&& a.cursor_inner() <= sizes[blk as int] == a.cache@.blocks[blk].bytes.len()
            &&& whole.len() == sizes[blk as int] + bytes.len() <= i64::MAX
            &&& delta_table::prefix(sizes, blk as int) + a.cursor_inner() == a.cursor_byte
            &&& a.blocks(base)[blk as int] == a.cache@.blocks[blk].bytes
            &&& b.content(base) == block::spliced_in(
                a.content(base),
                a.cursor_byte as int,
                bytes,
            )
            &&& match split {
                Some((right, at)) => {
                    &&& right == blk + 1 == a.block_count
                    &&& at == whole.len() / 2
                    &&& b.block_count == a.block_count + 1
                    &&& b.delta_table.sizes() == sizes.update(blk as int, at as i64).insert(
                        blk + 1,
                        (whole.len() - at) as i64,
                    )
                    &&& delta_table::merged(b.delta_table.sizes(), blk as int) == sizes.update(
                        blk as int,
                        whole.len() as i64,
                    )
                },
                None => {
                    &&& b.block_count == a.block_count
                    &&& b.delta_table.sizes() == sizes.update(blk as int, whole.len() as i64)
                },
            }
        }),
{
    let blk = a.cursor_block();
    let inner = a.cursor_inner();
    let sizes = a.delta_table.sizes();
    let split = a.split_with(bytes);
    let whole = block::spliced_in(a.cache@.blocks[blk].bytes, inner as int, bytes);
    edit_laws::lemma_editable_place(a, base);
    edit_laws::law_insert_splices(a, bytes, b, base);
    editor::lemma_size_in_total(sizes, blk as int);
    content::lemma_edited_bytes(a.cache@.touched(blk), blk, whole, base, a.block_size(), blk);
    let e = choose|e: UndoEntry|
        {
            &&& #[trigger] e.is_insert(blk, inner, bytes, a.cursor_byte, split)
            &&& b.undo_stack@ == editor::trimmed(
                a.undo_stack@.push(e),
                a.config.undo_limit as int,
            )
        };
    assert(b.undo_stack@ == a.undo_stack@.push(e));
    assert(b.undo_stack@.drop_last() =~= a.undo_stack@);
    if let Some((right, at)) = split {
        assert(b.delta_table.sizes() =~= sizes.update(blk as int, at as i64).insert(
            blk + 1,
            (whole.len() - at) as i64,
        ));
        assert(delta_table::merged(b.delta_table.sizes(), blk as int) =~= sizes.update(
            blk as int,
            whole.len() as i64,
        ));
    }
}

/// Undoing an insertion gives back what was there before it.
#[verifier::rlimit(40)]
proof fn lemma_insert_undone(
    a: Editor,
    bytes: Seq<u8>,
    b: Editor,
    from: Editor,
    step: Step<Result<(), EditError>>,
    to: Editor,
    base: Seq<u8>,
)
    requires
        edit_done(a, b, base),
        insert_done(a, bytes, b),
        b.wf(),
        same_document(b, from, base),
        from.undo_stack@ == b.undo_stack@,
        undo_done(from, step, to, base),
        to.wf(),
    ensures
        step == Step::Done(Ok::<(), EditError>(())),
        same_document(a, to, base),
        to.consistent(base),
        to.safe(base),
        to.undo_stack@ == a.undo_stack@,
        to.redo_stack@ == from.redo_stack@.push(b.undo_stack@.last()),
        to.cursor_byte == a.cursor_byte,
{
    lemma_insert_left(a, bytes, b, base);
    let e = b.undo_stack@.last();
    let blk = a.cursor_block();
    let sizes = a.delta_table.sizes();
    let split = a.split_with(bytes);
    let n = bytes.len();
    assert(from.unsplit(blk, split).1 == sizes.update(
        blk as int,
        (sizes[blk as int] + n) as i64,
    ));
    assert(from.insert_made(e));
    assert(from.delta_table.sizes()[blk as int] == from.blocks(base)[blk as int].len());
    if let Some((right, _)) = split {
        assert(from.delta_table.sizes()[blk + 1] == from.blocks(base)[blk + 1].len());
    }
    edit_laws::lemma_undo_insert(from, None, e, step, to, base);
    delta_table::lemma_prefix_agrees(from.delta_table.sizes(), sizes, blk as int);
    edit_laws::lemma_content_length(a, base);
    block::law_delete_undoes_insert(a.content(base), a.cursor_byte as int, bytes);
    assert(to.delta_table.sizes() =~= sizes);
    assert(from.content(base) == b.content(base));
    lemma_same_document(a, to, base);
}

/// What a deletion leaves: the entry of the history and the bytes that are gone.
proof fn lemma_delete_left(a: Editor, n: int, b: Editor, base: Seq<u8>)
    requires
        edit_done(a, b, base),
        delete_done(a, n, b),
        b.wf(),
    ensures
        b.consistent(base),
        b.safe(base),
        ({
            let blk = a.cursor_block();
            let inner = a.cursor_inner();
            let bytes = a.cache@.blocks[blk].bytes;
            let merge = a.merge_without(n);
            let e = b.undo_stack@.last();
            &&& e.is_delete(
                blk,
                inner,
                bytes.subrange(inner as int, inner + n),
                a.cursor_byte,
                merge,
            )
            &&& b.undo_stack@.len() > 0
            &&& b.undo_stack@.drop_last() == a.undo_stack@
            &&& blk < a.block_count
            &&& bytes.len() == a.delta_table.sizes()[blk as int]
            &&& a.blocks(base)[blk as int] == bytes
            &&& delta_table::prefix(a.delta_table.sizes(), blk as int) + inner == a.cursor_byte
            &&& b.content(base) == block::spliced_out(
                a.content(base),
                a.cursor_byte as int,
                a.cursor_byte + n,
            )
        }),
{
    let blk = a.cursor_block();
    let inner = a.cursor_inner();
    let bytes = a.cache@.blocks[blk].bytes;
    let removed = bytes.subrange(inner as int, inner + n);
    let merge = a.merge_without(n);
    edit_laws::lemma_cursor_place(a, base);
    edit_laws::law_delete_splices(a, n, b, base);
    assert(a.blocks(base)[blk as int] == bytes);
    assert(a.delta_table.sizes()[blk as int] == a.blocks(base)[blk as int].len());
    let e = choose|e: UndoEntry|
        {
            &&& #[trigger] e.is_delete(blk, inner, removed, a.cursor_byte, merge)
            &&& b.undo_stack@ == editor::trimmed(
                a.undo_stack@.push(e),
                a.config.undo_limit as int,
            )
        };
    assert(b.undo_stack@ == a.undo_stack@.push(e));
    assert(b.undo_stack@.drop_last() =~= a.undo_stack@);
}

/// Undoing a deletion gives back what was there before it.
#[verifier::rlimit(60)]
proof fn lemma_delete_undone(
    a: Editor,
    n: int,
    b: Editor,
    from: Editor,
    step: Step<Result<(), EditError>>,
    to: Editor,
    base: Seq<u8>,
)
    requires
        edit_done(a, b, base),
        delete_done(a, n, b),
        b.wf(),
        same_document(b, from, base),
        from.undo_stack@ == b.undo_stack@,
        undo_done(from, step, to, base),
        to.wf(),
    ensures
        step == Step::Done(Ok::<(), EditError>(())),
        same_document(a, to, base),
        to.consistent(base),
        to.safe(base),
        to.undo_stack@ == a.undo_stack@,
        to.redo_stack@ == from.redo_stack@.push(b.undo_stack@.last()),
        to.cursor_byte == a.cursor_byte,
{
    lemma_delete_left(a, n, b, base);
    edit_laws::lemma_deleted_apart(a, n, b, base);
    let blk = a.cursor_block();
    let inner = a.cursor_inner();
    let sizes = a.delta_table.sizes();
    let bytes = a.cache@.blocks[blk].bytes;
    let removed = bytes.subrange(inner as int, inner + n);
    let merge = a.merge_without(n);
    let home = Editor::home_of(blk, merge);
    let e = b.undo_stack@.last();
    let olds = a.blocks(base);
    let news = olds.update(blk as int, block::spliced_out(bytes, inner as int, inner + n));
    assert(from.delete_made(e));
    assert(from.cache@.has(home));
    assert(from.blocks(base)[home as int] == from.cache@.blocks[home].bytes);
    assert(b.blocks(base)[home as int] == b.cache@.blocks[home].bytes);
    edit_laws::lemma_unmerged(from, blk, merge, base);
    assert(edit_laws::apart(from, blk, merge, base) == news);
    assert(from.unmerged(blk, merge).1 == a.sizes_without(n));
    let apart = from.unmerged(blk, merge).0;
    assert(news[blk as int] == content::bytes_of(apart, base, from.block_size(), blk));
    assert(inner <= apart.blocks[blk].bytes.len());
    edit_laws::lemma_undo_delete(from, None, e, step, to, base);
    delta_table::lemma_prefix_agrees(a.sizes_without(n), sizes, blk as int);
    edit_laws::lemma_content_length(a, base);
    let at = a.cursor_byte as int;
    assert(a.content(base).subrange(at, at + n) =~= removed) by {
        content::lemma_joined_around(olds, blk as int);
        content::lemma_prefix_is_length(sizes, olds, blk as int);
    }
    block::law_insert_undoes_delete(a.content(base), at, at + n);
    assert(to.delta_table.sizes() =~= sizes);
    assert(from.content(base) == b.content(base));
    lemma_same_document(a, to, base);
}

/// Redoing an insertion gives back what it left.
#[verifier::rlimit(60)]
proof fn lemma_insert_redone(
    a: Editor,
    bytes: Seq<u8>,
    b: Editor,
    from: Editor,
    step: Step<Result<(), EditError>>,
    to: Editor,
    base: Seq<u8>,
)
    requires
        edit_done(a, b, base),
        insert_done(a, bytes, b),
        b.wf(),
        same_document(a, from, base),
        from.redo_stack@.len() > 0,
        from.redo_stack@.last() == b.undo_stack@.last(),
        redo_done(from, step, to, base),
        to.wf(),
    ensures
        step == Step::Done(Ok::<(), EditError>(())),
        same_document(b, to, base),
        to.consistent(base),
        to.safe(base),
        to.redo_stack@ == from.redo_stack@.drop_last(),
        to.cursor_byte == b.cursor_byte,
{
    lemma_insert_left(a, bytes, b, base);
    let e = b.undo_stack@.last();
    let blk = a.cursor_block();
    let inner = a.cursor_inner() as int;
    let sizes = a.delta_table.sizes();
    let split = a.split_with(bytes);
    let n = bytes.len();
    let bs = a.block_size();
    let olds = a.blocks(base);
    let whole = block::spliced_in(a.cache@.blocks[blk].bytes, inner, bytes);
    let news = olds.update(blk as int, whole);
    assert(from.insert_undone(e));
    assert(from.cache@.has(blk));
    assert(from.blocks(base)[blk as int] == from.cache@.blocks[blk].bytes);
    let asked = from.cache@.touched(blk);
    let filled = asked.edited(blk, whole);
    content::lemma_touched_safe(from.cache@, blk, base, bs);
    content::lemma_edited_safe(asked, blk, whole, base, bs);
    content::lemma_edited_bytes(asked, blk, whole, base, bs, blk);
    assert forall|i: int| 0 <= i < olds.len() implies #[trigger] content::bytes_of(
        filled,
        base,
        bs,
        i as u64,
    ) == news[i] by {
        content::lemma_edited_bytes(asked, blk, whole, base, bs, i as u64);
        assert(from.blocks(base)[i] == content::bytes_of(from.cache@, base, bs, i as u64));
    }
    content::lemma_prefix_is_length(sizes, olds, blk as int);
    content::lemma_joined_insert(olds, blk as int, inner, bytes);
    match split {
        None => {
            assert(to.blocks(base) =~= news);
        },
        Some((right, at)) => {
            content::lemma_split_safe(filled, blk, at as int, base, bs);
            assert forall|i: int| 0 <= i < olds.len() + 1 implies to.blocks(base)[i]
                == content::cut(news, blk as int, at as int)[i] by {
                if i < olds.len() {
                    assert(content::bytes_of(filled, base, bs, i as u64) == news[i]);
                }
            }
            assert(to.blocks(base) =~= content::cut(news, blk as int, at as int));
            content::lemma_joined_cut(news, blk as int, at as int);
        },
    }
    assert(to.delta_table.sizes() =~= b.delta_table.sizes());
    assert forall|i: int| 0 <= i < to.block_count implies #[trigger] to.delta_table.sizes()[i]
        == to.blocks(base)[i].len() by {
        if i < olds.len() {
            assert(sizes[i] == olds[i].len());
        }
    }
    edit_laws::lemma_content_length(b, base);
    assert(to.content(base) == b.content(base));
    assert(to.file_size == b.file_size);
    assert(to.consistent(base));
    lemma_same_document(b, to, base);
}

/// Redoing a deletion gives back what it left.
#[verifier::rlimit(60)]
proof fn lemma_delete_redone(
    a: Editor,
    n: int,
    b: Editor,
    from: Editor,
    step: Step<Result<(), EditError>>,
    to: Editor,
    base: Seq<u8>,
)
    requires
        edit_done(a, b, base),
        delete_done(a, n, b),
        b.wf(),
        same_document(a, from, base),
        from.redo_stack@.len() > 0,
        from.redo_stack@.last() == b.undo_stack@.last(),
        redo_done(from, step, to, base),
        to.wf(),
    ensures
        step == Step::Done(Ok::<(), EditError>(())),
        same_document(b, to, base),
        to.consistent(base),
        to.safe(base),
        to.redo_stack@ == from.redo_stack@.drop_last(),
        to.cursor_byte == b.cursor_byte,
{
    lemma_delete_left(a, n, b, base);
    let blk = a.cursor_block();
    let inner = a.cursor_inner() as int;
    let sizes = a.delta_table.sizes();
    let bytes = a.cache@.blocks[blk].bytes;
    let merge = a.merge_without(n);
    let e = b.undo_stack@.last();
    let bs = a.block_size();
    let olds = a.blocks(base);
    let less = block::spliced_out(bytes, inner, inner + n);
    let news = olds.update(blk as int, less);
    let shrunk = a.sizes_without(n);
    edit_laws::lemma_merge_place(a, n);
    assert(from.delete_undone(e));
    assert(from.cache@.has(blk));
    assert(from.blocks(base)[blk as int] == from.cache@.blocks[blk].bytes);
    let asked = editor::asked_again(from.cache@, e);
    let cut = asked.edited(blk, less);
    edit_laws::lemma_again_asked(from, e, base);
    content::lemma_edited_safe(asked, blk, less, base, bs);
    content::lemma_edited_bytes(asked, blk, less, base, bs, blk);
    edit_laws::lemma_edited_pins(asked, blk, less);
    assert(editor::without_run(from.cache@.blocks[blk].bytes, inner, n) == less);
    assert(editor::deleted_again(from, e, to));
    assert forall|i: int| 0 <= i < olds.len() implies #[trigger] news[i] == content::bytes_of(
        cut,
        base,
        bs,
        i as u64,
    ) by {
        content::lemma_edited_bytes(asked, blk, less, base, bs, i as u64);
        assert(from.blocks(base)[i] == content::bytes_of(from.cache@, base, bs, i as u64));
    }
    assert forall|i: int| 0 <= i < news.len() implies #[trigger] shrunk[i] == news[i].len() by {
        assert(sizes[i] == olds[i].len());
    }
    content::lemma_prefix_is_length(sizes, olds, blk as int);
    content::lemma_joined_delete(olds, blk as int, inner, inner + n);
    a.delta_table.lemma_wf();
    delta_table::lemma_run_fits(sizes, 0, sizes.len() as int);
    delta_table::lemma_prefix_update(
        sizes,
        blk as int,
        (sizes[blk as int] - n) as i64,
        sizes.len() as int,
    );
    match merge {
        Some((right, at)) => {
            let left = (right - 1) as u64;
            let before = a.cache_without(n);
            edit_laws::lemma_blocks_without(a, n, base, left as int);
            edit_laws::lemma_blocks_without(a, n, base, right as int);
            content::lemma_edited_bytes(asked, blk, less, base, bs, left);
            content::lemma_edited_bytes(asked, blk, less, base, bs, right);
            assert(news[left as int] == content::bytes_of(cut, base, bs, left));
            assert(news[right as int] == content::bytes_of(cut, base, bs, right));
            assert(cut.blocks[left].bytes == before.blocks[left].bytes);
            assert(cut.blocks[right].bytes == before.blocks[right].bytes);
            assert(editor::merge_due(cut, shrunk, left));
            edit_laws::lemma_summable(shrunk);
            edit_laws::lemma_fused_document(cut, left, shrunk, news, to, base);
        },
        None => {
            assert(to.blocks(base) =~= news);
            assert forall|i: int| 0 <= i < to.block_count implies
                #[trigger] to.delta_table.sizes()[i] == to.blocks(base)[i].len() by {
                assert(shrunk[i] == news[i].len());
            }
        },
    }
    assert(to.content(base) == b.content(base));
    lemma_same_document(b, to, base);
}

/// Edits that were made one after the other, then undone from the last to the
/// first, then redone from the first to the last. The `k`th edit was made of
/// `befores[k]` and left `afters[k]`; undoing it was tried on `undo_froms[k]` and
/// left `undo_tos[k]`; redoing it was tried on `redo_froms[k]` and left
/// `redo_tos[k]`.
pub struct Run {
    pub befores: Seq<Editor>,
    pub afters: Seq<Editor>,
    pub undo_froms: Seq<Editor>,
    pub undo_steps: Seq<Step<Result<(), EditError>>>,
    pub undo_tos: Seq<Editor>,
    pub redo_froms: Seq<Editor>,
    pub redo_steps: Seq<Step<Result<(), EditError>>>,
    pub redo_tos: Seq<Editor>,
}

impl Run {
    /// The `k`th edit was made, and the next one after it.
    pub open spec fn edited(self, base: Seq<u8>, k: int) -> bool {
        &&& edit_done(self.befores[k], self.afters[k], base)
        &&& self.afters[k].wf()
        &&& k + 1 < self.befores.len() ==> carried(self.afters[k], self.befores[k + 1], base)
    }

    /// The `k`th edit was undone after those behind it.
    pub open spec fn undone(self, base: Seq<u8>, k: int) -> bool {
        &&& undo_done(self.undo_froms[k], self.undo_steps[k], self.undo_tos[k], base)
        &&& self.undo_tos[k].wf()
        &&& carried(
            if k + 1 < self.befores.len() {
                self.undo_tos[k + 1]
            } else {
                self.afters[k]
            },
            self.undo_froms[k],
            base,
        )
    }

    /// The `k`th edit was redone after those before it.
    pub open spec fn redone(self, base: Seq<u8>, k: int) -> bool {
        &&& redo_done(self.redo_froms[k], self.redo_steps[k], self.redo_tos[k], base)
        &&& self.redo_tos[k].wf()
        &&& carried(
            if k > 0 {
                self.redo_tos[k - 1]
            } else {
                self.undo_tos[0]
            },
            self.redo_froms[k],
            base,
        )
    }
}

/// The state before the `k`th edit comes back.
proof fn lemma_undone_to(run: Run, base: Seq<u8>, k: int)
    requires
        forall|i: int| 0 <= i < run.befores.len() ==> #[trigger] run.edited(base, i),
        forall|i: int| 0 <= i < run.befores.len() ==> #[trigger] run.undone(base, i),
        0 <= k < run.befores.len(),
    ensures
        run.undo_steps[k] == Step::Done(Ok::<(), EditError>(())),
        same_document(run.befores[k], run.undo_tos[k], base),
        run.undo_tos[k].undo_stack@ == run.befores[k].undo_stack@,
        run.undo_tos[k].redo_stack@ == run.undo_froms[k].redo_stack@.push(
            run.afters[k].undo_stack@.last(),
        ),
        run.undo_tos[k].cursor_byte == run.befores[k].cursor_byte,
    decreases run.befores.len() - k,
{
    assert(run.edited(base, k));
    assert(run.undone(base, k));
    if k + 1 < run.befores.len() {
        lemma_undone_to(run, base, k + 1);
    }
    let a = run.befores[k];
    let b = run.afters[k];
    let from = run.undo_froms[k];
    let step = run.undo_steps[k];
    let to = run.undo_tos[k];
    assert(same_document(b, from, base));
    assert(from.undo_stack@ == b.undo_stack@);
    if exists|bytes: Seq<u8>| #[trigger] insert_done(a, bytes, b) {
        let bytes = choose|bytes: Seq<u8>| #[trigger] insert_done(a, bytes, b);
        lemma_insert_undone(a, bytes, b, from, step, to, base);
    } else {
        let n = choose|n: int| #[trigger] delete_done(a, n, b);
        lemma_delete_undone(a, n, b, from, step, to, base);
    }
}

/// The state behind the `k`th edit comes back.
proof fn lemma_redone_to(run: Run, base: Seq<u8>, k: int)
    requires
        forall|i: int| 0 <= i < run.befores.len() ==> #[trigger] run.edited(base, i),
        forall|i: int| 0 <= i < run.befores.len() ==> #[trigger] run.undone(base, i),
        forall|i: int| 0 <= i < run.befores.len() ==> #[trigger] run.redone(base, i),
        0 <= k < run.befores.len(),
    ensures
        run.redo_steps[k] == Step::Done(Ok::<(), EditError>(())),
        same_document(run.afters[k], run.redo_tos[k], base),
        run.redo_tos[k].redo_stack@ == run.undo_froms[k].redo_stack@,
        run.redo_tos[k].cursor_byte == run.afters[k].cursor_byte,
    decreases k,
{
    assert(run.edited(base, k));
    assert(run.undone(base, k));
    assert(run.redone(base, k));
    lemma_undone_to(run, base, k);
    if k > 0 {
        assert(run.edited(base, k - 1));
        assert(run.undone(base, k - 1));
        lemma_redone_to(run, base, k - 1);
    }
    let a = run.befores[k];
    let b = run.afters[k];
    let from = run.redo_froms[k];
    let step = run.redo_steps[k];
    let to = run.redo_tos[k];
    assert(same_document(a, from, base));
    assert(from.redo_stack@ == run.undo_tos[k].redo_stack@);
    assert(from.redo_stack@.drop_last() =~= run.undo_froms[k].redo_stack@);
    if exists|bytes: Seq<u8>| #[trigger] insert_done(a, bytes, b) {
        let bytes = choose|bytes: Seq<u8>| #[trigger] insert_done(a, bytes, b);
        lemma_insert_redone(a, bytes, b, from, step, to, base);
    } else {
        let n = choose|n: int| #[trigger] delete_done(a, n, b);
        lemma_delete_redone(a, n, b, from, step, to, base);
    }
}

/// Undo goes back through any number of edits: undoing those that were made since
/// is never refused, and gives back the document, its size, the layout of its
/// blocks and the cursor as they were before each of them, wherever the cursor
/// has moved and whichever blocks have been loaded or let go in between.
///
/// The exceptions are a history without room for the edits, a document without
/// any block, and a cache that does not hold two blocks.
pub proof fn law_undo_goes_all_the_way_back(run: Run, base: Seq<u8>, k: int)
    requires
        forall|i: int| 0 <= i < run.befores.len() ==> #[trigger] run.edited(base, i),
        forall|i: int| 0 <= i < run.befores.len() ==> #[trigger] run.undone(base, i),
        0 <= k < run.befores.len(),
    ensures
        run.undo_steps[k] == Step::Done(Ok::<(), EditError>(())),
        run.undo_tos[k].content(base) == run.befores[k].content(base),
        run.undo_tos[k].file_size == run.befores[k].file_size,
        run.undo_tos[k].block_count == run.befores[k].block_count,
        run.undo_tos[k].delta_table.sizes() == run.befores[k].delta_table.sizes(),
        run.undo_tos[k].cursor_byte == run.befores[k].cursor_byte,
{
    lemma_undone_to(run, base, k);
}

/// Redo goes forward again through all that was undone: it is never refused, and
/// gives back the document, its size, the layout of its blocks and the cursor as
/// each of the edits left them.
///
/// The exceptions are those of undoing them.
pub proof fn law_redo_goes_all_the_way_forward(run: Run, base: Seq<u8>, k: int)
    requires
        forall|i: int| 0 <= i < run.befores.len() ==> #[trigger] run.edited(base, i),
        forall|i: int| 0 <= i < run.befores.len() ==> #[trigger] run.undone(base, i),
        forall|i: int| 0 <= i < run.befores.len() ==> #[trigger] run.redone(base, i),
        0 <= k < run.befores.len(),
    ensures
        run.redo_steps[k] == Step::Done(Ok::<(), EditError>(())),
        run.redo_tos[k].content(base) == run.afters[k].content(base),
        run.redo_tos[k].file_size == run.afters[k].file_size,
        run.redo_tos[k].block_count == run.afters[k].block_count,
        run.redo_tos[k].delta_table.sizes() == run.afters[k].delta_table.sizes(),
        run.redo_tos[k].cursor_byte == run.afters[k].cursor_byte,
{
    lemma_redone_to(run, base, k);
}

} // verus!
