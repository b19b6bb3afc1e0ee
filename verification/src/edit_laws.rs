//! What the edits mean for the document as a whole.

use crate::block;
use crate::block::{BlockId, BlockModel};
use crate::cache::CacheModel;
use crate::content;
use crate::delta_table;
use crate::editor;
use crate::editor::{Editor, Step, UndoEntry};
use crate::error::EditError;
use crate::layout;
use vstd::prelude::*;

verus! {

/// The cursor's block and its place in it lead back to the cursor.
pub proof fn lemma_cursor_place(ed: Editor, base: Seq<u8>)
    requires
        ed.wf(),
        ed.consistent(base),
        ed.cursor_byte <= ed.file_size,
        ed.block_count > 0,
    ensures
        ({
            let sizes = ed.delta_table.sizes();
            let b = delta_table::block_at(sizes, ed.cursor_byte as int);
            &&& 0 <= b < sizes.len()
            &&& ed.cursor_block() == b
            &&& delta_table::prefix(sizes, b) + ed.cursor_inner() == ed.cursor_byte
            &&& ed.cursor_inner() <= sizes[b]
        }),
{
    let sizes = ed.delta_table.sizes();
    let offset = ed.cursor_byte as int;
    lemma_last_start(sizes, offset, sizes.len() - 1);
    let b = delta_table::block_at(sizes, offset);
    assert(delta_table::prefix(sizes, b + 1) == delta_table::prefix(sizes, b) + sizes[b]);
    assert(sizes[b] <= usize::MAX);
}

/// The last block that starts at or before an offset does, and the next one
/// does not.
proof fn lemma_last_start(sizes: Seq<i64>, offset: int, k: int)
    requires
        0 <= k < sizes.len(),
        0 <= offset,
    ensures
        ({
            let b = delta_table::last_start(sizes, offset, k);
            &&& 0 <= b <= k
            &&& delta_table::prefix(sizes, b) <= offset
            &&& b < k ==> offset < delta_table::prefix(sizes, b + 1)
        }),
    decreases k,
{
    if k > 0 && delta_table::prefix(sizes, k) > offset {
        lemma_last_start(sizes, offset, k - 1);
    }
}

/// The first edit of a document without blocks leaves every block without edits
/// stored as it is.
pub proof fn lemma_first_edit_safe(c: CacheModel, bytes: Seq<u8>, base: Seq<u8>, block_size: nat)
    requires
        content::safe(c, base, block_size),
    ensures
        content::safe(
            c.loaded(0, BlockModel::clean(Seq::empty())).touched(0).edited(0, bytes),
            base,
            block_size,
        ),
{
    let first = BlockModel::clean(Seq::empty());
    let d = c.loaded(0, first).touched(0);
    c.lemma_loaded(0, first);
    let e = d.edited(0, bytes);
    assert forall|id: BlockId| #[trigger] e.has(id) && !e.blocks[id].unsaved() implies content::stored(
        e,
        base,
        block_size,
        id,
    ) == e.blocks[id].bytes by {
        content::lemma_edited_bytes(d, 0, bytes, base, block_size, id);
        content::lemma_loaded_keeps(c, 0, first, base, block_size, id);
        assert(c.has(id));
    }
}

/// An insertion puts its bytes into the document at the cursor and changes
/// nothing else of it, the recorded sizes stay right, and no edit is lost when a
/// block has to go.
pub proof fn law_insert_splices(before: Editor, bytes: Seq<u8>, after: Editor, base: Seq<u8>)
    requires
        before.wf(),
        bytes.len() <= usize::MAX,
        before.editable(bytes.len() as int),
        before.consistent(base),
        before.cursor_byte <= before.file_size,
        before.cache_to_edit().has(before.cursor_block()),
        editor::inserted(before, bytes, after),
        before.safe(base),
    ensures
        after.consistent(base),
        after.safe(base),
        after.content(base) == block::spliced_in(
            before.content(base),
            before.cursor_byte as int,
            bytes,
        ),
{
    let bs = before.block_size();
    let b = before.cursor_block();
    let inner = before.cursor_inner();
    let n = bytes.len();
    let c = before.cache_to_edit();
    let sizes = before.sizes_to_edit();
    let c2 = before.cache_with(bytes);
    if before.fresh() {
        reveal_with_fuel(delta_table::prefix, 2);
        before.cache@.lemma_loaded(0, BlockModel::clean(Seq::empty()));
        assert(before.blocks(base) =~= Seq::<Seq<u8>>::empty());
    } else {
        lemma_cursor_place(before, base);
    }
    let olds = if before.fresh() {
        seq![Seq::<u8>::empty()]
    } else {
        before.blocks(base)
    };
    assert(content::joined(olds) =~= before.content(base)) by {
        if before.fresh() {
            assert(olds.drop_last() =~= Seq::<Seq<u8>>::empty());
        }
    }
    assert(olds[b as int] == c.blocks[b].bytes);
    assert forall|i: int| 0 <= i < olds.len() implies #[trigger] sizes[i] == olds[i].len() by {}
    let news = olds.update(b as int, block::spliced_in(olds[b as int], inner as int, bytes));
    content::lemma_prefix_is_length(sizes, olds, b as int);
    content::lemma_joined_insert(olds, b as int, inner as int, bytes);
    let total = delta_table::total(sizes);
    let grown = sizes.update(b as int, (sizes[b as int] + n) as i64);
    delta_table::lemma_prefix_update(
        sizes,
        b as int,
        (sizes[b as int] + n) as i64,
        sizes.len() as int,
    );
    editor::lemma_size_in_total(sizes, b as int);
    assert forall|i: int| 0 <= i < olds.len() implies #[trigger] content::bytes_of(
        c2,
        base,
        bs,
        i as u64,
    ) == news[i] by {
        content::lemma_edited_bytes(
            c.touched(b),
            b,
            block::spliced_in(c.blocks[b].bytes, inner as int, bytes),
            base,
            bs,
            i as u64,
        );
        if !before.fresh() {
            assert(content::bytes_of(c, base, bs, i as u64) == before.blocks(base)[i]);
        }
    }
    let spliced = block::spliced_in(c.blocks[b].bytes, inner as int, bytes);
    assert(content::safe(c2, base, bs)) by {
        if before.fresh() {
            lemma_first_edit_safe(before.cache@, spliced, base, bs);
        } else {
            content::lemma_touched_safe(c, b, base, bs);
            content::lemma_edited_safe(c.touched(b), b, spliced, base, bs);
        }
    }
    match before.split_with(bytes) {
        None => {
            assert(after.blocks(base) =~= news);
            content::lemma_touched_safe(c2, b, base, bs);
        },
        Some((right, mid)) => {
            let whole = c2.blocks[b].bytes;
            assert(whole == news[b as int]) by {
                assert(content::bytes_of(c2, base, bs, b) == news[b as int]);
                content::lemma_edited_bytes(
                    c.touched(b),
                    b,
                    block::spliced_in(c.blocks[b].bytes, inner as int, bytes),
                    base,
                    bs,
                    b,
                );
            }
            let left = whole.subrange(0, mid as int);
            let tail = whole.subrange(mid as int, whole.len() as int);
            let h = editor::halved(c2, b);
            assert(before.fresh() || before.cache@.has(b));
            assert(whole.len() / 2 == mid);
            content::lemma_touched_safe(c2, b, base, bs);
            content::lemma_edited_safe(c2.touched(b), b, left, base, bs);
            content::lemma_loaded_safe(h, right, BlockModel::cut_off(tail), base, bs);
            assert forall|i: int| 0 <= i < olds.len() + 1 implies after.blocks(base)[i]
                == content::cut(news, b as int, mid as int)[i] by {
                let id = i as u64;
                content::lemma_edited_bytes(c2.touched(b), b, left, base, bs, id);
                content::lemma_edited_bytes(
                    c.touched(b),
                    b,
                    block::spliced_in(c.blocks[b].bytes, inner as int, bytes),
                    base,
                    bs,
                    id,
                );
                if id != b && i < olds.len() {
                    assert(content::bytes_of(c2, base, bs, id) == news[i]);
                }
                content::lemma_loaded_keeps(
                    h,
                    right,
                    BlockModel::cut_off(tail),
                    base,
                    bs,
                    id,
                );
            }
            assert(after.blocks(base) =~= content::cut(news, b as int, mid as int));
            content::lemma_joined_cut(news, b as int, mid as int);
            lemma_cut_sizes(grown, b as int, mid as i64, (whole.len() - mid) as i64);
        },
    }
    assert forall|i: int| 0 <= i < after.block_count implies #[trigger] after.delta_table.sizes()[i]
        == after.blocks(base)[i].len() by {}
}

/// Cutting a block in two keeps the total of the sizes.
proof fn lemma_cut_sizes(sizes: Seq<i64>, b: int, left: i64, right: i64)
    requires
        0 <= b < sizes.len(),
        sizes[b] == left + right,
    ensures
        delta_table::total(sizes.update(b, left).insert(b + 1, right)) == delta_table::total(sizes),
{
    let first = sizes.update(b, left);
    delta_table::lemma_prefix_update(sizes, b, left, sizes.len() as int);
    delta_table::lemma_prefix_insert(first, b + 1, right, first.len() as int + 1);
}

/// The blocks of `after`, whose cache is `c` with block `b` edited, are those
/// over `c` with block `b` edited.
pub proof fn lemma_blocks_after_edit(
    c: CacheModel,
    b: BlockId,
    bytes: Seq<u8>,
    after: Editor,
    base: Seq<u8>,
    olds: Seq<Seq<u8>>,
)
    requires
        c.has(b),
        b < after.block_count,
        after.cache@ == c.edited(b, bytes),
        olds.len() == after.block_count,
        forall|i: int|
            0 <= i < olds.len() ==> #[trigger] olds[i] == content::bytes_of(
                c,
                base,
                after.block_size(),
                i as u64,
            ),
    ensures
        after.blocks(base) == olds.update(b as int, bytes),
{
    assert forall|i: int| 0 <= i < olds.len() implies after.blocks(base)[i] == olds.update(
        b as int,
        bytes,
    )[i] by {
        content::lemma_edited_bytes(c, b, bytes, base, after.block_size(), i as u64);
        assert(olds[i] == content::bytes_of(c, base, after.block_size(), i as u64));
    }
    assert(after.blocks(base) =~= olds.update(b as int, bytes));
}

/// Where a deletion makes blocks join, they are the last two.
pub proof fn lemma_merge_place(before: Editor, n: int)
    requires
        before.cursor_block() < before.block_count,
    ensures
        before.partner_without(n) matches Some(o) ==> {
            &&& editor::first_of(before.cursor_block(), o) + 2 == before.block_count
            &&& o < before.block_count
        },
        before.merge_without(n) matches Some((right, at)) ==> {
            let c = before.cache_without(n);
            &&& 0 < right
            &&& right + 1 == before.block_count
            &&& before.cursor_block() == right || before.cursor_block() + 1 == right
            &&& c.has(right)
            &&& c.has((right - 1) as u64)
            &&& at == c.blocks[(right - 1) as u64].bytes.len()
        },
{
}

/// What the blocks hold once `n` bytes are deleted, before any join.
pub proof fn lemma_blocks_without(before: Editor, n: int, base: Seq<u8>, i: int)
    requires
        before.wf(),
        before.cache@.has(before.cursor_block()),
        before.cursor_block() < before.block_count,
        0 <= i < before.block_count,
    ensures
        ({
            let b = before.cursor_block();
            let inner = before.cursor_inner();
            let c = before.cache_without(n);
            let olds = before.blocks(base);
            let cut = block::spliced_out(before.cache@.blocks[b].bytes, inner as int, inner + n);
            &&& content::bytes_of(c, base, before.block_size(), i as u64) == olds.update(
                b as int,
                cut,
            )[i]
            &&& c.has(i as u64) == before.cache@.has(i as u64)
            &&& c.blocks[b].bytes == cut
            &&& i != b ==> c.blocks[i as u64] == before.cache@.blocks[i as u64]
        }),
{
    let b = before.cursor_block();
    let inner = before.cursor_inner();
    let two = before.cache@.touched(b).touched(b);
    let asked = match before.partner_without(n) {
        Some(o) => two.touched(o),
        None => two,
    };
    content::lemma_edited_bytes(
        asked,
        b,
        block::spliced_out(before.cache@.blocks[b].bytes, inner as int, inner + n),
        base,
        before.block_size(),
        i as u64,
    );
}

/// A deletion leaves every block without edits stored as it is, before any
/// join.
proof fn lemma_without_safe(before: Editor, n: int, base: Seq<u8>)
    requires
        before.safe(base),
        before.cache@.has(before.cursor_block()),
    ensures
        content::safe(before.cache_without(n), base, before.block_size()),
{
    let b = before.cursor_block();
    let inner = before.cursor_inner();
    let bs = before.block_size();
    let one = before.cache@.touched(b);
    let two = one.touched(b);
    content::lemma_touched_safe(before.cache@, b, base, bs);
    content::lemma_touched_safe(one, b, base, bs);
    let asked = match before.partner_without(n) {
        Some(o) => two.touched(o),
        None => two,
    };
    if before.partner_without(n) is Some {
        content::lemma_touched_safe(two, before.partner_without(n)->0, base, bs);
    }
    content::lemma_edited_safe(
        asked,
        b,
        block::spliced_out(before.cache@.blocks[b].bytes, inner as int, inner + n),
        base,
        bs,
    );
}

/// Once the last block was joined to the one before it, the document has the
/// joined blocks, and the recorded sizes are right.
pub proof fn lemma_fused_document(
    c: CacheModel,
    left: BlockId,
    sizes: Seq<i64>,
    olds: Seq<Seq<u8>>,
    after: Editor,
    base: Seq<u8>,
)
    requires
        c.has(left),
        c.has((left + 1) as u64),
        left + 2 == olds.len(),
        olds.len() <= u64::MAX,
        sizes.len() == olds.len(),
        delta_table::summable(sizes),
        forall|i: int| 0 <= i < olds.len() ==> #[trigger] sizes[i] == olds[i].len(),
        forall|i: int|
            0 <= i < olds.len() ==> #[trigger] olds[i] == content::bytes_of(
                c,
                base,
                after.block_size(),
                i as u64,
            ),
        content::safe(c, base, after.block_size()),
        after.cache@ == editor::fused(c, left),
        after.block_count == left + 1,
        after.delta_table.sizes() == delta_table::merged(sizes, left as int),
        after.file_size == delta_table::total(sizes),
    ensures
        after.blocks(base) == content::fused(olds, left as int),
        after.content(base) == content::joined(olds),
        after.consistent(base),
        after.safe(base),
{
    let bs = after.block_size();
    let right = (left + 1) as u64;
    let whole = c.blocks[left].bytes + c.blocks[right].bytes;
    let emptied = c.edited(right, Seq::empty());
    content::lemma_edited_safe(c, right, Seq::empty(), base, bs);
    content::lemma_edited_bytes(c, right, Seq::empty(), base, bs, left);
    content::lemma_edited_safe(emptied, left, whole, base, bs);
    assert(olds[left as int] == c.blocks[left].bytes);
    assert(olds[left + 1] == c.blocks[right].bytes);
    assert forall|i: int| 0 <= i < left + 1 implies after.blocks(base)[i] == content::fused(
        olds,
        left as int,
    )[i] by {
        content::lemma_edited_bytes(c, right, Seq::empty(), base, bs, i as u64);
        content::lemma_edited_bytes(emptied, left, whole, base, bs, i as u64);
        assert(olds[i] == content::bytes_of(c, base, bs, i as u64));
    }
    assert(after.blocks(base) =~= content::fused(olds, left as int));
    content::lemma_joined_fuse(olds, left as int);
    delta_table::lemma_merged(sizes, left as int, sizes.len() - 1);
    assert forall|i: int| 0 <= i < after.block_count implies #[trigger] after.delta_table.sizes()[i]
        == after.blocks(base)[i].len() by {
        assert(sizes[i] == olds[i].len());
        assert(sizes[left + 1] == olds[left + 1].len());
    }
}

/// A deletion takes its bytes out of the document at the cursor and changes
/// nothing else of it, the recorded sizes stay right, and no edit is lost when a
/// block has to go. Where it makes blocks join, that changes nothing of the
/// document.
pub proof fn law_delete_splices(before: Editor, n: int, after: Editor, base: Seq<u8>)
    requires
        before.wf(),
        before.consistent(base),
        before.safe(base),
        0 < n,
        before.cursor_byte + n <= before.file_size,
        before.cache@.has(before.cursor_block()),
        before.cursor_inner() + n <= before.cache@.blocks[before.cursor_block()].bytes.len(),
        editor::deleted(before, n, after),
    ensures
        after.consistent(base),
        after.safe(base),
        after.content(base) == block::spliced_out(
            before.content(base),
            before.cursor_byte as int,
            before.cursor_byte + n,
        ),
{
    let b = before.cursor_block();
    let inner = before.cursor_inner();
    let c = before.cache_without(n);
    let sizes = before.delta_table.sizes();
    let shrunk = before.sizes_without(n);
    let olds = before.blocks(base);
    let bs = before.block_size();
    lemma_cursor_place(before, base);
    let cut = block::spliced_out(before.cache@.blocks[b].bytes, inner as int, inner + n);
    let news = olds.update(b as int, cut);
    assert(olds[b as int] == before.cache@.blocks[b].bytes);
    content::lemma_prefix_is_length(sizes, olds, b as int);
    content::lemma_joined_delete(olds, b as int, inner as int, inner + n);
    assert(sizes[b as int] == olds[b as int].len());
    before.delta_table.lemma_wf();
    delta_table::lemma_prefix_update(
        sizes,
        b as int,
        (sizes[b as int] - n) as i64,
        sizes.len() as int,
    );
    assert forall|i: int| 0 <= i < news.len() implies {
        &&& #[trigger] news[i] == content::bytes_of(c, base, bs, i as u64)
        &&& shrunk[i] == news[i].len()
    } by {
        lemma_blocks_without(before, n, base, i);
        assert(sizes[i] == olds[i].len());
    }
    lemma_without_safe(before, n, base);
    lemma_merge_place(before, n);
    match before.merge_without(n) {
        Some((right, _)) => {
            delta_table::lemma_run_fits(sizes, 0, sizes.len() as int);
            lemma_summable(shrunk);
            lemma_fused_document(c, (right - 1) as u64, shrunk, news, after, base);
        },
        None => {
            assert(after.blocks(base) =~= news);
            assert forall|i: int| 0 <= i < after.block_count implies
                #[trigger] after.delta_table.sizes()[i] == after.blocks(base)[i].len() by {
                assert(news[i] == after.blocks(base)[i]);
            }
        },
    }
}

/// Sizes that are not negative and come to no more than a number can hold can be
/// added up.
pub proof fn lemma_summable(sizes: Seq<i64>)
    requires
        forall|i: int| 0 <= i < sizes.len() ==> #[trigger] sizes[i] >= 0,
        delta_table::total(sizes) <= i64::MAX,
    ensures
        delta_table::summable(sizes),
{
    delta_table::lemma_magnitude_of_nonnegative(sizes, sizes.len() as int);
}

/// What undoing an insertion does to the document: its bytes are taken out.
pub proof fn lemma_undo_insert(
    before: Editor,
    unreadable: Option<BlockId>,
    e: UndoEntry,
    step: Step<Result<(), EditError>>,
    after: Editor,
    base: Seq<u8>,
)
    requires
        before.wf(),
        before.undo_fits(),
        before.consistent(base),
        before.undo_stack@.len() > 0,
        e == before.undo_stack@.last(),
        e is InsertBytes,
        e->InsertBytes_bytes@.len() > 0,
        e->split is Some ==> e->InsertBytes_block_id + 2 == before.block_count,
        before.cache@.has(e->InsertBytes_block_id),
        step == Step::Done(Ok::<(), EditError>(())),
        before.safe(base),
        editor::undo_insert_outcome(before, unreadable, e, step, after),
    ensures
        after.consistent(base),
        after.safe(base),
        after.content(base) == ({
            let at = delta_table::prefix(
                before.delta_table.sizes(),
                e->InsertBytes_block_id as int,
            ) + e->InsertBytes_inner_pos;
            block::spliced_out(before.content(base), at, at + e->InsertBytes_bytes@.len())
        }),
{
    let b = e->InsertBytes_block_id;
    let inner = e->InsertBytes_inner_pos as int;
    let n = e->InsertBytes_bytes@.len();
    let (c, sizes, originals, count) = before.unsplit(b, e->split);
    let bs = before.block_size();
    let given = before.blocks(base);
    before.delta_table.lemma_wf();
    let olds = if e->split is Some {
        content::fused(given, b as int)
    } else {
        given
    };
    assert(sizes.len() == olds.len());
    if e->split is Some {
        content::lemma_joined_fuse(given, b as int);
        delta_table::lemma_merged(before.delta_table.sizes(), b as int, b as int);
        delta_table::lemma_merged(
            before.delta_table.sizes(),
            b as int,
            before.delta_table.sizes().len() - 1,
        );
        assert(before.delta_table.sizes()[b as int] == given[b as int].len());
        assert(before.delta_table.sizes()[b + 1] == given[b + 1].len());
        assert forall|i: int| 0 <= i < olds.len() implies #[trigger] olds[i] == content::bytes_of(
            c,
            base,
            bs,
            i as u64,
        ) by {}
        assert forall|i: int| 0 <= i < olds.len() implies #[trigger] sizes[i] == olds[i].len() by {
            assert(before.delta_table.sizes()[i] == given[i].len());
        }
    } else {
        assert forall|i: int| 0 <= i < olds.len() implies #[trigger] sizes[i] == olds[i].len() by {}
    }
    let taken = block::spliced_out(c.blocks[b].bytes, inner, inner + n);
    assert(olds[b as int] == c.blocks[b].bytes);
    if let Some((right, _)) = e->split {
        content::lemma_merge_safe(before.cache@, b, right, base, bs);
        content::lemma_vacated_safe(before.cache@.merge(b, right), right, base, bs);
    }
    content::lemma_touched_safe(c, b, base, bs);
    content::lemma_edited_safe(c.touched(b), b, taken, base, bs);
    lemma_blocks_after_edit(c.touched(b), b, taken, after, base, olds);
    content::lemma_prefix_is_length(sizes, olds, b as int);
    content::lemma_joined_delete(olds, b as int, inner, inner + n);
    delta_table::lemma_prefix_update(
        sizes,
        b as int,
        (sizes[b as int] - n) as i64,
        sizes.len() as int,
    );
    assert forall|i: int| 0 <= i < after.block_count implies #[trigger] after.delta_table.sizes()[i]
        == after.blocks(base)[i].len() by {
        assert(sizes[i] == olds[i].len());
    }
}

/// The blocks once those that a deletion made join are apart again, and that
/// they are the blocks of the cache then.
pub proof fn lemma_unmerged(before: Editor, b: BlockId, merge: Option<(BlockId, usize)>, base: Seq<u8>)
    requires
        before.wf(),
        before.consistent(base),
        before.safe(base),
        before.cache@.has(Editor::home_of(b, merge)),
        Editor::home_of(b, merge) < before.block_count,
        merge matches Some((right, at)) ==> {
            &&& 0 < right
            &&& right == before.block_count
            &&& before.block_count + 2 < usize::MAX
            &&& at <= before.cache@.blocks[Editor::home_of(b, merge)].bytes.len()
            &&& b == right || b + 1 == right
        },
    ensures
        ({
            let (c, sizes, _, count) = before.unmerged(b, merge);
            let bs = before.block_size();
            let olds = apart(before, b, merge, base);
            &&& count == olds.len()
            &&& sizes.len() == olds.len()
            &&& b < olds.len()
            &&& c.has(b)
            &&& content::safe(c, base, bs)
            &&& content::joined(olds) == before.content(base)
            &&& delta_table::total(sizes) == delta_table::total(before.delta_table.sizes())
            &&& forall|i: int| 0 <= i < olds.len() ==> #[trigger] sizes[i] == olds[i].len()
            &&& forall|i: int|
                0 <= i < olds.len() ==> #[trigger] olds[i] == content::bytes_of(
                    c,
                    base,
                    bs,
                    i as u64,
                )
        }),
{
    let (c, sizes, _, count) = before.unmerged(b, merge);
    let bs = before.block_size();
    let olds = apart(before, b, merge, base);
    let given = before.blocks(base);
    let gsizes = before.delta_table.sizes();
    let home = Editor::home_of(b, merge);
    let asked = before.cache@.touched(home);
    content::lemma_touched_safe(before.cache@, home, base, bs);
    assert(given[home as int] == before.cache@.blocks[home].bytes);
    assert(gsizes[home as int] == given[home as int].len());
    if let Some((right, at)) = merge {
        content::lemma_split_safe(asked, home, at as int, base, bs);
        content::lemma_joined_cut(given, home as int, at as int);
        lemma_cut_sizes(gsizes, home as int, at as i64, (given[home as int].len() - at) as i64);
    }
    assert forall|i: int| 0 <= i < olds.len() implies {
        &&& #[trigger] olds[i] == content::bytes_of(c, base, bs, i as u64)
        &&& sizes[i] == olds[i].len()
    } by {
        if i < given.len() {
            assert(gsizes[i] == given[i].len());
        }
    }
}

/// The blocks of the document once those that a deletion made join are apart
/// again.
pub open spec fn apart(
    ed: Editor,
    b: BlockId,
    merge: Option<(BlockId, usize)>,
    base: Seq<u8>,
) -> Seq<Seq<u8>> {
    match merge {
        Some((right, at)) => content::cut(ed.blocks(base), right - 1, at as int),
        None => ed.blocks(base),
    }
}

/// What undoing a deletion does to the document: its bytes are put back in.
pub proof fn lemma_undo_delete(
    before: Editor,
    unreadable: Option<BlockId>,
    e: UndoEntry,
    step: Step<Result<(), EditError>>,
    after: Editor,
    base: Seq<u8>,
)
    requires
        before.wf(),
        before.undo_fits(),
        before.consistent(base),
        before.safe(base),
        before.undo_stack@.len() > 0,
        e == before.undo_stack@.last(),
        e is DeleteBytes,
        before.cache@.has(Editor::home_of(e->DeleteBytes_block_id, e->merge)),
        step == Step::Done(Ok::<(), EditError>(())),
        editor::undo_delete_outcome(before, unreadable, e, step, after),
    ensures
        after.consistent(base),
        after.safe(base),
        after.content(base) == block::spliced_in(
            before.content(base),
            delta_table::prefix(
                before.unmerged(e->DeleteBytes_block_id, e->merge).1,
                e->DeleteBytes_block_id as int,
            ) + e->DeleteBytes_inner_pos,
            e->DeleteBytes_bytes@,
        ),
        ({
            let b = e->DeleteBytes_block_id;
            let olds = apart(before, b, e->merge, base);
            after.blocks(base) == olds.update(
                b as int,
                block::spliced_in(
                    olds[b as int],
                    e->DeleteBytes_inner_pos as int,
                    e->DeleteBytes_bytes@,
                ),
            )
        }),
{
    let b = e->DeleteBytes_block_id;
    let inner = e->DeleteBytes_inner_pos as int;
    let bytes = e->DeleteBytes_bytes@;
    let (c, sizes, _, _) = before.unmerged(b, e->merge);
    let olds = apart(before, b, e->merge, base);
    lemma_unmerged(before, b, e->merge, base);
    assert(olds[b as int] == c.blocks[b].bytes);
    editor::lemma_size_in_total(sizes, b as int);
    lemma_put_in(c, sizes, olds, b, inner, bytes, after, base);
}

/// Bytes put into a block are put into the document.
proof fn lemma_put_in(
    c: CacheModel,
    sizes: Seq<i64>,
    olds: Seq<Seq<u8>>,
    b: BlockId,
    inner: int,
    bytes: Seq<u8>,
    after: Editor,
    base: Seq<u8>,
)
    requires
        b < olds.len(),
        sizes.len() == olds.len(),
        forall|i: int| 0 <= i < olds.len() ==> #[trigger] sizes[i] == olds[i].len(),
        forall|i: int|
            0 <= i < olds.len() ==> #[trigger] olds[i] == content::bytes_of(
                c,
                base,
                after.block_size(),
                i as u64,
            ),
        c.has(b),
        content::safe(c, base, after.block_size()),
        0 <= inner <= c.blocks[b].bytes.len(),
        sizes[b as int] + bytes.len() <= i64::MAX,
        after.block_count == olds.len(),
        after.file_size == delta_table::total(sizes) + bytes.len(),
        after.cache@ == c.edited(b, block::spliced_in(c.blocks[b].bytes, inner, bytes)),
        after.delta_table.sizes() == sizes.update(
            b as int,
            (sizes[b as int] + bytes.len()) as i64,
        ),
    ensures
        after.consistent(base),
        after.safe(base),
        after.content(base) == block::spliced_in(
            content::joined(olds),
            delta_table::prefix(sizes, b as int) + inner,
            bytes,
        ),
        after.blocks(base) == olds.update(
            b as int,
            block::spliced_in(c.blocks[b].bytes, inner, bytes),
        ),
{
    let filled = block::spliced_in(c.blocks[b].bytes, inner, bytes);
    assert(olds[b as int] == c.blocks[b].bytes);
    lemma_blocks_after_edit(c, b, filled, after, base, olds);
    content::lemma_edited_safe(c, b, filled, base, after.block_size());
    content::lemma_prefix_is_length(sizes, olds, b as int);
    content::lemma_joined_insert(olds, b as int, inner, bytes);
    delta_table::lemma_prefix_update(
        sizes,
        b as int,
        (sizes[b as int] + bytes.len()) as i64,
        sizes.len() as int,
    );
    assert forall|i: int| 0 <= i < after.block_count implies #[trigger] after.delta_table.sizes()[i]
        == after.blocks(base)[i].len() by {
        assert(sizes[i] == olds[i].len());
    }
}

/// Pinning a block and handing it back leaves the pins as they were.
pub proof fn lemma_edited_pins(c: CacheModel, b: BlockId, bytes: Seq<u8>)
    requires
        c.has(b),
        c.pinned.dom().contains(b) ==> c.pinned[b] > 0,
        c.pins(b) < usize::MAX,
    ensures
        c.edited(b, bytes).pinned == c.pinned,
        c.edited(b, bytes).has(b),
        c.edited(b, bytes).blocks[b].bytes == bytes,
        c.edited(b, bytes).blocks[b].unsaved(),
{
    assert(c.edited(b, bytes).pinned =~= c.pinned);
}

/// Every pin is one that was taken.
pub open spec fn pins_counted(c: CacheModel) -> bool {
    forall|id: BlockId| #[trigger] c.pinned.dom().contains(id) ==> 0 < c.pinned[id]
}

/// The state that an insertion leaves can be undone.
proof fn lemma_inserted_state(before: Editor, bytes: Seq<u8>, after: Editor)
    requires
        before.wf(),
        bytes.len() <= usize::MAX,
        before.editable(bytes.len() as int),
        pins_counted(before.cache@),
        before.cursor_byte <= before.file_size,
        before.cache_to_edit().has(before.cursor_block()),
        before.cursor_inner() <= before.cache_to_edit().blocks[before.cursor_block()].bytes.len(),
        before.cursor_block() < before.sizes_to_edit().len(),
        before.cursor_inner() <= before.sizes_to_edit()[before.cursor_block() as int],
        editor::inserted(before, bytes, after),
    ensures
        after.cache@.pinned == before.cache@.pinned,
        after.cache@.wal == before.cache@.wal,
        ({
            let b = before.cursor_block();
            let c = before.cache_to_edit();
            let whole = block::spliced_in(
                c.blocks[b].bytes,
                before.cursor_inner() as int,
                bytes,
            );
            match before.split_with(bytes) {
                Some((right, mid)) => {
                    &&& right == b + 1
                    &&& mid == whole.len() / 2
                    &&& after.cache@.has(right)
                    &&& after.cache@.blocks[right].bytes == whole.subrange(
                        mid as int,
                        whole.len() as int,
                    )
                    &&& after.cache@.has(b) ==> after.cache@.blocks[b].bytes == whole.subrange(
                        0,
                        mid as int,
                    )
                },
                None => after.cache@.has(b) && after.cache@.blocks[b].bytes == whole,
            }
        }),
{
    let b = before.cursor_block();
    let c = before.cache_to_edit();
    let whole = block::spliced_in(c.blocks[b].bytes, before.cursor_inner() as int, bytes);
    before.cache@.lemma_loaded(0, BlockModel::clean(Seq::empty()));
    assert(c.pinned == before.cache@.pinned);
    lemma_edited_pins(c.touched(b), b, whole);
    let c2 = before.cache_with(bytes);
    if before.split_with(bytes) is Some {
        assert(before.fresh() || before.cache@.has(b));
        let mid = whole.len() as int / 2;
        lemma_edited_pins(c2.touched(b), b, whole.subrange(0, mid));
        editor::halved(c2, b).lemma_loaded(
            (b + 1) as u64,
            BlockModel::cut_off(whole.subrange(mid, whole.len() as int)),
        );
    }
}

/// A consistent document is as long as its recorded size.
pub proof fn lemma_content_length(ed: Editor, base: Seq<u8>)
    requires
        ed.wf(),
        ed.consistent(base),
    ensures
        ed.content(base).len() == ed.file_size,
{
    content::lemma_prefix_is_length(
        ed.delta_table.sizes(),
        ed.blocks(base),
        ed.block_count as int,
    );
    assert(ed.blocks(base).subrange(0, ed.block_count as int) =~= ed.blocks(base));
}

/// `b` is `a` but for where the cursor is and which blocks were asked for.
pub open spec fn only_moved(a: Editor, b: Editor) -> bool {
    &&& b == (Editor { cursor_byte: b.cursor_byte, cache: b.cache, ..a })
    &&& a.cache@.only_asked(b.cache@)
}

/// Moving the cursor changes nothing of the document.
pub proof fn lemma_only_moved(a: Editor, b: Editor, base: Seq<u8>)
    requires
        only_moved(a, b),
    ensures
        b.blocks(base) == a.blocks(base),
        b.content(base) == a.content(base),
        b.consistent(base) == a.consistent(base),
        b.safe(base) == a.safe(base),
        b.undo_fits() == a.undo_fits(),
        b.redo_fits() == a.redo_fits(),
        forall|id: BlockId| #[trigger] b.cache@.has(id) == a.cache@.has(id),
        b.cache@.blocks == a.cache@.blocks,
        b.cache@.pinned == a.cache@.pinned,
        b.cache@.evicted == a.cache@.evicted,
        b.cache@.wal == a.cache@.wal,
{
    crate::cache::lemma_asked_frame(a.cache@, b.cache@);
    assert(b.blocks(base) =~= a.blocks(base));
    assert(b.safe(base) == a.safe(base)) by {
        assert forall|id: BlockId| content::stored(b.cache@, base, b.block_size(), id)
            == #[trigger] content::stored(a.cache@, base, a.block_size(), id) by {}
        if a.safe(base) {
            assert forall|id: BlockId|
                #[trigger] b.cache@.has(id) && !b.cache@.blocks[id].unsaved() implies content::stored(
                b.cache@,
                base,
                b.block_size(),
                id,
            ) == b.cache@.blocks[id].bytes by {
                assert(a.cache@.has(id));
            }
        }
        if b.safe(base) {
            assert forall|id: BlockId|
                #[trigger] a.cache@.has(id) && !a.cache@.blocks[id].unsaved() implies content::stored(
                a.cache@,
                base,
                a.block_size(),
                id,
            ) == a.cache@.blocks[id].bytes by {
                assert(b.cache@.has(id));
            }
        }
    }
}

/// The insertion is the last edit, and undoing it fits the recorded sizes.
proof fn lemma_insert_undoable(before: Editor, bytes: Seq<u8>, mid: Editor)
    requires
        before.wf(),
        0 < bytes.len() <= usize::MAX,
        before.editable(bytes.len() as int),
        pins_counted(before.cache@),
        before.config.undo_limit > 0,
        before.cursor_byte <= before.file_size,
        before.cache_to_edit().has(before.cursor_block()),
        before.cursor_block() < before.sizes_to_edit().len(),
        before.sizes_to_edit()[before.cursor_block() as int]
            == before.cache_to_edit().blocks[before.cursor_block()].bytes.len(),
        before.cursor_inner() <= before.sizes_to_edit()[before.cursor_block() as int],
        editor::inserted(before, bytes, mid),
        before.split_with(bytes) is Some ==> mid.cache@.has(before.cursor_block()),
        mid.wf(),
        mid.edit_epoch < u64::MAX,
    ensures
        mid.undo_fits(),
        mid.undo_stack@.len() > 0,
        mid.insert_made(mid.undo_stack@.last()),
        mid.cache@.wal == before.cache@.wal,
        mid.cache@.has(before.cursor_block()),
        ({
            let b = before.cursor_block();
            let sizes = before.sizes_to_edit();
            let split = before.split_with(bytes);
            &&& mid.undo_stack@.last().is_insert(
                b,
                before.cursor_inner(),
                bytes,
                before.cursor_byte,
                split,
            )
            &&& split matches Some((right, _)) ==> right == b + 1 && mid.cache@.has(right)
            &&& mid.unsplit(b, split).1 == sizes.update(
                b as int,
                (sizes[b as int] + bytes.len()) as i64,
            )
            &&& mid.unsplit(b, split).0.blocks[b].bytes.len() == sizes[b as int] + bytes.len()
            &&& mid.unsplit(b, split).3 == sizes.len()
        }),
{
    let b = before.cursor_block();
    let inner = before.cursor_inner();
    let n = bytes.len();
    let sizes = before.sizes_to_edit();
    let split = before.split_with(bytes);
    lemma_inserted_state(before, bytes, mid);
    editor::lemma_size_in_total(sizes, b as int);
    if before.fresh() {
        reveal_with_fuel(delta_table::prefix, 2);
    } else {
        assert(before.cache@.has(b));
    }
    let e = choose|e: UndoEntry|
        {
            &&& #[trigger] e.is_insert(b, inner, bytes, before.cursor_byte, split)
            &&& mid.undo_stack@ == editor::trimmed(
                before.undo_stack@.push(e),
                before.config.undo_limit as int,
            )
        };
    assert(mid.undo_stack@.last() == e);
    if split is Some {
        let whole = block::spliced_in(
            before.cache_to_edit().blocks[b].bytes,
            inner as int,
            bytes,
        );
        assert(whole.len() == sizes[b as int] + n);
        assert(delta_table::merged(mid.delta_table.sizes(), b as int) =~= sizes.update(
            b as int,
            (sizes[b as int] + n) as i64,
        ));
    }
}

/// Undo gives back what an insertion changed, wherever the cursor has moved
/// since: the document, its size, the layout of its blocks and the cursor are as
/// they were before.
///
/// The exception is a history with no room for one edit. The halves of a split
/// are those in the cache: one that had to go is asked for first.
#[verifier::rlimit(30)]
pub proof fn law_undo_inverts_insert(
    before: Editor,
    bytes: Seq<u8>,
    mid: Editor,
    moved: Editor,
    unreadable: Option<BlockId>,
    step: Step<Result<(), EditError>>,
    after: Editor,
    base: Seq<u8>,
)
    requires
        before.wf(),
        0 < bytes.len() <= usize::MAX,
        before.editable(bytes.len() as int),
        pins_counted(before.cache@),
        before.consistent(base),
        before.config.undo_limit > 0,
        !before.read_only,
        before.cache@.wal is Some,
        before.cursor_byte <= before.file_size,
        before.cache_to_edit().has(before.cursor_block()),
        editor::inserted(before, bytes, mid),
        before.safe(base),
        before.split_with(bytes) is Some ==> mid.cache@.has(before.cursor_block()),
        mid.wf(),
        mid.edit_epoch < u64::MAX,
        only_moved(mid, moved),
        moved.wf(),
        editor::undo_outcome(moved, unreadable, step, after),
    ensures
        moved.undo_fits(),
        step == Step::Done(Ok::<(), EditError>(())),
        after.edit_epoch == moved.edit_epoch + 1,
        after.consistent(base),
        after.safe(base),
        after.content(base) == before.content(base),
        after.file_size == before.file_size,
        after.cursor_byte == before.cursor_byte,
        after.block_count == before.sizes_to_edit().len(),
        after.delta_table.sizes() == before.sizes_to_edit(),
{
    let b = before.cursor_block();
    let sizes = before.sizes_to_edit();
    lemma_editable_place(before, base);
    law_insert_splices(before, bytes, mid, base);
    lemma_insert_undoable(before, bytes, mid);
    lemma_only_moved(mid, moved, base);
    let e = mid.undo_stack@.last();
    lemma_moved_unsplit(mid, moved, b, e->split);
    lemma_undo_insert(moved, unreadable, e, step, after, base);
    delta_table::lemma_prefix_agrees(mid.delta_table.sizes(), sizes, b as int);
    lemma_content_length(before, base);
    block::law_delete_undoes_insert(before.content(base), before.cursor_byte as int, bytes);
    assert(after.delta_table.sizes() =~= sizes);
}

/// Moving the cursor changes nothing of what undoing a split leaves.
proof fn lemma_moved_unsplit(
    a: Editor,
    b: Editor,
    id: BlockId,
    split: Option<(BlockId, usize)>,
)
    requires
        only_moved(a, b),
    ensures
        b.unsplit(id, split).0.blocks == a.unsplit(id, split).0.blocks,
        b.unsplit(id, split).1 == a.unsplit(id, split).1,
        b.unsplit(id, split).3 == a.unsplit(id, split).3,
{
    crate::cache::lemma_asked_frame(a.cache@, b.cache@);
}

/// The cursor's place, also where a first block is yet to be made.
pub proof fn lemma_editable_place(ed: Editor, base: Seq<u8>)
    requires
        ed.wf(),
        ed.consistent(base),
        ed.cursor_byte <= ed.file_size,
        ed.cache_to_edit().has(ed.cursor_block()),
    ensures
        ({
            let sizes = ed.sizes_to_edit();
            let b = ed.cursor_block();
            &&& b < sizes.len()
            &&& delta_table::prefix(sizes, b as int) + ed.cursor_inner() == ed.cursor_byte
            &&& ed.cursor_inner() <= sizes[b as int]
            &&& sizes[b as int] == ed.cache_to_edit().blocks[b].bytes.len()
        }),
{
    if ed.fresh() {
        reveal_with_fuel(delta_table::prefix, 2);
        ed.cache@.lemma_loaded(0, BlockModel::clean(Seq::empty()));
    } else {
        lemma_cursor_place(ed, base);
        let b = ed.cursor_block();
        assert(ed.blocks(base)[b as int] == ed.cache@.blocks[b].bytes);
        assert(ed.delta_table.sizes()[b as int] == ed.blocks(base)[b as int].len());
    }
}

/// What a deletion leaves once the blocks that it made join are apart again.
pub proof fn lemma_deleted_apart(before: Editor, n: int, mid: Editor, base: Seq<u8>)
    requires
        before.wf(),
        before.consistent(base),
        before.safe(base),
        before.config.undo_limit > 0,
        0 < n,
        before.cursor_byte + n <= before.file_size,
        before.cache@.has(before.cursor_block()),
        before.cursor_inner() + n <= before.cache@.blocks[before.cursor_block()].bytes.len(),
        editor::deleted(before, n, mid),
        before.block_count + 2 < usize::MAX,
    ensures
        mid.undo_stack@.len() > 0,
        ({
            let b = before.cursor_block();
            let inner = before.cursor_inner();
            let bytes = before.cache@.blocks[b].bytes;
            let e = mid.undo_stack@.last();
            let merge = before.merge_without(n);
            let home = Editor::home_of(b, merge);
            &&& e.is_delete(
                b,
                inner,
                bytes.subrange(inner as int, inner + n),
                before.cursor_byte,
                merge,
            )
            &&& mid.cache@.has(home)
            &&& home < mid.block_count
            &&& merge matches Some((right, at)) ==> {
                &&& 0 < right
                &&& right == mid.block_count
                &&& b == right || b + 1 == right
                &&& at <= mid.cache@.blocks[home].bytes.len()
            }
            &&& mid.unmerged(b, merge).1 == before.sizes_without(n)
            &&& apart(mid, b, merge, base) == before.blocks(base).update(
                b as int,
                block::spliced_out(bytes, inner as int, inner + n),
            )
        }),
{
    let b = before.cursor_block();
    let inner = before.cursor_inner();
    let bytes = before.cache@.blocks[b].bytes;
    let removed = bytes.subrange(inner as int, inner + n);
    let merge = before.merge_without(n);
    let c = before.cache_without(n);
    let bs = before.block_size();
    let olds = before.blocks(base);
    let news = olds.update(b as int, block::spliced_out(bytes, inner as int, inner + n));
    lemma_cursor_place(before, base);
    lemma_merge_place(before, n);
    let e = choose|e: UndoEntry|
        {
            &&& #[trigger] e.is_delete(b, inner, removed, before.cursor_byte, merge)
            &&& mid.undo_stack@ == editor::trimmed(
                before.undo_stack@.push(e),
                before.config.undo_limit as int,
            )
        };
    assert(mid.undo_stack@.last() == e);
    assert forall|i: int| 0 <= i < news.len() implies #[trigger] news[i] == content::bytes_of(
        c,
        base,
        bs,
        i as u64,
    ) by {
        lemma_blocks_without(before, n, base, i);
    }
    lemma_blocks_without(before, n, base, b as int);
    let shrunk = before.sizes_without(n);
    assert forall|i: int| 0 <= i < news.len() implies #[trigger] shrunk[i] == news[i].len() by {
        assert(before.delta_table.sizes()[i] == olds[i].len());
        assert(olds[b as int] == bytes);
    }
    match merge {
        Some((right, at)) => {
            let left = (right - 1) as u64;
            let whole = c.blocks[left].bytes + c.blocks[right].bytes;
            let emptied = c.edited(right, Seq::empty());
            content::lemma_edited_bytes(c, right, Seq::empty(), base, bs, left);
            assert(news[left as int] == c.blocks[left].bytes);
            assert(news[right as int] == c.blocks[right].bytes);
            assert(shrunk[left as int] == at);
            assert forall|i: int| 0 <= i < mid.block_count implies mid.blocks(base)[i]
                == content::fused(news, left as int)[i] by {
                content::lemma_edited_bytes(c, right, Seq::empty(), base, bs, i as u64);
                content::lemma_edited_bytes(emptied, left, whole, base, bs, i as u64);
                assert(news[i] == content::bytes_of(c, base, bs, i as u64));
            }
            content::lemma_edited_bytes(emptied, left, whole, base, bs, left);
            let joined = content::fused(news, left as int);
            assert(mid.blocks(base) =~= joined);
            assert(joined[left as int] == whole);
            assert(whole.subrange(0, at as int) =~= news[left as int]);
            assert(whole.subrange(at as int, whole.len() as int) =~= news[right as int]);
            assert(content::cut(joined, left as int, at as int) =~= news);
            assert(shrunk[right as int] == news[right as int].len());
            assert(mid.unmerged(b, merge).1 =~= shrunk);
        },
        None => {
            assert(mid.blocks(base) =~= news);
        },
    }
}

/// Undo gives back what a deletion changed, wherever the cursor has moved since:
/// the document, its size, the layout of its blocks and the cursor are as they
/// were before.
///
/// The exception is a history with no room for one edit.
#[verifier::rlimit(30)]
pub proof fn law_undo_inverts_delete(
    before: Editor,
    n: int,
    mid: Editor,
    moved: Editor,
    unreadable: Option<BlockId>,
    step: Step<Result<(), EditError>>,
    after: Editor,
    base: Seq<u8>,
)
    requires
        before.wf(),
        before.consistent(base),
        before.safe(base),
        before.config.undo_limit > 0,
        !before.read_only,
        before.cache@.wal is Some,
        0 < n,
        before.cursor_byte + n <= before.file_size,
        before.cache@.has(before.cursor_block()),
        before.cursor_inner() + n <= before.cache@.blocks[before.cursor_block()].bytes.len(),
        before.block_count + 2 < usize::MAX,
        editor::deleted(before, n, mid),
        only_moved(mid, moved),
        moved.wf(),
        moved.undo_fits(),
        editor::undo_outcome(moved, unreadable, step, after),
    ensures
        step == Step::Done(Ok::<(), EditError>(())),
        after.edit_epoch == moved.edit_epoch + 1,
        after.consistent(base),
        after.safe(base),
        after.content(base) == before.content(base),
        after.file_size == before.file_size,
        after.cursor_byte == before.cursor_byte,
        after.block_count == before.block_count,
        after.delta_table.sizes() == before.delta_table.sizes(),
{
    let b = before.cursor_block();
    let inner = before.cursor_inner();
    let sizes = before.delta_table.sizes();
    let bytes = before.cache@.blocks[b].bytes;
    let removed = bytes.subrange(inner as int, inner + n);
    let merge = before.merge_without(n);
    let home = Editor::home_of(b, merge);
    lemma_cursor_place(before, base);
    law_delete_splices(before, n, mid, base);
    lemma_deleted_apart(before, n, mid, base);
    lemma_only_moved(mid, moved, base);
    let e = mid.undo_stack@.last();
    assert(mid.cache@.wal == before.cache@.wal) by {
        lemma_wal_kept(before, n, mid);
    }
    lemma_unmerged(moved, b, merge, base);
    let olds = before.blocks(base);
    let news = olds.update(b as int, block::spliced_out(bytes, inner as int, inner + n));
    assert(apart(moved, b, merge, base) == news);
    assert(moved.unmerged(b, merge).1 == before.sizes_without(n)) by {
        crate::cache::lemma_asked_frame(mid.cache@, moved.cache@);
    }
    assert(moved.unmerged(b, merge).0.blocks[b].bytes == news[b as int]);
    assert(inner <= news[b as int].len());
    lemma_undo_delete(moved, unreadable, e, step, after, base);
    delta_table::lemma_prefix_agrees(before.sizes_without(n), sizes, b as int);
    lemma_content_length(before, base);
    let at = before.cursor_byte as int;
    assert(before.content(base).subrange(at, at + n) =~= removed) by {
        assert(olds[b as int] == bytes);
        content::lemma_joined_around(olds, b as int);
        content::lemma_prefix_is_length(sizes, olds, b as int);
    }
    block::law_insert_undoes_delete(before.content(base), at, at + n);
    assert(after.delta_table.sizes() =~= sizes);
}

/// A deletion leaves the log as it is.
pub proof fn lemma_wal_kept(before: Editor, n: int, mid: Editor)
    requires
        before.cache@.has(before.cursor_block()),
        before.cursor_block() < before.block_count,
        editor::deleted(before, n, mid),
    ensures
        mid.cache@.wal == before.cache@.wal,
{
    lemma_merge_place(before, n);
    let c = before.cache_without(n);
    assert(c.wal == before.cache@.wal);
}

/// The bytes of the last edit stand where it put them, and where it split its
/// block, the halves are the last two blocks and in the cache.
pub open spec fn insert_stands(ed: Editor) -> bool {
    let e = ed.undo_stack@.last();
    let b = e->InsertBytes_block_id;
    let inner = e->InsertBytes_inner_pos as int;
    let bytes = e->InsertBytes_bytes@;
    let held = ed.unsplit(b, e->split).0;
    &&& ed.undo_stack@.len() > 0
    &&& e is InsertBytes
    &&& ed.insert_made(e)
    &&& bytes.len() > 0
    &&& ed.cache@.has(b)
    &&& e->split matches Some((right, at)) ==> {
        &&& b + 2 == ed.block_count
        &&& ed.cache@.has(right)
        &&& ed.cache@.blocks[b].bytes.len() == at
    }
    &&& inner + bytes.len() <= held.blocks[b].bytes.len()
    &&& held.blocks[b].bytes.subrange(inner, inner + bytes.len()) == bytes
}

/// Redo gives back what undoing an insertion changed, wherever the cursor has
/// moved since: the document, its size and the layout of its blocks are as they
/// were before, and the cursor stands behind the inserted bytes.
#[verifier::rlimit(30)]
pub proof fn law_redo_inverts_undo_of_insert(
    before: Editor,
    unreadable: Option<BlockId>,
    undone: Step<Result<(), EditError>>,
    mid: Editor,
    moved: Editor,
    redone: Step<Result<(), EditError>>,
    after: Editor,
    base: Seq<u8>,
)
    requires
        before.wf(),
        before.undo_fits(),
        before.consistent(base),
        before.safe(base),
        !before.read_only,
        before.cache@.wal is Some,
        insert_stands(before),
        editor::undo_outcome(before, unreadable, undone, mid),
        only_moved(mid, moved),
        moved.wf(),
        moved.redo_fits(),
        editor::redo_outcome(moved, unreadable, redone, after),
    ensures
        undone == Step::Done(Ok::<(), EditError>(())),
        redone == Step::Done(Ok::<(), EditError>(())),
        after.consistent(base),
        after.safe(base),
        after.content(base) == before.content(base),
        after.file_size == before.file_size,
        after.block_count == before.block_count,
        after.delta_table.sizes() == before.delta_table.sizes(),
        ({
            let e = before.undo_stack@.last();
            after.cursor_byte == editor::min(
                e->InsertBytes_cursor_before + e->InsertBytes_bytes@.len(),
                before.file_size as int,
            )
        }),
{
    let e = before.undo_stack@.last();
    let b = e->InsertBytes_block_id;
    let inner = e->InsertBytes_inner_pos as int;
    let bytes = e->InsertBytes_bytes@;
    let n = bytes.len();
    let bs = before.block_size();
    let (held, sizes, originals, count) = before.unsplit(b, e->split);
    let whole = held.blocks[b].bytes;
    lemma_undo_insert(before, unreadable, e, undone, mid, base);
    lemma_only_moved(mid, moved, base);
    let rest = block::spliced_out(whole, inner, inner + n);
    content::lemma_edited_bytes(held.touched(b), b, rest, base, bs, b);
    assert(moved.redo_stack@.last() == e);
    block::law_insert_undoes_delete(whole, inner, inner + n);
    assert(block::spliced_in(rest, inner, bytes) == whole);
    let filled = moved.cache@.touched(b).edited(b, whole);
    let olds = moved.blocks(base);
    let news = olds.update(b as int, whole);
    let msizes = moved.delta_table.sizes();
    assert forall|i: int| 0 <= i < olds.len() implies #[trigger] msizes[i] == olds[i].len() by {}
    content::lemma_prefix_is_length(msizes, olds, b as int);
    assert(olds[b as int] == rest);
    content::lemma_joined_insert(olds, b as int, inner, bytes);
    delta_table::lemma_prefix_agrees(msizes, before.delta_table.sizes(), b as int);
    let at = delta_table::prefix(msizes, b as int) + inner;
    lemma_content_length(before, base);
    assert(before.content(base).subrange(at, at + n) =~= bytes) by {
        lemma_stands_in_content(before, base);
    }
    assert(at + n <= before.content(base).len()) by {
        lemma_stands_in_content(before, base);
    }
    block::law_insert_undoes_delete(before.content(base), at, at + n);
    assert(content::joined(news) == before.content(base));
    assert forall|i: int| 0 <= i < olds.len() implies #[trigger] content::bytes_of(
        filled,
        base,
        bs,
        i as u64,
    ) == news[i] by {
        content::lemma_edited_bytes(moved.cache@.touched(b), b, whole, base, bs, i as u64);
        assert(olds[i] == content::bytes_of(moved.cache@, base, bs, i as u64));
    }
    content::lemma_edited_bytes(moved.cache@.touched(b), b, whole, base, bs, b);
    content::lemma_touched_safe(moved.cache@, b, base, bs);
    content::lemma_edited_safe(moved.cache@.touched(b), b, whole, base, bs);
    match e->split {
        None => {
            assert(after.blocks(base) =~= news);
            assert(after.delta_table.sizes() =~= before.delta_table.sizes());
        },
        Some((right, cut_at)) => {
            content::lemma_split_safe(filled, b, cut_at as int, base, bs);
            assert(whole.len() == cut_at + before.cache@.blocks[right].bytes.len());
            assert forall|i: int| 0 <= i < olds.len() + 1 implies after.blocks(base)[i]
                == content::cut(news, b as int, cut_at as int)[i] by {
                if i < olds.len() {
                    assert(content::bytes_of(filled, base, bs, i as u64) == news[i]);
                }
            }
            assert(after.blocks(base) =~= content::cut(news, b as int, cut_at as int));
            content::lemma_joined_cut(news, b as int, cut_at as int);
            assert(before.delta_table.sizes()[b as int] == before.blocks(base)[b as int].len());
            assert(before.delta_table.sizes()[b + 1] == before.blocks(base)[b + 1].len());
            assert(after.delta_table.sizes() =~= before.delta_table.sizes());
        },
    }
    assert forall|i: int| 0 <= i < after.block_count implies #[trigger] after.delta_table.sizes()[i]
        == after.blocks(base)[i].len() by {
        assert(before.delta_table.sizes()[i] == before.blocks(base)[i].len());
        if i < olds.len() {
            assert(msizes[i] == olds[i].len());
        }
    }
}

/// Bytes that stand in a block stand in the document.
proof fn lemma_stands_in_content(ed: Editor, base: Seq<u8>)
    requires
        ed.wf(),
        ed.undo_fits(),
        ed.consistent(base),
        insert_stands(ed),
    ensures
        ({
            let e = ed.undo_stack@.last();
            let at = delta_table::prefix(ed.delta_table.sizes(), e->InsertBytes_block_id as int)
                + e->InsertBytes_inner_pos;
            &&& 0 <= at
            &&& at + e->InsertBytes_bytes@.len() <= ed.content(base).len()
            &&& ed.content(base).subrange(at, at + e->InsertBytes_bytes@.len())
                == e->InsertBytes_bytes@
        }),
{
    let e = ed.undo_stack@.last();
    let b = e->InsertBytes_block_id;
    let inner = e->InsertBytes_inner_pos as int;
    let bytes = e->InsertBytes_bytes@;
    let n = bytes.len();
    let given = ed.blocks(base);
    let held = ed.unsplit(b, e->split).0;
    let whole = held.blocks[b].bytes;
    let olds = if e->split is Some {
        content::fused(given, b as int)
    } else {
        given
    };
    if e->split is Some {
        content::lemma_joined_fuse(given, b as int);
    }
    assert(olds[b as int] == whole);
    content::lemma_joined_around(olds, b as int);
    assert(olds.subrange(0, b as int) =~= given.subrange(0, b as int));
    content::lemma_prefix_is_length(ed.delta_table.sizes(), given, b as int);
    let at = content::joined(given.subrange(0, b as int)).len() + inner;
    assert(ed.content(base).subrange(at, at + n) =~= whole.subrange(inner, inner + n));
}

/// Redo gives back what undoing a deletion changed, wherever the cursor has moved
/// since: the document, its size and the layout of its blocks are as they were
/// before, and the cursor stands where the bytes were deleted.
#[verifier::rlimit(50)]
pub proof fn law_redo_inverts_undo_of_delete(
    before: Editor,
    unreadable: Option<BlockId>,
    undone: Step<Result<(), EditError>>,
    mid: Editor,
    moved: Editor,
    redone: Step<Result<(), EditError>>,
    after: Editor,
    base: Seq<u8>,
)
    requires
        before.wf(),
        before.undo_fits(),
        before.consistent(base),
        before.safe(base),
        pins_counted(before.cache@),
        !before.read_only,
        before.cache@.wal is Some,
        before.undo_stack@.len() > 0,
        before.undo_stack@.last() is DeleteBytes,
        ({
            let e = before.undo_stack@.last();
            &&& e->DeleteBytes_bytes@.len() > 0
            &&& before.cache@.has(Editor::home_of(e->DeleteBytes_block_id, e->merge))
            &&& e->merge matches Some((right, _)) ==> before.cache@.pins(right) < usize::MAX
        }),
        undone == Step::Done(Ok::<(), EditError>(())),
        editor::undo_outcome(before, unreadable, undone, mid),
        only_moved(mid, moved),
        moved.wf(),
        moved.redo_fits(),
        editor::redo_outcome(moved, unreadable, redone, after),
    ensures
        redone == Step::Done(Ok::<(), EditError>(())),
        after.consistent(base),
        after.safe(base),
        after.content(base) == before.content(base),
        after.file_size == before.file_size,
        after.block_count == before.block_count,
        after.delta_table.sizes() == before.delta_table.sizes(),
        after.cursor_byte == editor::min(
            before.undo_stack@.last()->DeleteBytes_cursor_before as int,
            before.file_size as int,
        ),
{
    let e = before.undo_stack@.last();
    let b = e->DeleteBytes_block_id;
    let inner = e->DeleteBytes_inner_pos as int;
    let bytes = e->DeleteBytes_bytes@;
    let n = bytes.len();
    let bs = before.block_size();
    let (c0, sizes, _, _) = before.unmerged(b, e->merge);
    let olds = apart(before, b, e->merge, base);
    lemma_unmerged(before, b, e->merge, base);
    let whole = c0.blocks[b].bytes;
    let filled = block::spliced_in(whole, inner, bytes);
    lemma_undo_delete(before, unreadable, e, undone, mid, base);
    lemma_only_moved(mid, moved, base);
    editor::lemma_size_in_total(sizes, b as int);
    lemma_edited_pins(c0, b, filled);
    content::lemma_edited_bytes(c0, b, filled, base, bs, b);
    block::law_delete_undoes_insert(whole, inner, bytes);
    assert(moved.redo_stack@.last() == e);
    let asked = editor::asked_again(moved.cache@, e);
    let cut = asked.edited(b, whole);
    assert(moved.cache@.blocks[b].bytes == filled);
    assert(editor::without_run(filled, inner, n as int) == whole);
    lemma_again_asked(moved, e, base);
    content::lemma_edited_bytes(asked, b, whole, base, bs, b);
    content::lemma_edited_safe(asked, b, whole, base, bs);
    let msizes = moved.delta_table.sizes();
    let shrunk = msizes.update(b as int, (msizes[b as int] - n) as i64);
    assert(shrunk =~= sizes);
    assert forall|i: int| 0 <= i < olds.len() implies #[trigger] olds[i] == content::bytes_of(
        cut,
        base,
        bs,
        i as u64,
    ) by {
        content::lemma_edited_bytes(asked, b, whole, base, bs, i as u64);
        content::lemma_edited_bytes(c0, b, filled, base, bs, i as u64);
        assert(olds[i] == content::bytes_of(c0, base, bs, i as u64));
    }
    match e->merge {
        Some((right, at)) => {
            let left = (right - 1) as u64;
            assert(c0.has(left) && c0.has(right));
            content::lemma_edited_bytes(c0, b, filled, base, bs, left);
            content::lemma_edited_bytes(c0, b, filled, base, bs, right);
            content::lemma_edited_bytes(asked, b, whole, base, bs, left);
            content::lemma_edited_bytes(asked, b, whole, base, bs, right);
            lemma_edited_pins(asked, b, whole);
            assert(olds[left as int] == c0.blocks[left].bytes);
            assert(olds[right as int] == c0.blocks[right].bytes);
            assert(sizes[left as int] == olds[left as int].len());
            assert(sizes[right as int] == olds[right as int].len());
            let home = before.cache@.blocks[left].bytes;
            assert(before.blocks(base)[left as int] == home);
            assert(before.delta_table.sizes()[left as int] == home.len());
            assert(editor::merge_due(cut, shrunk, left));
            before.delta_table.lemma_wf();
            delta_table::lemma_run_fits(
                before.delta_table.sizes(),
                0,
                before.delta_table.sizes().len() as int,
            );
            lemma_summable(sizes);
            lemma_fused_document(cut, left, sizes, olds, after, base);
            assert(after.delta_table.sizes() =~= before.delta_table.sizes());
        },
        None => {
            assert(after.blocks(base) =~= olds);
            assert(after.delta_table.sizes() =~= before.delta_table.sizes());
            assert forall|i: int| 0 <= i < after.block_count implies
                #[trigger] after.delta_table.sizes()[i] == after.blocks(base)[i].len() by {
                assert(sizes[i] == olds[i].len());
            }
        },
    }
}

/// Asking for the blocks that a deletion needs changes nothing of the document.
pub proof fn lemma_again_asked(ed: Editor, e: UndoEntry, base: Seq<u8>)
    requires
        ed.safe(base),
    ensures
        ({
            let asked = editor::asked_again(ed.cache@, e);
            &&& content::safe(asked, base, ed.block_size())
            &&& asked.blocks == ed.cache@.blocks
            &&& asked.pinned == ed.cache@.pinned
            &&& asked.evicted == ed.cache@.evicted
            &&& asked.wal == ed.cache@.wal
        }),
{
    let b = e->DeleteBytes_block_id;
    let bs = ed.block_size();
    content::lemma_touched_safe(ed.cache@, b, base, bs);
    if let Some(o) = editor::other_of(b, e->merge) {
        content::lemma_touched_safe(ed.cache@.touched(b), o, base, bs);
    }
}

/// The bytes of an insertion stand where it put them, wherever the cursor has
/// moved since.
proof fn lemma_insert_stands(before: Editor, bytes: Seq<u8>, edited: Editor, moved: Editor)
    requires
        before.wf(),
        0 < bytes.len() <= usize::MAX,
        before.editable(bytes.len() as int),
        pins_counted(before.cache@),
        before.config.undo_limit > 0,
        before.cursor_byte <= before.file_size,
        before.cache_to_edit().has(before.cursor_block()),
        before.cursor_block() < before.sizes_to_edit().len(),
        before.sizes_to_edit()[before.cursor_block() as int]
            == before.cache_to_edit().blocks[before.cursor_block()].bytes.len(),
        before.cursor_inner() <= before.sizes_to_edit()[before.cursor_block() as int],
        editor::inserted(before, bytes, edited),
        before.split_with(bytes) is Some ==> edited.cache@.has(before.cursor_block()),
        edited.wf(),
        edited.edit_epoch < u64::MAX,
        only_moved(edited, moved),
    ensures
        insert_stands(moved),
        edited.undo_stack@.len() > 0,
        edited.undo_stack@.last().is_insert(
            before.cursor_block(),
            before.cursor_inner(),
            bytes,
            before.cursor_byte,
            before.split_with(bytes),
        ),
{
    let b = before.cursor_block();
    let inner = before.cursor_inner() as int;
    let whole = block::spliced_in(before.cache_to_edit().blocks[b].bytes, inner, bytes);
    lemma_insert_undoable(before, bytes, edited);
    lemma_inserted_state(before, bytes, edited);
    crate::cache::lemma_asked_frame(edited.cache@, moved.cache@);
    let split = before.split_with(bytes);
    lemma_moved_unsplit(edited, moved, b, split);
    let held = moved.unsplit(b, split).0;
    if let Some((_, mid)) = split {
        assert(whole.subrange(0, mid as int) + whole.subrange(mid as int, whole.len() as int)
            =~= whole);
    }
    assert(held.blocks[b].bytes == whole);
    assert(whole.subrange(inner, inner + bytes.len()) =~= bytes);
    assert(moved.unsplit(b, split).1 == edited.unsplit(b, split).1);
}

/// Redo after undo is as if an insertion had not been undone, wherever the
/// cursor has moved in between: the document, its size, the layout of its blocks
/// and the cursor are as the insertion left them.
///
/// The exceptions are those of undoing it.
#[verifier::rlimit(30)]
pub proof fn law_redo_restores_insert(
    before: Editor,
    bytes: Seq<u8>,
    edited: Editor,
    moved: Editor,
    unreadable: Option<BlockId>,
    undone: Step<Result<(), EditError>>,
    mid: Editor,
    moved_again: Editor,
    redone: Step<Result<(), EditError>>,
    after: Editor,
    base: Seq<u8>,
)
    requires
        before.wf(),
        0 < bytes.len() <= usize::MAX,
        before.editable(bytes.len() as int),
        pins_counted(before.cache@),
        before.consistent(base),
        before.safe(base),
        before.config.undo_limit > 0,
        !before.read_only,
        before.cache@.wal is Some,
        before.cursor_byte <= before.file_size,
        before.cache_to_edit().has(before.cursor_block()),
        editor::inserted(before, bytes, edited),
        before.split_with(bytes) is Some ==> edited.cache@.has(before.cursor_block()),
        edited.wf(),
        edited.edit_epoch < u64::MAX,
        only_moved(edited, moved),
        moved.wf(),
        editor::undo_outcome(moved, unreadable, undone, mid),
        only_moved(mid, moved_again),
        moved_again.wf(),
        moved_again.redo_fits(),
        editor::redo_outcome(moved_again, unreadable, redone, after),
    ensures
        redone == Step::Done(Ok::<(), EditError>(())),
        after.consistent(base),
        after.safe(base),
        after.content(base) == edited.content(base),
        after.file_size == edited.file_size,
        after.block_count == edited.block_count,
        after.delta_table.sizes() == edited.delta_table.sizes(),
        after.cursor_byte == edited.cursor_byte,
{
    lemma_editable_place(before, base);
    law_insert_splices(before, bytes, edited, base);
    lemma_insert_undoable(before, bytes, edited);
    law_undo_inverts_insert(before, bytes, edited, moved, unreadable, undone, mid, base);
    lemma_insert_stands(before, bytes, edited, moved);
    lemma_only_moved(edited, moved, base);
    law_redo_inverts_undo_of_insert(
        moved,
        unreadable,
        undone,
        mid,
        moved_again,
        redone,
        after,
        base,
    );
}

/// Redo after undo is as if a deletion had not been undone, wherever the cursor
/// has moved in between: the document, its size, the layout of its blocks and
/// the cursor are as the deletion left them.
///
/// The exceptions are those of undoing it.
#[verifier::rlimit(30)]
pub proof fn law_redo_restores_delete(
    before: Editor,
    n: int,
    edited: Editor,
    moved: Editor,
    unreadable: Option<BlockId>,
    undone: Step<Result<(), EditError>>,
    mid: Editor,
    moved_again: Editor,
    redone: Step<Result<(), EditError>>,
    after: Editor,
    base: Seq<u8>,
)
    requires
        before.wf(),
        before.consistent(base),
        before.safe(base),
        before.config.undo_limit > 0,
        !before.read_only,
        before.cache@.wal is Some,
        0 < n,
        before.cursor_byte + n <= before.file_size,
        before.cache@.has(before.cursor_block()),
        before.cursor_inner() + n <= before.cache@.blocks[before.cursor_block()].bytes.len(),
        before.block_count + 2 < usize::MAX,
        editor::deleted(before, n, edited),
        only_moved(edited, moved),
        moved.wf(),
        moved.undo_fits(),
        pins_counted(moved.cache@),
        before.merge_without(n) matches Some((right, _)) ==> moved.cache@.pins(right) < usize::MAX,
        editor::undo_outcome(moved, unreadable, undone, mid),
        only_moved(mid, moved_again),
        moved_again.wf(),
        moved_again.redo_fits(),
        editor::redo_outcome(moved_again, unreadable, redone, after),
    ensures
        redone == Step::Done(Ok::<(), EditError>(())),
        after.consistent(base),
        after.safe(base),
        after.content(base) == edited.content(base),
        after.file_size == edited.file_size,
        after.block_count == edited.block_count,
        after.delta_table.sizes() == edited.delta_table.sizes(),
        after.cursor_byte == edited.cursor_byte,
{
    lemma_cursor_place(before, base);
    law_delete_splices(before, n, edited, base);
    lemma_deleted_apart(before, n, edited, base);
    law_undo_inverts_delete(before, n, edited, moved, unreadable, undone, mid, base);
    lemma_only_moved(edited, moved, base);
    lemma_wal_kept(before, n, edited);
    law_redo_inverts_undo_of_delete(
        moved,
        unreadable,
        undone,
        mid,
        moved_again,
        redone,
        after,
        base,
    );
}

/// A new edit empties the history of what was undone: there is nothing to be
/// redone then.
pub proof fn law_new_edit_ends_redo(
    before: Editor,
    bytes: Seq<u8>,
    n: int,
    edited: Editor,
    unreadable: Option<BlockId>,
    step: Step<Result<(), EditError>>,
    after: Editor,
)
    requires
        editor::inserted(before, bytes, edited) || editor::deleted(before, n, edited),
        !edited.read_only,
        edited.cache@.wal is Some,
        editor::redo_outcome(edited, unreadable, step, after),
    ensures
        edited.redo_stack@.len() == 0,
        step == Step::Done(Err::<(), EditError>(EditError::NothingToRedo)),
        after == edited,
{
}

/// A document that may not be changed is not changed by any edit, undo or redo,
/// and each of them is refused.
pub proof fn law_read_only_blocks_mutation(
    before: Editor,
    bytes: Seq<u8>,
    n: int,
    unreadable: Option<BlockId>,
    step: Step<Result<(), EditError>>,
    after: Editor,
)
    requires
        before.read_only,
        editor::insert_outcome(before, bytes, unreadable, step, after) || editor::delete_outcome(
            before,
            n,
            unreadable,
            step,
            after,
        ) || editor::undo_outcome(before, unreadable, step, after) || editor::redo_outcome(
            before,
            unreadable,
            step,
            after,
        ),
    ensures
        after == before,
        editor::refused(step, editor::read_only_message()),
{
}

/// A document that was just opened, with nothing in the cache, has every block
/// as it was logged last, else as it is in the file. Where nothing was logged,
/// it is the file.
pub proof fn law_open_shows_file(ed: Editor, base: Seq<u8>)
    requires
        ed.wf(),
        ed.config.block_size > 0,
        layout::opened(
            layout::log_of(ed.cache@),
            base.len(),
            ed.block_size(),
            ed.delta_table.sizes(),
        ),
        ed.file_size == delta_table::total(ed.delta_table.sizes()),
        ed.cache@.blocks == Map::<BlockId, BlockModel>::empty(),
        ed.cache@.evicted == Seq::<(BlockId, Seq<u8>)>::empty(),
    ensures
        ed.consistent(base),
        ed.safe(base),
        forall|i: int|
            0 <= i < ed.block_count ==> #[trigger] ed.blocks(base)[i] == ({
                let log = layout::log_of(ed.cache@);
                if log.dom().contains(i as u64) {
                    log[i as u64]
                } else {
                    content::chunk(base, ed.block_size(), i as nat)
                }
            }),
        layout::log_of(ed.cache@).dom().is_empty() ==> ed.content(base) == base,
{
    let bs = ed.block_size();
    let log = layout::log_of(ed.cache@);
    let count = ed.block_count as int;
    let blocks = ed.blocks(base);
    let sizes = ed.delta_table.sizes();
    assert forall|i: int| 0 <= i < count implies #[trigger] sizes[i] == blocks[i].len() by {
        assert(sizes[i] == layout::opened_size(log, base.len(), bs, i));
        assert(!ed.cache@.has(i as u64));
        if !log.dom().contains(i as u64) {
            layout::lemma_chunk_len(base.len(), bs, i);
            assert(i as nat * bs == i * bs);
        }
    }
    assert forall|i: int| 0 <= i < count implies #[trigger] blocks[i] == ({
        if log.dom().contains(i as u64) {
            log[i as u64]
        } else {
            content::chunk(base, bs, i as nat)
        }
    }) by {
        assert(!ed.cache@.has(i as u64));
    }
    if log.dom().is_empty() {
        crate::io_worker::lemma_block_count(base.len(), bs);
        if count > crate::io_worker::block_count_of(base.len(), bs) {
            assert(log.dom().contains((count - 1) as u64));
        }
        lemma_chunks_joined(ed, base, count);
        assert(blocks.subrange(0, count) =~= blocks);
        assert(base.subrange(0, base.len() as int) =~= base);
    }
}

/// The first `k` blocks of the file on disk are its first bytes.
proof fn lemma_chunks_joined(ed: Editor, base: Seq<u8>, k: int)
    requires
        0 <= k <= ed.block_count,
        forall|i: int|
            0 <= i < ed.block_count ==> #[trigger] ed.blocks(base)[i] == content::chunk(
                base,
                ed.block_size(),
                i as nat,
            ),
        ed.block_size() > 0,
    ensures
        content::joined(ed.blocks(base).subrange(0, k)) == base.subrange(
            0,
            if k * ed.block_size() <= base.len() {
                k * ed.block_size()
            } else {
                base.len() as int
            },
        ),
    decreases k,
{
    let bs = ed.block_size();
    if k > 0 {
        lemma_chunks_joined(ed, base, k - 1);
        assert(k * bs == (k - 1) * bs + bs) by (nonlinear_arith);
        let blocks = ed.blocks(base).subrange(0, k);
        assert(blocks.drop_last() =~= ed.blocks(base).subrange(0, k - 1));
        assert(blocks.last() == ed.blocks(base)[k - 1]);
        assert(0 <= (k - 1) * bs) by (nonlinear_arith)
            requires
                k > 0,
                bs > 0,
        ;
        assert((k - 1) as nat * bs == (k - 1) * bs);
        assert(content::joined(blocks) =~= base.subrange(
            0,
            if k * bs <= base.len() {
                k * bs
            } else {
                base.len() as int
            },
        ));
    } else {
        assert(0 * bs == 0) by (nonlinear_arith);
        assert(ed.blocks(base).subrange(0, 0) =~= Seq::<Seq<u8>>::empty());
        assert(base.subrange(0, 0) =~= Seq::<u8>::empty());
    }
}

/// A save that takes the place of the file keeps the document: laid out anew
/// over what was written, it holds what it held before, and every block is
/// stored.
pub proof fn law_fold_keeps_document(
    before: Editor,
    job: crate::editor::SaveJob,
    after: Editor,
    base: Seq<u8>,
)
    requires
        job.follows(before, base),
        job.next_block() == before.block_count,
        before.layable(job.output().len() as int),
        editor::folded(before, job.output().len(), after),
        after.wf(),
    ensures
        after.consistent(job.output()),
        after.safe(job.output()),
        after.content(job.output()) == before.content(base),
{
    let out = job.output();
    let bs = before.block_size();
    let sizes = after.delta_table.sizes();
    editor::law_saved_is_content(before, job, base);
    crate::io_worker::lemma_blocks_total(out.len(), bs);
    crate::io_worker::lemma_block_count(out.len(), bs);
    assert forall|i: int| 0 <= i < sizes.len() implies #[trigger] sizes[i] == layout::opened_size(
        Map::empty(),
        out.len(),
        bs,
        i,
    ) by {
        let n = sizes.len();
        layout::lemma_chunk_len(out.len(), bs, i);
        assert((i + 1) * bs == i * bs + bs) by (nonlinear_arith);
        if i < n - 1 {
            assert((i + 1) * bs <= (n - 1) * bs) by (nonlinear_arith)
                requires
                    i + 1 <= n - 1,
            ;
        }
    }
    law_open_shows_file(after, out);
}

/// A save to another file leaves every edit an edit: the document holds what it
/// held, and what was not stored still counts as not stored.
pub proof fn law_save_elsewhere_keeps_edits(before: Editor, after: Editor, base: Seq<u8>, id: BlockId)
    requires
        after == (Editor {
            cache: after.cache,
            file_size: after.file_size,
            original_file_size: after.original_file_size,
            ..before
        }),
        before.cache@.only_asked(after.cache@),
    ensures
        after.content(base) == before.content(base),
        after.cache@.has(id) == before.cache@.has(id),
        after.cache@.blocks[id].unsaved() == before.cache@.blocks[id].unsaved(),
{
    crate::cache::lemma_asked_frame(before.cache@, after.cache@);
    assert(after.blocks(base) =~= before.blocks(base));
}

} // verus!
