//! What a search of the whole document finds.

use crate::content;
use crate::delta_table;
use crate::editor::Editor;
use crate::message::Direction;
use crate::search;
use crate::search::SearchModel;
use vstd::prelude::*;

verus! {

/// How many blocks of `n` the search may still want.
pub open spec fn steps_left(s: SearchModel, n: int) -> int {
    let scans = if s.over {
        0
    } else if s.direction == Direction::Forward {
        n - s.next
    } else {
        s.next + 1
    };
    if s.peek {
        scans + 1
    } else {
        scans
    }
}

/// The search once it was given all the blocks that it wanted.
pub open spec fn run(s: SearchModel, blocks: Seq<Seq<u8>>) -> SearchModel
    decreases steps_left(s, blocks.len() as int),
{
    if s.over || s.next >= blocks.len() || s.wants() >= blocks.len() || s.block_count
        != blocks.len() {
        s
    } else {
        run(s.scan(blocks[s.wants() as int]), blocks)
    }
}

/// Where block `k` starts.
pub open spec fn start(blocks: Seq<Seq<u8>>, k: int) -> int {
    content::joined(blocks.subrange(0, k)).len() as int
}

/// Within the limits of the machine for a search.
pub open spec fn searchable(blocks: Seq<Seq<u8>>) -> bool {
    &&& blocks.len() < usize::MAX
    &&& 2 * content::joined(blocks).len() <= i64::MAX
    &&& forall|i: int|
        0 <= i < blocks.len() ==> (#[trigger] blocks[i]).len() + (if i + 1 < blocks.len() {
            blocks[i + 1].len()
        } else {
            0
        }) <= usize::MAX
}

/// A run of `len` bytes at `p` is in block `k`, or in it and the next one.
pub open spec fn in_pair(blocks: Seq<Seq<u8>>, k: int, p: int, len: int) -> bool {
    &&& 0 <= k < blocks.len()
    &&& start(blocks, k) <= p < start(blocks, k + 1)
    &&& p + len <= start(
        blocks,
        if k + 2 <= blocks.len() {
            k + 2
        } else {
            k + 1
        },
    )
}

proof fn lemma_start(blocks: Seq<Seq<u8>>, k: int)
    requires
        0 <= k < blocks.len(),
    ensures
        start(blocks, k + 1) == start(blocks, k) + blocks[k].len(),
        start(blocks, k + 1) <= content::joined(blocks).len(),
        content::joined(blocks).subrange(start(blocks, k), start(blocks, k + 1)) == blocks[k],
{
    assert(blocks.subrange(0, k + 1).drop_last() =~= blocks.subrange(0, k));
    content::lemma_joined_around(blocks, k);
    let all = content::joined(blocks);
    assert(all.subrange(start(blocks, k), start(blocks, k) + blocks[k].len()) =~= blocks[k]);
}

proof fn lemma_starts_grow(blocks: Seq<Seq<u8>>, i: int, j: int)
    requires
        0 <= i <= j <= blocks.len(),
    ensures
        start(blocks, i) <= start(blocks, j),
    decreases j - i,
{
    if i < j {
        lemma_start(blocks, j - 1);
        lemma_starts_grow(blocks, i, j - 1);
    }
}

/// The matches are occurrences in `doc` from the start of the search on, in
/// order.
pub open spec fn forward_sound(s: SearchModel, doc: Seq<u8>) -> bool {
    &&& forall|k: int|
        0 <= k < s.matches.len() ==> {
            &&& s.start_byte <= #[trigger] s.matches[k]
            &&& search::occurs(doc, s.query, s.matches[k] as int)
        }
    &&& forall|i: int, j: int| 0 <= i < j < s.matches.len() ==> s.matches[i] < s.matches[j]
}

/// A forward search is about to scan the next of `blocks`.
spec fn forward_at(s: SearchModel, blocks: Seq<Seq<u8>>) -> bool {
    &&& s.wf()
    &&& s.direction == Direction::Forward
    &&& !s.peek
    &&& s.block_count == blocks.len()
    &&& s.query.len() > 0
    &&& s.limit > 0
    &&& s.over ==> s.has_more || s.next == blocks.len()
    &&& s.has_more ==> s.over && s.matches.len() == s.limit
    &&& !s.has_more ==> {
        &&& s.next <= blocks.len()
        &&& s.scanned + (blocks.len() - s.next) < usize::MAX
        &&& s.offset == start(blocks, s.next as int)
        &&& search::forward_on_track(s, content::joined(blocks))
        &&& s.overlap.len() <= (if s.next > 0 {
            blocks[s.next - 1].len()
        } else {
            0
        })
    }
}

/// What a forward search scans again before block `k`, for a query of `len`
/// bytes.
spec fn again(blocks: Seq<Seq<u8>>, k: int, len: int) -> int {
    if blocks[k - 1].len() >= len - 1 {
        len - 1
    } else {
        blocks[k - 1].len() as int
    }
}

proof fn lemma_forward_step(s: SearchModel, blocks: Seq<Seq<u8>>)
    requires
        searchable(blocks),
        forward_at(s, blocks),
        !s.over,
    ensures
        ({
            let t = s.scan(blocks[s.next as int]);
            &&& forward_at(t, blocks)
            &&& t.query == s.query
            &&& t.start_byte == s.start_byte
            &&& t.limit == s.limit
            &&& forward_sound(t, content::joined(blocks))
            &&& !t.has_more ==> {
                &&& t.next == s.next + 1
                &&& t.overlap.len() == again(blocks, s.next + 1, s.query.len() as int)
            }
            &&& t.has_more ==> t.matches.last() + s.query.len() <= start(blocks, s.next + 1)
            &&& forall|m: u64| s.matches.contains(m) ==> #[trigger] t.matches.contains(m)
            &&& forall|p: int|
                s.offset - s.overlap.len() <= p && p + s.query.len() <= start(
                    blocks,
                    s.next + 1,
                ) && p >= s.start_byte && (!t.has_more || p <= t.matches.last())
                    && #[trigger] search::occurs(content::joined(blocks), s.query, p)
                    ==> exists|m: int| search::covers(t, content::joined(blocks), m, p)
        }),
{
    let doc = content::joined(blocks);
    let k = s.next as int;
    let block = blocks[k];
    lemma_start(blocks, k);
    if k > 0 {
        assert(blocks[k - 1].len() + blocks[k].len() <= usize::MAX);
        lemma_start(blocks, k - 1);
    }
    assert(s.accepts(block.len() as int));
    search::law_forward_scan(s, block, doc);
    let t = s.scan(block);
    let found = search::from_start(
        search::occurrences(s.overlap + block, s.query, 0),
        s.offset - s.overlap.len(),
        s.start_byte as int,
    );
    assert(t.matches == search::first_places(s.matches + found, s.limit as int));
    assert forall|m: u64| s.matches.contains(m) implies #[trigger] t.matches.contains(m) by {
        let i = choose|i: int| 0 <= i < s.matches.len() && s.matches[i] == m;
        assert(t.matches[i] == m);
    }
}

/// `p` is where an occurrence starts that ends in block `k` and of which the
/// search sees all when it scans that block.
spec fn seen(s: SearchModel, blocks: Seq<Seq<u8>>, p: int, k: int) -> bool {
    let len = s.query.len() as int;
    &&& s.next <= k < blocks.len()
    &&& p >= s.start_byte
    &&& start(blocks, k) < p + len <= start(blocks, k + 1)
    &&& p >= (if k == s.next {
        s.offset - s.overlap.len()
    } else {
        start(blocks, k) - again(blocks, k, len)
    })
    &&& search::occurs(content::joined(blocks), s.query, p)
}

proof fn lemma_forward_run(s: SearchModel, blocks: Seq<Seq<u8>>)
    requires
        searchable(blocks),
        forward_at(s, blocks),
        forward_sound(s, content::joined(blocks)),
    ensures
        ({
            let t = run(s, blocks);
            &&& t.over
            &&& t.query == s.query
            &&& t.start_byte == s.start_byte
            &&& forward_sound(t, content::joined(blocks))
            &&& t.has_more ==> t.matches.len() == s.limit
            &&& !t.has_more ==> !s.has_more
            &&& forall|m: u64| s.matches.contains(m) ==> #[trigger] t.matches.contains(m)
            &&& !s.has_more ==> forall|p: int, k: int|
                #[trigger] seen(s, blocks, p, k) && (!t.has_more || p <= t.matches.last())
                    ==> exists|m: int| search::covers(t, content::joined(blocks), m, p)
        }),
    decreases steps_left(s, blocks.len() as int),
{
    let doc = content::joined(blocks);
    if !s.over {
        lemma_forward_step(s, blocks);
        let next = s.scan(blocks[s.next as int]);
        lemma_forward_run(next, blocks);
        let t = run(s, blocks);
        assert forall|p: int, k: int|
            #[trigger] seen(s, blocks, p, k) && (!t.has_more || p
                <= t.matches.last()) implies exists|m: int| search::covers(t, doc, m, p) by {
            lemma_start(blocks, s.next as int);
            if next.has_more {
                assert(t == next);
                lemma_starts_grow(blocks, s.next + 1, if k > s.next {
                    k
                } else {
                    s.next + 1
                });
            }
            if k == s.next {
                let m = choose|m: int| search::covers(next, doc, m, p);
                assert(search::covers(next, doc, m, p));
                assert(search::covers(t, doc, m, p)) by {
                    if next.matches.contains(m as u64) {
                        assert(t.matches.contains(m as u64));
                    }
                }
            } else {
                assert(seen(next, blocks, p, k));
            }
        }
    } else if !s.has_more {
        assert(forall|p: int, k: int| !seen(s, blocks, p, k));
    }
}

/// A search forward through the whole document finds what it is for. It
/// reports only occurrences from the cursor on, each once and in order, and at
/// most as many as were asked for. It misses none that is within a block or two
/// adjacent ones, and none of these before the last match where it ends because
/// it has as many as were asked for: such an occurrence is reported, or
/// overlapped from the left by one that is, or by one that lies before the
/// cursor.
pub proof fn law_forward_search(ed: Editor, base: Seq<u8>, query: Seq<u8>, limit: usize)
    requires
        ed.wf(),
        ed.consistent(base),
        ed.block_count > 0,
        ed.cursor_byte <= ed.file_size,
        query.len() > 0,
        limit > 0,
        searchable(ed.blocks(base)),
    ensures
        ({
            let doc = ed.content(base);
            let t = run(ed.search_begun(query, Direction::Forward, limit), ed.blocks(base));
            &&& t.over
            &&& forward_sound(t, doc)
            &&& t.query == query
            &&& t.start_byte == ed.cursor_byte
            &&& t.has_more ==> t.matches.len() == limit
            &&& forall|p: int, k: int|
                p >= ed.cursor_byte && (!t.has_more || p <= t.matches.last())
                    && #[trigger] in_pair(ed.blocks(base), k, p, query.len() as int)
                    && search::occurs(doc, query, p) ==> exists|m: int|
                    search::covers(t, doc, m, p)
        }),
{
    let blocks = ed.blocks(base);
    let sizes = ed.delta_table.sizes();
    let doc = ed.content(base);
    let s = ed.search_begun(query, Direction::Forward, limit);
    let len = query.len() as int;
    ed.delta_table.lemma_wf();
    delta_table::lemma_block_at(sizes, ed.cursor_byte as int, sizes.len() - 1);
    let b = delta_table::block_at(sizes, ed.cursor_byte as int);
    content::lemma_prefix_is_length(sizes, blocks, b);
    lemma_start(blocks, b);
    assert(doc.subrange(s.offset as int, s.offset as int) =~= Seq::<u8>::empty());
    assert(forward_at(s, blocks));
    lemma_forward_run(s, blocks);
    let t = run(s, blocks);
    assert forall|p: int, k: int|
        p >= ed.cursor_byte && (!t.has_more || p <= t.matches.last()) && #[trigger] in_pair(
            blocks,
            k,
            p,
            len,
        ) && search::occurs(doc, query, p) implies exists|m: int|
        search::covers(t, doc, m, p) by {
        lemma_pair_seen(s, blocks, p, k);
        if !seen(s, blocks, p, k) {
            assert(seen(s, blocks, p, k + 1));
        }
    }
}

/// A search forward that has scanned nothing yet will see an occurrence in
/// block `k`, or in it and the next one.
proof fn lemma_pair_seen(s: SearchModel, blocks: Seq<Seq<u8>>, p: int, k: int)
    requires
        s.next < blocks.len(),
        s.offset == start(blocks, s.next as int),
        s.overlap.len() == 0,
        s.query.len() > 0,
        p >= s.start_byte >= s.offset,
        in_pair(blocks, k, p, s.query.len() as int),
        search::occurs(content::joined(blocks), s.query, p),
    ensures
        seen(s, blocks, p, k) || seen(s, blocks, p, k + 1),
{
    let len = s.query.len() as int;
    if k < s.next {
        lemma_starts_grow(blocks, k + 1, s.next as int);
    }
    lemma_start(blocks, k);
    if p + len > start(blocks, k + 1) {
        lemma_start(blocks, k + 1);
        assert(seen(s, blocks, p, k + 1));
    } else {
        assert(seen(s, blocks, p, k));
    }
}

/// The matches are occurrences in `doc` that start before the start of the
/// search, the last first.
pub open spec fn backward_sound(s: SearchModel, doc: Seq<u8>) -> bool {
    &&& forall|k: int|
        0 <= k < s.matches.len() ==> {
            &&& #[trigger] s.matches[k] < s.start_byte
            &&& search::occurs(doc, s.query, s.matches[k] as int)
        }
    &&& forall|i: int, j: int| 0 <= i < j < s.matches.len() ==> s.matches[i] > s.matches[j]
}

/// A match that covers `p` was reported.
pub open spec fn reported(s: SearchModel, doc: Seq<u8>, m: int, p: int) -> bool {
    &&& m <= p < m + s.query.len()
    &&& search::occurs(doc, s.query, m)
    &&& s.matches.contains(m as u64)
}

/// A backward search is about to scan the next of `blocks`.
spec fn backward_at(s: SearchModel, blocks: Seq<Seq<u8>>) -> bool {
    &&& s.wf()
    &&& s.direction == Direction::Backward
    &&& s.block_count == blocks.len()
    &&& s.query.len() > 0
    &&& s.limit > 0
    &&& s.has_more ==> s.over && s.matches.len() == s.limit
    &&& !s.over ==> {
        &&& s.next < blocks.len()
        &&& s.scanned + s.next + 1 < usize::MAX
        &&& search::backward_on_track(s, content::joined(blocks))
        &&& s.overlap.len() < s.query.len()
        &&& s.peek ==> s.first
        &&& if s.first {
            &&& s.offset == start(blocks, s.next as int)
            &&& s.next + 1 == blocks.len() ==> s.overlap.len() == 0
            &&& s.next + 1 < blocks.len() && !s.peek ==> s.overlap == search::head(
                blocks[s.next + 1],
                s.query.len() - 1,
            )
        } else {
            &&& s.next + 1 < blocks.len()
            &&& s.offset == start(blocks, s.next + 1)
            &&& s.overlap.len() <= blocks[s.next + 1].len()
        }
    }
}

/// What a backward search scans again behind block `k`, for a query of `len`
/// bytes.
spec fn again_behind(blocks: Seq<Seq<u8>>, k: int, len: int) -> int {
    if blocks[k + 1].len() >= len - 1 {
        len - 1
    } else {
        blocks[k + 1].len() as int
    }
}

proof fn lemma_backward_step(s: SearchModel, blocks: Seq<Seq<u8>>)
    requires
        searchable(blocks),
        backward_at(s, blocks),
        !s.over,
        !s.peek,
    ensures
        ({
            let t = s.scan(blocks[s.next as int]);
            let doc = content::joined(blocks);
            &&& backward_at(t, blocks)
            &&& t.query == s.query
            &&& t.start_byte == s.start_byte
            &&& t.limit == s.limit
            &&& backward_sound(t, doc)
            &&& !t.has_more ==> {
                &&& t.over <==> s.next == 0
                &&& !t.over ==> {
                    &&& t.next == s.next - 1
                    &&& !t.first
                    &&& !t.peek
                    &&& t.overlap.len() == again_behind(blocks, s.next - 1, s.query.len() as int)
                }
            }
            &&& t.has_more ==> start(blocks, s.next as int) <= t.matches.last()
            &&& forall|m: u64| s.matches.contains(m) ==> #[trigger] t.matches.contains(m)
            &&& forall|p: int|
                start(blocks, s.next as int) <= p < start(blocks, s.next + 1) && p
                    + s.query.len() <= start(blocks, s.next + 1) + s.overlap.len() && p
                    < s.start_byte && (!t.has_more || p >= t.matches.last())
                    && #[trigger] search::occurs(doc, s.query, p) ==> exists|m: int|
                    reported(t, doc, m, p)
        }),
{
    let doc = content::joined(blocks);
    let k = s.next as int;
    let block = blocks[k];
    lemma_start(blocks, k);
    assert(block.len() + (if k + 1 < blocks.len() {
        blocks[k + 1].len()
    } else {
        0
    }) <= usize::MAX);
    if k + 1 < blocks.len() {
        lemma_start(blocks, k + 1);
    }
    assert(s.accepts(block.len() as int));
    assert(s.backward_start(block) == start(blocks, k));
    let behind = start(blocks, k + 1);
    assert(behind + s.overlap.len() <= doc.len() && doc.subrange(
        behind,
        behind + s.overlap.len(),
    ) == s.overlap) by {
        if s.first && k + 1 < blocks.len() {
            let next = blocks[k + 1];
            assert(doc.subrange(behind, behind + s.overlap.len()) =~= doc.subrange(
                behind,
                start(blocks, k + 2),
            ).subrange(0, s.overlap.len() as int));
            assert(next.subrange(0, s.overlap.len() as int) =~= s.overlap);
        } else if s.first {
            assert(doc.subrange(behind, behind) =~= s.overlap);
        }
    }
    search::law_backward_scan(s, block, doc);
    let t = s.scan(block);
    let found = search::before_start(
        search::occurrences(block + s.overlap, s.query, 0),
        block.len() as int,
        start(blocks, k),
        s.start_byte as int,
    );
    assert(t.matches == search::first_places(s.matches + found, s.limit as int));
    assert forall|m: u64| s.matches.contains(m) implies #[trigger] t.matches.contains(m) by {
        let i = choose|i: int| 0 <= i < s.matches.len() && s.matches[i] == m;
        assert(t.matches[i] == m);
    }
    assert forall|p: int|
        start(blocks, k) <= p < start(blocks, k + 1) && p + s.query.len() <= start(
            blocks,
            k + 1,
        ) + s.overlap.len() && p < s.start_byte && (!t.has_more || p >= t.matches.last())
            && #[trigger] search::occurs(doc, s.query, p) implies exists|m: int|
        reported(t, doc, m, p) by {
        let m = choose|m: int|
            m <= p < m + s.query.len() && #[trigger] search::occurs(doc, s.query, m)
                && t.matches.contains(m as u64);
        assert(reported(t, doc, m, p));
    }
}

/// `p` is where an occurrence starts in block `k` of which the search sees all
/// when it scans that block.
spec fn seen_behind(s: SearchModel, blocks: Seq<Seq<u8>>, p: int, k: int) -> bool {
    let len = s.query.len() as int;
    &&& !s.over
    &&& 0 <= k <= s.next
    &&& p < s.start_byte
    &&& start(blocks, k) <= p < start(blocks, k + 1)
    &&& p + len <= start(blocks, k + 1) + (if k == s.next && !s.peek {
        s.overlap.len() as int
    } else {
        again_behind(blocks, k, len)
    })
    &&& search::occurs(content::joined(blocks), s.query, p)
}

proof fn lemma_backward_run(s: SearchModel, blocks: Seq<Seq<u8>>)
    requires
        searchable(blocks),
        backward_at(s, blocks),
        backward_sound(s, content::joined(blocks)),
    ensures
        ({
            let t = run(s, blocks);
            &&& t.over
            &&& t.query == s.query
            &&& t.start_byte == s.start_byte
            &&& backward_sound(t, content::joined(blocks))
            &&& t.has_more ==> t.matches.len() == s.limit
            &&& forall|m: u64| s.matches.contains(m) ==> #[trigger] t.matches.contains(m)
            &&& forall|p: int, k: int|
                #[trigger] seen_behind(s, blocks, p, k) && (!t.has_more || p >= t.matches.last())
                    ==> exists|m: int| reported(t, content::joined(blocks), m, p)
        }),
    decreases steps_left(s, blocks.len() as int),
{
    let doc = content::joined(blocks);
    if !s.over && s.peek {
        let next = s.scan(blocks[s.next + 1]);
        lemma_backward_run(next, blocks);
        let t = run(s, blocks);
        assert forall|p: int, k: int|
            #[trigger] seen_behind(s, blocks, p, k) && (!t.has_more || p
                >= t.matches.last()) implies exists|m: int| reported(t, doc, m, p) by {
            assert(seen_behind(next, blocks, p, k));
        }
    } else if !s.over {
        lemma_backward_step(s, blocks);
        let next = s.scan(blocks[s.next as int]);
        lemma_backward_run(next, blocks);
        let t = run(s, blocks);
        assert forall|p: int, k: int|
            #[trigger] seen_behind(s, blocks, p, k) && (!t.has_more || p
                >= t.matches.last()) implies exists|m: int| reported(t, doc, m, p) by {
            if next.has_more && k < s.next {
                lemma_starts_grow(blocks, k + 1, s.next as int);
            }
            if k == s.next {
                let m = choose|m: int| reported(next, doc, m, p);
                assert(reported(next, doc, m, p));
                assert(t.matches.contains(m as u64));
                assert(reported(t, doc, m, p));
            } else {
                assert(seen_behind(next, blocks, p, k));
            }
        }
    }
}

/// A search backward through the document finds what it is for. It reports only
/// occurrences that start before the cursor, each once and the last first, and
/// at most as many as were asked for. It misses none that is within a block or
/// two adjacent ones, and none of these behind the last match where it ends
/// because it has as many as were asked for: such an occurrence is reported, or
/// overlapped from the left by one that is.
pub proof fn law_backward_search(ed: Editor, base: Seq<u8>, query: Seq<u8>, limit: usize)
    requires
        ed.wf(),
        ed.consistent(base),
        ed.block_count > 0,
        0 < ed.cursor_byte <= ed.file_size,
        query.len() > 0,
        limit > 0,
        searchable(ed.blocks(base)),
    ensures
        ({
            let doc = ed.content(base);
            let blocks = ed.blocks(base);
            let t = run(ed.search_begun(query, Direction::Backward, limit), blocks);
            &&& t.over
            &&& backward_sound(t, doc)
            &&& t.query == query
            &&& t.start_byte == ed.cursor_byte
            &&& t.has_more ==> t.matches.len() == limit
            &&& forall|p: int, k: int|
                p < ed.cursor_byte && (!t.has_more || p >= t.matches.last()) && #[trigger] in_pair(
                    blocks,
                    k,
                    p,
                    query.len() as int,
                ) && search::occurs(doc, query, p) ==> exists|m: int| reported(t, doc, m, p)
        }),
{
    let blocks = ed.blocks(base);
    let sizes = ed.delta_table.sizes();
    let doc = ed.content(base);
    let s = ed.search_begun(query, Direction::Backward, limit);
    let len = query.len() as int;
    ed.delta_table.lemma_wf();
    delta_table::lemma_block_at(sizes, ed.cursor_byte as int, sizes.len() - 1);
    let b = delta_table::block_at(sizes, ed.cursor_byte as int);
    content::lemma_prefix_is_length(sizes, blocks, b);
    lemma_start(blocks, b);
    if b + 1 < blocks.len() {
        assert(search::head(blocks[b + 1], 0) =~= Seq::<u8>::empty());
    }
    assert(backward_at(s, blocks));
    lemma_backward_run(s, blocks);
    let t = run(s, blocks);
    assert forall|p: int, k: int|
        p < ed.cursor_byte && (!t.has_more || p >= t.matches.last()) && #[trigger] in_pair(
            blocks,
            k,
            p,
            len,
        ) && search::occurs(doc, query, p) implies exists|m: int| reported(t, doc, m, p) by {
        lemma_not_behind(ed, base, p, k);
        lemma_pair_seen_behind(s, blocks, p, k);
    }
}

/// What starts before the cursor does not start in a block behind its own.
proof fn lemma_not_behind(ed: Editor, base: Seq<u8>, p: int, k: int)
    requires
        ed.wf(),
        ed.consistent(base),
        p < ed.cursor_byte <= ed.file_size,
        0 <= k < ed.block_count,
        start(ed.blocks(base), k) <= p,
    ensures
        k <= delta_table::block_at(ed.delta_table.sizes(), ed.cursor_byte as int),
{
    let sizes = ed.delta_table.sizes();
    ed.delta_table.lemma_wf();
    delta_table::lemma_block_at(sizes, ed.cursor_byte as int, sizes.len() - 1);
    content::lemma_prefix_is_length(sizes, ed.blocks(base), k);
}

/// A search backward that has scanned nothing yet will see an occurrence that
/// starts in block `k`, not behind the first one to be scanned, and ends there
/// or in the next one.
proof fn lemma_pair_seen_behind(s: SearchModel, blocks: Seq<Seq<u8>>, p: int, k: int)
    requires
        !s.over,
        k <= s.next < blocks.len(),
        s.query.len() > 0,
        s.peek <==> s.query.len() > 1 && s.next + 1 < blocks.len(),
        p < s.start_byte,
        in_pair(blocks, k, p, s.query.len() as int),
        search::occurs(content::joined(blocks), s.query, p),
    ensures
        seen_behind(s, blocks, p, k),
{
    lemma_start(blocks, k);
    if k + 1 < blocks.len() {
        lemma_start(blocks, k + 1);
    }
}

/// A search for nothing finds nothing, and so does one for no matches, one in a
/// document without blocks and one backward from its start. None of them asks for
/// a block.
pub proof fn law_empty_search_finds_nothing(
    ed: Editor,
    blocks: Seq<Seq<u8>>,
    query: Seq<u8>,
    direction: Direction,
    limit: usize,
)
    requires
        ({
            ||| query.len() == 0
            ||| limit == 0
            ||| ed.block_count == 0
            ||| direction == Direction::Backward && ed.cursor_byte == 0
        }),
    ensures
        ({
            let t = run(ed.search_begun(query, direction, limit), blocks);
            &&& t.over
            &&& t.matches.len() == 0
            &&& t.scanned == 0
            &&& !t.has_more
        }),
{
}

/// Every block that is scanned is counted, and one of which only the start is taken
/// is not.
pub proof fn law_scanned_blocks_are_counted(s: SearchModel, content: Seq<u8>)
    requires
        s.scanned < usize::MAX,
    ensures
        s.scan(content).scanned == (if s.peek {
            s.scanned as int
        } else {
            s.scanned + 1
        }),
        s.scan(content).query == s.query,
        s.scan(content).direction == s.direction,
        s.scan(content).limit == s.limit,
        s.scan(content).start_byte == s.start_byte,
{
}

/// Every document of which the bytes can be counted twice over, and two blocks fit
/// into memory, can be searched.
pub proof fn law_document_can_be_searched(ed: Editor, base: Seq<u8>)
    requires
        ed.wf(),
        ed.consistent(base),
        2 * ed.file_size <= i64::MAX,
        ed.file_size <= usize::MAX,
        ed.block_count < usize::MAX,
    ensures
        searchable(ed.blocks(base)),
{
    let blocks = ed.blocks(base);
    let sizes = ed.delta_table.sizes();
    crate::edit_laws::lemma_content_length(ed, base);
    assert forall|i: int| 0 <= i < blocks.len() implies (#[trigger] blocks[i]).len() + (if i + 1
        < blocks.len() {
        blocks[i + 1].len()
    } else {
        0
    }) <= usize::MAX by {
        assert(sizes[i] == blocks[i].len());
        delta_table::lemma_prefix_monotone(sizes, 0, i);
        assert(delta_table::prefix(sizes, i + 1) == delta_table::prefix(sizes, i) + sizes[i]);
        if i + 1 < blocks.len() {
            assert(sizes[i + 1] == blocks[i + 1].len());
            assert(delta_table::prefix(sizes, i + 2) == delta_table::prefix(sizes, i + 1)
                + sizes[i + 1]);
            delta_table::lemma_prefix_monotone(sizes, i + 2, sizes.len() as int);
        } else {
            delta_table::lemma_prefix_monotone(sizes, i + 1, sizes.len() as int);
        }
    }
}

proof fn lemma_run_limit(s: SearchModel, blocks: Seq<Seq<u8>>)
    requires
        s.matches.len() <= s.limit,
        !s.over ==> s.matches.len() < s.limit,
        s.has_more ==> s.over && s.matches.len() == s.limit,
    ensures
        run(s, blocks).limit == s.limit,
        run(s, blocks).matches.len() <= s.limit,
        run(s, blocks).has_more ==> run(s, blocks).matches.len() == s.limit,
        !run(s, blocks).has_more && s.limit > 0 ==> run(s, blocks).matches.len() < s.limit
            || s.over,
    decreases steps_left(s, blocks.len() as int),
{
    if s.over || s.next >= blocks.len() || s.wants() >= blocks.len() || s.block_count
        != blocks.len() {
    } else {
        let t = s.scan(blocks[s.wants() as int]);
        lemma_run_limit(t, blocks);
        if t.over {
            assert(run(t, blocks) == t);
        }
    }
}

/// A search reports at most as many matches as were asked for, and says that it may
/// have stopped early if and only if it has as many.
pub proof fn law_search_keeps_to_limit(
    ed: Editor,
    blocks: Seq<Seq<u8>>,
    query: Seq<u8>,
    direction: Direction,
    limit: usize,
)
    requires
        limit > 0,
    ensures
        ({
            let t = run(ed.search_begun(query, direction, limit), blocks);
            &&& t.matches.len() <= limit
            &&& t.has_more <==> t.matches.len() == limit
        }),
{
    lemma_run_limit(ed.search_begun(query, direction, limit), blocks);
}

} // verus!
