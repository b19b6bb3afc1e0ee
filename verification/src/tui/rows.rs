//! The rows of the screen: lines of text or rows of bytes.

use crate::block::BlockId;
use crate::cache::BlockSnapshot;
use crate::cache::CacheModel;
use crate::content;
use crate::delta_table;
use crate::editor::Editor;
use crate::line_index;
use crate::line_index::Fetch;
use crate::tui::viewport;
use crate::tui::viewport::ViewPort;
use vstd::prelude::*;

verus! {

broadcast use crate::cache::group_asked;

/// A row: where in the document it starts and the bytes it shows, or nothing
/// behind the end of the document.
pub type Row = Option<(u64, Vec<u8>)>;

/// What a row is, with its bytes as a sequence.
pub open spec fn row_view(row: Row) -> Option<(int, Seq<u8>)> {
    match row {
        Some((offset, bytes)) => Some((offset as int, bytes@)),
        None => None,
    }
}

/// What rows are, with their bytes as sequences.
pub open spec fn rows_view(rows: Seq<Row>) -> Seq<Option<(int, Seq<u8>)>> {
    rows.map_values(|row: Row| row_view(row))
}

/// What each block holds; nothing is known of one that cannot be read.
pub type BlockTable = spec_fn(BlockId) -> Option<Seq<u8>>;

/// `table` says of the blocks in the cache what they hold, and of those that
/// cannot be read that nothing is known.
pub open spec fn holds(ed: Editor, unreadable: Seq<BlockId>, table: BlockTable) -> bool {
    &&& forall|id: BlockId| #[trigger]
        ed.cache@.has(id) ==> table(id) == Some(ed.cache@.blocks[id].bytes)
    &&& forall|i: int|
        0 <= i < unreadable.len() && !ed.cache@.has(#[trigger] unreadable[i]) ==> table(
            unreadable[i],
        ) is None
}

/// How many bytes of `s` are before its first newline; all where there is none.
pub open spec fn line_len(s: Seq<u8>) -> int
    decreases s.len(),
{
    if s.len() == 0 || s[0] == 10u8 {
        0
    } else {
        1 + line_len(s.skip(1))
    }
}

/// What block `b` holds from the byte at `pos` of the document on.
pub open spec fn rest_of_block(bytes: Seq<u8>, sizes: Seq<i64>, b: int, pos: int) -> Seq<u8> {
    bytes.skip(viewport::within(pos - delta_table::prefix(sizes, b), bytes.len() as int))
}

/// The bytes of the line from `pos` on, without its newline, and where the next
/// line starts. A line ends at the end of the document, and before a block that
/// cannot be read or holds nothing there; then nothing follows it.
pub open spec fn line_from(table: BlockTable, sizes: Seq<i64>, file_size: int, pos: int) -> (
    Seq<u8>,
    int,
)
    decreases file_size - pos,
{
    if pos >= file_size {
        (Seq::empty(), pos)
    } else {
        let b = delta_table::block_at(sizes, pos);
        match table(b as u64) {
            None => (Seq::empty(), file_size),
            Some(bytes) => {
                let data = rest_of_block(bytes, sizes, b, pos);
                let n = line_len(data);
                if data.len() == 0 {
                    (Seq::empty(), file_size)
                } else if n < data.len() {
                    (data.take(n), viewport::within(pos + n + 1, file_size))
                } else if pos + data.len() >= file_size {
                    (data, file_size)
                } else {
                    let more = line_from(table, sizes, file_size, pos + data.len());
                    (data + more.0, more.1)
                }
            },
        }
    }
}

/// The `n` rows of text from `pos` on.
pub open spec fn lines_from(
    table: BlockTable,
    sizes: Seq<i64>,
    file_size: int,
    pos: int,
    n: int,
) -> Seq<Option<(int, Seq<u8>)>>
    decreases n,
{
    if n <= 0 {
        Seq::empty()
    } else if pos >= file_size {
        seq![None] + lines_from(table, sizes, file_size, pos, n - 1)
    } else {
        let line = line_from(table, sizes, file_size, pos);
        seq![Some((pos, line.0))] + lines_from(table, sizes, file_size, line.1, n - 1)
    }
}

/// Rows of text that are being put together.
pub struct TextRows {
    pub rows: Vec<Row>,
    /// Whether a line has been begun.
    pub open: bool,
    /// The bytes of that line so far, and where it starts.
    pub line: Vec<u8>,
    pub start: u64,
    /// Where in the document to go on.
    pub pos: u64,
}

impl TextRows {
    /// What the first `n` rows will be, once all blocks are as `table` says.
    pub open spec fn whole(
        &self,
        table: BlockTable,
        sizes: Seq<i64>,
        file_size: int,
        n: int,
    ) -> Seq<Option<(int, Seq<u8>)>> {
        let done = self.rows@.len();
        if self.open {
            let more = line_from(table, sizes, file_size, self.pos as int);
            rows_view(self.rows@) + seq![Some((self.start as int, self.line@ + more.0))]
                + lines_from(table, sizes, file_size, more.1, n - done - 1)
        } else {
            rows_view(self.rows@) + lines_from(table, sizes, file_size, self.pos as int, n - done)
        }
    }

    /// At most `n` rows, with the one that has been begun.
    pub open spec fn wf(&self, n: int) -> bool {
        self.rows@.len() + (if self.open {
            1int
        } else {
            0int
        }) <= n
    }
}

/// The length of the line at the start of `bytes`.
fn measure(bytes: &[u8]) -> (n: usize)
    ensures
        n == line_len(bytes@),
        n <= bytes@.len(),
{
    let mut i: usize = 0;
    assert(bytes@.skip(0) =~= bytes@);
    while i < bytes.len() && bytes[i] != 10
        invariant
            i <= bytes@.len(),
            line_len(bytes@) == i + line_len(bytes@.skip(i as int)),
        decreases bytes@.len() - i,
    {
        assert(bytes@.skip(i as int).skip(1) =~= bytes@.skip(i + 1));
        i = i + 1;
    }
    i
}

/// Asking for blocks does not change what they hold.
proof fn lemma_holds_kept(a: Editor, b: Editor, unreadable: Seq<BlockId>, table: BlockTable)
    requires
        holds(a, unreadable, table),
        a.cache@.only_asked(b.cache@),
    ensures
        holds(b, unreadable, table),
{
    assert forall|id: BlockId| #[trigger] b.cache@.has(id) implies table(id) == Some(
        b.cache@.blocks[id].bytes,
    ) by {
        assert(a.cache@.has(id));
    }
    assert forall|i: int|
        0 <= i < unreadable.len() && !b.cache@.has(#[trigger] unreadable[i]) implies table(
        unreadable[i],
    ) is None by {
        assert(!a.cache@.has(unreadable[i]));
    }
}

impl TextRows {
    /// The line that was begun is over, and the next one starts at `next`.
    fn close(&mut self, next: u64)
        requires
            old(self).open,
        ensures
            !final(self).open,
            final(self).pos == next,
            rows_view(final(self).rows@) == rows_view(old(self).rows@).push(
                Some((old(self).start as int, old(self).line@)),
            ),
            final(self).rows@.len() == old(self).rows@.len() + 1,
    {
        let mut line: Vec<u8> = Vec::new();
        line.append(&mut self.line);
        assert(line@ =~= old(self).line@);
        self.rows.push(Some((self.start, line)));
        self.open = false;
        self.pos = next;
        assert(rows_view(self.rows@) =~= rows_view(old(self).rows@).push(
            Some((old(self).start as int, old(self).line@)),
        ));
    }

    /// Reads the line that was begun to its end, block by block.
    #[verifier::rlimit(40)]
    #[verifier::spinoff_prover]
    fn read_line(&mut self, ed: &mut Editor, unreadable: &Vec<BlockId>) -> (r: Fetch<()>)
        requires
            old(ed).wf(),
            old(self).open,
        ensures
            final(ed).wf(),
            *final(ed) == (Editor { cache: final(ed).cache, ..*old(ed) }),
            old(ed).cache@.only_asked(final(ed).cache@),
            final(self).pos >= old(self).pos,
            r matches Fetch::Missing(id) ==> {
                &&& id < old(ed).block_count
                &&& !old(ed).cache@.has(id)
                &&& !unreadable@.contains(id)
                &&& final(self).pos < old(ed).file_size
                &&& id == delta_table::block_at(
                    old(ed).delta_table.sizes(),
                    final(self).pos as int,
                )
                &&& final(self).open
                &&& final(self).rows@.len() == old(self).rows@.len()
            },
            r is Ready ==> {
                &&& !final(self).open
                &&& final(self).rows@.len() == old(self).rows@.len() + 1
            },
            forall|table: BlockTable, n: int| #[trigger]
                holds(*old(ed), unreadable@, table) ==> {
                    &&& holds(*final(ed), unreadable@, table)
                    &&& final(self).whole(
                        table,
                        old(ed).delta_table.sizes(),
                        old(ed).file_size as int,
                        n,
                    ) == #[trigger] old(self).whole(
                        table,
                        old(ed).delta_table.sizes(),
                        old(ed).file_size as int,
                        n,
                    )
                },
    {
        while self.pos < ed.file_size
            invariant
                old(self).open,
                self.open,
                self.rows@ == old(self).rows@,
                self.start == old(self).start,
                self.pos >= old(self).pos,
                old(ed).wf(),
                ed.wf(),
                *ed == (Editor { cache: ed.cache, ..*old(ed) }),
                old(ed).cache@.only_asked(ed.cache@),
                forall|table: BlockTable| #[trigger]
                    holds(*old(ed), unreadable@, table) ==> {
                        let sizes = old(ed).delta_table.sizes();
                        let size = old(ed).file_size as int;
                        let all = line_from(table, sizes, size, old(self).pos as int);
                        let more = line_from(table, sizes, size, self.pos as int);
                        &&& holds(*ed, unreadable@, table)
                        &&& self.line@ + more.0 == old(self).line@ + all.0
                        &&& more.1 == all.1
                    },
            decreases ed.file_size - self.pos,
        {
            let ghost sizes = ed.delta_table.sizes();
            let ghost before = *ed;
            let ghost pos = self.pos as int;
            let ghost line = self.line@;
            let (block_id, _) = ed.delta_table.locate_offset(self.pos);
            proof {
                delta_table::lemma_prefix_monotone(sizes, 0, block_id as int);
            }
            match ed.cache.try_get(block_id) {
                Some(snap) => {
                    let block_start: u64 = ed.delta_table.block_start_offset(
                        block_id,
                        ed.config.block_size,
                    );
                    let inner: u64 = self.pos - block_start;
                    let len: u64 = snap.contiguous.len() as u64;
                    let from: usize = if inner < len { inner as usize } else { len as usize };
                    let data = vstd::slice::slice_subrange(
                        snap.contiguous.as_slice(),
                        from,
                        snap.contiguous.len(),
                    );
                    let ghost bytes = snap.contiguous@;
                    assert(data@ =~= rest_of_block(bytes, sizes, block_id as int, pos));
                    proof {
                        assert forall|table: BlockTable| #[trigger]
                            holds(*old(ed), unreadable@, table) implies holds(
                            *ed,
                            unreadable@,
                            table,
                        ) && table(block_id) == Some(bytes) by {
                            assert(holds(before, unreadable@, table));
                            lemma_holds_kept(before, *ed, unreadable@, table);
                            assert(before.cache@.has(block_id));
                        }
                    }
                    if data.len() == 0 {
                        self.close(ed.file_size);
                        proof {
                            lemma_closed(*old(self), *self, *old(ed), *ed, unreadable@);
                        }
                        return Fetch::Ready(());
                    }
                    let n: usize = measure(data);
                    let room: u64 = ed.file_size - self.pos;
                    let taken = vstd::slice::slice_subrange(data, 0, n);
                    self.line.extend_from_slice(taken);
                    assert(self.line@ =~= line + data@.take(n as int));
                    if n < data.len() {
                        let next: u64 = if (n as u64) < room {
                            self.pos + n as u64 + 1
                        } else {
                            ed.file_size
                        };
                        self.close(next);
                        proof {
                            lemma_closed(*old(self), *self, *old(ed), *ed, unreadable@);
                        }
                        return Fetch::Ready(());
                    }
                    assert(data@.take(n as int) =~= data@);
                    proof {
                        assert forall|table: BlockTable| #[trigger]
                            holds(*old(ed), unreadable@, table) implies ({
                            let size = old(ed).file_size as int;
                            let all = line_from(table, sizes, size, old(self).pos as int);
                            let next = viewport::within(pos + data@.len(), size);
                            let more = line_from(table, sizes, size, next);
                            &&& self.line@ + more.0 == old(self).line@ + all.0
                            &&& more.1 == all.1
                        }) by {
                            let size = old(ed).file_size as int;
                            let here = line_from(table, sizes, size, pos);
                            let next = viewport::within(pos + data@.len(), size);
                            let more = line_from(table, sizes, size, next);
                            assert(here.0 =~= data@ + more.0);
                            assert(line + here.0 =~= self.line@ + more.0);
                        }
                    }
                    self.pos = if (data.len() as u64) < room {
                        self.pos + data.len() as u64
                    } else {
                        ed.file_size
                    };
                },
                None => {
                    let known = line_index::listed(unreadable, block_id);
                    proof {
                        assert forall|table: BlockTable| #[trigger]
                            holds(*old(ed), unreadable@, table) implies holds(
                            *ed,
                            unreadable@,
                            table,
                        ) && (known ==> table(block_id) is None) by {
                            assert(holds(before, unreadable@, table));
                            lemma_holds_kept(before, *ed, unreadable@, table);
                            if known {
                                let i = choose|i: int|
                                    0 <= i < unreadable@.len() && unreadable@[i] == block_id;
                                assert(!before.cache@.has(unreadable@[i]));
                            }
                        }
                    }
                    if known {
                        self.close(ed.file_size);
                        proof {
                            lemma_closed(*old(self), *self, *old(ed), *ed, unreadable@);
                        }
                        return Fetch::Ready(());
                    }
                    return Fetch::Missing(block_id);
                },
            }
        }
        self.close(self.pos);
        proof {
            lemma_closed(*old(self), *self, *old(ed), *ed, unreadable@);
        }
        Fetch::Ready(())
    }
}

/// A line that was read to its end is the next of the rows.
proof fn lemma_closed(
    a: TextRows,
    b: TextRows,
    before: Editor,
    after: Editor,
    unreadable: Seq<BlockId>,
)
    requires
        a.open,
        !b.open,
        b.rows@.len() == a.rows@.len() + 1,
        forall|table: BlockTable| #[trigger]
            holds(before, unreadable, table) ==> {
                let more = line_from(
                    table,
                    before.delta_table.sizes(),
                    before.file_size as int,
                    a.pos as int,
                );
                &&& holds(after, unreadable, table)
                &&& rows_view(b.rows@) == rows_view(a.rows@).push(
                    Some((a.start as int, a.line@ + more.0)),
                )
                &&& b.pos == more.1
            },
    ensures
        forall|table: BlockTable, n: int| #[trigger]
            holds(before, unreadable, table) ==> {
                &&& holds(after, unreadable, table)
                &&& b.whole(table, before.delta_table.sizes(), before.file_size as int, n)
                    == #[trigger] a.whole(
                    table,
                    before.delta_table.sizes(),
                    before.file_size as int,
                    n,
                )
            },
{
    let sizes = before.delta_table.sizes();
    let size = before.file_size as int;
    assert forall|table: BlockTable, n: int| #[trigger]
        holds(before, unreadable, table) implies holds(after, unreadable, table) && b.whole(
        table,
        sizes,
        size,
        n,
    ) == #[trigger] a.whole(table, sizes, size, n) by {
        assert(b.whole(table, sizes, size, n) =~= a.whole(table, sizes, size, n));
    }
}

impl ViewPort {
    /// Begins to put together the rows of text of the screen.
    pub fn begin_rows(&self) -> (job: TextRows)
        ensures
            job.rows@ == Seq::<Row>::empty(),
            job.wf(self.visible_rows as int),
            forall|table: BlockTable, sizes: Seq<i64>, file_size: int, n: int| #[trigger]
                job.whole(table, sizes, file_size, n) == lines_from(
                    table,
                    sizes,
                    file_size,
                    self.top_byte as int,
                    n,
                ),
    {
        let job = TextRows {
            rows: Vec::new(),
            open: false,
            line: Vec::new(),
            start: self.top_byte,
            pos: self.top_byte,
        };
        proof {
            assert forall|table: BlockTable, sizes: Seq<i64>, file_size: int, n: int| #[trigger]
                job.whole(table, sizes, file_size, n) == lines_from(
                    table,
                    sizes,
                    file_size,
                    self.top_byte as int,
                    n,
                ) by {
                assert(job.whole(table, sizes, file_size, n) =~= lines_from(
                    table,
                    sizes,
                    file_size,
                    self.top_byte as int,
                    n,
                ));
            }
        }
        job
    }

    /// Goes on putting together the rows of text of the screen: one line of the
    /// document each, and nothing behind its end. When it is done, `job.rows`
    /// has as many rows as the screen.
    pub fn text_rows(&self, ed: &mut Editor, job: &mut TextRows, unreadable: &Vec<BlockId>) -> (r:
        Fetch<()>)
        requires
            old(ed).wf(),
            old(job).wf(self.visible_rows as int),
        ensures
            final(ed).wf(),
            *final(ed) == (Editor { cache: final(ed).cache, ..*old(ed) }),
            old(ed).cache@.only_asked(final(ed).cache@),
            final(job).wf(self.visible_rows as int),
            final(job).pos >= old(job).pos,
            r matches Fetch::Missing(id) ==> {
                &&& id < old(ed).block_count
                &&& !old(ed).cache@.has(id)
                &&& !unreadable@.contains(id)
                &&& final(job).rows@.len() < self.visible_rows
                &&& final(job).pos < old(ed).file_size
                &&& id == delta_table::block_at(
                    old(ed).delta_table.sizes(),
                    final(job).pos as int,
                )
            },
            r is Ready ==> final(job).rows@.len() == self.visible_rows,
            forall|table: BlockTable| #[trigger]
                holds(*old(ed), unreadable@, table) ==> {
                    let sizes = old(ed).delta_table.sizes();
                    let size = old(ed).file_size as int;
                    let rows = self.visible_rows as int;
                    &&& holds(*final(ed), unreadable@, table)
                    &&& final(job).whole(table, sizes, size, rows) == old(job).whole(
                        table,
                        sizes,
                        size,
                        rows,
                    )
                    &&& r is Ready ==> rows_view(final(job).rows@) == old(job).whole(
                        table,
                        sizes,
                        size,
                        rows,
                    )
                },
    {
        while job.rows.len() < self.visible_rows
            invariant
                old(ed).wf(),
                ed.wf(),
                *ed == (Editor { cache: ed.cache, ..*old(ed) }),
                old(ed).cache@.only_asked(ed.cache@),
                job.wf(self.visible_rows as int),
                job.pos >= old(job).pos,
                forall|table: BlockTable| #[trigger]
                    holds(*old(ed), unreadable@, table) ==> {
                        let sizes = old(ed).delta_table.sizes();
                        let size = old(ed).file_size as int;
                        let rows = self.visible_rows as int;
                        &&& holds(*ed, unreadable@, table)
                        &&& job.whole(table, sizes, size, rows) == old(job).whole(
                            table,
                            sizes,
                            size,
                            rows,
                        )
                    },
            decreases self.visible_rows - job.rows@.len(),
        {
            if !job.open {
                let ghost before = *job;
                if job.pos >= ed.file_size {
                    job.rows.push(None);
                    proof {
                        lemma_nothing_more(before, *job, *ed, self.visible_rows as int);
                    }
                    continue ;
                }
                job.open = true;
                job.start = job.pos;
                job.line = Vec::new();
                proof {
                    lemma_begun(before, *job, *ed, self.visible_rows as int);
                }
            }
            let ghost here = *ed;
            let ghost begun = *job;
            let got = job.read_line(ed, unreadable);
            proof {
                assert forall|table: BlockTable| #[trigger]
                    holds(*old(ed), unreadable@, table) implies ({
                    let sizes = old(ed).delta_table.sizes();
                    let size = old(ed).file_size as int;
                    let rows = self.visible_rows as int;
                    &&& holds(*ed, unreadable@, table)
                    &&& job.whole(table, sizes, size, rows) == old(job).whole(
                        table,
                        sizes,
                        size,
                        rows,
                    )
                }) by {
                    assert(holds(here, unreadable@, table));
                    let sizes = old(ed).delta_table.sizes();
                    let size = old(ed).file_size as int;
                    let rows = self.visible_rows as int;
                    assert(begun.whole(table, sizes, size, rows) == old(job).whole(
                        table,
                        sizes,
                        size,
                        rows,
                    ));
                }
            }
            match got {
                Fetch::Ready(_) => {},
                Fetch::Missing(id) => {
                    return Fetch::Missing(id);
                },
            }
        }
        proof {
            assert forall|table: BlockTable| #[trigger]
                holds(*old(ed), unreadable@, table) implies rows_view(job.rows@) == old(job).whole(
                table,
                old(ed).delta_table.sizes(),
                old(ed).file_size as int,
                self.visible_rows as int,
            ) by {
                assert(job.whole(
                    table,
                    old(ed).delta_table.sizes(),
                    old(ed).file_size as int,
                    self.visible_rows as int,
                ) =~= rows_view(job.rows@));
            }
        }
        Fetch::Ready(())
    }
}

/// Rows of text ask for the blocks of the document in order: where going on from
/// `later` needs another block than going on from `pos` before it did, that is
/// one further on, so that there are at most as many requests as blocks.
pub proof fn law_rows_ask_further_on(sizes: Seq<i64>, pos: int, later: int)
    requires
        sizes.len() > 0,
        0 <= pos <= later,
        delta_table::block_at(sizes, later) != delta_table::block_at(sizes, pos),
    ensures
        delta_table::block_at(sizes, later) > delta_table::block_at(sizes, pos),
{
    delta_table::lemma_block_at(sizes, pos, sizes.len() - 1);
    delta_table::lemma_block_at(sizes, later, sizes.len() - 1);
}

/// Behind the end of the document there are rows with nothing.
proof fn lemma_nothing_more(a: TextRows, b: TextRows, ed: Editor, n: int)
    requires
        !a.open,
        a.rows@.len() < n,
        a.pos >= ed.file_size,
        b == (TextRows { rows: b.rows, ..a }),
        b.rows@ == a.rows@.push(None),
    ensures
        forall|table: BlockTable| #[trigger]
            b.whole(table, ed.delta_table.sizes(), ed.file_size as int, n) == a.whole(
                table,
                ed.delta_table.sizes(),
                ed.file_size as int,
                n,
            ),
{
    let sizes = ed.delta_table.sizes();
    let size = ed.file_size as int;
    assert(rows_view(b.rows@) =~= rows_view(a.rows@).push(None));
    assert forall|table: BlockTable| #[trigger] b.whole(table, sizes, size, n) == a.whole(
        table,
        sizes,
        size,
        n,
    ) by {
        assert(b.whole(table, sizes, size, n) =~= a.whole(table, sizes, size, n));
    }
}

/// To begin a line changes nothing of what the rows will be.
proof fn lemma_begun(a: TextRows, b: TextRows, ed: Editor, n: int)
    requires
        !a.open,
        a.rows@.len() < n,
        a.pos < ed.file_size,
        b.open,
        b.rows == a.rows,
        b.pos == a.pos,
        b.start == a.pos,
        b.line@.len() == 0,
    ensures
        forall|table: BlockTable| #[trigger]
            b.whole(table, ed.delta_table.sizes(), ed.file_size as int, n) == a.whole(
                table,
                ed.delta_table.sizes(),
                ed.file_size as int,
                n,
            ),
{
    let sizes = ed.delta_table.sizes();
    let size = ed.file_size as int;
    assert forall|table: BlockTable| #[trigger] b.whole(table, sizes, size, n) == a.whole(
        table,
        sizes,
        size,
        n,
    ) by {
        let more = line_from(table, sizes, size, a.pos as int);
        assert(b.line@ + more.0 =~= more.0);
        assert(b.whole(table, sizes, size, n) =~= a.whole(table, sizes, size, n));
    }
}

/// The bytes of the document from `pos` to `end`, as far as the blocks that
/// they are in are in the cache.
pub open spec fn run_from(c: CacheModel, sizes: Seq<i64>, pos: int, end: int) -> Seq<u8>
    decreases end - pos,
{
    if pos >= end {
        Seq::empty()
    } else {
        let b = delta_table::block_at(sizes, pos);
        let data = rest_of_block(c.blocks[b as u64].bytes, sizes, b, pos);
        if !c.has(b as u64) || data.len() == 0 {
            Seq::empty()
        } else if pos + data.len() >= end {
            data.take(end - pos)
        } else {
            data + run_from(c, sizes, pos + data.len(), end)
        }
    }
}

/// A row of bytes: those of the document from `start` on, as far as the blocks
/// that they are in are in the cache.
pub open spec fn hex_row(
    c: CacheModel,
    sizes: Seq<i64>,
    file_size: int,
    start: int,
    width: int,
) -> Option<(int, Seq<u8>)> {
    if start >= file_size {
        None
    } else {
        Some((start, run_from(c, sizes, start, viewport::within(start + width, file_size))))
    }
}

/// A copy of a block of `c`, where there is one.
spec fn copy_of(c: CacheModel, held: Option<(BlockId, BlockSnapshot)>) -> bool {
    held matches Some((id, snap)) ==> c.has(id) && snap.copies(id, c.blocks[id])
}

/// The bytes of the document from `from` to `to`, as far as the blocks that
/// they are in are in the cache. The copy of a block that was read last is kept.
fn bytes_between(
    ed: &mut Editor,
    held: Option<(BlockId, BlockSnapshot)>,
    from: u64,
    to: u64,
) -> (r: (Vec<u8>, Option<(BlockId, BlockSnapshot)>))
    requires
        old(ed).wf(),
        from <= to <= old(ed).file_size,
        copy_of(old(ed).cache@, held),
    ensures
        final(ed).wf(),
        *final(ed) == (Editor { cache: final(ed).cache, ..*old(ed) }),
        old(ed).cache@.only_asked(final(ed).cache@),
        r.0@ == run_from(old(ed).cache@, old(ed).delta_table.sizes(), from as int, to as int),
        copy_of(old(ed).cache@, r.1),
{
    let mut out: Vec<u8> = Vec::new();
    let mut held = held;
    let mut pos: u64 = from;
    let ghost c = ed.cache@;
    let ghost sizes = ed.delta_table.sizes();
    assert(out@ + run_from(c, sizes, from as int, to as int) =~= run_from(
        c,
        sizes,
        from as int,
        to as int,
    ));
    while pos < to
        invariant
            old(ed).wf(),
            ed.wf(),
            *ed == (Editor { cache: ed.cache, ..*old(ed) }),
            c == old(ed).cache@,
            sizes == old(ed).delta_table.sizes(),
            c.only_asked(ed.cache@),
            copy_of(c, held),
            from <= pos <= to <= ed.file_size,
            out@ + run_from(c, sizes, pos as int, to as int) == run_from(
                c,
                sizes,
                from as int,
                to as int,
            ),
        decreases to - pos,
    {
        let ghost done = out@;
        let (b, _) = ed.delta_table.locate_offset(pos);
        proof {
            delta_table::lemma_prefix_monotone(sizes, 0, b as int);
        }
        let fresh = match &held {
            Some((id, _)) => *id != b,
            None => true,
        };
        if fresh {
            held = match ed.cache.try_get(b) {
                Some(snap) => Some((b, snap)),
                None => None,
            };
        }
        match &held {
            Some((_, snap)) => {
                let block_start: u64 = ed.delta_table.block_start_offset(b, ed.config.block_size);
                let inner: u64 = pos - block_start;
                let len: u64 = snap.contiguous.len() as u64;
                let at: usize = if inner < len { inner as usize } else { len as usize };
                let data = vstd::slice::slice_subrange(
                    snap.contiguous.as_slice(),
                    at,
                    snap.contiguous.len(),
                );
                assert(data@ =~= rest_of_block(c.blocks[b].bytes, sizes, b as int, pos as int));
                if data.len() == 0 {
                    assert(out@ + run_from(c, sizes, pos as int, to as int) =~= out@);
                    return (out, held);
                }
                if data.len() as u64 >= to - pos {
                    let part = vstd::slice::slice_subrange(data, 0, (to - pos) as usize);
                    out.extend_from_slice(part);
                    assert(out@ =~= done + data@.take(to - pos));
                    return (out, held);
                }
                out.extend_from_slice(data);
                pos = pos + data.len() as u64;
                assert(out@ + run_from(c, sizes, pos as int, to as int) =~= done + (data@
                    + run_from(c, sizes, pos as int, to as int)));
            },
            None => {
                assert(out@ + run_from(c, sizes, pos as int, to as int) =~= out@);
                return (out, held);
            },
        }
    }
    assert(out@ + run_from(c, sizes, pos as int, to as int) =~= out@);
    (out, held)
}

impl ViewPort {
    /// The rows of bytes of the screen, as far as the blocks that they are in
    /// are in the cache.
    pub fn hex_rows(&self, ed: &mut Editor, bytes_per_row: usize) -> (rows: Vec<Row>)
        requires
            old(ed).wf(),
        ensures
            final(ed).wf(),
            *final(ed) == (Editor { cache: final(ed).cache, ..*old(ed) }),
            old(ed).cache@.only_asked(final(ed).cache@),
            rows@.len() == self.visible_rows,
            forall|i: int|
                0 <= i < rows@.len() ==> row_view(#[trigger] rows@[i]) == hex_row(
                    old(ed).cache@,
                    old(ed).delta_table.sizes(),
                    old(ed).file_size as int,
                    self.top_byte + i * bytes_per_row,
                    bytes_per_row as int,
                ),
    {
        let width: u64 = bytes_per_row as u64;
        let mut rows: Vec<Row> = Vec::new();
        let mut held: Option<(BlockId, BlockSnapshot)> = None;
        let mut start: u128 = self.top_byte as u128;
        let ghost c = ed.cache@;
        while rows.len() < self.visible_rows
            invariant
                old(ed).wf(),
                ed.wf(),
                *ed == (Editor { cache: ed.cache, ..*old(ed) }),
                c == old(ed).cache@,
                c.only_asked(ed.cache@),
                width == bytes_per_row,
                rows@.len() <= self.visible_rows,
                start == self.top_byte + rows@.len() * bytes_per_row,
                copy_of(c, held),
                forall|i: int|
                    0 <= i < rows@.len() ==> row_view(#[trigger] rows@[i]) == hex_row(
                        c,
                        old(ed).delta_table.sizes(),
                        old(ed).file_size as int,
                        self.top_byte + i * bytes_per_row,
                        bytes_per_row as int,
                    ),
            decreases self.visible_rows - rows@.len(),
        {
            let ghost done = rows@;
            proof {
                let i = rows@.len() as int;
                let w = bytes_per_row as int;
                assert((i + 1) * w == i * w + w) by (nonlinear_arith);
                assert((i + 1) * w <= 0xffff_ffff_ffff_ffff * 0xffff_ffff_ffff_ffff)
                    by (nonlinear_arith)
                    requires
                        0 <= i < 0xffff_ffff_ffff_ffff,
                        0 <= w <= 0xffff_ffff_ffff_ffff,
                ;
            }
            if start >= ed.file_size as u128 {
                rows.push(None);
            } else {
                let at: u64 = start as u64;
                let room: u64 = ed.file_size - at;
                let end: u64 = if width < room { at + width } else { ed.file_size };
                let ghost asked = ed.cache@;
                proof {
                    lemma_run_kept(c, asked, ed.delta_table.sizes(), at as int, end as int);
                }
                let (bytes, kept) = bytes_between(ed, held, at, end);
                proof {
                    crate::cache::lemma_asked_more(c, asked, ed.cache@);
                }
                held = kept;
                rows.push(Some((at, bytes)));
            }
            proof {
                let i = done.len() as int;
                assert(rows@.drop_last() =~= done);
                assert(row_view(rows@[i]) == hex_row(
                    c,
                    old(ed).delta_table.sizes(),
                    old(ed).file_size as int,
                    start as int,
                    bytes_per_row as int,
                ));
                assert forall|k: int| 0 <= k < rows@.len() implies row_view(#[trigger] rows@[k])
                    == hex_row(
                    c,
                    old(ed).delta_table.sizes(),
                    old(ed).file_size as int,
                    self.top_byte + k * bytes_per_row,
                    bytes_per_row as int,
                ) by {
                    if k < i {
                        assert(done[k] == rows@[k]);
                    }
                }
            }
            start = start + width as u128;
        }
        rows
    }
}

/// Asking for blocks does not change what the document shows.
proof fn lemma_run_kept(c: CacheModel, d: CacheModel, sizes: Seq<i64>, pos: int, end: int)
    requires
        c.only_asked(d),
    ensures
        run_from(d, sizes, pos, end) == run_from(c, sizes, pos, end),
    decreases end - pos,
{
    if pos < end {
        let b = delta_table::block_at(sizes, pos);
        assert(c.has(b as u64) == d.has(b as u64));
        let data = rest_of_block(c.blocks[b as u64].bytes, sizes, b, pos);
        if c.has(b as u64) && data.len() > 0 && pos + data.len() < end {
            lemma_run_kept(c, d, sizes, pos + data.len(), end);
        }
    }
}

proof fn lemma_line_len(a: Seq<u8>, b: Seq<u8>)
    ensures
        0 <= line_len(a) <= a.len(),
        0 <= line_len(b) <= b.len(),
        line_len(a + b) == (if line_len(a) < a.len() {
            line_len(a)
        } else {
            a.len() + line_len(b)
        }),
    decreases a.len() + b.len(),
{
    if a.len() > 0 {
        lemma_line_len(a.skip(1), b);
        assert((a + b).skip(1) =~= a.skip(1) + b);
    } else {
        assert(a + b =~= b);
        if b.len() > 0 {
            lemma_line_len(a, b.skip(1));
        }
    }
}

/// What each block of the document over the file `base` on disk holds.
pub open spec fn blocks_of(ed: Editor, base: Seq<u8>) -> BlockTable {
    |id: BlockId| Some(content::bytes_of(ed.cache@, base, ed.block_size(), id))
}

/// The `n` rows of the text `s` from `pos` on: its lines, each without its
/// newline, and nothing behind its end.
pub open spec fn lines_of(s: Seq<u8>, pos: int, n: int) -> Seq<Option<(int, Seq<u8>)>>
    decreases n,
{
    if n <= 0 {
        Seq::empty()
    } else if pos >= s.len() {
        seq![None] + lines_of(s, pos, n - 1)
    } else {
        let len = line_len(s.skip(pos));
        seq![Some((pos, s.subrange(pos, pos + len)))] + lines_of(
            s,
            viewport::within(pos + len + 1, s.len() as int),
            n - 1,
        )
    }
}

/// A place in the document is in the block that is found for it, and what the
/// document holds from there on starts with the rest of that block.
proof fn lemma_rest(ed: Editor, base: Seq<u8>, pos: int)
    requires
        ed.wf(),
        ed.consistent(base),
        0 <= pos < ed.file_size,
    ensures
        ({
            let sizes = ed.delta_table.sizes();
            let b = delta_table::block_at(sizes, pos);
            let data = rest_of_block(ed.blocks(base)[b], sizes, b, pos);
            &&& 0 <= b < ed.block_count
            &&& data.len() > 0
            &&& pos + data.len() <= ed.file_size == ed.content(base).len()
            &&& ed.content(base).skip(pos) == data + ed.content(base).skip(pos + data.len())
        }),
{
    let sizes = ed.delta_table.sizes();
    let blocks = ed.blocks(base);
    let all = ed.content(base);
    ed.delta_table.lemma_wf();
    delta_table::lemma_block_at(sizes, pos, sizes.len() - 1);
    let b = delta_table::block_at(sizes, pos);
    content::lemma_prefix_is_length(sizes, blocks, b);
    content::lemma_prefix_is_length(sizes, blocks, blocks.len() as int);
    assert(blocks.subrange(0, blocks.len() as int) =~= blocks);
    content::lemma_joined_around(blocks, b);
    let start = delta_table::prefix(sizes, b);
    assert(delta_table::prefix(sizes, b + 1) == start + sizes[b]);
    assert(sizes[b] == blocks[b].len());
    assert(pos < start + sizes[b]);
    let data = rest_of_block(blocks[b], sizes, b, pos);
    assert(all.skip(pos) =~= data + all.skip(pos + data.len()));
}

proof fn lemma_line_of_document(ed: Editor, base: Seq<u8>, pos: int)
    requires
        ed.wf(),
        ed.consistent(base),
        0 <= pos < ed.file_size,
    ensures
        ({
            let all = ed.content(base);
            let len = line_len(all.skip(pos));
            let line = line_from(
                blocks_of(ed, base),
                ed.delta_table.sizes(),
                ed.file_size as int,
                pos,
            );
            &&& ed.file_size == all.len()
            &&& 0 <= len
            &&& pos + len <= all.len()
            &&& line.0 == all.subrange(pos, pos + len)
            &&& line.1 == viewport::within(pos + len + 1, all.len() as int)
        }),
    decreases ed.file_size - pos,
{
    let sizes = ed.delta_table.sizes();
    let all = ed.content(base);
    let b = delta_table::block_at(sizes, pos);
    let data = rest_of_block(ed.blocks(base)[b], sizes, b, pos);
    lemma_rest(ed, base, pos);
    let rest = all.skip(pos + data.len());
    lemma_line_len(data, rest);
    lemma_line_len(all.skip(pos), Seq::empty());
    let len = line_len(all.skip(pos));
    let line = line_from(blocks_of(ed, base), sizes, ed.file_size as int, pos);
    assert(blocks_of(ed, base)(b as u64) == Some(ed.blocks(base)[b]));
    if line_len(data) < data.len() {
        assert(all.subrange(pos, pos + len) =~= data.take(len)) by {
            assert forall|i: int| 0 <= i < len implies all.subrange(pos, pos + len)[i] == data.take(
                len,
            )[i] by {
                assert(all.skip(pos)[i] == data[i]);
            }
        }
    } else if pos + data.len() >= ed.file_size {
        assert(rest.len() == 0);
        assert(all.subrange(pos, pos + len) =~= data) by {
            assert forall|i: int| 0 <= i < len implies all.subrange(pos, pos + len)[i]
                == data[i] by {
                assert(all.skip(pos)[i] == data[i]);
            }
        }
    } else {
        lemma_line_of_document(ed, base, pos + data.len());
        assert(all.subrange(pos, pos + len) =~= line.0) by {
            assert forall|i: int| 0 <= i < len implies all.subrange(pos, pos + len)[i]
                == line.0[i] by {
                if i < data.len() {
                    assert(all.skip(pos)[i] == data[i]);
                }
            }
        }
    }
}

/// The rows of text are the lines of the document, where the recorded sizes are
/// right and every block can be read.
pub proof fn law_text_rows_are_lines(ed: Editor, base: Seq<u8>, pos: int, n: int)
    requires
        ed.wf(),
        ed.consistent(base),
        0 <= pos,
    ensures
        holds(ed, Seq::empty(), blocks_of(ed, base)),
        lines_from(blocks_of(ed, base), ed.delta_table.sizes(), ed.file_size as int, pos, n)
            == lines_of(ed.content(base), pos, n),
    decreases n,
{
    let sizes = ed.delta_table.sizes();
    let blocks = ed.blocks(base);
    content::lemma_prefix_is_length(sizes, blocks, blocks.len() as int);
    assert(blocks.subrange(0, blocks.len() as int) =~= blocks);
    if n > 0 {
        if pos >= ed.file_size {
            law_text_rows_are_lines(ed, base, pos, n - 1);
        } else {
            lemma_line_of_document(ed, base, pos);
            let line = line_from(blocks_of(ed, base), sizes, ed.file_size as int, pos);
            law_text_rows_are_lines(ed, base, line.1, n - 1);
        }
    }
}

/// The blocks with the bytes of the document from `pos` to `end` are in the
/// cache.
pub open spec fn row_cached(ed: Editor, pos: int, end: int) -> bool {
    forall|i: int|
        pos <= i < end ==> ed.cache@.has(
            #[trigger] delta_table::block_at(ed.delta_table.sizes(), i) as u64,
        )
}

proof fn lemma_run_of_document(ed: Editor, base: Seq<u8>, pos: int, end: int)
    requires
        ed.wf(),
        ed.consistent(base),
        0 <= pos <= end <= ed.file_size,
        row_cached(ed, pos, end),
    ensures
        ed.content(base).len() == ed.file_size,
        run_from(ed.cache@, ed.delta_table.sizes(), pos, end) == ed.content(base).subrange(
            pos,
            end,
        ),
    decreases end - pos,
{
    let sizes = ed.delta_table.sizes();
    let all = ed.content(base);
    if pos < end {
        let b = delta_table::block_at(sizes, pos);
        assert(ed.cache@.has(b as u64));
        lemma_rest(ed, base, pos);
        let data = rest_of_block(ed.blocks(base)[b], sizes, b, pos);
        let cut = if pos + data.len() < end {
            pos + data.len()
        } else {
            end
        };
        lemma_run_of_document(ed, base, cut, end);
        let run = run_from(ed.cache@, sizes, pos, end);
        assert forall|i: int| 0 <= i < end - pos implies run[i] == all[pos + i] by {
            if i < data.len() {
                assert(all.skip(pos)[i] == data[i]);
            }
        }
        assert(run =~= all.subrange(pos, end));
    } else {
        let blocks = ed.blocks(base);
        content::lemma_prefix_is_length(sizes, blocks, blocks.len() as int);
        assert(blocks.subrange(0, blocks.len() as int) =~= blocks);
        assert(all.subrange(pos, end) =~= Seq::<u8>::empty());
    }
}

/// Where a block is missing, what is shown is the document up to there.
pub proof fn lemma_run_is_of_document(ed: Editor, base: Seq<u8>, pos: int, end: int, i: int)
    requires
        ed.wf(),
        ed.consistent(base),
        0 <= pos <= end <= ed.file_size,
    ensures
        ({
            let run = run_from(ed.cache@, ed.delta_table.sizes(), pos, end);
            &&& run.len() <= end - pos
            &&& 0 <= i < run.len() ==> run[i] == ed.content(base)[pos + i]
        }),
    decreases end - pos,
{
    let sizes = ed.delta_table.sizes();
    let all = ed.content(base);
    if pos < end {
        let b = delta_table::block_at(sizes, pos);
        lemma_rest(ed, base, pos);
        if ed.cache@.has(b as u64) {
            let data = rest_of_block(ed.blocks(base)[b], sizes, b, pos);
            assert(ed.blocks(base)[b] == ed.cache@.blocks[b as u64].bytes);
            if 0 <= i < data.len() {
                assert(all.skip(pos)[i] == data[i]);
            }
            if pos + data.len() < end {
                lemma_run_is_of_document(ed, base, pos + data.len(), end, i - data.len());
            }
        }
    }
}

/// A row of bytes shows the document, where the recorded sizes are right and
/// the blocks that its bytes are in are in the cache.
pub proof fn law_hex_row_shows_document(ed: Editor, base: Seq<u8>, start: int, width: int)
    requires
        ed.wf(),
        ed.consistent(base),
        0 <= start < ed.file_size,
        width >= 0,
        row_cached(ed, start, viewport::within(start + width, ed.file_size as int)),
    ensures
        hex_row(
            ed.cache@,
            ed.delta_table.sizes(),
            ed.file_size as int,
            start,
            width,
        ) == Some(
            (
                start,
                ed.content(base).subrange(
                    start,
                    viewport::within(start + width, ed.file_size as int),
                ),
            ),
        ),
{
    lemma_run_of_document(
        ed,
        base,
        start,
        viewport::within(start + width, ed.file_size as int),
    );
}

} // verus!
