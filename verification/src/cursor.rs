//! Moving the cursor by lines.

use crate::block::BlockId;
use crate::config::OpenMode;
use crate::delta_table;
use crate::editor::Editor;
use crate::line_index;
use crate::line_index::{Fetch, LineIndex, NewlineTable};
use vstd::prelude::*;

verus! {

broadcast use crate::cache::group_asked;

/// `x`, or the nearer end of the range from `low` to `high`.
pub open spec fn clamped(x: int, low: int, high: int) -> int {
    if x < low {
        low
    } else if x > high {
        high
    } else {
        x
    }
}

/// Where a cursor at `cursor` is after `lines` rows of `bytes_per_line` bytes.
pub open spec fn row_target(cursor: int, file_size: int, lines: int, bytes_per_line: int) -> int {
    clamped(cursor + lines * bytes_per_line, 0, file_size)
}

/// Which line `lines` further than that of `cursor` is.
pub open spec fn line_target(nls: Seq<int>, cursor: int, lines: int) -> int {
    clamped(line_index::count_before(nls, cursor) + lines, 0, nls.len() as int)
}

/// Where line `line` ends, before its newline where it has one.
pub open spec fn end_of(nls: Seq<int>, file_size: int, line: int) -> int {
    if line < nls.len() {
        nls[line]
    } else {
        file_size
    }
}

/// Where a cursor at `cursor` is after `lines` lines of a document with the
/// newlines `nls`: as far into its line as before, or at the end of it. A
/// cursor behind the document counts as one in the last line.
pub open spec fn cursor_target(nls: Seq<int>, file_size: int, cursor: int, lines: int) -> int {
    let at = clamped(cursor, 0, file_size);
    let line = line_index::count_before(nls, at);
    let goal = line_target(nls, at, lines);
    let start = line_index::start_of(nls, file_size, goal);
    let end = end_of(nls, file_size, goal);
    let col = cursor - line_index::start_of(nls, file_size, line);
    if start + col < end {
        start + col
    } else {
        end
    }
}

/// The larger of two numbers.
pub open spec fn further(a: int, b: int) -> int {
    if a < b {
        b
    } else {
        a
    }
}

/// How far the document has to be known to move the cursor from `cursor` by
/// `lines` lines: up to there, and to the end of the line that it goes to.
pub open spec fn move_reach(nls: Seq<int>, file_size: int, cursor: int, lines: int) -> int {
    let at = clamped(cursor, 0, file_size);
    let goal = further(line_index::count_before(nls, at) + lines, 0);
    further(at, line_index::start_of(nls, file_size, goal + 1))
}

impl Editor {
    /// Moves the cursor by `lines` lines and keeps it in its column: by rows of
    /// `bytes_per_line` bytes where bytes are shown, and by the lines of the
    /// text elsewhere. While a block is missing the cursor stays where it is.
    pub fn move_cursor_lines(
        &mut self,
        lines: i64,
        bytes_per_line: u64,
        line_index: &mut LineIndex,
        unreadable: &Vec<BlockId>,
    ) -> (r: Fetch<()>)
        requires
            old(self).wf(),
            old(line_index).wf(),
            bytes_per_line <= i64::MAX,
        ensures
            final(self).wf(),
            final(line_index).wf(),
            *final(self) == (Editor {
                cursor_byte: final(self).cursor_byte,
                cache: final(self).cache,
                ..*old(self)
            }),
            old(self).cache@.only_asked(final(self).cache@),
            old(self).mode != OpenMode::Binary ==> line_index::learned(
                *old(line_index),
                *old(self),
                *final(line_index),
            ),
            r matches Fetch::Missing(id) ==> {
                &&& line_index::asks(
                    *old(line_index),
                    *old(self),
                    unreadable@,
                    id,
                    *final(line_index),
                )
                &&& final(self).cursor_byte == old(self).cursor_byte
                &&& old(self).mode != OpenMode::Binary
            },
            old(self).mode == OpenMode::Binary ==> {
                &&& final(self).cursor_byte == row_target(
                    old(self).cursor_byte as int,
                    old(self).file_size as int,
                    lines as int,
                    bytes_per_line as int,
                )
                &&& *final(line_index) == *old(line_index)
                &&& final(self).cache == old(self).cache
            },
            old(self).mode != OpenMode::Binary ==> forall|table: NewlineTable| #[trigger]
                line_index::reads(*old(line_index), *old(self), unreadable@, table) ==> {
                    let nls = line_index::newlines(table, old(self).delta_table.sizes());
                    let size = old(self).file_size as int;
                    let cursor = old(self).cursor_byte as int;
                    &&& line_index::reads(*final(line_index), *final(self), unreadable@, table)
                    &&& r is Ready ==> final(self).cursor_byte == cursor_target(
                        nls,
                        size,
                        cursor,
                        lines as int,
                    )
                    &&& r matches Fetch::Missing(id) ==> delta_table::prefix(
                        old(self).delta_table.sizes(),
                        id as int,
                    ) < move_reach(nls, size, cursor, lines as int)
                },
    {
        if self.mode == OpenMode::Binary {
            assert(-0x8000_0000_0000_0000 * 0x7fff_ffff_ffff_ffff <= lines * bytes_per_line
                <= 0x7fff_ffff_ffff_ffff * 0x7fff_ffff_ffff_ffff) by (nonlinear_arith)
                requires
                    -0x8000_0000_0000_0000 <= lines <= 0x7fff_ffff_ffff_ffff,
                    0 <= bytes_per_line <= 0x7fff_ffff_ffff_ffff,
            ;
            let moved: i128 = self.cursor_byte as i128 + lines as i128 * bytes_per_line as i128;
            self.cursor_byte = if moved < 0 {
                0
            } else if moved > self.file_size as i128 {
                self.file_size
            } else {
                moved as u64
            };
            return Fetch::Ready(());
        }
        let (line, _) = match line_index.offset_to_line(self, self.cursor_byte, unreadable) {
            Fetch::Ready(place) => place,
            Fetch::Missing(id) => {
                return Fetch::Missing(id);
            },
        };
        let moved: i128 = line as i128 + lines as i128;
        let goal: u64 = if moved < 0 {
            0
        } else if moved >= u64::MAX as i128 {
            u64::MAX - 1
        } else {
            moved as u64
        };
        proof {
            assert forall|table: NewlineTable| #[trigger]
                line_index::reads(*old(line_index), *old(self), unreadable@, table) implies {
                let nls = line_index::newlines(table, old(self).delta_table.sizes());
                let size = old(self).file_size as int;
                let at = clamped(old(self).cursor_byte as int, 0, size);
                let reach = move_reach(nls, size, old(self).cursor_byte as int, lines as int);
                &&& line_index::in_order(nls, size)
                &&& nls.len() <= i64::MAX
                &&& line == line_index::count_before(nls, at)
                &&& line <= nls.len()
                &&& line_index::start_of(nls, size, line as int) <= at <= reach
                &&& forall|l: int|
                    l <= goal + 1 ==> #[trigger] line_index::start_of(nls, size, l) <= reach
            } by {
                let nls = line_index::newlines(table, old(self).delta_table.sizes());
                let size = old(self).file_size as int;
                let at = clamped(old(self).cursor_byte as int, 0, size);
                line_index::lemma_reads_in_order(*old(line_index), *old(self), unreadable@, table);
                line_index::lemma_line_of(nls, size, at);
                line_index::lemma_few_lines(*old(line_index), *old(self), unreadable@, table);
                let wanted = further(line + lines, 0) + 1;
                assert(line_index::start_of(nls, size, goal + 1) == line_index::start_of(
                    nls,
                    size,
                    wanted,
                ));
                assert forall|l: int| l <= goal + 1 implies #[trigger] line_index::start_of(
                    nls,
                    size,
                    l,
                ) <= move_reach(nls, size, old(self).cursor_byte as int, lines as int) by {
                    line_index::lemma_starts_in_order(nls, size, l, goal + 1);
                }
            }
        }
        let (goal, start) = match line_index.line_or_last(self, goal, unreadable) {
            Fetch::Ready(found) => found,
            Fetch::Missing(id) => {
                return Fetch::Missing(id);
            },
        };
        let own_start: u64 = match line_index.line_start(self, line, unreadable) {
            Fetch::Ready(b) => b,
            Fetch::Missing(id) => {
                return Fetch::Missing(id);
            },
        };
        let end: u64 = match line_index.line_or_last(self, goal.saturating_add(1), unreadable) {
            Fetch::Ready((next, b)) => if next > goal {
                b.saturating_sub(1)
            } else {
                self.file_size
            },
            Fetch::Missing(id) => {
                return Fetch::Missing(id);
            },
        };
        let col: u64 = self.cursor_byte.saturating_sub(own_start);
        let len: u64 = end.saturating_sub(start);
        let target: u64 = start.saturating_add(if col < len { col } else { len });
        let ghost before = *self;
        self.cursor_byte = target;
        proof {
            assert forall|table: NewlineTable| #[trigger]
                line_index::reads(*old(line_index), *old(self), unreadable@, table) implies {
                &&& line_index::reads(*line_index, *self, unreadable@, table)
                &&& target == cursor_target(
                    line_index::newlines(table, before.delta_table.sizes()),
                    before.file_size as int,
                    before.cursor_byte as int,
                    lines as int,
                )
            } by {
                line_index::lemma_reads_kept(*line_index, before, *self, unreadable@, table);
                line_index::lemma_reads_in_order(*line_index, before, unreadable@, table);
                let nls = line_index::newlines(table, before.delta_table.sizes());
                let at = clamped(before.cursor_byte as int, 0, before.file_size as int);
                line_index::lemma_line_of(nls, before.file_size as int, at);
                assert(goal == line_target(nls, at, lines as int));
                if goal > 0 {
                    assert(0 <= nls[goal - 1] < before.file_size);
                }
                if goal < nls.len() {
                    assert(0 <= nls[goal as int] < before.file_size);
                    if goal > 0 {
                        assert(nls[goal - 1] < nls[goal as int]);
                    }
                }
            }
        }
        Fetch::Ready(())
    }
}

} // verus!
