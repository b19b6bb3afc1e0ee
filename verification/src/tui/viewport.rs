//! The part of the document that is on the screen.

use crate::block::BlockId;
use crate::config::OpenMode;
use crate::cursor;
use crate::delta_table;
use crate::editor::Editor;
use crate::line_index;
use crate::line_index::{Fetch, LineIndex, NewlineTable};
use vstd::prelude::*;

verus! {

broadcast use crate::cache::group_asked;

/// The part of the document that is on the screen.
pub struct ViewPort {
    /// Where in the document the screen starts. Where text is shown this is
    /// the start of a line.
    pub top_byte: u64,
    pub visible_rows: usize,
    pub visible_cols: usize,
    pub line_index: LineIndex,
}

/// `offset`, or the end of the document where that is before.
pub open spec fn within(offset: int, file_size: int) -> int {
    if offset < file_size {
        offset
    } else {
        file_size
    }
}

/// The line that `offset` is in.
pub open spec fn line_of(nls: Seq<int>, file_size: int, offset: int) -> int {
    line_index::count_before(nls, within(offset, file_size))
}

/// Where the screen starts once it has moved by `lines` lines of text.
pub open spec fn scrolled_top(nls: Seq<int>, file_size: int, top: int, lines: int) -> int {
    line_index::start_of(
        nls,
        file_size,
        cursor::line_target(nls, within(top, file_size), lines),
    )
}

/// How far the document has to be known to scroll by `lines` lines: up to the top
/// of the screen, and to the start of the line that it goes to.
pub open spec fn scroll_reach(nls: Seq<int>, file_size: int, top: int, lines: int) -> int {
    let goal = cursor::further(line_of(nls, file_size, top) + lines, 0);
    cursor::further(within(top, file_size), line_index::start_of(nls, file_size, goal))
}

/// How far the document has to be known to find the cursor on the screen.
pub open spec fn screen_reach(file_size: int, top: int, cursor: int) -> int {
    cursor::further(within(top, file_size), within(cursor, file_size))
}

/// Which line of those up to `line` is at the top when `line` is in the middle
/// of the screen.
pub open spec fn centred(line: int, rows: int) -> int {
    if line >= rows / 2 {
        line - rows / 2
    } else {
        0
    }
}

/// Where a screen of bytes has to start for the cursor to be on it.
pub open spec fn hex_top(top: int, cursor: int, width: int, rows: int) -> int {
    if cursor < top {
        cursor / width * width
    } else if (cursor - top) / width >= rows {
        centred(cursor / width, rows) * width
    } else {
        top
    }
}

/// Where a screen of text has to start for the cursor to be on it.
pub open spec fn text_top(nls: Seq<int>, file_size: int, top: int, cursor: int, rows: int) -> int {
    let line = line_of(nls, file_size, cursor);
    if line < line_of(nls, file_size, top) {
        line_index::start_of(nls, file_size, line)
    } else if line >= line_of(nls, file_size, top) + rows {
        line_index::start_of(nls, file_size, centred(line, rows))
    } else {
        top
    }
}

/// Where the line starts that a screen of text starts in.
pub open spec fn aligned_top(nls: Seq<int>, file_size: int, top: int) -> int {
    line_index::start_of(nls, file_size, line_of(nls, file_size, top))
}

/// The column `col`, or the last one of `cols` where that is before.
pub open spec fn within_cols(col: int, cols: int) -> int {
    let last = if cols > 0 {
        cols - 1
    } else {
        0
    };
    if col < last {
        col
    } else {
        last
    }
}

/// Where on a screen of bytes the cursor is. Ten columns are taken by the
/// offset of the row, and three by each byte.
pub open spec fn hex_place(top: int, cursor: int, width: int, rows: int, cols: int) -> Option<
    (usize, usize),
> {
    let rel = cursor - top;
    if cursor < top || rel / width >= rows {
        None
    } else {
        Some(
            (
                (rel / width) as usize,
                within_cols(10 + (rel % width) * 3, cols) as usize,
            ),
        )
    }
}

/// Where on a screen of text the cursor is.
pub open spec fn text_place(
    nls: Seq<int>,
    file_size: int,
    top: int,
    cursor: int,
    rows: int,
    cols: int,
) -> Option<(usize, usize)> {
    let line = line_of(nls, file_size, cursor);
    let row = line - line_of(nls, file_size, top);
    if row < 0 || row >= rows {
        None
    } else {
        let col = within(cursor, file_size) - line_index::start_of(nls, file_size, line);
        Some((row as usize, within_cols(col, cols) as usize))
    }
}

impl ViewPort {
    pub fn new(visible_rows: usize, visible_cols: usize) -> (vp: Self)
        ensures
            vp.top_byte == 0,
            vp.visible_rows == visible_rows,
            vp.visible_cols == visible_cols,
            vp.line_index.wf(),
            vp.line_index.blank(),
            forall|ed: Editor, table: NewlineTable| #[trigger] vp.line_index.agrees(ed, table),
    {
        Self { top_byte: 0, visible_rows, visible_cols, line_index: LineIndex::new() }
    }

    pub fn resize(&mut self, rows: usize, cols: usize)
        ensures
            *final(self) == (ViewPort { visible_rows: rows, visible_cols: cols, ..*old(self) }),
    {
        self.visible_rows = rows;
        self.visible_cols = cols;
    }

    /// Takes up a terminal of that size, but for the three rows of the title,
    /// the command line and the status bar.
    pub fn fit(&mut self, width: u16, height: u16)
        ensures
            *final(self) == (ViewPort {
                visible_rows: if height > 3 {
                    (height - 3) as usize
                } else {
                    1
                },
                visible_cols: width as usize,
                ..*old(self)
            }),
    {
        let rows: usize = if height > 3 { (height - 3) as usize } else { 1 };
        self.resize(rows, width as usize);
    }

    /// How many bytes a row shows.
    pub open spec fn row_width(&self, ed: Editor) -> int {
        if ed.mode == OpenMode::Binary {
            if self.visible_cols < 40 {
                8
            } else {
                ed.config.hex_bytes_per_row as int
            }
        } else {
            80
        }
    }

    /// How many bytes a row shows: where bytes are shown, what the settings say
    /// or eight on a narrow screen; elsewhere an estimate.
    pub fn bytes_per_line(&self, ed: &Editor) -> (width: u64)
        ensures
            width == self.row_width(*ed),
            width <= 255,
    {
        if ed.mode == OpenMode::Binary {
            if self.visible_cols < 40 {
                8
            } else {
                ed.config.hex_bytes_per_row as u64
            }
        } else {
            80
        }
    }

    /// Scrolls by `lines` rows, upwards where that is negative: lines of the
    /// text, or rows of bytes. While a block is missing nothing moves.
    pub fn scroll_lines(&mut self, ed: &mut Editor, lines: i64, unreadable: &Vec<BlockId>) -> (r:
        Fetch<()>)
        requires
            old(self).line_index.wf(),
            old(ed).wf(),
        ensures
            final(self).line_index.wf(),
            final(ed).wf(),
            *final(self) == (ViewPort {
                top_byte: final(self).top_byte,
                line_index: final(self).line_index,
                ..*old(self)
            }),
            *final(ed) == (Editor { cache: final(ed).cache, ..*old(ed) }),
            old(ed).cache@.only_asked(final(ed).cache@),
            old(ed).mode != OpenMode::Binary ==> line_index::learned(
                old(self).line_index,
                *old(ed),
                final(self).line_index,
            ),
            r matches Fetch::Missing(id) ==> {
                &&& line_index::asks(
                    old(self).line_index,
                    *old(ed),
                    unreadable@,
                    id,
                    final(self).line_index,
                )
                &&& final(self).top_byte == old(self).top_byte
                &&& old(ed).mode != OpenMode::Binary
            },
            old(ed).mode == OpenMode::Binary ==> {
                &&& final(self).top_byte == cursor::row_target(
                    old(self).top_byte as int,
                    old(ed).file_size as int,
                    lines as int,
                    old(self).row_width(*old(ed)),
                )
                &&& final(self).line_index == old(self).line_index
                &&& final(ed).cache == old(ed).cache
            },
            old(ed).mode != OpenMode::Binary ==> forall|table: NewlineTable| #[trigger]
                line_index::reads(old(self).line_index, *old(ed), unreadable@, table) ==> {
                    &&& line_index::reads(final(self).line_index, *final(ed), unreadable@, table)
                    &&& r is Ready ==> final(self).top_byte == scrolled_top(
                        line_index::newlines(table, old(ed).delta_table.sizes()),
                        old(ed).file_size as int,
                        old(self).top_byte as int,
                        lines as int,
                    )
                    &&& r matches Fetch::Missing(id) ==> delta_table::prefix(
                        old(ed).delta_table.sizes(),
                        id as int,
                    ) < scroll_reach(
                        line_index::newlines(table, old(ed).delta_table.sizes()),
                        old(ed).file_size as int,
                        old(self).top_byte as int,
                        lines as int,
                    )
                },
    {
        if ed.mode == OpenMode::Binary {
            let width: u64 = self.bytes_per_line(ed);
            assert(-0x8000_0000_0000_0000 * 255 <= lines * width <= 0x7fff_ffff_ffff_ffff * 255)
                by (nonlinear_arith)
                requires
                    -0x8000_0000_0000_0000 <= lines <= 0x7fff_ffff_ffff_ffff,
                    0 <= width <= 255,
            ;
            let moved: i128 = self.top_byte as i128 + lines as i128 * width as i128;
            self.top_byte = if moved < 0 {
                0
            } else if moved > ed.file_size as i128 {
                ed.file_size
            } else {
                moved as u64
            };
            return Fetch::Ready(());
        }
        let (top_line, _) = match self.line_index.offset_to_line(ed, self.top_byte, unreadable) {
            Fetch::Ready(place) => place,
            Fetch::Missing(id) => {
                return Fetch::Missing(id);
            },
        };
        let moved: i128 = top_line as i128 + lines as i128;
        let goal: u64 = if moved < 0 {
            0
        } else if moved > u64::MAX as i128 {
            u64::MAX
        } else {
            moved as u64
        };
        proof {
            assert forall|table: NewlineTable| #[trigger]
                line_index::reads(
                    old(self).line_index,
                    *old(ed),
                    unreadable@,
                    table,
                ) implies line_index::newlines(table, old(ed).delta_table.sizes()).len()
                <= i64::MAX by {
                line_index::lemma_few_lines(old(self).line_index, *old(ed), unreadable@, table);
            }
        }
        match self.line_index.line_or_last(ed, goal, unreadable) {
            Fetch::Ready((_, b)) => {
                self.top_byte = b;
                Fetch::Ready(())
            },
            Fetch::Missing(id) => Fetch::Missing(id),
        }
    }

    /// Scrolls by whole screens.
    pub fn scroll_page(&mut self, ed: &mut Editor, pages: i64, unreadable: &Vec<BlockId>) -> (r:
        Fetch<()>)
        requires
            old(self).line_index.wf(),
            old(ed).wf(),
            i64::MIN <= pages * old(self).visible_rows <= i64::MAX,
            old(self).visible_rows <= i64::MAX,
        ensures
            final(self).line_index.wf(),
            final(ed).wf(),
            *final(self) == (ViewPort {
                top_byte: final(self).top_byte,
                line_index: final(self).line_index,
                ..*old(self)
            }),
            *final(ed) == (Editor { cache: final(ed).cache, ..*old(ed) }),
            old(ed).cache@.only_asked(final(ed).cache@),
            old(ed).mode != OpenMode::Binary ==> line_index::learned(
                old(self).line_index,
                *old(ed),
                final(self).line_index,
            ),
            r matches Fetch::Missing(id) ==> {
                &&& line_index::asks(
                    old(self).line_index,
                    *old(ed),
                    unreadable@,
                    id,
                    final(self).line_index,
                )
                &&& final(self).top_byte == old(self).top_byte
                &&& old(ed).mode != OpenMode::Binary
            },
            old(ed).mode == OpenMode::Binary ==> {
                &&& final(self).top_byte == cursor::row_target(
                    old(self).top_byte as int,
                    old(ed).file_size as int,
                    pages * old(self).visible_rows,
                    old(self).row_width(*old(ed)),
                )
                &&& final(self).line_index == old(self).line_index
                &&& final(ed).cache == old(ed).cache
            },
            old(ed).mode != OpenMode::Binary ==> forall|table: NewlineTable| #[trigger]
                line_index::reads(old(self).line_index, *old(ed), unreadable@, table) ==> {
                    &&& line_index::reads(final(self).line_index, *final(ed), unreadable@, table)
                    &&& r is Ready ==> final(self).top_byte == scrolled_top(
                        line_index::newlines(table, old(ed).delta_table.sizes()),
                        old(ed).file_size as int,
                        old(self).top_byte as int,
                        pages * old(self).visible_rows,
                    )
                    &&& r matches Fetch::Missing(id) ==> delta_table::prefix(
                        old(ed).delta_table.sizes(),
                        id as int,
                    ) < scroll_reach(
                        line_index::newlines(table, old(ed).delta_table.sizes()),
                        old(ed).file_size as int,
                        old(self).top_byte as int,
                        pages * old(self).visible_rows,
                    )
                },
    {
        self.scroll_lines(ed, pages * self.visible_rows as i64, unreadable)
    }

    /// Where on the screen the cursor is, as a row and a column; nowhere where
    /// it is not on the screen.
    pub fn cursor_screen_pos(
        &mut self,
        ed: &mut Editor,
        bytes_per_row: usize,
        unreadable: &Vec<BlockId>,
    ) -> (r: Fetch<Option<(usize, usize)>>)
        requires
            old(self).line_index.wf(),
            old(ed).wf(),
            old(ed).mode == OpenMode::Binary ==> bytes_per_row > 0,
        ensures
            final(self).line_index.wf(),
            final(ed).wf(),
            *final(self) == (ViewPort { line_index: final(self).line_index, ..*old(self) }),
            *final(ed) == (Editor { cache: final(ed).cache, ..*old(ed) }),
            old(ed).cache@.only_asked(final(ed).cache@),
            old(ed).mode != OpenMode::Binary ==> line_index::learned(
                old(self).line_index,
                *old(ed),
                final(self).line_index,
            ),
            r matches Fetch::Missing(id) ==> {
                &&& line_index::asks(
                    old(self).line_index,
                    *old(ed),
                    unreadable@,
                    id,
                    final(self).line_index,
                )
                &&& old(ed).mode != OpenMode::Binary
            },
            old(ed).mode == OpenMode::Binary ==> {
                &&& r == Fetch::Ready(
                    hex_place(
                        old(self).top_byte as int,
                        old(ed).cursor_byte as int,
                        bytes_per_row as int,
                        old(self).visible_rows as int,
                        old(self).visible_cols as int,
                    ),
                )
                &&& final(self).line_index == old(self).line_index
                &&& final(ed).cache == old(ed).cache
            },
            old(ed).mode != OpenMode::Binary ==> forall|table: NewlineTable| #[trigger]
                line_index::reads(old(self).line_index, *old(ed), unreadable@, table) ==> {
                    &&& line_index::reads(final(self).line_index, *final(ed), unreadable@, table)
                    &&& r matches Fetch::Ready(place) ==> place == text_place(
                        line_index::newlines(table, old(ed).delta_table.sizes()),
                        old(ed).file_size as int,
                        old(self).top_byte as int,
                        old(ed).cursor_byte as int,
                        old(self).visible_rows as int,
                        old(self).visible_cols as int,
                    )
                },
            r matches Fetch::Missing(id) ==> delta_table::prefix(
                old(ed).delta_table.sizes(),
                id as int,
            ) < screen_reach(
                old(ed).file_size as int,
                old(self).top_byte as int,
                old(ed).cursor_byte as int,
            ),
    {
        let last: usize = self.visible_cols.saturating_sub(1);
        if ed.mode == OpenMode::Binary {
            if ed.cursor_byte < self.top_byte {
                return Fetch::Ready(None);
            }
            let rel: u64 = ed.cursor_byte - self.top_byte;
            let width: u64 = bytes_per_row as u64;
            let row: u64 = rel / width;
            if row >= self.visible_rows as u64 {
                return Fetch::Ready(None);
            }
            let col: u128 = 10 + (rel % width) as u128 * 3;
            return Fetch::Ready(
                Some((row as usize, if col < last as u128 { col as usize } else { last })),
            );
        }
        let (line, col) = match self.line_index.offset_to_line(ed, ed.cursor_byte, unreadable) {
            Fetch::Ready(place) => place,
            Fetch::Missing(id) => {
                return Fetch::Missing(id);
            },
        };
        let (top_line, _) = match self.line_index.offset_to_line(ed, self.top_byte, unreadable) {
            Fetch::Ready(place) => place,
            Fetch::Missing(id) => {
                return Fetch::Missing(id);
            },
        };
        if line < top_line {
            return Fetch::Ready(None);
        }
        let row: u64 = line - top_line;
        if row >= self.visible_rows as u64 {
            return Fetch::Ready(None);
        }
        Fetch::Ready(Some((row as usize, if col < last as u64 { col as usize } else { last })))
    }

    /// Scrolls to the start of the line that the screen starts in, where text is
    /// shown. While a block is missing nothing moves.
    pub fn align_top(&mut self, ed: &mut Editor, unreadable: &Vec<BlockId>) -> (r: Fetch<()>)
        requires
            old(self).line_index.wf(),
            old(ed).wf(),
        ensures
            final(self).line_index.wf(),
            final(ed).wf(),
            *final(self) == (ViewPort {
                top_byte: final(self).top_byte,
                line_index: final(self).line_index,
                ..*old(self)
            }),
            *final(ed) == (Editor { cache: final(ed).cache, ..*old(ed) }),
            old(ed).cache@.only_asked(final(ed).cache@),
            old(ed).mode != OpenMode::Binary ==> line_index::learned(
                old(self).line_index,
                *old(ed),
                final(self).line_index,
            ),
            r matches Fetch::Missing(id) ==> {
                &&& line_index::asks(
                    old(self).line_index,
                    *old(ed),
                    unreadable@,
                    id,
                    final(self).line_index,
                )
                &&& final(self).top_byte == old(self).top_byte
                &&& old(ed).mode != OpenMode::Binary
            },
            old(ed).mode == OpenMode::Binary ==> *final(self) == *old(self) && final(ed).cache
                == old(ed).cache,
            old(ed).mode != OpenMode::Binary ==> forall|table: NewlineTable| #[trigger]
                line_index::reads(old(self).line_index, *old(ed), unreadable@, table) ==> {
                    &&& line_index::reads(final(self).line_index, *final(ed), unreadable@, table)
                    &&& r is Ready ==> final(self).top_byte == aligned_top(
                        line_index::newlines(table, old(ed).delta_table.sizes()),
                        old(ed).file_size as int,
                        old(self).top_byte as int,
                    )
                    &&& r matches Fetch::Missing(id) ==> delta_table::prefix(
                        old(ed).delta_table.sizes(),
                        id as int,
                    ) < within(
                        old(self).top_byte as int,
                        old(ed).file_size as int,
                    )
                },
    {
        if ed.mode == OpenMode::Binary {
            return Fetch::Ready(());
        }
        let (line, _) = match self.line_index.offset_to_line(ed, self.top_byte, unreadable) {
            Fetch::Ready(place) => place,
            Fetch::Missing(id) => {
                return Fetch::Missing(id);
            },
        };
        proof {
            assert forall|table: NewlineTable| #[trigger]
                line_index::reads(
                    old(self).line_index,
                    *old(ed),
                    unreadable@,
                    table,
                ) implies line_index::start_of(
                line_index::newlines(table, old(ed).delta_table.sizes()),
                old(ed).file_size as int,
                line as int,
            ) <= within(old(self).top_byte as int, old(ed).file_size as int) by {
                let nls = line_index::newlines(table, old(ed).delta_table.sizes());
                let size = old(ed).file_size as int;
                line_index::lemma_reads_in_order(
                    old(self).line_index,
                    *old(ed),
                    unreadable@,
                    table,
                );
                line_index::lemma_line_of(nls, size, within(old(self).top_byte as int, size));
            }
        }
        match self.line_index.line_start(ed, line, unreadable) {
            Fetch::Ready(b) => {
                self.top_byte = b;
                Fetch::Ready(())
            },
            Fetch::Missing(id) => Fetch::Missing(id),
        }
    }

    /// Scrolls so that the cursor is on the screen: not at all where it is,
    /// else up to its row, or down until it is in the middle. While a block is
    /// missing nothing moves.
    #[verifier::rlimit(40)]
    pub fn ensure_cursor_visible(&mut self, ed: &mut Editor, unreadable: &Vec<BlockId>) -> (r: Fetch<
        (),
    >)
        requires
            old(self).line_index.wf(),
            old(ed).wf(),
            old(self).row_width(*old(ed)) > 0,
        ensures
            final(self).line_index.wf(),
            final(ed).wf(),
            *final(self) == (ViewPort {
                top_byte: final(self).top_byte,
                line_index: final(self).line_index,
                ..*old(self)
            }),
            *final(ed) == (Editor { cache: final(ed).cache, ..*old(ed) }),
            old(ed).cache@.only_asked(final(ed).cache@),
            old(ed).mode != OpenMode::Binary ==> line_index::learned(
                old(self).line_index,
                *old(ed),
                final(self).line_index,
            ),
            r matches Fetch::Missing(id) ==> {
                &&& line_index::asks(
                    old(self).line_index,
                    *old(ed),
                    unreadable@,
                    id,
                    final(self).line_index,
                )
                &&& final(self).top_byte == old(self).top_byte
                &&& old(ed).mode != OpenMode::Binary
            },
            old(ed).mode == OpenMode::Binary ==> {
                &&& final(self).top_byte == hex_top(
                    old(self).top_byte as int,
                    old(ed).cursor_byte as int,
                    old(self).row_width(*old(ed)),
                    old(self).visible_rows as int,
                )
                &&& final(self).line_index == old(self).line_index
                &&& final(ed).cache == old(ed).cache
            },
            old(ed).mode != OpenMode::Binary ==> forall|table: NewlineTable| #[trigger]
                line_index::reads(old(self).line_index, *old(ed), unreadable@, table) ==> {
                    &&& line_index::reads(final(self).line_index, *final(ed), unreadable@, table)
                    &&& r is Ready ==> final(self).top_byte == text_top(
                        line_index::newlines(table, old(ed).delta_table.sizes()),
                        old(ed).file_size as int,
                        old(self).top_byte as int,
                        old(ed).cursor_byte as int,
                        old(self).visible_rows as int,
                    )
                    &&& r matches Fetch::Missing(id) ==> delta_table::prefix(
                        old(ed).delta_table.sizes(),
                        id as int,
                    ) < screen_reach(
                        old(ed).file_size as int,
                        old(self).top_byte as int,
                        old(ed).cursor_byte as int,
                    )
                },
    {
        let rows: u64 = self.visible_rows as u64;
        if ed.mode == OpenMode::Binary {
            let width: u64 = self.bytes_per_line(ed);
            let line: u64 = ed.cursor_byte / width;
            assert(line * width <= ed.cursor_byte) by (nonlinear_arith)
                requires
                    line == ed.cursor_byte / width,
                    width > 0,
            ;
            if ed.cursor_byte < self.top_byte {
                self.top_byte = line * width;
            } else if (ed.cursor_byte - self.top_byte) / width >= rows {
                let goal: u64 = line.saturating_sub(rows / 2);
                assert(goal * width <= line * width) by (nonlinear_arith)
                    requires
                        0 <= goal <= line,
                        width > 0,
                ;
                self.top_byte = goal * width;
            }
            return Fetch::Ready(());
        }
        let (line, _) = match self.line_index.offset_to_line(ed, ed.cursor_byte, unreadable) {
            Fetch::Ready(place) => place,
            Fetch::Missing(id) => {
                return Fetch::Missing(id);
            },
        };
        let (top_line, _) = match self.line_index.offset_to_line(ed, self.top_byte, unreadable) {
            Fetch::Ready(place) => place,
            Fetch::Missing(id) => {
                return Fetch::Missing(id);
            },
        };
        let goal: u64 = if line < top_line {
            line
        } else if line - top_line >= rows {
            line.saturating_sub(rows / 2)
        } else {
            return Fetch::Ready(());
        };
        proof {
            assert forall|table: NewlineTable| #[trigger]
                line_index::reads(
                    old(self).line_index,
                    *old(ed),
                    unreadable@,
                    table,
                ) implies line_index::start_of(
                line_index::newlines(table, old(ed).delta_table.sizes()),
                old(ed).file_size as int,
                goal as int,
            ) <= within(old(ed).cursor_byte as int, old(ed).file_size as int) by {
                let nls = line_index::newlines(table, old(ed).delta_table.sizes());
                let size = old(ed).file_size as int;
                line_index::lemma_reads_in_order(
                    old(self).line_index,
                    *old(ed),
                    unreadable@,
                    table,
                );
                line_index::lemma_line_of(nls, size, within(old(ed).cursor_byte as int, size));
                line_index::lemma_starts_in_order(nls, size, goal as int, line as int);
            }
        }
        match self.line_index.line_start(ed, goal, unreadable) {
            Fetch::Ready(b) => {
                self.top_byte = b;
                Fetch::Ready(())
            },
            Fetch::Missing(id) => Fetch::Missing(id),
        }
    }
}

/// The cursor stays on a screen of bytes: once the screen was scrolled to it,
/// it has a place there, where the screen has a row. Where it had a place
/// already, the screen stays as it is.
pub proof fn law_hex_cursor_is_visible(top: int, cursor: int, width: int, rows: int, cols: int)
    requires
        0 <= top,
        0 <= cursor,
        width > 0,
        rows > 0,
    ensures
        hex_place(hex_top(top, cursor, width, rows), cursor, width, rows, cols) is Some,
        hex_place(top, cursor, width, rows, cols) is Some ==> hex_top(top, cursor, width, rows)
            == top,
{
    let line = cursor / width;
    let inner = cursor % width;
    vstd::arithmetic::div_mod::lemma_fundamental_div_mod(cursor, width);
    vstd::arithmetic::div_mod::lemma_div_pos_is_pos(cursor, width);
    let first = if cursor < top {
        line
    } else {
        centred(line, rows)
    };
    assert(cursor - first * width == (line - first) * width + inner) by (nonlinear_arith)
        requires
            cursor == width * line + inner,
    ;
    vstd::arithmetic::div_mod::lemma_fundamental_div_mod_converse(
        cursor - first * width,
        width,
        line - first,
        inner,
    );
    assert((line - first) * width >= 0) by (nonlinear_arith)
        requires
            line >= first,
            width > 0,
    ;
}

/// The cursor stays on a screen of text: once the screen was scrolled to it,
/// it has a place there, where the screen has a row. Where it had a place
/// already, the screen stays as it is.
pub proof fn law_text_cursor_is_visible(
    nls: Seq<int>,
    file_size: int,
    top: int,
    cursor: int,
    rows: int,
    cols: int,
)
    requires
        line_index::in_order(nls, file_size),
        0 <= top,
        0 <= cursor,
        0 <= file_size,
        rows > 0,
    ensures
        text_place(
            nls,
            file_size,
            text_top(nls, file_size, top, cursor, rows),
            cursor,
            rows,
            cols,
        ) is Some,
        text_place(nls, file_size, top, cursor, rows, cols) is Some ==> text_top(
            nls,
            file_size,
            top,
            cursor,
            rows,
        ) == top,
{
    let line = line_of(nls, file_size, cursor);
    let top_line = line_of(nls, file_size, top);
    line_index::lemma_line_of(nls, file_size, within(cursor, file_size));
    line_index::lemma_line_of(nls, file_size, within(top, file_size));
    let goal = if line < top_line {
        line
    } else {
        centred(line, rows)
    };
    line_index::lemma_start_of(nls, file_size, goal);
    if goal > 0 {
        assert(nls[goal - 1] < file_size);
    }
}

/// Where the screen starts once it was scrolled to the cursor.
pub open spec fn shown_top(ed: Editor, vp: ViewPort, nls: Seq<int>) -> int {
    let top = vp.top_byte as int;
    let cursor = ed.cursor_byte as int;
    let rows = vp.visible_rows as int;
    if ed.mode == OpenMode::Binary {
        hex_top(top, cursor, vp.row_width(ed), rows)
    } else {
        text_top(nls, ed.file_size as int, top, cursor, rows)
    }
}

/// Where on the screen the cursor is.
pub open spec fn place_on(ed: Editor, vp: ViewPort, nls: Seq<int>) -> Option<(usize, usize)> {
    let top = vp.top_byte as int;
    let cursor = ed.cursor_byte as int;
    let rows = vp.visible_rows as int;
    let cols = vp.visible_cols as int;
    if ed.mode == OpenMode::Binary {
        hex_place(top, cursor, vp.row_width(ed), rows, cols)
    } else {
        text_place(nls, ed.file_size as int, top, cursor, rows, cols)
    }
}

/// Once `ensure_cursor_visible` was called, `cursor_screen_pos` finds the cursor in
/// a row of the screen, whatever is shown; and where it would have found it
/// before, the screen is where it was.
pub proof fn law_shown_cursor_is_found(ed: Editor, vp: ViewPort, shown: ViewPort, nls: Seq<int>)
    requires
        vp.visible_rows > 0,
        vp.row_width(ed) > 0,
        ed.mode != OpenMode::Binary ==> line_index::in_order(nls, ed.file_size as int),
        shown == (ViewPort {
            top_byte: shown.top_byte,
            line_index: shown.line_index,
            ..vp
        }),
        shown.top_byte == shown_top(ed, vp, nls),
    ensures
        place_on(ed, shown, nls) matches Some((row, _)) && row < vp.visible_rows,
        place_on(ed, vp, nls) is Some ==> shown.top_byte == vp.top_byte,
{
    let top = vp.top_byte as int;
    let cursor = ed.cursor_byte as int;
    let rows = vp.visible_rows as int;
    let cols = vp.visible_cols as int;
    if ed.mode == OpenMode::Binary {
        let width = vp.row_width(ed);
        law_hex_cursor_is_visible(top, cursor, width, rows, cols);
        let rel = cursor - shown.top_byte;
        assert(0 <= rel / width) by (nonlinear_arith)
            requires
                rel >= 0,
                width > 0,
        ;
    } else {
        law_text_cursor_is_visible(nls, ed.file_size as int, top, cursor, rows, cols);
    }
}

} // verus!
