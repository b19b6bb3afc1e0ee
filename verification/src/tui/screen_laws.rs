//! What the screen shows of the document.

use crate::config::OpenMode;
use crate::editor::Editor;
use crate::line_index::newline_places;
use crate::move_laws;
use crate::text;
use crate::tui::frame;
use crate::tui::line::Style;
use crate::tui::render_hex;
use crate::tui::render_text;
use crate::tui::rows;
use crate::tui::rows::Row;
use crate::tui::status_bar;
use crate::tui::status_bar::StatusModel;
use crate::tui::viewport;
use crate::tui::viewport::ViewPort;
use vstd::prelude::*;

verus! {

/// `s` is what `doc` holds from `p` on up to the next newline, or to its end.
pub open spec fn is_line(doc: Seq<u8>, p: int, s: Seq<u8>) -> bool {
    &&& 0 <= p < doc.len()
    &&& p + s.len() <= doc.len()
    &&& forall|i: int| 0 <= i < s.len() ==> #[trigger] s[i] == doc[p + i] && s[i] != 10
    &&& p + s.len() == doc.len() || doc[p + s.len()] == 10
}

/// Row `b` comes behind row `a`: where the next line starts, or with nothing behind
/// the end of `doc`.
pub open spec fn row_follows(
    doc: Seq<u8>,
    a: Option<(int, Seq<u8>)>,
    b: Option<(int, Seq<u8>)>,
) -> bool {
    match a {
        Some((p, s)) => if p + s.len() + 1 < doc.len() {
            b matches Some((q, _)) && q == p + s.len() + 1
        } else {
            b is None
        },
        None => b is None,
    }
}

/// The bytes up to the first newline.
proof fn lemma_line_len(s: Seq<u8>)
    ensures
        0 <= rows::line_len(s) <= s.len(),
        forall|i: int| 0 <= i < rows::line_len(s) ==> #[trigger] s[i] != 10,
        rows::line_len(s) < s.len() ==> s[rows::line_len(s)] == 10,
    decreases s.len(),
{
    if s.len() > 0 && s[0] != 10 {
        let t = s.skip(1);
        lemma_line_len(t);
        assert forall|i: int| 0 <= i < rows::line_len(s) implies #[trigger] s[i] != 10 by {
            if i > 0 {
                assert(t[i - 1] == s[i]);
            }
        }
        if rows::line_len(s) < s.len() {
            assert(t[rows::line_len(t)] == s[rows::line_len(s)]);
        }
    }
}

/// The rows of a text are its lines from the top of the screen on, one in each row
/// and without their newlines, each where the one before it ended, and nothing
/// behind the end.
pub proof fn law_rows_are_lines(doc: Seq<u8>, top: int, n: int)
    requires
        0 <= top,
        0 <= n,
    ensures
        ({
            let shown = rows::lines_of(doc, top, n);
            &&& shown.len() == n
            &&& n > 0 && top >= doc.len() ==> shown[0] is None
            &&& n > 0 && top < doc.len() ==> (shown[0] matches Some((p, _)) && p == top)
            &&& forall|i: int|
                0 <= i < n ==> (#[trigger] shown[i] matches Some((p, s)) ==> is_line(doc, p, s))
            &&& forall|i: int, j: int|
                0 <= i < n && j == i + 1 && j < n ==> row_follows(
                    doc,
                    #[trigger] shown[i],
                    #[trigger] shown[j],
                )
        }),
    decreases n,
{
    let shown = rows::lines_of(doc, top, n);
    if n > 0 {
        let next = if top >= doc.len() {
            top
        } else {
            viewport::within(
                top + rows::line_len(doc.skip(top)) + 1,
                doc.len() as int,
            )
        };
        if top < doc.len() {
            lemma_line_len(doc.skip(top));
        }
        law_rows_are_lines(doc, next, n - 1);
        let rest = rows::lines_of(doc, next, n - 1);
        assert(shown.skip(1) =~= rest);
        assert forall|i: int| 0 <= i < n implies (#[trigger] shown[i] matches Some((p, s))
            ==> is_line(doc, p, s)) by {
            if i > 0 {
                assert(shown[i] == rest[i - 1]);
            } else if top < doc.len() {
                let s = (shown[0]->0).1;
                assert forall|k: int| 0 <= k < s.len() implies #[trigger] s[k] == doc[top + k]
                    && s[k] != 10 by {
                    assert(doc.skip(top)[k] == doc[top + k]);
                }
                if top + s.len() < doc.len() {
                    assert(doc.skip(top)[s.len() as int] == doc[top + s.len()]);
                }
            }
        }
        assert forall|i: int, j: int| 0 <= i < n && j == i + 1 && j < n implies row_follows(
            doc,
            #[trigger] shown[i],
            #[trigger] shown[j],
        ) by {
            if i > 0 {
                assert(shown[i] == rest[i - 1]);
                assert(shown[j] == rest[j - 1]);
            } else {
                assert(shown[1] == rest[0]);
            }
        }
    }
}

/// The screen shows the document as text: its rows, as `text_rows` puts them
/// together, are lines of the document from the top of the screen on, where the
/// recorded sizes are right and every block can be read.
pub proof fn law_screen_shows_lines(ed: Editor, base: Seq<u8>, top: int, n: int)
    requires
        ed.wf(),
        ed.consistent(base),
        0 <= top,
        0 <= n,
    ensures
        ({
            let doc = ed.content(base);
            let shown = rows::lines_from(
                rows::blocks_of(ed, base),
                ed.delta_table.sizes(),
                ed.file_size as int,
                top,
                n,
            );
            &&& shown.len() == n
            &&& n > 0 && top >= doc.len() ==> shown[0] is None
            &&& n > 0 && top < doc.len() ==> (shown[0] matches Some((p, _)) && p == top)
            &&& forall|i: int|
                0 <= i < n ==> (#[trigger] shown[i] matches Some((p, s)) ==> is_line(doc, p, s))
            &&& forall|i: int, j: int|
                0 <= i < n && j == i + 1 && j < n ==> row_follows(
                    doc,
                    #[trigger] shown[i],
                    #[trigger] shown[j],
                )
        }),
        rows::holds(ed, Seq::empty(), rows::blocks_of(ed, base)),
{
    rows::law_text_rows_are_lines(ed, base, top, n);
    law_rows_are_lines(ed.content(base), top, n);
}

/// A row of bytes starts where it should and holds as many bytes of the document as
/// fit, fewer at its end, and there is none behind the end.
pub proof fn law_screen_shows_bytes(ed: Editor, base: Seq<u8>, start: int, width: int)
    requires
        ed.wf(),
        ed.consistent(base),
        0 <= start,
        width >= 0,
        forall|id: u64| id < ed.block_count ==> #[trigger] ed.cache@.has(id),
    ensures
        ({
            let doc = ed.content(base);
            let row = rows::hex_row(
                ed.cache@,
                ed.delta_table.sizes(),
                ed.file_size as int,
                start,
                width,
            );
            &&& row is None <==> start >= doc.len()
            &&& row matches Some((p, s)) ==> {
                &&& p == start
                &&& s.len() == width || s.len() < width && start + s.len() == doc.len()
                &&& forall|i: int| 0 <= i < s.len() ==> #[trigger] s[i] == doc[start + i]
            }
        }),
{
    let sizes = ed.delta_table.sizes();
    crate::edit_laws::lemma_content_length(ed, base);
    if start < ed.file_size {
        let end = viewport::within(start + width, ed.file_size as int);
        assert forall|i: int| start <= i < end implies ed.cache@.has(
            #[trigger] crate::delta_table::block_at(sizes, i) as u64,
        ) by {
            crate::delta_table::lemma_block_at(sizes, i, sizes.len() - 1);
        }
        rows::law_hex_row_shows_document(ed, base, start, width);
    }
}

/// Where on a screen of bytes the cursor is: on it if its byte is, in the row that
/// shows that byte, behind the ten columns of the offset and three columns for each
/// byte before it in that row, or in the last column where the screen is too narrow.
pub proof fn law_cursor_among_bytes(top: int, cursor: int, width: int, rows: int, cols: int)
    requires
        0 <= top,
        0 <= cursor,
        0 < width <= 255,
        0 <= rows <= usize::MAX,
        0 < cols <= usize::MAX,
    ensures
        ({
            let place = viewport::hex_place(top, cursor, width, rows, cols);
            &&& place is Some <==> top <= cursor < top + rows * width
            &&& place matches Some((row, col)) ==> {
                let before = cursor - (top + row * width);
                &&& row < rows
                &&& 0 <= before < width
                &&& col == (if 10 + 3 * before < cols {
                    10 + 3 * before
                } else {
                    cols - 1
                })
            }
        }),
{
    let rel = cursor - top;
    if rel >= 0 {
        let q = rel / width;
        vstd::arithmetic::div_mod::lemma_fundamental_div_mod(rel, width);
        vstd::arithmetic::div_mod::lemma_mod_bound(rel, width);
        vstd::arithmetic::div_mod::lemma_div_pos_is_pos(rel, width);
        assert(width * q == q * width) by (nonlinear_arith);
        if q >= rows {
            assert(rel >= rows * width) by (nonlinear_arith)
                requires
                    q >= rows,
                    rel == width * q + rel % width,
                    rel % width >= 0,
                    width > 0,
            ;
        } else {
            assert(rel < rows * width) by (nonlinear_arith)
                requires
                    q + 1 <= rows,
                    rel == width * q + rel % width,
                    rel % width < width,
                    width > 0,
            ;
        }
    }
}

/// Where on a screen of text the cursor is: on it if its line is, in the row of that
/// line, and as many columns in as there are bytes before it in the line, or in the
/// last column where the screen is too narrow.
pub proof fn law_cursor_among_lines(doc: Seq<u8>, top: int, cursor: int, rows: int, cols: int)
    requires
        0 <= top <= doc.len(),
        0 <= cursor <= doc.len(),
        doc.len() <= usize::MAX,
        0 <= rows <= usize::MAX,
        0 < cols <= usize::MAX,
    ensures
        ({
            let place = viewport::text_place(
                newline_places(doc),
                doc.len() as int,
                top,
                cursor,
                rows,
                cols,
            );
            let row = move_laws::line_number(doc, cursor) - move_laws::line_number(doc, top);
            let col = cursor - move_laws::line_begin(doc, cursor);
            &&& place is Some <==> 0 <= row < rows
            &&& place matches Some((r, c)) ==> {
                &&& r == row
                &&& c == (if col < cols {
                    col
                } else {
                    cols - 1
                })
            }
        }),
{
    move_laws::lemma_line_in(doc, cursor);
    move_laws::lemma_line_in(doc, top);
}

/// Where bytes are shown, a row has eight on a screen of less than forty columns, and
/// as many as the settings say on a wider one. A row of text is taken for eighty
/// bytes.
pub proof fn law_narrow_screen_shows_fewer_bytes(ed: Editor, vp: ViewPort)
    ensures
        ed.mode == OpenMode::Binary && vp.visible_cols < 40 ==> vp.row_width(ed) == 8,
        ed.mode == OpenMode::Binary && vp.visible_cols >= 40 ==> vp.row_width(ed)
            == ed.config.hex_bytes_per_row,
        ed.mode != OpenMode::Binary ==> vp.row_width(ed) == 80,
{
}

/// A row of bytes on the screen: its offset with at least eight digits, then two
/// digits for each byte, then a sign for each: the character of ASCII that it is, or
/// a dot. The byte under the cursor stands out in both, and no other does. Blanks
/// stand for what a short row lacks, so that the signs are below each other.
pub proof fn law_bytes_are_shown(
    offset: nat,
    bytes: Seq<u8>,
    width: nat,
    cursor: Option<usize>,
    i: int,
)
    requires
        0 <= i < width,
        width <= usize::MAX,
    ensures
        ({
            let line = frame::hex_line(offset, bytes, width, cursor);
            let style = if cursor == Some(i as usize) {
                Style::Reversed
            } else {
                Style::Plain
            };
            &&& line.len() == 2 * width + 2
            &&& line[0] == (text::hex(offset, 8) + seq![' ', ' '], Style::Plain)
            &&& line[1 + width as int] == (seq![' '], Style::Plain)
            &&& i < bytes.len() ==> {
                &&& line[1 + i] == (text::hex(bytes[i] as nat, 2) + seq![' '], style)
                &&& line[2 + width + i] == (
                    seq![
                        if 32 <= bytes[i] < 127 {
                            bytes[i] as char
                        } else {
                            '·'
                        },
                    ],
                    style,
                )
            }
            &&& i >= bytes.len() ==> {
                &&& line[1 + i] == (seq![' ', ' ', ' '], Style::Plain)
                &&& line[2 + width + i] == (seq![' '], Style::Plain)
            }
        }),
{
    reveal_strlit(" ");
    reveal_strlit("  ");
    assert(" "@ =~= seq![' ']);
    assert("  "@ =~= seq![' ', ' ']);
    assert("  "@ + " "@ =~= seq![' ', ' ', ' ']);
}

/// The byte under the cursor is in the row that shows it, as far in as it is behind
/// the start of the row, and in no other row.
pub proof fn law_cursor_is_in_its_row(top: int, cursor: int, width: int, row: int)
    requires
        0 <= top,
        0 <= cursor,
        0 < width <= 255,
        0 <= row,
    ensures
        ({
            let start = top + row * width;
            frame::cursor_in_row(top, cursor, width, row) == (if start <= cursor < start + width {
                Some((cursor - start) as usize)
            } else {
                None
            })
        }),
{
    let rel = cursor - top;
    assert(row * width >= 0) by (nonlinear_arith)
        requires
            row >= 0,
            width > 0,
    ;
    if rel >= 0 {
        let q = rel / width;
        vstd::arithmetic::div_mod::lemma_fundamental_div_mod(rel, width);
        vstd::arithmetic::div_mod::lemma_mod_bound(rel, width);
        assert(width * q == q * width) by (nonlinear_arith);
        if q < row {
            assert((q + 1) * width <= row * width) by (nonlinear_arith)
                requires
                    q + 1 <= row,
                    width > 0,
            ;
            assert((q + 1) * width == q * width + width) by (nonlinear_arith);
        } else if q > row {
            assert((row + 1) * width <= q * width) by (nonlinear_arith)
                requires
                    row + 1 <= q,
                    width > 0,
            ;
            assert((row + 1) * width == row * width + width) by (nonlinear_arith);
        }
    }
}

/// A row of the screen shows what it holds: bytes as a row of bytes, with the cursor
/// where it is, and a line as its text. Behind the end of the document there is
/// nothing, or a tilde where text is shown.
pub proof fn law_rows_are_shown(ed: Editor, vp: ViewPort, row: Row, width: int, i: int)
    requires
        0 < width <= 255,
        0 <= i,
    ensures
        ({
            let line = frame::row_line(ed, vp, row, width, i);
            let start = vp.top_byte + i * width;
            &&& row is None ==> line == (if ed.mode == OpenMode::Binary {
                seq![(Seq::<char>::empty(), Style::Plain)]
            } else {
                seq![(seq!['~'], Style::Plain)]
            })
            &&& row matches Some((offset, bytes)) ==> {
                &&& ed.mode == OpenMode::Binary ==> line == frame::hex_line(
                    offset as nat,
                    bytes@,
                    width as nat,
                    if start <= ed.cursor_byte < start + width {
                        Some((ed.cursor_byte - start) as usize)
                    } else {
                        None
                    },
                )
                &&& ed.mode != OpenMode::Binary ==> line == seq![
                    (
                        render_text::line_text(
                            bytes@,
                            ed.text_encoding.spec_name(),
                            ed.config.tab_width as int,
                        ),
                        Style::Plain,
                    ),
                ]
            }
        }),
{
    law_cursor_is_in_its_row(vp.top_byte as int, ed.cursor_byte as int, width, i);
    reveal_strlit("");
    reveal_strlit("~");
    assert(""@ =~= Seq::<char>::empty());
    assert("~"@ =~= seq!['~']);
}

/// The command line shows the command that is being typed behind a colon. Otherwise
/// it shows the message, an error in red and any other in yellow, or nothing.
pub proof fn law_command_line(status: StatusModel)
    ensures
        status.in_command ==> status_bar::mini_buffer(status) == (
            seq![':'] + status.command_buffer,
            Style::Plain,
        ),
        !status.in_command ==> match status.message {
            Some(m) => status_bar::mini_buffer(status) == (
                m,
                if status.message_is_error {
                    Style::Red
                } else {
                    Style::Yellow
                },
            ),
            None => status_bar::mini_buffer(status).0.len() == 0,
        },
{
    reveal_strlit(":");
    reveal_strlit("");
    assert(":"@ =~= seq![':']);
}

/// The status bar names the mode of the keys and how the document is shown, says
/// whether it may be changed, where the cursor is and how long the document is, the
/// block of that offset and the number of blocks, how many blocks the cache holds
/// and can hold, how often it had what was asked for, and the encoding.
pub proof fn law_status_bar(
    ed: Editor,
    stats: crate::cache::CacheStats,
    status: StatusModel,
    hit_rate: Seq<char>,
)
    requires
        ed.config.block_size > 0,
    ensures
        status_bar::status_text(ed, stats, status, hit_rate) == "["@ + status.mode_name + "] ["@ + (
        match ed.mode {
            OpenMode::Text => "Text"@,
            OpenMode::Binary => "Hex"@,
            OpenMode::Auto => "Auto"@,
        }) + "] ["@ + (if ed.read_only {
            "RO"@
        } else {
            "RW"@
        }) + "] Pos "@ + text::dec(ed.cursor_byte as nat) + "/"@ + text::dec(ed.file_size as nat)
            + " Block "@ + text::dec((ed.cursor_byte as int / ed.config.block_size as int) as nat)
            + "/"@ + text::dec(ed.block_count as nat) + " Cache "@ + text::dec(
            stats.size_blocks as nat,
        ) + "/"@ + text::dec(stats.capacity_blocks as nat) + " Hit "@ + hit_rate + "% Enc "@
            + ed.text_encoding.spec_name(),
{
}

/// The bytes of a range that was searched for stand out, and so does the one under
/// the cursor; no other does.
pub proof fn law_what_stands_out(i: int, cursor: Option<usize>, ranges: Seq<(usize, usize)>)
    ensures
        cursor matches Some(c) && c == i ==> render_hex::stands_out(i, cursor, ranges),
        forall|k: int|
            0 <= k < ranges.len() && (#[trigger] ranges[k]).0 <= i < ranges[k].1
                ==> render_hex::stands_out(i, cursor, ranges),
        render_hex::stands_out(i, cursor, ranges) && !(cursor matches Some(c) && c == i) ==> exists|
            k: int,
        |
            0 <= k < ranges.len() && (#[trigger] ranges[k]).0 <= i < ranges[k].1,
        render_hex::shade(true) == Style::Reversed,
        render_hex::shade(false) == Style::Plain,
{
}

/// A block that cannot be read ends the rows: the line that would go on in it is shown
/// as far as it is known, and nothing behind it.
pub proof fn law_unreadable_block_ends_rows(
    table: rows::BlockTable,
    sizes: Seq<i64>,
    file_size: int,
    pos: int,
    n: int,
    i: int,
)
    requires
        0 <= pos < file_size,
        table(crate::delta_table::block_at(sizes, pos) as u64) is None,
        0 < i < n,
    ensures
        ({
            let shown = rows::lines_from(table, sizes, file_size, pos, n);
            &&& shown.len() == n
            &&& shown[0] == Some((pos, Seq::<u8>::empty()))
            &&& shown[i] is None
        }),
{
    let rest = rows::lines_from(table, sizes, file_size, file_size, n - 1);
    lemma_no_rows(table, sizes, file_size, file_size, n - 1);
    let shown = rows::lines_from(table, sizes, file_size, pos, n);
    assert(shown =~= seq![Some((pos, Seq::<u8>::empty()))] + rest);
    assert(shown[i] == rest[i - 1]);
}

proof fn lemma_no_rows(table: rows::BlockTable, sizes: Seq<i64>, file_size: int, pos: int, n: int)
    requires
        pos >= file_size,
        0 <= n,
    ensures
        rows::lines_from(table, sizes, file_size, pos, n).len() == n,
        forall|i: int|
            0 <= i < n ==> #[trigger] rows::lines_from(table, sizes, file_size, pos, n)[i] is None,
    decreases n,
{
    if n > 0 {
        lemma_no_rows(table, sizes, file_size, pos, n - 1);
        let rest = rows::lines_from(table, sizes, file_size, pos, n - 1);
        let all = rows::lines_from(table, sizes, file_size, pos, n);
        assert forall|i: int| 0 <= i < n implies #[trigger] all[i] is None by {
            if i > 0 {
                assert(all[i] == rest[i - 1]);
            }
        }
    }
}

/// Every byte that a row shows is the byte of the document at its place, also where
/// blocks are missing: a row may be short then, but is never wrong.
pub proof fn law_bytes_shown_are_of_document(
    ed: Editor,
    base: Seq<u8>,
    start: int,
    width: int,
    i: int,
)
    requires
        ed.wf(),
        ed.consistent(base),
        0 <= start < ed.file_size,
        0 <= width,
    ensures
        ({
            let row = rows::hex_row(
                ed.cache@,
                ed.delta_table.sizes(),
                ed.file_size as int,
                start,
                width,
            );
            &&& row matches Some((p, s)) && p == start && s.len() <= width && (0 <= i < s.len()
                ==> s[i] == ed.content(base)[start + i])
        }),
{
    let end = viewport::within(start + width, ed.file_size as int);
    rows::lemma_run_is_of_document(ed, base, start, end, i);
}

} // verus!
