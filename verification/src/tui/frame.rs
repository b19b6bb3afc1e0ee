//! The parts of a frame: title, rows and the cell of the cursor.

use crate::config::OpenMode;
use crate::editor::Editor;
use crate::encoding;
use crate::text;
use crate::tui::line::{Line, Style};
use crate::tui::render_hex;
use crate::tui::render_text;
use crate::tui::rows::Row;
use crate::tui::viewport::ViewPort;
use vstd::prelude::*;

verus! {

/// In what a size is given.
#[derive(Copy, Clone, Debug, PartialEq, Eq, Structural)]
pub enum SizeUnit {
    Bytes,
    Kilobytes,
    Megabytes,
    Gigabytes,
}

/// In what a size is given: the largest unit of which it has at least one.
pub fn size_unit(bytes: u64) -> (unit: SizeUnit)
    ensures
        unit == (if bytes < 1024 {
            SizeUnit::Bytes
        } else if bytes < 1024 * 1024 {
            SizeUnit::Kilobytes
        } else if bytes < 1024 * 1024 * 1024 {
            SizeUnit::Megabytes
        } else {
            SizeUnit::Gigabytes
        }),
{
    if bytes < 1024 {
        SizeUnit::Bytes
    } else if bytes < 1024 * 1024 {
        SizeUnit::Kilobytes
    } else if bytes < 1024 * 1024 * 1024 {
        SizeUnit::Megabytes
    } else {
        SizeUnit::Gigabytes
    }
}

/// The title: the file, its size, as `size` says, and its encoding.
pub fn title_line(editor: &Editor, size: &str) -> (line: Line)
    ensures
        line@ == seq![
            (
                " beditor │ "@ + editor.file_path@ + " │ "@ + size@ + " │ "@
                    + editor.text_encoding.spec_name() + " "@,
                Style::Title,
            ),
        ],
{
    let mut s = " beditor │ ".to_string();
    s.append(editor.file_path.as_str());
    s.append(" │ ");
    s.append(size);
    s.append(" │ ");
    s.append(editor.text_encoding.name());
    s.append(" ");
    Line::styled(s, Style::Title)
}

/// The pieces of text of a row of `width` bytes: its offset, the bytes in
/// hexadecimal digits, a gap and the bytes as characters.
pub open spec fn hex_line(
    offset: nat,
    bytes: Seq<u8>,
    width: nat,
    cursor: Option<usize>,
) -> Seq<(Seq<char>, Style)> {
    let shade = |i: int|
        render_hex::shade(render_hex::stands_out(i, cursor, Seq::<(usize, usize)>::empty()));
    seq![(text::hex(offset, 8) + "  "@, Style::Plain)] + Seq::new(
        width,
        |i: int|
            if i < bytes.len() {
                (text::hex(bytes[i] as nat, 2) + " "@, shade(i))
            } else {
                ("  "@ + " "@, Style::Plain)
            },
    ) + seq![(" "@, Style::Plain)] + Seq::new(
        width,
        |i: int|
            if i < bytes.len() {
                (seq![render_hex::ascii(bytes[i])], shade(i))
            } else {
                (seq![' '], Style::Plain)
            },
    )
}

/// Which byte of row `row` of a screen of bytes the cursor is on.
pub open spec fn cursor_in_row(top: int, cursor: int, width: int, row: int) -> Option<usize> {
    if cursor >= top && (cursor - top) / width == row {
        Some(((cursor - top) % width) as usize)
    } else {
        None
    }
}

/// What row `i` of the screen shows.
pub open spec fn row_line(
    ed: Editor,
    vp: ViewPort,
    row: Row,
    width: int,
    i: int,
) -> Seq<(Seq<char>, Style)> {
    if ed.mode == OpenMode::Binary {
        match row {
            Some((offset, bytes)) => hex_line(
                offset as nat,
                bytes@,
                width as nat,
                cursor_in_row(vp.top_byte as int, ed.cursor_byte as int, width, i),
            ),
            None => seq![(""@, Style::Plain)],
        }
    } else {
        match row {
            Some((_, bytes)) => seq![
                (
                    render_text::line_text(
                        bytes@,
                        ed.text_encoding.spec_name(),
                        ed.config.tab_width as int,
                    ),
                    Style::Plain,
                ),
            ],
            None => seq![("~"@, Style::Plain)],
        }
    }
}

/// A row of bytes has a width, a tab in a row of text too, and the bytes of every
/// row can be counted as they are shown.
pub open spec fn showable(ed: Editor, rows: Seq<Row>, width: int) -> bool {
    &&& ed.mode == OpenMode::Binary ==> width > 0
    &&& forall|i: int| 0 <= i < rows.len() ==> #[trigger] row_showable(ed, rows[i])
}

/// The bytes of a row can be counted as they are shown, and a tab in a row of
/// text has a width.
pub open spec fn row_showable(ed: Editor, row: Row) -> bool {
    row matches Some((_, bytes)) ==> {
        &&& bytes@.len() <= usize::MAX / 16
        &&& ed.mode != OpenMode::Binary ==> render_text::tabs_have_width(
            bytes@,
            ed.text_encoding.spec_name(),
            ed.config.tab_width as int,
        )
    }
}

/// Whether the rows can be shown.
pub fn can_show(editor: &Editor, rows: &Vec<Row>, bytes_per_row: usize) -> (b: bool)
    ensures
        b == showable(*editor, rows@, bytes_per_row as int),
{
    let text = editor.mode != OpenMode::Binary;
    if !text && bytes_per_row == 0 {
        return false;
    }
    let mut i: usize = 0;
    while i < rows.len()
        invariant
            i <= rows@.len(),
            text == (editor.mode != OpenMode::Binary),
            forall|k: int| 0 <= k < i ==> #[trigger] row_showable(*editor, rows@[k]),
        decreases rows@.len() - i,
    {
        if let Some((_, bytes)) = &rows[i] {
            if bytes.len() > usize::MAX / 16 {
                assert(!row_showable(*editor, rows@[i as int]));
                return false;
            }
            if text && editor.config.tab_width == 0 {
                let shown = encoding::decode(bytes.as_slice(), &editor.text_encoding);
                if render_text::has_tab(shown.as_str()) {
                    assert(!row_showable(*editor, rows@[i as int]));
                    return false;
                }
            }
        }
        i += 1;
    }
    true
}

/// The lines of the screen, where the rows can be shown.
pub fn try_view_lines(
    editor: &Editor,
    viewport: &ViewPort,
    rows: &Vec<Row>,
    bytes_per_row: usize,
    height: usize,
) -> (r: Option<Vec<Line>>)
    ensures
        r is Some <==> showable(*editor, rows@, bytes_per_row as int),
        r matches Some(lines) ==> {
            &&& lines@.len() == (if rows@.len() < height {
                rows@.len() as int
            } else {
                height as int
            })
            &&& forall|i: int|
                0 <= i < lines@.len() ==> (#[trigger] lines@[i])@ == row_line(
                    *editor,
                    *viewport,
                    rows@[i],
                    bytes_per_row as int,
                    i,
                )
        },
{
    if can_show(editor, rows, bytes_per_row) {
        Some(view_lines(editor, viewport, rows, bytes_per_row, height))
    } else {
        None
    }
}

/// The lines of the screen, for as many of `rows` as there are rows in
/// `height`.
pub fn view_lines(
    editor: &Editor,
    viewport: &ViewPort,
    rows: &Vec<Row>,
    bytes_per_row: usize,
    height: usize,
) -> (lines: Vec<Line>)
    requires
        showable(*editor, rows@, bytes_per_row as int),
    ensures
        lines@.len() == (if rows@.len() < height {
            rows@.len() as int
        } else {
            height as int
        }),
        forall|i: int|
            0 <= i < lines@.len() ==> (#[trigger] lines@[i])@ == row_line(
                *editor,
                *viewport,
                rows@[i],
                bytes_per_row as int,
                i,
            ),
{
    let mut lines: Vec<Line> = Vec::new();
    let mut i: usize = 0;
    while i < rows.len() && i < height
        invariant
            i <= rows@.len(),
            i <= height,
            lines@.len() == i,
            showable(*editor, rows@, bytes_per_row as int),
            forall|k: int|
                0 <= k < i ==> (#[trigger] lines@[k])@ == row_line(
                    *editor,
                    *viewport,
                    rows@[k],
                    bytes_per_row as int,
                    k,
                ),
        decreases rows@.len() - i,
    {
        assert(row_showable(*editor, rows@[i as int]));
        let line = match &rows[i] {
            Some((offset, bytes)) => if editor.mode == OpenMode::Binary {
                let mut cursor: Option<usize> = None;
                if editor.cursor_byte >= viewport.top_byte {
                    let rel: u64 = editor.cursor_byte - viewport.top_byte;
                    if rel / bytes_per_row as u64 == i as u64 {
                        cursor = Some((rel % bytes_per_row as u64) as usize);
                    }
                }
                let none: Vec<(usize, usize)> = Vec::new();
                let row = render_hex::render_hex_row(
                    *offset,
                    bytes.as_slice(),
                    bytes_per_row,
                    cursor,
                    none.as_slice(),
                );
                assert(none@ =~= Seq::<(usize, usize)>::empty());
                proof {
                    let width = bytes_per_row as nat;
                    let line = hex_line(*offset as nat, bytes@, width, cursor);
                    assert forall|k: int| 0 <= k < width implies row.pieces()[1 + k] == #[trigger] line[1
                        + k] && row.pieces()[2 + width + k] == line[2 + width + k] by {
                        let part = row.hex_parts@[k];
                        let letter = row.ascii_parts@[k];
                        assert(row.pieces()[1 + k] == (part.0@ + " "@, render_hex::shade(part.1)));
                        assert(row.pieces()[2 + width + k] == (
                            seq![letter.0],
                            render_hex::shade(letter.1),
                        ));
                    }
                    assert forall|j: int| 0 <= j < line.len() implies row.pieces()[j] == line[j] by {
                        if 1 <= j < 1 + width {
                            assert(line[1 + (j - 1)] == line[j]);
                        } else if j >= 2 + width {
                            assert(line[1 + (j - 2 - width)] == line[j - 1 - width]);
                        }
                    }
                    assert(row.pieces() =~= line);
                }
                row.to_line()
            } else {
                let none: Vec<(usize, usize)> = Vec::new();
                render_text::render_text_line(
                    bytes.as_slice(),
                    &editor.text_encoding,
                    &editor.config,
                    None,
                    none.as_slice(),
                )
            },
            None => if editor.mode == OpenMode::Binary {
                Line::styled("".to_string(), Style::Plain)
            } else {
                Line::styled("~".to_string(), Style::Plain)
            },
        };
        lines.push(line);
        i = i + 1;
    }
    lines
}

/// The cell of the terminal that the cursor goes to, where the rows start at
/// `x`, `y` and there are `height` of them. Cells are numbered by 16 bits.
pub fn cursor_cell(x: u16, y: u16, height: usize, cursor_screen: Option<(usize, usize)>) -> (cell:
    Option<(u16, u16)>)
    ensures
        cell == (match cursor_screen {
            Some((row, col)) => if row < height {
                Some((((x + col) % 0x1_0000) as u16, ((y + row) % 0x1_0000) as u16))
            } else {
                None
            },
            None => None,
        }),
{
    match cursor_screen {
        Some((row, col)) => {
            if row >= height {
                return None;
            }
            let across: u128 = (x as u128 + col as u128) % 0x1_0000;
            let down: u128 = (y as u128 + row as u128) % 0x1_0000;
            Some((across as u16, down as u16))
        },
        None => None,
    }
}

} // verus!
