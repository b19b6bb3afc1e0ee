//! What keys do, from the key to the cursor, the screen and the document.

use crate::block::BlockId;
use crate::command::{InputMode, KeyCode, KeyEvent, ViewOp};
use crate::delta_table;
use crate::edit_laws;
use crate::edit_success;
use crate::editor;
use crate::editor::{Editor, Step};
use crate::error::{EditError, IoError};
use crate::message::Direction;
use crate::move_laws;
use crate::search;
use crate::search_laws;
use crate::session;
use crate::session::{
    Asked, Edit, EditPurpose, Outcome, SavePurpose, SearchPurpose, SessionModel,
};
use vstd::prelude::*;

verus! {

/// Keys are commands, and none is being typed.
pub open spec fn commanding(s: SessionModel) -> bool {
    s.input_mode == InputMode::Normal && !s.status.in_command
}

/// Nothing of the editor changes but where the cursor is.
pub open spec fn only_cursor(ed: Editor, o: Outcome) -> bool {
    &&& o.mode == ed.mode
    &&& o.read_only == ed.read_only
    &&& o.encoding == ed.text_encoding.spec_name()
}

/// Where cursor and screen are after the moves `ops`, where the text `doc` is
/// shown.
pub open spec fn text_moves(ops: Seq<ViewOp>, doc: Seq<u8>, at: int, top: int, rows: int) -> (
    int,
    int,
)
    decreases ops.len(),
{
    if ops.len() == 0 {
        (at, top)
    } else {
        let (c, t) = text_moves(ops.drop_last(), doc, at, top, rows);
        session::text_move(
            ops.last(),
            c,
            t,
            crate::line_index::newline_places(doc),
            doc.len() as int,
            rows,
        )
    }
}

/// Where cursor and screen are after the moves `ops`, where bytes are shown in rows
/// of `width`.
pub open spec fn hex_moves(
    ops: Seq<ViewOp>,
    at: int,
    top: int,
    size: int,
    width: int,
    rows: int,
) -> (int, int)
    decreases ops.len(),
{
    if ops.len() == 0 {
        (at, top)
    } else {
        let (c, t) = hex_moves(ops.drop_last(), at, top, size, width, rows);
        session::hex_move(ops.last(), c, t, size, width, rows)
    }
}

proof fn lemma_two_moves(
    ops: Seq<ViewOp>,
    doc: Seq<u8>,
    at: int,
    top: int,
    size: int,
    width: int,
    rows: int,
)
    requires
        1 <= ops.len() <= 3,
    ensures
        ({
            let nls = crate::line_index::newline_places(doc);
            let len = doc.len() as int;
            let (c1, t1) = session::text_move(ops[0], at, top, nls, len, rows);
            let (c2, t2) = session::text_move(ops[1], c1, t1, nls, len, rows);
            let (c3, t3) = session::text_move(ops[2], c2, t2, nls, len, rows);
            text_moves(ops, doc, at, top, rows) == (if ops.len() == 1 {
                (c1, t1)
            } else if ops.len() == 2 {
                (c2, t2)
            } else {
                (c3, t3)
            })
        }),
        ({
            let (c1, t1) = session::hex_move(ops[0], at, top, size, width, rows);
            let (c2, t2) = session::hex_move(ops[1], c1, t1, size, width, rows);
            let (c3, t3) = session::hex_move(ops[2], c2, t2, size, width, rows);
            hex_moves(ops, at, top, size, width, rows) == (if ops.len() == 1 {
                (c1, t1)
            } else if ops.len() == 2 {
                (c2, t2)
            } else {
                (c3, t3)
            })
        }),
{
    reveal_with_fuel(text_moves, 4);
    reveal_with_fuel(hex_moves, 4);
    if ops.len() == 1 {
    } else if ops.len() == 2 {
        assert(ops.drop_last().drop_last() =~= Seq::<ViewOp>::empty());
    } else {
        assert(ops.drop_last().drop_last().drop_last() =~= Seq::<ViewOp>::empty());
    }
}

/// How many lines or rows down a key moves the cursor where the screen has `rows`
/// rows, if it moves it by lines: `j` and the down key by one, `f` and the page
/// down key by a screen, and `d` with the control key by half a screen; `k`, `b`
/// and `u`, and the keys up, as far up.
pub open spec fn lines_of_key(key: KeyEvent, rows: int) -> Option<int> {
    if key.code == KeyCode::Down || key.code == KeyCode::Char('j') {
        Some(1)
    } else if key.code == KeyCode::Up || key.code == KeyCode::Char('k') {
        Some(-1)
    } else if key.code == KeyCode::PageDown || key.code == KeyCode::Char('f') {
        Some(rows)
    } else if key.code == KeyCode::PageUp || key.code == KeyCode::Char('b') {
        Some(-rows)
    } else if key.code == KeyCode::Char('d') && key.control {
        Some(rows / 2)
    } else if key.code == KeyCode::Char('u') && key.control {
        Some(-(rows / 2))
    } else {
        None
    }
}

/// The moves `ops` are by `lines` lines: of the cursor, then of the screen unless it
/// is by one line, and then to the cursor.
spec fn by_lines(ops: Seq<ViewOp>, lines: int, rows: int) -> bool {
    &&& ops.len() == 2 || ops.len() == 3
    &&& ops[0] matches ViewOp::MoveLines(n) && n == lines
    &&& ops.last() == ViewOp::ShowCursor
    &&& ops.len() == 3 ==> match ops[1] {
        ViewOp::ScrollLines(n) => n == lines,
        ViewOp::ScrollPage(n) => n * rows == lines,
        _ => false,
    }
    &&& ops.len() == 2 ==> lines == 1 || lines == -1
}

proof fn lemma_line_key(s: SessionModel, ed: Editor, key: KeyEvent, rows: usize, o: Outcome)
    requires
        commanding(s),
        0 < rows <= i64::MAX,
        session::key_step(s, ed, key, rows, o),
        lines_of_key(key, rows as int) is Some,
    ensures
        o.session == s,
        only_cursor(ed, o),
        o.cursor == ed.cursor_byte,
        o.asked is View,
        by_lines(o.asked->View_0, lines_of_key(key, rows as int)->0, rows as int),
{
    assert(1int * (rows as int) == rows) by (nonlinear_arith);
    assert((-1int) * (rows as int) == -rows) by (nonlinear_arith);
}

proof fn lemma_line_moves_in_text(
    ops: Seq<ViewOp>,
    lines: int,
    doc: Seq<u8>,
    at: int,
    top: int,
    rows: int,
)
    requires
        by_lines(ops, lines, rows),
        0 <= at <= doc.len(),
        0 <= top <= doc.len(),
        rows > 0,
    ensures
        ({
            let (c, t) = text_moves(ops, doc, at, top, rows);
            let line = move_laws::line_number(doc, at);
            let first = move_laws::line_number(doc, top);
            &&& move_laws::lines_away(doc, at, c, lines)
            &&& move_laws::line_number(doc, t) <= move_laws::line_number(doc, c)
                < move_laws::line_number(doc, t) + rows
            &&& lines != 1 && lines != -1 && first <= line < first + rows
                ==> move_laws::screen_lines_away(doc, top, t, lines)
        }),
{
    let nls = crate::line_index::newline_places(doc);
    let len = doc.len() as int;
    lemma_two_moves(ops, doc, at, top, 0, 1, rows);
    let (c1, t1) = session::text_move(ops[0], at, top, nls, len, rows);
    move_laws::law_text_moves(ops[0], doc, at, top, rows);
    move_laws::law_text_moves(ops[1], doc, c1, t1, rows);
    if ops.len() == 3 {
        let (c2, t2) = session::text_move(ops[1], c1, t1, nls, len, rows);
        move_laws::law_text_moves(ops[2], doc, c2, t2, rows);
    }
}

proof fn lemma_line_moves_in_bytes(
    ops: Seq<ViewOp>,
    lines: int,
    at: int,
    top: int,
    size: int,
    width: int,
    rows: int,
)
    requires
        by_lines(ops, lines, rows),
        0 <= at <= size,
        0 <= top,
        rows > 0,
        width > 0,
    ensures
        ({
            let (c, t) = hex_moves(ops, at, top, size, width, rows);
            &&& move_laws::rows_away(at, c, lines, width, size)
            &&& t <= c < t + rows * width
            &&& lines != 1 && lines != -1 && top <= at < top + rows * width && 0 <= top + lines
                * width && 0 <= at + lines * width <= size ==> t == top + lines * width
        }),
{
    lemma_two_moves(ops, Seq::empty(), at, top, size, width, rows);
    let (c1, t1) = session::hex_move(ops[0], at, top, size, width, rows);
    move_laws::law_hex_moves(ops[0], at, top, size, width, rows);
    move_laws::law_hex_moves(ops[1], c1, t1, size, width, rows);
    if ops.len() == 3 {
        let (c2, t2) = session::hex_move(ops[1], c1, t1, size, width, rows);
        move_laws::law_hex_moves(ops[2], c2, t2, size, width, rows);
    }
}

/// The keys that move by lines move the cursor by that many lines of the text, and
/// the cursor is on the screen then. A page and half a page move the screen as far
/// where the cursor was on it. Nothing else changes.
pub proof fn law_line_keys_in_text(
    s: SessionModel,
    ed: Editor,
    key: KeyEvent,
    rows: usize,
    o: Outcome,
    doc: Seq<u8>,
    top: int,
)
    requires
        commanding(s),
        ed.file_size == doc.len(),
        ed.cursor_byte <= ed.file_size,
        0 <= top <= doc.len(),
        0 < rows <= i64::MAX,
        session::key_step(s, ed, key, rows, o),
        lines_of_key(key, rows as int) is Some,
    ensures
        o.session == s,
        only_cursor(ed, o),
        o.cursor == ed.cursor_byte,
        o.asked is View,
        ({
            let lines = lines_of_key(key, rows as int)->0;
            let at = ed.cursor_byte as int;
            let (c, t) = text_moves(o.asked->View_0, doc, at, top, rows as int);
            let line = move_laws::line_number(doc, at);
            let first = move_laws::line_number(doc, top);
            &&& move_laws::lines_away(doc, at, c, lines)
            &&& move_laws::line_number(doc, t) <= move_laws::line_number(doc, c)
                < move_laws::line_number(doc, t) + rows
            &&& lines != 1 && lines != -1 && first <= line < first + rows
                ==> move_laws::screen_lines_away(doc, top, t, lines)
        }),
{
    lemma_line_key(s, ed, key, rows, o);
    lemma_line_moves_in_text(
        o.asked->View_0,
        lines_of_key(key, rows as int)->0,
        doc,
        ed.cursor_byte as int,
        top,
        rows as int,
    );
}

/// The keys that move by lines move the cursor by that many rows where bytes are
/// shown, and the cursor is on the screen then. Nothing else changes.
pub proof fn law_line_keys_in_bytes(
    s: SessionModel,
    ed: Editor,
    key: KeyEvent,
    rows: usize,
    o: Outcome,
    top: int,
    width: int,
)
    requires
        commanding(s),
        ed.cursor_byte <= ed.file_size,
        0 <= top,
        0 < rows <= i64::MAX,
        width > 0,
        session::key_step(s, ed, key, rows, o),
        lines_of_key(key, rows as int) is Some,
    ensures
        o.session == s,
        only_cursor(ed, o),
        o.cursor == ed.cursor_byte,
        o.asked is View,
        ({
            let lines = lines_of_key(key, rows as int)->0;
            let at = ed.cursor_byte as int;
            let size = ed.file_size as int;
            let (c, t) = hex_moves(o.asked->View_0, at, top, size, width, rows as int);
            &&& move_laws::rows_away(at, c, lines, width, size)
            &&& t <= c < t + rows * width
            &&& lines != 1 && lines != -1 && top <= at < top + rows * width && 0 <= top + lines
                * width && 0 <= at + lines * width <= size ==> t == top + lines * width
        }),
{
    lemma_line_key(s, ed, key, rows, o);
    lemma_line_moves_in_bytes(
        o.asked->View_0,
        lines_of_key(key, rows as int)->0,
        ed.cursor_byte as int,
        top,
        ed.file_size as int,
        width,
        rows as int,
    );
}

/// `h` and the left key go one byte back, `l` and the right key one byte on, `g` to
/// the start and `G` to the end, never out of the document; `i` starts typing at
/// the cursor, `a` behind it and `o` at the end of the document. The screen goes
/// where the cursor goes.
pub proof fn law_byte_keys(s: SessionModel, ed: Editor, key: KeyEvent, rows: usize, o: Outcome)
    requires
        commanding(s),
        ed.cursor_byte <= ed.file_size,
        session::key_step(s, ed, key, rows, o),
    ensures
        key.code == KeyCode::Left || key.code == KeyCode::Char('h') ==> o.cursor == (
        if ed.cursor_byte > 0 {
            ed.cursor_byte - 1
        } else {
            0
        }),
        key.code == KeyCode::Right || key.code == KeyCode::Char('l') || key.code == KeyCode::Char('a')
            ==> o.cursor == (if ed.cursor_byte < ed.file_size {
            ed.cursor_byte + 1
        } else {
            ed.file_size as int
        }),
        key.code == KeyCode::Char('g') ==> o.cursor == 0,
        key.code == KeyCode::Char('G') || key.code == KeyCode::Char('o') ==> o.cursor
            == ed.file_size,
        ({
            ||| key.code == KeyCode::Left
            ||| key.code == KeyCode::Right
            ||| key.code == KeyCode::Char('h')
            ||| key.code == KeyCode::Char('l')
            ||| key.code == KeyCode::Char('g')
            ||| key.code == KeyCode::Char('G')
        }) ==> {
            &&& o.session == s
            &&& only_cursor(ed, o)
            &&& o.asked == Asked::View(seq![ViewOp::ShowCursor])
        },
        key.code == KeyCode::Char('i') ==> o.cursor == ed.cursor_byte,
        ({
            ||| key.code == KeyCode::Char('i')
            ||| key.code == KeyCode::Char('a')
            ||| key.code == KeyCode::Char('o')
        }) ==> {
            &&& only_cursor(ed, o)
            &&& key.code != KeyCode::Char('i') ==> o.asked == Asked::View(
                seq![ViewOp::ShowCursor],
            )
            &&& o.asked is View
            &&& !ed.read_only ==> {
                &&& o.session.input_mode == InputMode::Insert
                &&& o.session.status.mode_name == "INSERT"@
                &&& o.session.status.message == s.status.message
            }
            &&& ed.read_only ==> {
                &&& o.session.input_mode == InputMode::Normal
                &&& o.session.status.mode_name == "NORMAL"@
                &&& o.session.status.message == Some("只读模式，:rw 切换为可写"@)
                &&& o.session.status.message_is_error
            }
            &&& o.session.should_quit == s.should_quit
        },
{
}

/// `x` asks for the byte under the cursor to be deleted, `u` for the last edit to be
/// undone, and `r` with the control key for it to be redone; a document that may
/// not be changed answers with an error instead. The cursor stays.
pub proof fn law_edit_keys(s: SessionModel, ed: Editor, key: KeyEvent, rows: usize, o: Outcome)
    requires
        commanding(s),
        session::key_step(s, ed, key, rows, o),
    ensures
        ({
            let edit = if key.code == KeyCode::Char('x') {
                Some(Edit::DeleteForward)
            } else if key.code == KeyCode::Char('u') && !key.control {
                Some(Edit::Undo)
            } else if (key.code == KeyCode::Char('r') || key.code == KeyCode::Char('R'))
                && key.control {
                Some(Edit::Redo)
            } else {
                None
            };
            edit matches Some(e) ==> {
                &&& only_cursor(ed, o)
                &&& o.cursor == ed.cursor_byte
                &&& !ed.read_only ==> o.session == s && o.asked == Asked::Edit(
                    e,
                    EditPurpose::Command,
                )
                &&& ed.read_only ==> {
                    &&& o.asked is Nothing
                    &&& o.session.status.message == Some("只读模式，:rw 切换为可写"@)
                    &&& o.session.status.message_is_error
                    &&& o.session.input_mode == InputMode::Normal
                }
            }
        }),
{
}

/// `:` starts a command and `/` starts a search, with nothing typed yet, and no other
/// key does. Nothing of the editor changes.
pub proof fn law_typing_starts(s: SessionModel, ed: Editor, key: KeyEvent, rows: usize, o: Outcome)
    requires
        commanding(s),
        session::key_step(s, ed, key, rows, o),
    ensures
        o.session.input_mode == InputMode::Command <==> key.code == KeyCode::Char(':'),
        o.session.input_mode == InputMode::Search <==> key.code == KeyCode::Char('/'),
        key.code == KeyCode::Char(':') || key.code == KeyCode::Char('/') ==> {
            &&& o.session.status.in_command
            &&& o.session.status.command_buffer.len() == 0
            &&& o.session.status.message == s.status.message
            &&& only_cursor(ed, o)
            &&& o.cursor == ed.cursor_byte
            &&& o.asked == Asked::View(Seq::empty())
        },
        key.code == KeyCode::Char('/') ==> o.session.status.mode_name == "SEARCH"@,
        key.code == KeyCode::Char(':') ==> o.session.status.mode_name == s.status.mode_name,
        o.session.status.in_command <==> o.session.input_mode == InputMode::Command
            || o.session.input_mode == InputMode::Search,
{
}

/// Typing a command or a search: a character comes behind those that were typed, the
/// backspace key takes the last one away, and the escape key takes all of them
/// away and leaves. The editor stays as it is and nothing is asked for.
pub proof fn law_typing_keys(s: SessionModel, ed: Editor, key: KeyEvent, rows: usize, o: Outcome)
    requires
        s.input_mode == InputMode::Command || s.input_mode == InputMode::Search,
        s.status.in_command,
        key.code != KeyCode::Enter,
        !(key.control && key.code == KeyCode::Char('c')),
        session::key_step(s, ed, key, rows, o),
    ensures
        only_cursor(ed, o),
        o.cursor == ed.cursor_byte,
        o.asked is Nothing,
        o.session.should_quit == s.should_quit,
        key.code matches KeyCode::Char(c) ==> o.session.status.command_buffer
            == s.status.command_buffer + seq![c],
        key.code == KeyCode::Backspace ==> o.session.status.command_buffer == (
        if s.status.command_buffer.len() == 0 {
            Seq::<char>::empty()
        } else {
            s.status.command_buffer.take(s.status.command_buffer.len() - 1)
        }),
        key.code == KeyCode::Esc ==> {
            &&& commanding(o.session)
            &&& o.session.status.command_buffer.len() == 0
            &&& o.session.status.mode_name == "NORMAL"@
        },
        key.code != KeyCode::Esc ==> {
            &&& o.session.input_mode == s.input_mode
            &&& o.session.status.in_command
        },
        ({
            ||| key.code is Char
            ||| key.code == KeyCode::Backspace
            ||| key.code == KeyCode::Esc
        }) || o.session == s,
{
    if let KeyCode::Char(c) = key.code {
        assert(s.status.command_buffer.push(c) =~= s.status.command_buffer + seq![c]);
    }
    if key.code == KeyCode::Backspace {
        if s.status.command_buffer.len() > 0 {
            assert(s.status.command_buffer.drop_last() =~= s.status.command_buffer.take(
                s.status.command_buffer.len() - 1,
            ));
        } else {
            assert(s.status.command_buffer =~= Seq::<char>::empty());
        }
    }
}

/// The return key behind a search that was typed asks for the first hundred places
/// of these characters, as the bytes of UTF-8, from the cursor on, if any were
/// typed.
pub proof fn law_search_is_begun(s: SessionModel, ed: Editor, key: KeyEvent, rows: usize, o: Outcome)
    requires
        s.input_mode == InputMode::Search,
        key.code == KeyCode::Enter,
        session::key_step(s, ed, key, rows, o),
    ensures
        only_cursor(ed, o),
        o.cursor == ed.cursor_byte,
        commanding(o.session),
        o.session.status.command_buffer.len() == 0,
        o.session.status.message == s.status.message,
        ({
            let query = vstd::utf8::encode_utf8(s.status.command_buffer);
            if query.len() > 0 {
                o.asked == Asked::Search {
                    query,
                    direction: Direction::Forward,
                    limit: 100,
                    purpose: SearchPurpose::Query,
                }
            } else {
                o.asked is Nothing
            }
        }),
{
}

/// `n` searches on for what was searched for last, and `N` back. Without such a
/// search there is an error.
pub proof fn law_searching_again(s: SessionModel, ed: Editor, key: KeyEvent, rows: usize, o: Outcome)
    requires
        commanding(s),
        key.code == KeyCode::Char('n') || key.code == KeyCode::Char('N'),
        session::key_step(s, ed, key, rows, o),
    ensures
        only_cursor(ed, o),
        o.cursor == ed.cursor_byte,
        ed.last_search is None ==> {
            &&& o.asked is Nothing
            &&& o.session.status.message == Some("暂无搜索历史，按 / 开始搜索"@)
            &&& o.session.status.message_is_error
        },
        ed.last_search matches Some(q) ==> {
            &&& o.session == s
            &&& o.asked matches Asked::Search { query, direction, limit, purpose } && {
                &&& query == q@
                &&& purpose == SearchPurpose::Step
                &&& key.code == KeyCode::Char('n') ==> direction == Direction::Forward && limit >= 2
                &&& key.code == KeyCode::Char('N') ==> direction == Direction::Backward && limit
                    >= 1
            }
        },
{
}

/// Searching on goes to the first match behind the cursor, and searching back to
/// the last one before it; neither says anything. Where there is none, the cursor
/// stays and there is an error. Nothing else of the editor changes.
pub proof fn law_search_steps_to_match(
    s: SessionModel,
    before: Editor,
    matches: Seq<u64>,
    t: SessionModel,
    after: Editor,
    ops: Seq<ViewOp>,
)
    requires
        session::search_step(s, before, SearchPurpose::Step, matches, t, after, ops),
        forall|i: int| 0 <= i < matches.len() ==> #[trigger] matches[i] <= before.file_size,
        ({
            ||| forall|i: int|
                0 <= i < matches.len() ==> before.cursor_byte <= #[trigger] matches[i]
            ||| forall|i: int| 0 <= i < matches.len() ==> #[trigger] matches[i] < before.cursor_byte
        }),
        ({
            ||| forall|i: int, j: int| 0 <= i < j < matches.len() ==> matches[i] < matches[j]
            ||| forall|i: int, j: int| 0 <= i < j < matches.len() ==> matches[i] > matches[j]
        }),
        (exists|i: int| 0 <= i < matches.len() && #[trigger] matches[i] >= before.cursor_byte) ==> (
        forall|i: int, j: int| 0 <= i < j < matches.len() ==> matches[i] < matches[j]),
        (exists|i: int| 0 <= i < matches.len() && #[trigger] matches[i] < before.cursor_byte) ==> (
        forall|i: int, j: int| 0 <= i < j < matches.len() ==> matches[i] > matches[j]),
    ensures
        after == (Editor { cursor_byte: after.cursor_byte, ..before }),
        (forall|i: int| 0 <= i < matches.len() ==> #[trigger] matches[i] == before.cursor_byte)
            ==> {
            &&& after == before
            &&& ops.len() == 0
            &&& t.status.message == Some("无匹配"@)
            &&& t.status.message_is_error
        },
        (exists|i: int| 0 <= i < matches.len() && #[trigger] matches[i] != before.cursor_byte)
            ==> {
            &&& matches.contains(after.cursor_byte)
            &&& after.cursor_byte != before.cursor_byte
            &&& t == s
            &&& ops == seq![ViewOp::ShowCursor]
            &&& forall|k: u64|
                #[trigger] matches.contains(k) && k > before.cursor_byte ==> before.cursor_byte
                    < after.cursor_byte <= k
            &&& forall|k: u64|
                #[trigger] matches.contains(k) && k < before.cursor_byte ==> k <= after.cursor_byte
                    < before.cursor_byte
        },
{
    if matches.len() > 1 {
        assert(matches[0] != matches[1]);
    }
}

/// A search that was typed, or that a command makes, goes to its first match, and
/// says how many there are if it was typed. Where there is none, the cursor stays
/// and that is said.
pub proof fn law_search_goes_to_first_match(
    s: SessionModel,
    before: Editor,
    purpose: SearchPurpose,
    matches: Seq<u64>,
    t: SessionModel,
    after: Editor,
    ops: Seq<ViewOp>,
)
    requires
        purpose != SearchPurpose::Step,
        session::search_step(s, before, purpose, matches, t, after, ops),
        matches.len() > 0 ==> matches[0] <= before.file_size,
    ensures
        after == (Editor { cursor_byte: after.cursor_byte, ..before }),
        matches.len() == 0 ==> {
            &&& after.cursor_byte == before.cursor_byte
            &&& ops.len() == 0
            &&& t.status.message == Some("无匹配"@)
        },
        matches.len() > 0 ==> {
            &&& after.cursor_byte == matches[0]
            &&& ops == seq![ViewOp::ShowCursor]
            &&& purpose == SearchPurpose::Query ==> t.status.message == Some(
                "找到 "@ + crate::text::dec(matches.len()) + " 个匹配"@,
            )
            &&& purpose == SearchPurpose::Command ==> t == s
        },
        t.status.message_is_error == s.status.message_is_error,
        t.input_mode == s.input_mode,
        t.should_quit == s.should_quit,
{
}

/// Typing into the document: a character asks for its lowest eight bits to be put in,
/// the return key for a newline, and the backspace key goes one byte back and asks
/// for that byte to be deleted. The escape key leaves. Where the document may not
/// be changed, there is an error instead.
pub proof fn law_insert_keys(s: SessionModel, ed: Editor, key: KeyEvent, rows: usize, o: Outcome)
    requires
        s.input_mode == InputMode::Insert,
        ed.cursor_byte <= ed.file_size,
        !(key.control && key.code == KeyCode::Char('c')),
        session::key_step(s, ed, key, rows, o),
    ensures
        only_cursor(ed, o),
        o.session.should_quit == s.should_quit,
        key.code == KeyCode::Esc ==> {
            &&& o.session.input_mode != InputMode::Insert
            &&& !s.status.in_command ==> o.session.input_mode == InputMode::Normal
            &&& o.session.status.mode_name == "NORMAL"@
        },
        key.code != KeyCode::Esc ==> o.session.input_mode == InputMode::Insert,
        key.code != KeyCode::Backspace ==> o.cursor == ed.cursor_byte,
        !ed.read_only ==> {
            &&& key.code != KeyCode::Esc ==> o.session == s
            &&& key.code == KeyCode::Enter ==> o.asked == Asked::Edit(
                Edit::Insert(10),
                EditPurpose::Typing,
            )
            &&& key.code matches KeyCode::Char(c) ==> {
                &&& o.asked matches Asked::Edit(Edit::Insert(byte), EditPurpose::Typing) && (
                c as int - byte as int) % 256 == 0
            }
            &&& key.code == KeyCode::Backspace && ed.cursor_byte > 0 ==> {
                &&& o.cursor == ed.cursor_byte - 1
                &&& o.asked == Asked::Edit(Edit::DeleteForward, EditPurpose::Typing)
            }
            &&& key.code == KeyCode::Backspace && ed.cursor_byte == 0 ==> {
                &&& o.cursor == 0
                &&& !(o.asked is Edit)
            }
        },
        !(key.code is Char || key.code == KeyCode::Enter || key.code == KeyCode::Backspace
            || key.code == KeyCode::Esc) ==> o.session == s && o.asked is Nothing,
        ed.read_only ==> {
            &&& !(o.asked is Edit)
            &&& o.cursor == ed.cursor_byte
            &&& key.code is Char || key.code == KeyCode::Enter || key.code == KeyCode::Backspace ==> {
                &&& o.session.status.message == Some(
                    "只读模式，Esc 退出后 :rw 切换为可写"@,
                )
                &&& o.session.status.message_is_error
            }
        },
{
}

/// The backspace key takes the byte before the cursor out of the document, and
/// leaves the cursor where that byte was, if the deletion that it asks for is
/// made. With the blocks at hand it is made where the byte is in a block of the
/// document.
pub proof fn law_backspace_takes_byte_before(
    s: SessionModel,
    ed: Editor,
    key: KeyEvent,
    rows: usize,
    o: Outcome,
    moved: Editor,
    b: int,
    unreadable: Option<BlockId>,
    step: Step<Result<(), EditError>>,
    after: Editor,
    base: Seq<u8>,
)
    requires
        s.input_mode == InputMode::Insert,
        key.code == KeyCode::Backspace,
        0 < ed.cursor_byte <= ed.file_size,
        session::key_step(s, ed, key, rows, o),
        o.leads(ed, moved),
        edit_success::changeable(ed, base),
        ed.edit_epoch < u64::MAX,
        0 <= b < ed.block_count,
        delta_table::prefix(ed.delta_table.sizes(), b) < ed.cursor_byte <= delta_table::prefix(
            ed.delta_table.sizes(),
            b + 1,
        ),
        editor::delete_outcome(moved, 1, unreadable, step, after),
        after.wf(),
    ensures
        (forall|id: u64|
            id < ed.block_count && b - 1 <= id <= b + 1 ==> #[trigger] ed.cache@.has(id)) ==> step
            == Step::Done(Ok::<(), EditError>(())),
        step == Step::Done(Ok::<(), EditError>(())) ==> {
            let doc = ed.content(base);
            let at = ed.cursor_byte as int;
            &&& after.content(base) == doc.take(at - 1) + doc.skip(at)
            &&& after.cursor_byte == at - 1
        },
{
    law_insert_keys(s, ed, key, rows, o);
    assert(moved.blocks(base) =~= ed.blocks(base));
    assert(edit_success::changeable(moved, base));
    edit_success::law_deletion_succeeds(moved, 1, b, unreadable, step, after, base);
}

/// The wish to quit: while a block has edits that are stored nowhere the session goes
/// on and there is an error. Otherwise, where the log holds edits, they are to be
/// folded into the file first. Otherwise the session ends. With the control key `c`
/// and `q` are that wish, and so is the escape key where keys are commands.
pub proof fn law_quitting(s: SessionModel, ed: Editor, key: KeyEvent, rows: usize, o: Outcome)
    requires
        session::key_step(s, ed, key, rows, o),
        ({
            ||| key.control && key.code == KeyCode::Char('c')
            ||| commanding(s) && key.code == KeyCode::Esc
            ||| commanding(s) && key.control && key.code == KeyCode::Char('q')
        }),
    ensures
        only_cursor(ed, o),
        o.cursor == ed.cursor_byte,
        o.session.input_mode == s.input_mode,
        (exists|id: u64| #[trigger] ed.cache@.has(id) && ed.cache@.blocks[id].unsaved()) ==> {
            &&& o.session.should_quit == s.should_quit
            &&& o.asked is Nothing
            &&& o.session.status.message == Some(
                "有未保存修改，使用 :q! 强制退出 或 :w 保存"@,
            )
            &&& o.session.status.message_is_error
        },
        (forall|id: u64| #[trigger] ed.cache@.has(id) ==> !ed.cache@.blocks[id].unsaved()) ==> {
            let logged = ed.cache@.wal is Some && exists|id: BlockId| #[trigger]
                ed.cache@.wal->0@.dom().contains(id);
            &&& o.session.status == s.status
            &&& logged ==> {
                &&& o.session.should_quit == s.should_quit
                &&& o.asked == Asked::SaveAs { path: ed.file_path@, purpose: SavePurpose::Merge }
            }
            &&& !logged ==> o.session.should_quit && o.asked is Nothing
        },
{
    if ed.cache@.wal is Some {
        let logged = ed.cache@.wal->0@.dom();
        if forall|id: BlockId| !#[trigger] logged.contains(id) {
            assert(logged =~= Set::<BlockId>::empty());
        }
    }
}

/// After a save the session goes on, unless the save was made to end it and
/// succeeded. A failure is shown as an error with what went wrong.
pub proof fn law_save_reports(s: SessionModel, purpose: SavePurpose, result: Result<(), IoError>)
    ensures
        ({
            let t = session::saved(s, purpose, result);
            &&& t.input_mode == s.input_mode
            &&& result is Ok && purpose != SavePurpose::Keep ==> t.should_quit && t.status
                == s.status
            &&& result is Ok && purpose == SavePurpose::Keep ==> {
                &&& t.should_quit == s.should_quit
                &&& t.status.message == Some("已保存"@)
                &&& !t.status.message_is_error
            }
            &&& result matches Err(e) ==> {
                &&& t.should_quit == s.should_quit
                &&& t.status.message_is_error
                &&& t.status.message matches Some(m) && m.len() >= e.message().len() && m.skip(
                    m.len() - e.message().len(),
                ) == e.message()
            }
        }),
{
    if let Err(e) = result {
        let a = "合并 WAL 失败: "@ + e.message();
        let b = "保存失败: "@ + e.message();
        assert(a.skip(a.len() - e.message().len()) =~= e.message());
        assert(b.skip(b.len() - e.message().len()) =~= e.message());
    }
}

/// After an edit that was made nothing is said, and the screen starts with a whole
/// line and shows the cursor. After one that failed that is said, with what went
/// wrong, and the screen goes to the cursor only after typing.
pub proof fn law_edit_reports(
    s: SessionModel,
    purpose: EditPurpose,
    result: Result<(), EditError>,
    doc: Seq<u8>,
    at: int,
    top: int,
    rows: int,
)
    requires
        0 <= at <= doc.len(),
        0 <= top <= doc.len(),
        rows > 0,
    ensures
        ({
            let (t, ops) = session::edited(s, purpose, result);
            let (c, screen) = text_moves(ops, doc, at, top, rows);
            &&& c == at
            &&& t.input_mode == s.input_mode
            &&& t.should_quit == s.should_quit
            &&& result is Ok ==> {
                &&& t == s
                &&& screen == move_laws::line_begin(doc, screen)
            }
            &&& result is Ok || purpose == EditPurpose::Typing ==> move_laws::line_number(
                doc,
                screen,
            ) <= move_laws::line_number(doc, at) < move_laws::line_number(doc, screen) + rows
            &&& result is Err && purpose == EditPurpose::Command ==> screen == top
            &&& result matches Err(e) ==> {
                &&& t.status.message == Some(e.message())
                &&& t.status.message_is_error
            }
        }),
{
    let (t, ops) = session::edited(s, purpose, result);
    if ops.len() > 0 {
        lemma_two_moves(ops, doc, at, top, 0, 1, rows);
        let nls = crate::line_index::newline_places(doc);
        let (c1, t1) = session::text_move(ops[0], at, top, nls, doc.len() as int, rows);
        move_laws::law_text_moves(ops[0], doc, at, top, rows);
        move_laws::lemma_line_in(doc, at);
        move_laws::lemma_line_in(doc, top);
        move_laws::lemma_line_starts(doc, top);
        move_laws::lemma_line_starts(doc, at);
        if ops.len() > 1 {
            move_laws::law_text_moves(ops[1], doc, c1, t1, rows);
        }
    }
}

/// The document can be searched for `query` from the cursor.
pub open spec fn searchable(ed: Editor, base: Seq<u8>, query: Seq<u8>) -> bool {
    &&& ed.wf()
    &&& ed.consistent(base)
    &&& ed.block_count > 0
    &&& ed.cursor_byte <= ed.file_size
    &&& query.len() > 0
    &&& search_laws::searchable(ed.blocks(base))
}

/// What a whole search of the document from the cursor finds.
pub open spec fn found_in(
    ed: Editor,
    base: Seq<u8>,
    query: Seq<u8>,
    direction: Direction,
    limit: usize,
) -> Seq<u64> {
    search_laws::run(ed.search_begun(query, direction, limit), ed.blocks(base)).matches
}

/// `query` stands in the document at `p`, in one block or two neighbours.
pub open spec fn stands_at(ed: Editor, base: Seq<u8>, query: Seq<u8>, p: int) -> bool {
    let doc = ed.content(base);
    &&& 0 <= p
    &&& p + query.len() <= doc.len()
    &&& forall|i: int| 0 <= i < query.len() ==> doc[p + i] == #[trigger] query[i]
    &&& exists|k: int| #[trigger]
        search_laws::in_pair(ed.blocks(base), k, p, query.len() as int)
}

/// A place of `query` at `m` or before reaches over `p`.
pub open spec fn overlapped(
    ed: Editor,
    base: Seq<u8>,
    query: Seq<u8>,
    p: int,
    m: int,
) -> bool {
    exists|q: int|
        q <= m && q < p < q + query.len() && #[trigger] search::occurs(ed.content(base), query, q)
}

proof fn lemma_stands(ed: Editor, base: Seq<u8>, query: Seq<u8>, p: int)
    requires
        stands_at(ed, base, query, p),
    ensures
        search::occurs(ed.content(base), query, p),
{
    let doc = ed.content(base);
    assert(doc.subrange(p, p + query.len()) =~= query);
}

/// `q` is a place of `query` that reaches over `p`, and is among `matches` unless it
/// is before `start`.
spec fn reaches(doc: Seq<u8>, query: Seq<u8>, matches: Seq<u64>, start: int, q: int, p: int) -> bool {
    &&& q <= p < q + query.len()
    &&& search::occurs(doc, query, q)
    &&& q < start || (exists|i: int| 0 <= i < matches.len() && #[trigger] matches[i] == q)
}

proof fn lemma_found_forward(ed: Editor, base: Seq<u8>, query: Seq<u8>, limit: usize, p: int)
    requires
        searchable(ed, base, query),
        limit >= 1,
    ensures
        ({
            let doc = ed.content(base);
            let matches = found_in(ed, base, query, Direction::Forward, limit);
            let at = ed.cursor_byte as int;
            &&& forall|i: int|
                0 <= i < matches.len() ==> at <= #[trigger] matches[i] <= ed.file_size
                    && search::occurs(doc, query, matches[i] as int)
            &&& forall|i: int, j: int| 0 <= i < j < matches.len() ==> matches[i] < matches[j]
            &&& stands_at(ed, base, query, p) && p >= at && (matches.len() < limit || p
                <= matches.last()) ==> exists|q: int| #[trigger]
                reaches(doc, query, matches, at, q, p)
        }),
{
    let blocks = ed.blocks(base);
    let doc = ed.content(base);
    let r = search_laws::run(ed.search_begun(query, Direction::Forward, limit), blocks);
    let matches = r.matches;
    search_laws::law_forward_search(ed, base, query, limit);
    edit_laws::lemma_content_length(ed, base);
    if stands_at(ed, base, query, p) && p >= ed.cursor_byte && (matches.len() < limit || p
        <= matches.last()) {
        lemma_stands(ed, base, query, p);
        let k = choose|k: int| #[trigger]
            search_laws::in_pair(blocks, k, p, query.len() as int);
        let m = choose|m: int| search::covers(r, doc, m, p);
        assert(search::covers(r, doc, m, p));
        if matches.contains(m as u64) {
            let i = choose|i: int| 0 <= i < matches.len() && matches[i] == m as u64;
            assert(matches[i] == m);
        }
        assert(reaches(doc, query, matches, ed.cursor_byte as int, m, p));
    }
}

proof fn lemma_found_backward(ed: Editor, base: Seq<u8>, query: Seq<u8>, limit: usize, p: int)
    requires
        searchable(ed, base, query),
        ed.cursor_byte > 0,
        limit >= 1,
    ensures
        ({
            let doc = ed.content(base);
            let matches = found_in(ed, base, query, Direction::Backward, limit);
            let at = ed.cursor_byte as int;
            &&& forall|i: int|
                0 <= i < matches.len() ==> #[trigger] matches[i] < at && search::occurs(
                    doc,
                    query,
                    matches[i] as int,
                )
            &&& forall|i: int, j: int| 0 <= i < j < matches.len() ==> matches[i] > matches[j]
            &&& stands_at(ed, base, query, p) && p < at && (matches.len() < limit || p
                >= matches.last()) ==> exists|q: int| #[trigger]
                reaches(doc, query, matches, 0, q, p)
        }),
{
    let blocks = ed.blocks(base);
    let doc = ed.content(base);
    let r = search_laws::run(ed.search_begun(query, Direction::Backward, limit), blocks);
    let matches = r.matches;
    search_laws::law_backward_search(ed, base, query, limit);
    edit_laws::lemma_content_length(ed, base);
    if stands_at(ed, base, query, p) && p < ed.cursor_byte && (matches.len() < limit || p
        >= matches.last()) {
        lemma_stands(ed, base, query, p);
        let k = choose|k: int| #[trigger]
            search_laws::in_pair(blocks, k, p, query.len() as int);
        let m = choose|m: int| search_laws::reported(r, doc, m, p);
        assert(search_laws::reported(r, doc, m, p));
        let i = choose|i: int| 0 <= i < matches.len() && matches[i] == m as u64;
        assert(matches[i] == m);
        assert(reaches(doc, query, matches, 0, m, p));
    }
}

/// `n` goes to the next place in the document of what was searched for: what stands
/// at the cursor then are these bytes, and there is no place of them between where
/// it was and where it is, but for what one at or before the old place reaches
/// over. Where there is none further on, the cursor stays.
pub proof fn law_searching_on_finds_next(
    s: SessionModel,
    ed: Editor,
    base: Seq<u8>,
    query: Seq<u8>,
    limit: usize,
    t: SessionModel,
    after: Editor,
    ops: Seq<ViewOp>,
    p: int,
)
    requires
        searchable(ed, base, query),
        limit >= 2,
        session::search_step(
            s,
            ed,
            SearchPurpose::Step,
            found_in(ed, base, query, Direction::Forward, limit),
            t,
            after,
            ops,
        ),
    ensures
        after.cursor_byte >= ed.cursor_byte,
        after.cursor_byte > ed.cursor_byte ==> {
            let doc = ed.content(base);
            &&& after.cursor_byte + query.len() <= doc.len()
            &&& doc.subrange(after.cursor_byte as int, after.cursor_byte + query.len()) == query
        },
        stands_at(ed, base, query, p) && ed.cursor_byte < p && (after.cursor_byte == ed.cursor_byte
            || p < after.cursor_byte) ==> overlapped(ed, base, query, p, ed.cursor_byte as int),
{
    let doc = ed.content(base);
    let at = ed.cursor_byte as int;
    let matches = found_in(ed, base, query, Direction::Forward, limit);
    lemma_found_forward(ed, base, query, limit, p);
    if matches.len() > 1 {
        assert(matches[0] < matches[1]);
    }
    if stands_at(ed, base, query, p) && at < p && (after.cursor_byte == at || p
        < after.cursor_byte) {
        if matches.len() > 2 {
            assert(matches[1] < matches[matches.len() - 1]);
        }
        let q = choose|q: int| #[trigger] reaches(doc, query, matches, at, q, p);
        if q >= at {
            let i = choose|i: int| 0 <= i < matches.len() && #[trigger] matches[i] == q;
            if i > 1 {
                assert(matches[1] < matches[i]);
            }
        }
        assert(search::occurs(doc, query, q));
    }
}

/// `N` goes to the last place before the cursor of what was searched for: what
/// stands at the cursor then are these bytes, and there is no place of them between
/// where it is and where it was, but for what the found one or one before it
/// reaches over. Where there is none before, the cursor stays.
pub proof fn law_searching_back_finds_last(
    s: SessionModel,
    ed: Editor,
    base: Seq<u8>,
    query: Seq<u8>,
    limit: usize,
    t: SessionModel,
    after: Editor,
    ops: Seq<ViewOp>,
    p: int,
)
    requires
        searchable(ed, base, query),
        ed.cursor_byte > 0,
        limit >= 1,
        session::search_step(
            s,
            ed,
            SearchPurpose::Step,
            found_in(ed, base, query, Direction::Backward, limit),
            t,
            after,
            ops,
        ),
    ensures
        after.cursor_byte <= ed.cursor_byte,
        after.cursor_byte < ed.cursor_byte ==> {
            let doc = ed.content(base);
            &&& after.cursor_byte + query.len() <= doc.len()
            &&& doc.subrange(after.cursor_byte as int, after.cursor_byte + query.len()) == query
        },
        stands_at(ed, base, query, p) && p < ed.cursor_byte ==> after.cursor_byte < ed.cursor_byte,
        stands_at(ed, base, query, p) && after.cursor_byte < p < ed.cursor_byte ==> overlapped(
            ed,
            base,
            query,
            p,
            after.cursor_byte as int,
        ),
{
    let doc = ed.content(base);
    let at = ed.cursor_byte as int;
    let matches = found_in(ed, base, query, Direction::Backward, limit);
    lemma_found_backward(ed, base, query, limit, p);
    if matches.len() > 1 {
        assert(matches[0] > matches[matches.len() - 1]);
    }
    if stands_at(ed, base, query, p) && p < at && (after.cursor_byte == at || after.cursor_byte
        < p) {
        let q = choose|q: int| #[trigger] reaches(doc, query, matches, 0, q, p);
        assert(search::occurs(doc, query, q));
        let i = choose|i: int| 0 <= i < matches.len() && #[trigger] matches[i] == q;
        if i > 0 {
            assert(matches[0] > matches[i]);
        }
    }
}

/// A search that is typed goes to the first place from the cursor on: what stands at
/// the cursor then are the bytes that were searched for, and there is no place of
/// them between where it was and where it is, but for what one before reaches over.
pub proof fn law_query_finds_first(
    s: SessionModel,
    ed: Editor,
    base: Seq<u8>,
    query: Seq<u8>,
    limit: usize,
    t: SessionModel,
    after: Editor,
    ops: Seq<ViewOp>,
    p: int,
)
    requires
        searchable(ed, base, query),
        limit >= 1,
        session::search_step(
            s,
            ed,
            SearchPurpose::Query,
            found_in(ed, base, query, Direction::Forward, limit),
            t,
            after,
            ops,
        ),
    ensures
        after.cursor_byte >= ed.cursor_byte,
        ops.len() > 0 ==> {
            let doc = ed.content(base);
            &&& after.cursor_byte + query.len() <= doc.len()
            &&& doc.subrange(after.cursor_byte as int, after.cursor_byte + query.len()) == query
        },
        stands_at(ed, base, query, p) && ed.cursor_byte <= p && (ops.len() == 0 || p
            < after.cursor_byte) ==> overlapped(ed, base, query, p, ed.cursor_byte - 1),
{
    let doc = ed.content(base);
    let at = ed.cursor_byte as int;
    let matches = found_in(ed, base, query, Direction::Forward, limit);
    lemma_found_forward(ed, base, query, limit, p);
    if matches.len() > 1 {
        assert(matches[0] < matches[matches.len() - 1]);
    }
    if stands_at(ed, base, query, p) && at <= p && (ops.len() == 0 || p < after.cursor_byte) {
        let q = choose|q: int| #[trigger] reaches(doc, query, matches, at, q, p);
        assert(search::occurs(doc, query, q));
        if q >= at {
            let i = choose|i: int| 0 <= i < matches.len() && #[trigger] matches[i] == q;
            if i > 0 {
                assert(matches[0] < matches[i]);
            }
        }
    }
}

/// A session begins with keys as commands, nothing typed and nothing said.
pub proof fn law_session_begins()
    ensures
        ({
            let status = crate::tui::status_bar::StatusModel::initial();
            &&& status.mode_name == "NORMAL"@
            &&& status.message is None
            &&& !status.message_is_error
            &&& status.command_buffer.len() == 0
            &&& !status.in_command
        }),
{
}

/// A key that has no meaning where keys are commands changes nothing and asks for
/// nothing. Only the keys that are the wish to quit can end the session.
pub proof fn law_other_keys_do_nothing(
    s: SessionModel,
    ed: Editor,
    key: KeyEvent,
    rows: usize,
    o: Outcome,
)
    requires
        commanding(s),
        session::key_step(s, ed, key, rows, o),
    ensures
        match key.code {
            KeyCode::Char(c) => {
                &&& c != ':' && c != '/' && c != 'i' && c != 'a' && c != 'o' && c != 'u'
                &&& c != 'n' && c != 'N' && c != 'x' && c != 'g' && c != 'G'
                &&& c != 'h' && c != 'j' && c != 'k' && c != 'l' && c != 'f' && c != 'b'
                &&& !(key.control && (c == 'c' || c == 'q' || c == 'd' || c == 'r' || c == 'R'))
            },
            KeyCode::Enter | KeyCode::Backspace | KeyCode::Other => true,
            _ => false,
        } ==> {
            &&& o.session == s
            &&& only_cursor(ed, o)
            &&& o.cursor == ed.cursor_byte
            &&& o.asked == Asked::View(Seq::empty())
        },
        o.session.should_quit && !s.should_quit ==> key.code == KeyCode::Esc || key.control && (
        key.code == KeyCode::Char('c') || key.code == KeyCode::Char('q')),
        o.session.last_prefetch == s.last_prefetch,
{
}

} // verus!
