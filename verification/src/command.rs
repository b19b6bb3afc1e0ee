//! Commands and keys.

use crate::config::OpenMode;
use crate::editor::Editor;
use crate::text;
use crate::tui::status_bar::{StatusModel, StatusState};
use crate::tui::viewport::ViewPort;
use vstd::prelude::*;

verus! {

/// What keys mean at the time.
#[derive(Copy, Clone, Debug, PartialEq, Eq, Structural)]
pub enum InputMode {
    Normal,
    Insert,
    Command,
    Search,
}

/// What a command asks for.
#[derive(Debug)]
pub enum CommandResult {
    Nothing,
    Quit,
    ForceQuit,
    Save,
    SaveAs(String),
    SaveAndQuit,
    GotoByte(u64),
    SwitchMode(OpenMode),
    SetEncoding(String),
    Search(Vec<u8>),
    SearchNext,
    SearchPrev,
    Info,
    Help,
    /// Whether the document may no longer be changed.
    SetReadOnly(bool),
    Unknown(String),
}

/// The byte that is to be gone to: a decimal number, or a hexadecimal one
/// behind `0x`; the first byte where it is neither.
pub open spec fn goto_target(s: Seq<char>) -> u64 {
    let n = if text::begins(s, "0x"@) || text::begins(s, "0X"@) {
        text::parsed(s.skip(2), 16)
    } else {
        text::parsed(s, 10)
    };
    match n {
        Some(byte) => byte,
        None => 0,
    }
}

/// `cmd` is what the command `s`, without blanks around it, asks for.
pub open spec fn is_command(s: Seq<char>, cmd: CommandResult) -> bool {
    if s == "w"@ {
        cmd is Save
    } else if s == "q"@ {
        cmd is Quit
    } else if s == "q!"@ {
        cmd is ForceQuit
    } else if s == "wq"@ || s == "x"@ {
        cmd is SaveAndQuit
    } else if s == "h"@ || s == "help"@ {
        cmd is Help
    } else if s == "info"@ {
        cmd is Info
    } else if s == "ro"@ {
        cmd == CommandResult::SetReadOnly(true)
    } else if s == "rw"@ || s == "e"@ {
        cmd == CommandResult::SetReadOnly(false)
    } else if text::begins(s, "w "@) {
        cmd matches CommandResult::SaveAs(path) && path@ == text::trimmed(s.skip(2))
    } else if text::begins(s, "goto "@) {
        cmd == CommandResult::GotoByte(goto_target(text::trimmed(s.skip(5))))
    } else if text::begins(s, "mode "@) {
        let mode = text::trimmed(s.skip(5));
        if mode == "text"@ {
            cmd == CommandResult::SwitchMode(OpenMode::Text)
        } else if mode == "hex"@ || mode == "binary"@ {
            cmd == CommandResult::SwitchMode(OpenMode::Binary)
        } else {
            cmd matches CommandResult::Unknown(what) && what@ == "unknown mode: "@ + mode
        }
    } else if text::begins(s, "enc "@) {
        cmd matches CommandResult::SetEncoding(name) && name@ == text::trimmed(s.skip(4))
    } else {
        cmd matches CommandResult::Unknown(what) && what@ == s
    }
}

/// The byte to go to that the characters of `v` say.
fn target_of(v: &Vec<char>) -> (byte: u64)
    ensures
        byte == goto_target(v@),
{
    let lower = text::chars_of("0x");
    let upper = text::chars_of("0X");
    proof {
        reveal_strlit("0x");
        reveal_strlit("0X");
    }
    let n = if text::starts_with(v, &lower) || text::starts_with(v, &upper) {
        text::parse_from(v, 2, 16)
    } else {
        assert(v@.skip(0) =~= v@);
        text::parse_from(v, 0, 10)
    };
    match n {
        Some(byte) => byte,
        None => 0,
    }
}

/// Whether `v` starts with `p`.
fn leads(v: &Vec<char>, p: &str) -> (b: bool)
    ensures
        b == text::begins(v@, p@),
{
    let prefix = text::chars_of(p);
    text::starts_with(v, &prefix)
}

/// What the command `input` asks for.
pub fn parse_command(input: &str) -> (cmd: CommandResult)
    ensures
        is_command(text::trimmed(input@), cmd),
{
    let all = text::chars_of(input);
    assert(all@.skip(0) =~= all@);
    let v = text::trim_from(&all, 0);
    let word = text::text_from(&v, 0);
    assert(v@.skip(0) =~= v@);
    let s = word.as_str();
    proof {
        reveal_strlit("w ");
        reveal_strlit("goto ");
        reveal_strlit("mode ");
        reveal_strlit("enc ");
    }
    if text::same_str(s, "w") {
        CommandResult::Save
    } else if text::same_str(s, "q") {
        CommandResult::Quit
    } else if text::same_str(s, "q!") {
        CommandResult::ForceQuit
    } else if text::same_str(s, "wq") || text::same_str(s, "x") {
        CommandResult::SaveAndQuit
    } else if text::same_str(s, "h") || text::same_str(s, "help") {
        CommandResult::Help
    } else if text::same_str(s, "info") {
        CommandResult::Info
    } else if text::same_str(s, "ro") {
        CommandResult::SetReadOnly(true)
    } else if text::same_str(s, "rw") || text::same_str(s, "e") {
        CommandResult::SetReadOnly(false)
    } else if leads(&v, "w ") {
        let rest = text::trim_from(&v, 2);
        assert(rest@.skip(0) =~= rest@);
        CommandResult::SaveAs(text::text_from(&rest, 0))
    } else if leads(&v, "goto ") {
        let rest = text::trim_from(&v, 5);
        CommandResult::GotoByte(target_of(&rest))
    } else if leads(&v, "mode ") {
        let rest = text::trim_from(&v, 5);
        assert(rest@.skip(0) =~= rest@);
        let mode = text::text_from(&rest, 0);
        if text::same_str(mode.as_str(), "text") {
            CommandResult::SwitchMode(OpenMode::Text)
        } else if text::same_str(mode.as_str(), "hex") || text::same_str(mode.as_str(), "binary") {
            CommandResult::SwitchMode(OpenMode::Binary)
        } else {
            let mut what = "unknown mode: ".to_string();
            what.append(mode.as_str());
            CommandResult::Unknown(what)
        }
    } else if leads(&v, "enc ") {
        let rest = text::trim_from(&v, 4);
        assert(rest@.skip(0) =~= rest@);
        CommandResult::SetEncoding(text::text_from(&rest, 0))
    } else {
        CommandResult::Unknown(word)
    }
}

/// A key.
#[derive(Copy, Clone, Debug, PartialEq, Eq, Structural)]
pub enum KeyCode {
    Char(char),
    Enter,
    Backspace,
    Esc,
    Left,
    Right,
    Up,
    Down,
    PageUp,
    PageDown,
    /// One that means nothing here.
    Other,
}

/// A key that was pressed, and whether the control key was held.
#[derive(Copy, Clone, Debug, PartialEq, Eq, Structural)]
pub struct KeyEvent {
    pub code: KeyCode,
    pub control: bool,
}

/// What a key asks for where keys are commands.
#[derive(Copy, Clone, Debug, PartialEq, Eq, Structural)]
pub enum NormalAction {
    Nothing,
    Quit,
    EnterInsert,
    EnterSearch,
    /// Delete the byte under the cursor.
    Delete,
    Undo,
    Redo,
    SearchNext,
    SearchPrev,
}

/// A move that may have to wait for blocks of the document.
#[derive(Copy, Clone, Debug, PartialEq, Eq, Structural)]
pub enum ViewOp {
    /// Move the cursor by lines.
    MoveLines(i64),
    ScrollLines(i64),
    ScrollPage(i64),
    /// Scroll to the start of the line that the screen starts in.
    AlignTop,
    /// Scroll to the cursor.
    ShowCursor,
}

/// What a key does where keys are commands.
pub struct NormalPlan {
    pub action: NormalAction,
    /// The byte that the cursor goes to at once.
    pub goto: Option<u64>,
    /// The moves that follow.
    pub ops: Seq<ViewOp>,
    /// The name of the mode to show from now on.
    pub mode_name: Option<Seq<char>>,
    /// Whether a command or a search is typed from now on.
    pub typing: bool,
}

impl NormalPlan {
    pub open spec fn only(action: NormalAction) -> NormalPlan {
        NormalPlan { action, goto: None, ops: Seq::empty(), mode_name: None, typing: false }
    }

    pub open spec fn going(byte: u64) -> NormalPlan {
        NormalPlan {
            goto: Some(byte),
            ops: seq![ViewOp::ShowCursor],
            ..NormalPlan::only(NormalAction::Nothing)
        }
    }

    pub open spec fn moving(ops: Seq<ViewOp>) -> NormalPlan {
        NormalPlan { ops, ..NormalPlan::only(NormalAction::Nothing) }
    }

    pub open spec fn inserting(self) -> NormalPlan {
        NormalPlan { action: NormalAction::EnterInsert, mode_name: Some("INSERT"@), ..self }
    }
}

/// `n + 1`, or the largest number.
pub open spec fn behind(n: u64) -> u64 {
    if n < u64::MAX {
        (n + 1) as u64
    } else {
        n
    }
}

/// `n - 1`, or zero.
pub open spec fn before(n: u64) -> u64 {
    if n > 0 {
        (n - 1) as u64
    } else {
        0
    }
}

/// The cursor and the screen move by `lines` lines.
pub open spec fn half_page(lines: int) -> Seq<ViewOp> {
    seq![ViewOp::MoveLines(lines as i64), ViewOp::ScrollLines(lines as i64), ViewOp::ShowCursor]
}

/// The cursor moves by `lines` lines and the screen by `pages` pages.
pub open spec fn whole_page(lines: int, pages: int) -> Seq<ViewOp> {
    seq![ViewOp::MoveLines(lines as i64), ViewOp::ScrollPage(pages as i64), ViewOp::ShowCursor]
}

/// The cursor moves by `lines` lines.
pub open spec fn one_line(lines: int) -> Seq<ViewOp> {
    seq![ViewOp::MoveLines(lines as i64), ViewOp::ShowCursor]
}

/// What a letter does where keys are commands, with the cursor at `cursor` and
/// `rows` rows on the screen.
pub open spec fn letter_plan(
    c: char,
    control: bool,
    cursor: u64,
    file_size: u64,
    rows: usize,
) -> NormalPlan {
    let half = rows as int / 2;
    let page = rows as int;
    if c == 'q' && control {
        NormalPlan::only(NormalAction::Quit)
    } else if c == ':' {
        NormalPlan { typing: true, ..NormalPlan::only(NormalAction::Nothing) }
    } else if c == '/' {
        NormalPlan {
            typing: true,
            mode_name: Some("SEARCH"@),
            ..NormalPlan::only(NormalAction::EnterSearch)
        }
    } else if c == 'i' {
        NormalPlan::only(NormalAction::Nothing).inserting()
    } else if c == 'a' {
        NormalPlan::going(behind(cursor)).inserting()
    } else if c == 'o' {
        NormalPlan::going(file_size).inserting()
    } else if c == 'u' && control {
        NormalPlan::moving(half_page(-half))
    } else if c == 'u' {
        NormalPlan::only(NormalAction::Undo)
    } else if (c == 'R' || c == 'r') && control {
        NormalPlan::only(NormalAction::Redo)
    } else if c == 'n' {
        NormalPlan::only(NormalAction::SearchNext)
    } else if c == 'N' {
        NormalPlan::only(NormalAction::SearchPrev)
    } else if c == 'x' {
        NormalPlan::only(NormalAction::Delete)
    } else if c == 'G' {
        NormalPlan::going(file_size)
    } else if c == 'g' {
        NormalPlan::going(0)
    } else if c == 'h' {
        NormalPlan::going(before(cursor))
    } else if c == 'l' {
        NormalPlan::going(behind(cursor))
    } else if c == 'k' {
        NormalPlan::moving(one_line(-1))
    } else if c == 'j' {
        NormalPlan::moving(one_line(1))
    } else if c == 'f' {
        NormalPlan::moving(whole_page(page, 1))
    } else if c == 'b' {
        NormalPlan::moving(whole_page(-page, -1))
    } else if c == 'd' && control {
        NormalPlan::moving(half_page(half))
    } else {
        NormalPlan::only(NormalAction::Nothing)
    }
}

/// What a key does where keys are commands, with the cursor at `cursor` and
/// `rows` rows on the screen.
pub open spec fn normal_plan(key: KeyEvent, cursor: u64, file_size: u64, rows: usize) -> NormalPlan {
    let page = rows as int;
    match key.code {
        KeyCode::Char(c) => letter_plan(c, key.control, cursor, file_size, rows),
        KeyCode::Left => NormalPlan::going(before(cursor)),
        KeyCode::Right => NormalPlan::going(behind(cursor)),
        KeyCode::Up => NormalPlan::moving(one_line(-1)),
        KeyCode::Down => NormalPlan::moving(one_line(1)),
        KeyCode::PageDown => NormalPlan::moving(whole_page(page, 1)),
        KeyCode::PageUp => NormalPlan::moving(whole_page(-page, -1)),
        KeyCode::Esc => NormalPlan::only(NormalAction::Quit),
        _ => NormalPlan::only(NormalAction::Nothing),
    }
}

impl NormalPlan {
    /// The editor once the cursor went where the plan says.
    pub open spec fn placed(self, ed: Editor) -> Editor {
        match self.goto {
            Some(byte) => Editor {
                cursor_byte: if byte < ed.file_size {
                    byte
                } else {
                    ed.file_size
                },
                ..ed
            },
            None => ed,
        }
    }

    /// What is shown, where `status` was shown before.
    pub open spec fn shown(self, status: StatusModel) -> StatusModel {
        StatusModel {
            mode_name: match self.mode_name {
                Some(name) => name,
                None => status.mode_name,
            },
            command_buffer: if self.typing {
                Seq::empty()
            } else {
                status.command_buffer
            },
            in_command: self.typing || status.in_command,
            ..status
        }
    }
}

/// The moves that follow on a key end with a scroll to the cursor.
pub proof fn law_moves_end_at_cursor(key: KeyEvent, cursor: u64, file_size: u64, rows: usize)
    ensures
        ({
            let ops = normal_plan(key, cursor, file_size, rows).ops;
            ops.len() > 0 ==> ops.last() == ViewOp::ShowCursor
        }),
{
}

/// The moves by lines: of the cursor, then of the screen.
fn moves(lines: i64, scroll: Option<ViewOp>) -> (ops: Vec<ViewOp>)
    ensures
        ops@ == (match scroll {
            Some(op) => seq![ViewOp::MoveLines(lines), op, ViewOp::ShowCursor],
            None => seq![ViewOp::MoveLines(lines), ViewOp::ShowCursor],
        }),
{
    let mut ops: Vec<ViewOp> = Vec::new();
    ops.push(ViewOp::MoveLines(lines));
    if let Some(op) = scroll {
        ops.push(op);
    }
    ops.push(ViewOp::ShowCursor);
    ops
}

/// Puts the cursor at `byte`, to be scrolled to.
fn going(editor: &mut Editor, byte: u64) -> (ops: Vec<ViewOp>)
    ensures
        *final(editor) == NormalPlan::going(byte).placed(*old(editor)),
        ops@ == seq![ViewOp::ShowCursor],
{
    editor.goto_byte(byte);
    let mut ops: Vec<ViewOp> = Vec::new();
    ops.push(ViewOp::ShowCursor);
    ops
}

/// Does what a letter does at once where keys are commands.
#[verifier::rlimit(30)]
fn letter_key(
    c: char,
    control: bool,
    editor: &mut Editor,
    viewport: &ViewPort,
    status: &mut StatusState,
) -> (r: (NormalAction, Vec<ViewOp>))
    requires
        viewport.visible_rows <= i64::MAX,
    ensures
        ({
            let plan = letter_plan(
                c,
                control,
                old(editor).cursor_byte,
                old(editor).file_size,
                viewport.visible_rows,
            );
            &&& r.0 == plan.action
            &&& r.1@ == plan.ops
            &&& *final(editor) == plan.placed(*old(editor))
            &&& final(status)@ == plan.shown(old(status)@)
        }),
{
    let half: i64 = (viewport.visible_rows / 2) as i64;
    let page: i64 = viewport.visible_rows as i64;
    let none: Vec<ViewOp> = Vec::new();
    if c == 'q' && control {
        (NormalAction::Quit, none)
    } else if c == ':' {
        status.in_command = true;
        status.command_buffer = String::new();
        (NormalAction::Nothing, none)
    } else if c == '/' {
        status.mode_name = "SEARCH";
        status.in_command = true;
        status.command_buffer = String::new();
        (NormalAction::EnterSearch, none)
    } else if c == 'i' {
        status.mode_name = "INSERT";
        (NormalAction::EnterInsert, none)
    } else if c == 'a' {
        let byte: u64 = editor.cursor_byte.saturating_add(1);
        let ops = going(editor, byte);
        status.mode_name = "INSERT";
        (NormalAction::EnterInsert, ops)
    } else if c == 'o' {
        let byte: u64 = editor.file_size;
        let ops = going(editor, byte);
        status.mode_name = "INSERT";
        (NormalAction::EnterInsert, ops)
    } else if c == 'u' && control {
        (NormalAction::Nothing, moves(-half, Some(ViewOp::ScrollLines(-half))))
    } else if c == 'u' {
        (NormalAction::Undo, none)
    } else if (c == 'R' || c == 'r') && control {
        (NormalAction::Redo, none)
    } else if c == 'n' {
        (NormalAction::SearchNext, none)
    } else if c == 'N' {
        (NormalAction::SearchPrev, none)
    } else if c == 'x' {
        (NormalAction::Delete, none)
    } else if c == 'G' {
        let byte: u64 = editor.file_size;
        (NormalAction::Nothing, going(editor, byte))
    } else if c == 'g' {
        (NormalAction::Nothing, going(editor, 0))
    } else if c == 'h' {
        let byte: u64 = editor.cursor_byte.saturating_sub(1);
        (NormalAction::Nothing, going(editor, byte))
    } else if c == 'l' {
        let byte: u64 = editor.cursor_byte.saturating_add(1);
        (NormalAction::Nothing, going(editor, byte))
    } else if c == 'k' {
        (NormalAction::Nothing, moves(-1, None))
    } else if c == 'j' {
        (NormalAction::Nothing, moves(1, None))
    } else if c == 'f' {
        (NormalAction::Nothing, moves(page, Some(ViewOp::ScrollPage(1))))
    } else if c == 'b' {
        (NormalAction::Nothing, moves(-page, Some(ViewOp::ScrollPage(-1))))
    } else if c == 'd' && control {
        (NormalAction::Nothing, moves(half, Some(ViewOp::ScrollLines(half))))
    } else {
        (NormalAction::Nothing, none)
    }
}

/// Does what a key does at once where keys are commands, and says what is to be
/// done beyond and which moves follow.
pub fn handle_normal_key(
    key: KeyEvent,
    editor: &mut Editor,
    viewport: &ViewPort,
    status: &mut StatusState,
) -> (r: (NormalAction, Vec<ViewOp>))
    requires
        viewport.visible_rows <= i64::MAX,
    ensures
        ({
            let plan = normal_plan(
                key,
                old(editor).cursor_byte,
                old(editor).file_size,
                viewport.visible_rows,
            );
            &&& r.0 == plan.action
            &&& r.1@ == plan.ops
            &&& *final(editor) == plan.placed(*old(editor))
            &&& final(status)@ == plan.shown(old(status)@)
        }),
{
    let page: i64 = viewport.visible_rows as i64;
    let none: Vec<ViewOp> = Vec::new();
    match key.code {
        KeyCode::Char(c) => letter_key(c, key.control, editor, viewport, status),
        KeyCode::Left => {
            let byte: u64 = editor.cursor_byte.saturating_sub(1);
            (NormalAction::Nothing, going(editor, byte))
        },
        KeyCode::Right => {
            let byte: u64 = editor.cursor_byte.saturating_add(1);
            (NormalAction::Nothing, going(editor, byte))
        },
        KeyCode::Up => (NormalAction::Nothing, moves(-1, None)),
        KeyCode::Down => (NormalAction::Nothing, moves(1, None)),
        KeyCode::PageDown => (NormalAction::Nothing, moves(page, Some(ViewOp::ScrollPage(1)))),
        KeyCode::PageUp => (NormalAction::Nothing, moves(-page, Some(ViewOp::ScrollPage(-1)))),
        KeyCode::Esc => (NormalAction::Quit, none),
        _ => (NormalAction::Nothing, none),
    }
}

/// What a key asks for where text is typed.
#[derive(Copy, Clone, Debug, PartialEq, Eq, Structural)]
pub enum InsertAction {
    InsertByte(u8),
    Backspace,
    ExitToNormal,
}

/// What a key asks for where text is typed. Of a character its low eight bits
/// are inserted.
pub open spec fn insert_action(key: KeyEvent) -> Option<InsertAction> {
    match key.code {
        KeyCode::Esc => Some(InsertAction::ExitToNormal),
        KeyCode::Char(c) => Some(InsertAction::InsertByte((c as int % 256) as u8)),
        KeyCode::Enter => Some(InsertAction::InsertByte(10)),
        KeyCode::Backspace => Some(InsertAction::Backspace),
        _ => None,
    }
}

/// What a key asks for where text is typed.
pub fn handle_insert_key(key: KeyEvent) -> (action: Option<InsertAction>)
    ensures
        action == insert_action(key),
{
    match key.code {
        KeyCode::Esc => Some(InsertAction::ExitToNormal),
        KeyCode::Char(c) => Some(InsertAction::InsertByte((c as u32 % 256) as u8)),
        KeyCode::Enter => Some(InsertAction::InsertByte(10)),
        KeyCode::Backspace => Some(InsertAction::Backspace),
        _ => None,
    }
}

} // verus!
