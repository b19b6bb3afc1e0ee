//! What keys, commands and their outcomes do to a session.
//!
//! The session decides; what has to touch the file or wait for blocks it asks
//! its caller for, who reports back how that went.

use crate::block::BlockId;
use crate::cache::{CacheModel, CacheStats};
use crate::command;
use crate::command::{
    CommandResult, InputMode, InsertAction, KeyCode, KeyEvent, NormalAction, ViewOp,
};
use crate::config::OpenMode;
use crate::cursor;
use crate::delta_table;
use crate::editor::Editor;
use crate::encoding::TextEncoding;
use crate::error::{EditError, IoError};
use crate::line_index;
use crate::line_index::{Fetch, NewlineTable};
use crate::message::{Direction, SearchResult};
use crate::text;
use crate::tui::status_bar::{StatusModel, StatusState};
use crate::tui::viewport;
use crate::tui::viewport::ViewPort;
use vstd::prelude::*;

verus! {

broadcast use crate::cache::group_asked;

/// What a save is for.
#[derive(Copy, Clone, Debug, PartialEq, Eq, Structural)]
pub enum SavePurpose {
    /// To fold the log into the file and quit.
    Merge,
    /// To save and go on.
    Keep,
    /// To save and quit.
    Quit,
}

/// What a search is for.
#[derive(Copy, Clone, Debug, PartialEq, Eq, Structural)]
pub enum SearchPurpose {
    /// To go to the next match, or to the one before.
    Step,
    /// To look for what was typed.
    Query,
    /// To carry out a command.
    Command,
}

/// Where an edit comes from.
#[derive(Copy, Clone, Debug, PartialEq, Eq, Structural)]
pub enum EditPurpose {
    /// From a key that is a command.
    Command,
    /// From typing.
    Typing,
}

/// An edit at the cursor.
#[derive(Copy, Clone, Debug, PartialEq, Eq, Structural)]
pub enum Edit {
    Insert(u8),
    /// Delete one byte.
    DeleteForward,
    Undo,
    Redo,
}

/// What the caller is asked for.
#[derive(Debug)]
pub enum Request {
    Nothing,
    View(Vec<ViewOp>),
    Edit(Edit, EditPurpose),
    Search { query: Vec<u8>, direction: Direction, limit: usize, purpose: SearchPurpose },
    /// Append the edits to the log.
    SaveIncremental,
    SaveAs { path: String, purpose: SavePurpose },
    /// Open the log where it is not open yet.
    EnsureWal,
}

/// What the caller is asked for, with lists and texts as sequences.
pub enum Asked {
    Nothing,
    View(Seq<ViewOp>),
    Edit(Edit, EditPurpose),
    Search { query: Seq<u8>, direction: Direction, limit: usize, purpose: SearchPurpose },
    SaveIncremental,
    SaveAs { path: Seq<char>, purpose: SavePurpose },
    EnsureWal,
}

impl View for Request {
    type V = Asked;

    open spec fn view(&self) -> Asked {
        match self {
            Request::Nothing => Asked::Nothing,
            Request::View(ops) => Asked::View(ops@),
            Request::Edit(edit, purpose) => Asked::Edit(*edit, *purpose),
            Request::Search { query, direction, limit, purpose } => Asked::Search {
                query: query@,
                direction: *direction,
                limit: *limit,
                purpose: *purpose,
            },
            Request::SaveIncremental => Asked::SaveIncremental,
            Request::SaveAs { path, purpose } => Asked::SaveAs { path: path@, purpose: *purpose },
            Request::EnsureWal => Asked::EnsureWal,
        }
    }
}

/// A session.
pub struct Session {
    pub input_mode: InputMode,
    pub status: StatusState,
    pub should_quit: bool,
    /// The blocks that were last asked to be loaded ahead.
    pub last_prefetch: Option<(u64, u64)>,
}

/// A session, with texts as sequences.
pub struct SessionModel {
    pub input_mode: InputMode,
    pub status: StatusModel,
    pub should_quit: bool,
    pub last_prefetch: Option<(u64, u64)>,
}

impl View for Session {
    type V = SessionModel;

    open spec fn view(&self) -> SessionModel {
        SessionModel {
            input_mode: self.input_mode,
            status: self.status@,
            should_quit: self.should_quit,
            last_prefetch: self.last_prefetch,
        }
    }
}

impl SessionModel {
    /// With a message.
    pub open spec fn says(self, text: Seq<char>, is_error: bool) -> SessionModel {
        SessionModel {
            status: StatusModel {
                message: Some(text),
                message_is_error: is_error,
                ..self.status
            },
            ..self
        }
    }

    /// With another text for the message.
    pub open spec fn tells(self, text: Seq<char>) -> SessionModel {
        self.says(text, self.status.message_is_error)
    }

    pub open spec fn in_mode(self, input_mode: InputMode) -> SessionModel {
        SessionModel { input_mode, ..self }
    }

    pub open spec fn named(self, mode_name: Seq<char>) -> SessionModel {
        SessionModel { status: StatusModel { mode_name, ..self.status }, ..self }
    }

    pub open spec fn typed(self, command_buffer: Seq<char>) -> SessionModel {
        SessionModel { status: StatusModel { command_buffer, ..self.status }, ..self }
    }

    /// Back from typing a command or a search.
    pub open spec fn done_typing(self) -> SessionModel {
        SessionModel {
            input_mode: InputMode::Normal,
            status: StatusModel {
                mode_name: "NORMAL"@,
                command_buffer: Seq::empty(),
                in_command: false,
                ..self.status
            },
            ..self
        }
    }

    pub open spec fn quitting(self) -> SessionModel {
        SessionModel { should_quit: true, ..self }
    }

    /// A command that was begun is typed from now on.
    pub open spec fn settled(self) -> SessionModel {
        if self.input_mode == InputMode::Normal && self.status.in_command {
            self.in_mode(InputMode::Command)
        } else {
            self
        }
    }
}

/// A step of a session: what it is then, what of the editor changes and what
/// the caller is asked for.
pub struct Outcome {
    pub session: SessionModel,
    pub cursor: u64,
    pub mode: OpenMode,
    pub read_only: bool,
    pub encoding: Seq<char>,
    pub asked: Asked,
}

impl Outcome {
    pub open spec fn plain(session: SessionModel, ed: Editor, asked: Asked) -> Outcome {
        Outcome {
            session,
            cursor: ed.cursor_byte,
            mode: ed.mode,
            read_only: ed.read_only,
            encoding: ed.text_encoding.spec_name(),
            asked,
        }
    }

    /// `b` is what becomes of the editor `a`.
    pub open spec fn leads(self, a: Editor, b: Editor) -> bool {
        &&& b == (Editor {
            cursor_byte: self.cursor,
            mode: self.mode,
            read_only: self.read_only,
            text_encoding: b.text_encoding,
            ..a
        })
        &&& b.text_encoding.spec_name() == self.encoding
    }

    pub open spec fn settled(self) -> Outcome {
        Outcome { session: self.session.settled(), ..self }
    }
}

/// A block of the cache has edits that are stored nowhere.
pub open spec fn has_unsaved(c: CacheModel) -> bool {
    exists|id: u64| #[trigger] c.has(id) && c.blocks[id].unsaved()
}

/// The log holds edits that are not in the file.
pub open spec fn log_pending(c: CacheModel) -> bool {
    c.wal is Some && !c.wal->0@.dom().is_empty()
}

/// What comes of the wish to quit.
pub open spec fn quit_outcome(s: SessionModel, ed: Editor) -> Outcome {
    if has_unsaved(ed.cache@) {
        Outcome::plain(
            s.says("有未保存修改，使用 :q! 强制退出 或 :w 保存"@, true),
            ed,
            Asked::Nothing,
        )
    } else if log_pending(ed.cache@) {
        Outcome::plain(
            s,
            ed,
            Asked::SaveAs { path: ed.file_path@, purpose: SavePurpose::Merge },
        )
    } else {
        Outcome::plain(s.quitting(), ed, Asked::Nothing)
    }
}

/// `byte`, or the end of the document where that is before.
pub open spec fn reachable(byte: u64, ed: Editor) -> u64 {
    if byte < ed.file_size {
        byte
    } else {
        ed.file_size
    }
}

/// The encoding that a command names.
pub open spec fn named_encoding(name: Seq<char>) -> Option<Seq<char>> {
    if name == "utf-8"@ || name == "utf8"@ {
        Some("UTF-8"@)
    } else if name == "gbk"@ {
        Some("GBK"@)
    } else if name == "gb18030"@ {
        Some("gb18030"@)
    } else {
        None
    }
}

/// What is said of the document and the cache.
pub open spec fn info_text(ed: Editor) -> Seq<char> {
    let c = ed.cache@;
    "文件: "@ + text::dec(ed.file_size as nat) + " | 块: "@ + text::dec(ed.block_count as nat)
        + " | 缓存: "@ + text::dec(c.blocks.len()) + "/"@ + text::dec(c.capacity as nat)
        + " | 命中: "@ + text::dec(c.hits as nat) + " | 遗漏: "@ + text::dec(c.misses as nat)
        + " | 淘汰: "@ + text::dec(c.evictions as nat)
}

/// What is said of the commands.
pub open spec fn help_text() -> Seq<char> {
    ":w 保存 | :q 退出 | :q! 强制退出 | :wq 保存退出 | :goto <offset> | :mode text/hex | :enc <name> | i 插入 | u 撤销 | Ctrl+R 重做 | f 下页 | b 上页 | Esc 退出"@
}

/// What comes of a command.
pub open spec fn command_outcome(s: SessionModel, ed: Editor, cmd: CommandResult) -> Outcome {
    let show = Asked::View(seq![ViewOp::ShowCursor]);
    match cmd {
        CommandResult::Nothing => Outcome::plain(s, ed, Asked::Nothing),
        CommandResult::Quit => quit_outcome(s, ed),
        CommandResult::ForceQuit => Outcome::plain(s.quitting(), ed, Asked::Nothing),
        CommandResult::Save => if ed.read_only {
            Outcome::plain(
                s.says("只读模式，:rw 切换为可写后再保存"@, true),
                ed,
                Asked::Nothing,
            )
        } else {
            Outcome::plain(s, ed, Asked::SaveIncremental)
        },
        CommandResult::SaveAs(path) => if ed.read_only {
            Outcome::plain(
                s.says("只读模式，:rw 切换为可写后再保存"@, true),
                ed,
                Asked::Nothing,
            )
        } else {
            Outcome::plain(s, ed, Asked::SaveAs { path: path@, purpose: SavePurpose::Keep })
        },
        CommandResult::SaveAndQuit => if ed.read_only {
            Outcome::plain(
                s.says("只读模式，:rw 切换为可写后再保存退出"@, true),
                ed,
                Asked::Nothing,
            )
        } else {
            Outcome::plain(
                s,
                ed,
                Asked::SaveAs { path: ed.file_path@, purpose: SavePurpose::Quit },
            )
        },
        CommandResult::SetReadOnly(ro) => if ro {
            Outcome {
                read_only: true,
                ..Outcome::plain(s.says("已切换为只读"@, false), ed, Asked::Nothing)
            }
        } else {
            Outcome { read_only: false, ..Outcome::plain(s, ed, Asked::EnsureWal) }
        },
        CommandResult::GotoByte(byte) => Outcome {
            cursor: reachable(byte, ed),
            ..Outcome::plain(s, ed, show)
        },
        CommandResult::SwitchMode(mode) => Outcome {
            mode,
            ..Outcome::plain(s, ed, Asked::View(shown_anew()))
        },
        CommandResult::SetEncoding(name) => match named_encoding(name@) {
            Some(encoding) => Outcome {
                encoding,
                ..Outcome::plain(s.says("编码切换为: "@ + name@, false), ed, Asked::Nothing)
            },
            None => Outcome::plain(s.says("未知编码: "@ + name@, true), ed, Asked::Nothing),
        },
        CommandResult::Search(query) => Outcome::plain(
            s,
            ed,
            Asked::Search {
                query: query@,
                direction: Direction::Forward,
                limit: 100,
                purpose: SearchPurpose::Command,
            },
        ),
        CommandResult::SearchNext => Outcome::plain(s, ed, Asked::Nothing),
        CommandResult::SearchPrev => Outcome::plain(s, ed, Asked::Nothing),
        CommandResult::Info => Outcome::plain(s.says(info_text(ed), false), ed, Asked::Nothing),
        CommandResult::Help => Outcome::plain(s.says(help_text(), false), ed, Asked::Nothing),
        CommandResult::Unknown(what) => Outcome::plain(
            s.says("未知命令: "@ + what@, true),
            ed,
            Asked::Nothing,
        ),
    }
}

impl Session {
    /// Shows a message.
    fn say(&mut self, text: String, is_error: bool)
        ensures
            final(self)@ == old(self)@.says(text@, is_error),
    {
        self.status.message = Some(text);
        self.status.message_is_error = is_error;
    }

    /// Wishes to quit: not while edits are unsaved; with edits in the log these
    /// are folded into the file first.
    pub fn try_quit(&mut self, ed: &Editor) -> (request: Request)
        requires
            ed.wf(),
        ensures
            ({
                let o = quit_outcome(old(self)@, *ed);
                &&& final(self)@ == o.session
                &&& request@ == o.asked
            }),
    {
        let dirty = ed.cache.dirty_ids();
        if dirty.len() > 0 {
            assert(dirty@.contains(dirty@[0]));
            self.say("有未保存修改，使用 :q! 强制退出 或 :w 保存".to_string(), true);
            return Request::Nothing;
        }
        proof {
            assert forall|id: u64| !(#[trigger] ed.cache@.has(id) && ed.cache@.blocks[id].unsaved()) by {
                assert(!dirty@.contains(id));
            }
        }
        if ed.wal_pending() {
            return Request::SaveAs { path: ed.file_path.clone(), purpose: SavePurpose::Merge };
        }
        self.should_quit = true;
        Request::Nothing
    }

    /// Does what a command asks for.
    pub fn handle_command_result(&mut self, cmd: CommandResult, ed: &mut Editor) -> (request:
        Request)
        requires
            old(ed).wf(),
        ensures
            ({
                let o = command_outcome(old(self)@, *old(ed), cmd);
                &&& final(self)@ == o.session
                &&& o.leads(*old(ed), *final(ed))
                &&& request@ == o.asked
            }),
    {
        match cmd {
            CommandResult::Nothing => Request::Nothing,
            CommandResult::Quit => self.try_quit(ed),
            CommandResult::ForceQuit => {
                self.should_quit = true;
                Request::Nothing
            },
            CommandResult::Save => {
                if ed.read_only {
                    self.say("只读模式，:rw 切换为可写后再保存".to_string(), true);
                    Request::Nothing
                } else {
                    Request::SaveIncremental
                }
            },
            CommandResult::SaveAs(path) => {
                if ed.read_only {
                    self.say("只读模式，:rw 切换为可写后再保存".to_string(), true);
                    Request::Nothing
                } else {
                    Request::SaveAs { path, purpose: SavePurpose::Keep }
                }
            },
            CommandResult::SaveAndQuit => {
                if ed.read_only {
                    self.say("只读模式，:rw 切换为可写后再保存退出".to_string(), true);
                    Request::Nothing
                } else {
                    Request::SaveAs { path: ed.file_path.clone(), purpose: SavePurpose::Quit }
                }
            },
            CommandResult::SetReadOnly(ro) => {
                ed.read_only = ro;
                if ro {
                    self.say("已切换为只读".to_string(), false);
                    Request::Nothing
                } else {
                    Request::EnsureWal
                }
            },
            CommandResult::GotoByte(byte) => {
                ed.goto_byte(byte);
                show_cursor()
            },
            CommandResult::SwitchMode(mode) => {
                ed.mode = mode;
                let ops = show_anew();
                Request::View(ops)
            },
            CommandResult::SetEncoding(name) => {
                let n = name.as_str();
                let encoding = if text::same_str(n, "utf-8") || text::same_str(n, "utf8") {
                    Some(TextEncoding::utf_8())
                } else if text::same_str(n, "gbk") {
                    Some(TextEncoding::gbk())
                } else if text::same_str(n, "gb18030") {
                    Some(TextEncoding::gb18030())
                } else {
                    None
                };
                match encoding {
                    Some(e) => {
                        ed.text_encoding = e;
                        let mut m = "编码切换为: ".to_string();
                        m.append(n);
                        self.say(m, false);
                    },
                    None => {
                        let mut m = "未知编码: ".to_string();
                        m.append(n);
                        self.say(m, true);
                    },
                }
                Request::Nothing
            },
            CommandResult::Search(query) => Request::Search {
                query,
                direction: Direction::Forward,
                limit: 100,
                purpose: SearchPurpose::Command,
            },
            CommandResult::SearchNext => Request::Nothing,
            CommandResult::SearchPrev => Request::Nothing,
            CommandResult::Info => {
                let stats = ed.cache.stats();
                let m = info(ed, &stats);
                self.say(m, false);
                Request::Nothing
            },
            CommandResult::Help => {
                self.say(
                    ":w 保存 | :q 退出 | :q! 强制退出 | :wq 保存退出 | :goto <offset> | :mode text/hex | :enc <name> | i 插入 | u 撤销 | Ctrl+R 重做 | f 下页 | b 上页 | Esc 退出".to_string(),
                    false,
                );
                Request::Nothing
            },
            CommandResult::Unknown(what) => {
                let mut m = "未知命令: ".to_string();
                m.append(what.as_str());
                self.say(m, true);
                Request::Nothing
            },
        }
    }
}

/// The moves that show a document that has changed, or is shown in another way.
pub open spec fn shown_anew() -> Seq<ViewOp> {
    seq![ViewOp::AlignTop, ViewOp::ShowCursor]
}

fn show_anew() -> (ops: Vec<ViewOp>)
    ensures
        ops@ == shown_anew(),
{
    let mut ops: Vec<ViewOp> = Vec::new();
    ops.push(ViewOp::AlignTop);
    ops.push(ViewOp::ShowCursor);
    assert(ops@ =~= shown_anew());
    ops
}

/// Asks for a scroll to the cursor.
fn show_cursor() -> (request: Request)
    ensures
        request@ == Asked::View(seq![ViewOp::ShowCursor]),
{
    let mut ops: Vec<ViewOp> = Vec::new();
    ops.push(ViewOp::ShowCursor);
    assert(ops@ =~= seq![ViewOp::ShowCursor]);
    Request::View(ops)
}

fn info(ed: &Editor, stats: &CacheStats) -> (s: String)
    requires
        stats.hits == ed.cache@.hits,
        stats.misses == ed.cache@.misses,
        stats.evictions == ed.cache@.evictions,
        stats.size_blocks == ed.cache@.blocks.len(),
        stats.capacity_blocks == ed.cache@.capacity,
    ensures
        s@ == info_text(*ed),
{
    let mut s = "文件: ".to_string();
    text::push_dec(&mut s, ed.file_size);
    s.append(" | 块: ");
    text::push_dec(&mut s, ed.block_count);
    s.append(" | 缓存: ");
    text::push_dec(&mut s, stats.size_blocks as u64);
    s.append("/");
    text::push_dec(&mut s, stats.capacity_blocks as u64);
    s.append(" | 命中: ");
    text::push_dec(&mut s, stats.hits);
    s.append(" | 遗漏: ");
    text::push_dec(&mut s, stats.misses);
    s.append(" | 淘汰: ");
    text::push_dec(&mut s, stats.evictions);
    s
}

/// What comes of a key where keys are commands.
pub open spec fn normal_outcome(
    s: SessionModel,
    ed: Editor,
    key: KeyEvent,
    rows: usize,
) -> Outcome {
    let plan = command::normal_plan(key, ed.cursor_byte, ed.file_size, rows);
    let shown = SessionModel { status: plan.shown(s.status), ..s };
    let placed = plan.placed(ed);
    let moves = Asked::View(plan.ops);
    let locked = shown.says("只读模式，:rw 切换为可写"@, true);
    match plan.action {
        NormalAction::Nothing => Outcome::plain(shown, placed, moves),
        NormalAction::Quit => quit_outcome(shown, placed),
        NormalAction::EnterInsert => if ed.read_only {
            Outcome::plain(locked.named("NORMAL"@), placed, moves)
        } else {
            Outcome::plain(shown.in_mode(InputMode::Insert), placed, moves)
        },
        NormalAction::EnterSearch => Outcome::plain(
            shown.in_mode(InputMode::Search),
            placed,
            moves,
        ),
        NormalAction::Delete => edit_outcome(shown, placed, locked, Edit::DeleteForward),
        NormalAction::Undo => edit_outcome(shown, placed, locked, Edit::Undo),
        NormalAction::Redo => edit_outcome(shown, placed, locked, Edit::Redo),
        NormalAction::SearchNext => again_outcome(shown, placed, Direction::Forward),
        NormalAction::SearchPrev => again_outcome(shown, placed, Direction::Backward),
    }
}

/// What comes of a key that edits, where `locked` is the session if the
/// document may not be changed.
pub open spec fn edit_outcome(
    s: SessionModel,
    ed: Editor,
    locked: SessionModel,
    edit: Edit,
) -> Outcome {
    if ed.read_only {
        Outcome::plain(locked, ed, Asked::Nothing)
    } else {
        Outcome::plain(s, ed, Asked::Edit(edit, EditPurpose::Command))
    }
}

/// How many matches a key that searches again asks for: forward, the first may
/// be the one that the cursor is at.
pub open spec fn step_limit(direction: Direction) -> usize {
    if direction == Direction::Forward {
        2
    } else {
        1
    }
}

/// What comes of a key that searches again.
pub open spec fn again_outcome(s: SessionModel, ed: Editor, direction: Direction) -> Outcome {
    match ed.last_search {
        Some(query) => Outcome::plain(
            s,
            ed,
            Asked::Search {
                query: query@,
                direction,
                limit: step_limit(direction),
                purpose: SearchPurpose::Step,
            },
        ),
        None => Outcome::plain(
            s.says("暂无搜索历史，按 / 开始搜索"@, true),
            ed,
            Asked::Nothing,
        ),
    }
}

/// What comes of a key where text is typed.
pub open spec fn insert_outcome(s: SessionModel, ed: Editor, key: KeyEvent) -> Outcome {
    let show = Asked::View(seq![ViewOp::ShowCursor]);
    let locked = Outcome::plain(
        s.says("只读模式，Esc 退出后 :rw 切换为可写"@, true),
        ed,
        show,
    );
    match command::insert_action(key) {
        None => Outcome::plain(s, ed, Asked::Nothing),
        Some(InsertAction::ExitToNormal) => Outcome::plain(
            s.in_mode(InputMode::Normal).named("NORMAL"@),
            ed,
            show,
        ),
        Some(InsertAction::InsertByte(byte)) => if ed.read_only {
            locked
        } else {
            Outcome::plain(s, ed, Asked::Edit(Edit::Insert(byte), EditPurpose::Typing))
        },
        Some(InsertAction::Backspace) => if ed.read_only {
            locked
        } else if ed.cursor_byte > 0 {
            Outcome {
                cursor: reachable((ed.cursor_byte - 1) as u64, ed),
                ..Outcome::plain(
                    s,
                    ed,
                    Asked::Edit(Edit::DeleteForward, EditPurpose::Typing),
                )
            }
        } else {
            Outcome::plain(s, ed, show)
        },
    }
}

/// `o` is what comes of a key where a command or a search is typed.
pub open spec fn typing_step(s: SessionModel, ed: Editor, key: KeyEvent, o: Outcome) -> bool {
    let buffer = s.status.command_buffer;
    match key.code {
        KeyCode::Enter => if s.input_mode == InputMode::Command {
            exists|cmd: CommandResult| #[trigger]
                command::is_command(text::trimmed(buffer), cmd) && o == command_outcome(
                    s.done_typing(),
                    ed,
                    cmd,
                )
        } else {
            let query = vstd::utf8::encode_utf8(buffer);
            o == Outcome::plain(
                s.done_typing(),
                ed,
                if query.len() > 0 {
                    Asked::Search {
                        query,
                        direction: Direction::Forward,
                        limit: 100,
                        purpose: SearchPurpose::Query,
                    }
                } else {
                    Asked::Nothing
                },
            )
        },
        KeyCode::Char(c) => o == Outcome::plain(s.typed(buffer.push(c)), ed, Asked::Nothing),
        KeyCode::Backspace => o == Outcome::plain(
            s.typed(
                if buffer.len() > 0 {
                    buffer.drop_last()
                } else {
                    buffer
                },
            ),
            ed,
            Asked::Nothing,
        ),
        KeyCode::Esc => o == Outcome::plain(s.done_typing(), ed, Asked::Nothing),
        _ => o == Outcome::plain(s, ed, Asked::Nothing),
    }
}

/// `o` is what comes of a key, before a command that it begins is typed.
pub open spec fn mode_step(
    s: SessionModel,
    ed: Editor,
    key: KeyEvent,
    rows: usize,
    o: Outcome,
) -> bool {
    match s.input_mode {
        InputMode::Normal => o == normal_outcome(s, ed, key, rows),
        InputMode::Insert => o == insert_outcome(s, ed, key),
        InputMode::Command => typing_step(s, ed, key, o),
        InputMode::Search => typing_step(s, ed, key, o),
    }
}

/// `o` is what comes of a key, with `rows` rows on the screen.
pub open spec fn key_step(
    s: SessionModel,
    ed: Editor,
    key: KeyEvent,
    rows: usize,
    o: Outcome,
) -> bool {
    if key.control && key.code == KeyCode::Char('c') {
        o == quit_outcome(s, ed)
    } else {
        exists|p: Outcome| #[trigger] mode_step(s, ed, key, rows, p) && o == p.settled()
    }
}

impl Session {
    fn normal_key(&mut self, key: KeyEvent, ed: &mut Editor, viewport: &ViewPort) -> (request:
        Request)
        requires
            old(ed).wf(),
            viewport.visible_rows <= i64::MAX,
        ensures
            ({
                let o = normal_outcome(old(self)@, *old(ed), key, viewport.visible_rows);
                &&& final(self)@ == o.session
                &&& o.leads(*old(ed), *final(ed))
                &&& request@ == o.asked
            }),
    {
        let (action, ops) = command::handle_normal_key(key, ed, viewport, &mut self.status);
        match action {
            NormalAction::Nothing => Request::View(ops),
            NormalAction::Quit => self.try_quit(ed),
            NormalAction::EnterInsert => {
                if ed.read_only {
                    self.status.mode_name = "NORMAL";
                    self.say("只读模式，:rw 切换为可写".to_string(), true);
                } else {
                    self.input_mode = InputMode::Insert;
                }
                Request::View(ops)
            },
            NormalAction::EnterSearch => {
                self.input_mode = InputMode::Search;
                Request::View(ops)
            },
            NormalAction::Delete => self.edit_key(ed, Edit::DeleteForward),
            NormalAction::Undo => self.edit_key(ed, Edit::Undo),
            NormalAction::Redo => self.edit_key(ed, Edit::Redo),
            NormalAction::SearchNext => self.search_again(ed, Direction::Forward),
            NormalAction::SearchPrev => self.search_again(ed, Direction::Backward),
        }
    }

    fn edit_key(&mut self, ed: &Editor, edit: Edit) -> (request: Request)
        ensures
            ({
                let o = edit_outcome(
                    old(self)@,
                    *ed,
                    old(self)@.says("只读模式，:rw 切换为可写"@, true),
                    edit,
                );
                &&& final(self)@ == o.session
                &&& request@ == o.asked
            }),
    {
        if ed.read_only {
            self.say("只读模式，:rw 切换为可写".to_string(), true);
            Request::Nothing
        } else {
            Request::Edit(edit, EditPurpose::Command)
        }
    }

    fn search_again(&mut self, ed: &Editor, direction: Direction) -> (request: Request)
        ensures
            ({
                let o = again_outcome(old(self)@, *ed, direction);
                &&& final(self)@ == o.session
                &&& request@ == o.asked
            }),
    {
        match &ed.last_search {
            Some(query) => {
                let copy = query.clone();
                assert(copy@ =~= query@);
                let limit: usize = if direction == Direction::Forward {
                    2
                } else {
                    1
                };
                Request::Search { query: copy, direction, limit, purpose: SearchPurpose::Step }
            },
            None => {
                self.say("暂无搜索历史，按 / 开始搜索".to_string(), true);
                Request::Nothing
            },
        }
    }

    fn insert_key(&mut self, key: KeyEvent, ed: &mut Editor) -> (request: Request)
        ensures
            ({
                let o = insert_outcome(old(self)@, *old(ed), key);
                &&& final(self)@ == o.session
                &&& o.leads(*old(ed), *final(ed))
                &&& request@ == o.asked
            }),
    {
        match command::handle_insert_key(key) {
            None => Request::Nothing,
            Some(InsertAction::ExitToNormal) => {
                self.input_mode = InputMode::Normal;
                self.status.mode_name = "NORMAL";
                show_cursor()
            },
            Some(InsertAction::InsertByte(byte)) => {
                if ed.read_only {
                    self.say("只读模式，Esc 退出后 :rw 切换为可写".to_string(), true);
                    show_cursor()
                } else {
                    Request::Edit(Edit::Insert(byte), EditPurpose::Typing)
                }
            },
            Some(InsertAction::Backspace) => {
                if ed.read_only {
                    self.say("只读模式，Esc 退出后 :rw 切换为可写".to_string(), true);
                    show_cursor()
                } else if ed.cursor_byte > 0 {
                    let byte: u64 = ed.cursor_byte - 1;
                    ed.goto_byte(byte);
                    Request::Edit(Edit::DeleteForward, EditPurpose::Typing)
                } else {
                    show_cursor()
                }
            },
        }
    }

    /// Back from typing.
    fn finish_typing(&mut self)
        ensures
            final(self)@ == old(self)@.done_typing(),
    {
        self.status.command_buffer = String::new();
        self.status.in_command = false;
        self.status.mode_name = "NORMAL";
        self.input_mode = InputMode::Normal;
    }

    fn typing_key(&mut self, key: KeyEvent, ed: &mut Editor) -> (request: Request)
        requires
            old(ed).wf(),
            old(self)@.input_mode == InputMode::Command || old(self)@.input_mode
                == InputMode::Search,
        ensures
            ({
                let o = Outcome::plain(final(self)@, *final(ed), request@);
                &&& typing_step(old(self)@, *old(ed), key, o)
                &&& o.leads(*old(ed), *final(ed))
            }),
    {
        match key.code {
            KeyCode::Enter => {
                if self.input_mode == InputMode::Command {
                    let cmd = command::parse_command(self.status.command_buffer.as_str());
                    self.finish_typing();
                    assert(command::is_command(
                        text::trimmed(old(self)@.status.command_buffer),
                        cmd,
                    ));
                    self.handle_command_result(cmd, ed)
                } else {
                    let query = self.status.command_buffer.as_str().as_bytes_vec();
                    self.finish_typing();
                    if query.len() > 0 {
                        Request::Search {
                            query,
                            direction: Direction::Forward,
                            limit: 100,
                            purpose: SearchPurpose::Query,
                        }
                    } else {
                        Request::Nothing
                    }
                }
            },
            KeyCode::Char(c) => {
                self.status.command_buffer.push(c);
                Request::Nothing
            },
            KeyCode::Backspace => {
                self.status.command_buffer = text::without_last(
                    self.status.command_buffer.as_str(),
                );
                Request::Nothing
            },
            KeyCode::Esc => {
                self.finish_typing();
                Request::Nothing
            },
            _ => Request::Nothing,
        }
    }

    /// Does what a key does.
    pub fn on_key(&mut self, key: KeyEvent, ed: &mut Editor, viewport: &ViewPort) -> (request:
        Request)
        requires
            old(ed).wf(),
            viewport.visible_rows <= i64::MAX,
        ensures
            ({
                let o = Outcome::plain(final(self)@, *final(ed), request@);
                &&& key_step(old(self)@, *old(ed), key, viewport.visible_rows, o)
                &&& o.leads(*old(ed), *final(ed))
            }),
            final(ed).wf(),
    {
        if key.control && key.code == KeyCode::Char('c') {
            return self.try_quit(ed);
        }
        let request = match self.input_mode {
            InputMode::Normal => self.normal_key(key, ed, viewport),
            InputMode::Insert => self.insert_key(key, ed),
            InputMode::Command => self.typing_key(key, ed),
            InputMode::Search => self.typing_key(key, ed),
        };
        let ghost o = Outcome::plain(self@, *ed, request@);
        assert(mode_step(old(self)@, *old(ed), key, viewport.visible_rows, o));
        if self.input_mode == InputMode::Normal && self.status.in_command {
            self.input_mode = InputMode::Command;
        }
        assert(Outcome::plain(self@, *ed, request@) == o.settled());
        request
    }
}

/// What a failed or finished edit leads to: the message of the error, and the
/// moves that follow. After typing the screen always goes to the cursor, after
/// a command only where it succeeded.
pub open spec fn edited(
    s: SessionModel,
    purpose: EditPurpose,
    result: Result<(), EditError>,
) -> (SessionModel, Seq<ViewOp>) {
    let show = seq![ViewOp::ShowCursor];
    match result {
        Ok(_) => (s, shown_anew()),
        Err(e) => (
            s.says(e.message(), true),
            if purpose == EditPurpose::Typing {
                show
            } else {
                Seq::empty()
            },
        ),
    }
}

/// The match that a search goes to, from `cursor`: the first one, and where the
/// search is for the next match, the first one that is not at the cursor.
pub open spec fn aimed(purpose: SearchPurpose, matches: Seq<u64>, cursor: u64) -> Option<u64> {
    if matches.len() > 0 && (purpose != SearchPurpose::Step || matches[0] != cursor) {
        Some(matches[0])
    } else if matches.len() > 1 {
        Some(matches[1])
    } else {
        None
    }
}

/// Searching on goes to the first match behind the cursor, where there is one
/// among the matches from the cursor on.
pub proof fn law_step_reaches_next_match(matches: Seq<u64>, cursor: u64)
    requires
        forall|i: int| 0 <= i < matches.len() ==> cursor <= #[trigger] matches[i],
        forall|i: int, j: int| 0 <= i < j < matches.len() ==> matches[i] < matches[j],
    ensures
        match aimed(SearchPurpose::Step, matches, cursor) {
            Some(m) => {
                &&& matches.contains(m)
                &&& cursor < m
                &&& forall|k: u64| #[trigger] matches.contains(k) && cursor < k ==> m <= k
            },
            None => forall|k: u64| #[trigger] matches.contains(k) ==> k == cursor,
        },
{
}

/// What a search that found something leads to.
pub open spec fn found(s: SessionModel, purpose: SearchPurpose, count: nat) -> SessionModel {
    if purpose == SearchPurpose::Query {
        s.tells("找到 "@ + text::dec(count) + " 个匹配"@)
    } else {
        s
    }
}

/// What a search that found nothing, or failed, leads to.
pub open spec fn not_found(s: SessionModel, purpose: SearchPurpose) -> SessionModel {
    if purpose == SearchPurpose::Step {
        s.says("无匹配"@, true)
    } else {
        s.tells("无匹配"@)
    }
}

/// `t`, `after` and `ops` are the session, the editor and the moves that follow on a
/// search that found `matches`.
pub open spec fn search_step(
    s: SessionModel,
    before: Editor,
    purpose: SearchPurpose,
    matches: Seq<u64>,
    t: SessionModel,
    after: Editor,
    ops: Seq<ViewOp>,
) -> bool {
    match aimed(purpose, matches, before.cursor_byte) {
        Some(m) => {
            &&& t == found(s, purpose, matches.len())
            &&& after == (Editor { cursor_byte: reachable(m, before), ..before })
            &&& ops == seq![ViewOp::ShowCursor]
        },
        None => {
            &&& t == not_found(s, purpose)
            &&& after == before
            &&& ops == Seq::<ViewOp>::empty()
        },
    }
}

/// What a save leads to.
pub open spec fn saved(
    s: SessionModel,
    purpose: SavePurpose,
    result: Result<(), IoError>,
) -> SessionModel {
    match result {
        Ok(_) => if purpose == SavePurpose::Keep {
            s.says("已保存"@, false)
        } else {
            s.quitting()
        },
        Err(e) => if purpose == SavePurpose::Merge {
            s.says("合并 WAL 失败: "@ + e.message(), true)
        } else {
            s.says("保存失败: "@ + e.message(), true)
        },
    }
}

impl Session {
    /// Begins a session, with the document writable or not.
    pub fn open(ed: &mut Editor, writable: bool) -> (session: Self)
        requires
            old(ed).wf(),
        ensures
            final(ed).wf(),
            *final(ed) == (Editor { read_only: !writable, ..*old(ed) }),
            ({
                let s = SessionModel {
                    input_mode: InputMode::Normal,
                    status: StatusModel::initial(),
                    should_quit: false,
                    last_prefetch: None,
                };
                session@ == (if log_pending(old(ed).cache@) {
                    s.says(
                        "检测到未合并的 WAL 数据，已自动恢复。:w 保存 / :wq 合并退出"@,
                        true,
                    )
                } else if !writable {
                    s.says("只读模式（:rw 切换为可写）"@, false)
                } else {
                    s
                })
            }),
    {
        let mut session = Session {
            input_mode: InputMode::Normal,
            status: StatusState::default(),
            should_quit: false,
            last_prefetch: None,
        };
        ed.read_only = !writable;
        if ed.read_only {
            session.say("只读模式（:rw 切换为可写）".to_string(), false);
        }
        if ed.wal_pending() {
            session.say(
                "检测到未合并的 WAL 数据，已自动恢复。:w 保存 / :wq 合并退出".to_string(),
                true,
            );
        }
        session
    }

    /// An edit was made or failed.
    pub fn edit_done(&mut self, purpose: EditPurpose, result: Result<(), EditError>) -> (ops: Vec<
        ViewOp,
    >)
        ensures
            final(self)@ == edited(old(self)@, purpose, result).0,
            ops@ == edited(old(self)@, purpose, result).1,
    {
        let mut ops: Vec<ViewOp> = Vec::new();
        match result {
            Ok(_) => {
                ops = show_anew();
            },
            Err(e) => {
                self.say(e.to_string(), true);
                if purpose == EditPurpose::Typing {
                    ops.push(ViewOp::ShowCursor);
                }
            },
        }
        ops
    }

    /// A search is over, or failed and has no result.
    pub fn search_done(
        &mut self,
        ed: &mut Editor,
        purpose: SearchPurpose,
        result: Option<SearchResult>,
    ) -> (ops: Vec<ViewOp>)
        ensures
            search_step(
                old(self)@,
                *old(ed),
                purpose,
                match result {
                    Some(r) => r.matches@,
                    None => Seq::empty(),
                },
                final(self)@,
                *final(ed),
                ops@,
            ),
    {
        let mut ops: Vec<ViewOp> = Vec::new();
        if let Some(r) = result {
            let at: usize = if purpose == SearchPurpose::Step && r.matches.len() > 0
                && r.matches[0] == ed.cursor_byte {
                1
            } else {
                0
            };
            if at < r.matches.len() {
                ed.goto_byte(r.matches[at]);
                ops.push(ViewOp::ShowCursor);
                if purpose == SearchPurpose::Query {
                    let mut m = "找到 ".to_string();
                    text::push_dec(&mut m, r.matches.len() as u64);
                    m.append(" 个匹配");
                    self.status.message = Some(m);
                }
                assert(ops@ =~= seq![ViewOp::ShowCursor]);
                return ops;
            }
        }
        self.status.message = Some("无匹配".to_string());
        if purpose == SearchPurpose::Step {
            self.status.message_is_error = true;
        }
        ops
    }

    /// Shows that something failed.
    fn fail(&mut self, what: &str, e: &IoError)
        ensures
            final(self)@ == old(self)@.says(what@ + e.message(), true),
    {
        let mut m = what.to_string();
        m.append(e.to_string().as_str());
        self.say(m, true);
    }

    /// The document was saved, or not.
    pub fn save_done(&mut self, purpose: SavePurpose, result: Result<(), IoError>)
        ensures
            final(self)@ == saved(old(self)@, purpose, result),
    {
        match result {
            Ok(_) => {
                if purpose == SavePurpose::Keep {
                    self.say("已保存".to_string(), false);
                } else {
                    self.should_quit = true;
                }
            },
            Err(e) => {
                if purpose == SavePurpose::Merge {
                    self.fail("合并 WAL 失败: ", &e);
                } else {
                    self.fail("保存失败: ", &e);
                }
            },
        }
    }

    /// The edits were appended to the log, or not.
    pub fn saved_incremental(&mut self, result: Result<(), IoError>)
        ensures
            final(self)@ == (match result {
                Ok(_) => old(self)@.says("已保存（WAL）"@, false),
                Err(e) => old(self)@.says("保存失败: "@ + e.message(), true),
            }),
    {
        match result {
            Ok(_) => self.say("已保存（WAL）".to_string(), false),
            Err(e) => self.fail("保存失败: ", &e),
        }
    }

    /// The log was opened for the document to be changed. If it could not be,
    /// the document may not be changed after all.
    pub fn wal_opened(&mut self, ed: &mut Editor, result: Result<(), IoError>)
        ensures
            final(self)@ == (match result {
                Ok(_) => old(self)@.says("已切换为可写"@, false),
                Err(e) => old(self)@.says("切换可写失败: "@ + e.message(), true),
            }),
            *final(ed) == (Editor {
                read_only: result is Err || old(ed).read_only,
                ..*old(ed)
            }),
    {
        match result {
            Ok(_) => self.say("已切换为可写".to_string(), false),
            Err(e) => {
                self.fail("切换可写失败: ", &e);
                ed.read_only = true;
            },
        }
    }

    /// Something failed in the background.
    pub fn io_failed(&mut self, e: &IoError)
        ensures
            final(self)@ == old(self)@.says("IO错误: "@ + e.message(), true),
    {
        self.fail("IO错误: ", e);
    }

    /// A save got on; `percent` says how far.
    pub fn save_progress(&mut self, percent: &str)
        ensures
            final(self)@ == old(self)@.says("保存中... "@ + percent@ + "%"@, false),
    {
        let mut m = "保存中... ".to_string();
        m.append(percent);
        m.append("%");
        self.say(m, false);
    }
}

/// The smaller one.
pub open spec fn least(a: int, b: int) -> int {
    if a < b {
        a
    } else {
        b
    }
}

/// Where the bytes that the screen shows start and end, with rows of `width`
/// bytes.
pub open spec fn screen_bytes(top: int, rows: int, width: int, file_size: int) -> (int, int) {
    let start = least(top, file_size - 1);
    (start, least(start + rows * width, file_size))
}

/// The blocks of `block_size` bytes that the screen shows, with `behind` blocks
/// before and `ahead` blocks behind them: from the first up to, and without,
/// the second.
pub open spec fn screen_blocks(
    bytes: (int, int),
    file_size: int,
    block_size: int,
    block_count: int,
    behind: int,
    ahead: int,
) -> (int, int) {
    let from = bytes.0 - behind * block_size;
    let first = (if from > 0 {
        from
    } else {
        0
    }) / block_size;
    let to = least(bytes.1 + ahead * block_size, file_size);
    let last = least((to + block_size - 1) / block_size, block_count);
    (first, if last > first {
        last
    } else {
        first + 1
    })
}

/// The blocks that should be in the cache for what `vp` shows.
pub open spec fn wanted_blocks(ed: Editor, vp: ViewPort) -> (int, int) {
    screen_blocks(
        screen_bytes(
            vp.top_byte as int,
            vp.visible_rows as int,
            vp.row_width(ed),
            ed.file_size as int,
        ),
        ed.file_size as int,
        ed.config.block_size as int,
        ed.block_count as int,
        ed.config.prefetch_behind as int,
        ed.config.prefetch_ahead as int,
    )
}

impl Session {
    /// The blocks to be loaded ahead for what is on the screen, where they are
    /// not those of the last time.
    pub fn prefetch_range(&mut self, ed: &Editor, viewport: &ViewPort) -> (range: Option<(u64, u64)>)
        requires
            ed.config.block_size > 0,
        ensures
            ed.file_size == 0 || ed.block_count == 0 ==> range is None && final(self)@ == old(self)@,
            ed.file_size > 0 && ed.block_count > 0 ==> ({
                let want = wanted_blocks(*ed, *viewport);
                let pair = (want.0 as u64, want.1 as u64);
                &&& 0 <= want.0 < want.1 <= u64::MAX
                &&& final(self)@ == (SessionModel { last_prefetch: Some(pair), ..old(self)@ })
                &&& range == (if old(self).last_prefetch == Some(pair) {
                    None
                } else {
                    Some(pair)
                })
            }),
    {
        if ed.file_size == 0 || ed.block_count == 0 {
            return None;
        }
        let size: u128 = ed.file_size as u128;
        let block_size: u128 = ed.config.block_size as u128;
        let width: u64 = viewport.bytes_per_line(ed);
        let top: u64 = if viewport.top_byte < ed.file_size {
            viewport.top_byte
        } else {
            ed.file_size - 1
        };
        let rows: u128 = viewport.visible_rows as u128;
        assert(rows * width <= 0xffff_ffff_ffff_ffff * 255) by (nonlinear_arith)
            requires
                0 <= rows <= 0xffff_ffff_ffff_ffff,
                0 <= width <= 255,
        ;
        let shown: u128 = top as u128 + rows * width as u128;
        let bottom: u128 = if shown < size { shown } else { size };
        let behind_blocks: u128 = ed.config.prefetch_behind as u128;
        let ahead_blocks: u128 = ed.config.prefetch_ahead as u128;
        assert(behind_blocks * block_size <= 0xffff_ffff_ffff_ffff * 0xffff_ffff_ffff_ffff)
            by (nonlinear_arith)
            requires
                0 <= behind_blocks <= 0xffff_ffff_ffff_ffff,
                0 <= block_size <= 0xffff_ffff_ffff_ffff,
        ;
        assert(ahead_blocks * block_size <= 0xffff_ffff_ffff_ffff * 0xffff_ffff_ffff_ffff)
            by (nonlinear_arith)
            requires
                0 <= ahead_blocks <= 0xffff_ffff_ffff_ffff,
                0 <= block_size <= 0xffff_ffff_ffff_ffff,
        ;
        let behind: u128 = behind_blocks * block_size;
        let ahead: u128 = ahead_blocks * block_size;
        let from: u128 = if top as u128 > behind { top as u128 - behind } else { 0 };
        let end: u128 = bottom + ahead;
        let to: u128 = if end < size { end } else { size };
        let first: u128 = from / block_size;
        let blocks: u128 = (to + block_size - 1) / block_size;
        let count: u128 = ed.block_count as u128;
        let last: u128 = if blocks < count { blocks } else { count };
        proof {
            assert(first <= from) by (nonlinear_arith)
                requires
                    first == from / block_size,
                    block_size > 0,
                    from >= 0,
            ;
        }
        let last: u128 = if last > first { last } else { first + 1 };
        let pair: (u64, u64) = (first as u64, last as u64);
        let known = match self.last_prefetch {
            Some((a, b)) => a == pair.0 && b == pair.1,
            None => false,
        };
        self.last_prefetch = Some(pair);
        if known {
            None
        } else {
            Some(pair)
        }
    }
}

/// What is on the screen is within the blocks that are loaded ahead for it, as
/// far as the document has these blocks.
pub proof fn law_prefetch_covers_screen(
    bytes: (int, int),
    file_size: int,
    block_size: int,
    block_count: int,
    behind: int,
    ahead: int,
    p: int,
)
    requires
        0 <= bytes.0 <= p < bytes.1 <= file_size,
        block_size > 0,
        behind >= 0,
        ahead >= 0,
        p / block_size < block_count,
    ensures
        ({
            let want = screen_blocks(bytes, file_size, block_size, block_count, behind, ahead);
            want.0 <= p / block_size < want.1
        }),
{
    let want = screen_blocks(bytes, file_size, block_size, block_count, behind, ahead);
    assert(behind * block_size >= 0 && ahead * block_size >= 0) by (nonlinear_arith)
        requires
            behind >= 0,
            ahead >= 0,
            block_size > 0,
    ;
    let from = bytes.0 - behind * block_size;
    let low = if from > 0 {
        from
    } else {
        0
    };
    let to = least(bytes.1 + ahead * block_size, file_size);
    vstd::arithmetic::div_mod::lemma_div_is_ordered(low, p, block_size);
    vstd::arithmetic::div_mod::lemma_div_is_ordered(p + block_size, to + block_size - 1, block_size);
    vstd::arithmetic::div_mod::lemma_div_plus_one(p, block_size);
}

/// Where cursor and screen are after a move, where bytes are shown in rows of
/// `width`.
pub open spec fn hex_move(
    op: ViewOp,
    cursor: int,
    top: int,
    file_size: int,
    width: int,
    rows: int,
) -> (int, int) {
    match op {
        ViewOp::MoveLines(n) => (cursor::row_target(cursor, file_size, n as int, width), top),
        ViewOp::ScrollLines(n) => (cursor, cursor::row_target(top, file_size, n as int, width)),
        ViewOp::ScrollPage(n) => (cursor, cursor::row_target(top, file_size, n * rows, width)),
        ViewOp::AlignTop => (cursor, top),
        ViewOp::ShowCursor => (cursor, viewport::hex_top(top, cursor, width, rows)),
    }
}

/// How far the document has to be known for a move over the lines of a text.
pub open spec fn text_reach(
    op: ViewOp,
    cursor: int,
    top: int,
    nls: Seq<int>,
    file_size: int,
    rows: int,
) -> int {
    match op {
        ViewOp::MoveLines(n) => cursor::move_reach(nls, file_size, cursor, n as int),
        ViewOp::ScrollLines(n) => viewport::scroll_reach(nls, file_size, top, n as int),
        ViewOp::ScrollPage(n) => viewport::scroll_reach(nls, file_size, top, n * rows),
        ViewOp::AlignTop => viewport::within(top, file_size),
        ViewOp::ShowCursor => viewport::screen_reach(file_size, top, cursor),
    }
}

/// Where cursor and screen are after a move, where a text with the newlines
/// `nls` is shown.
pub open spec fn text_move(
    op: ViewOp,
    cursor: int,
    top: int,
    nls: Seq<int>,
    file_size: int,
    rows: int,
) -> (int, int) {
    match op {
        ViewOp::MoveLines(n) => (cursor::cursor_target(nls, file_size, cursor, n as int), top),
        ViewOp::ScrollLines(n) => (cursor, viewport::scrolled_top(nls, file_size, top, n as int)),
        ViewOp::ScrollPage(n) => (cursor, viewport::scrolled_top(nls, file_size, top, n * rows)),
        ViewOp::AlignTop => (cursor, viewport::aligned_top(nls, file_size, top)),
        ViewOp::ShowCursor => (cursor, viewport::text_top(nls, file_size, top, cursor, rows)),
    }
}

/// A screen of text starts where a line does.
pub open spec fn at_line_start(nls: Seq<int>, file_size: int, top: int) -> bool {
    exists|line: int|
        0 <= line <= nls.len() && top == #[trigger] line_index::start_of(nls, file_size, line)
}

/// A screen of text always starts where a line does: every move keeps it so,
/// and the moves that show a document anew make it so wherever it started.
pub proof fn law_text_screen_starts_at_line(
    op: ViewOp,
    cursor: int,
    top: int,
    nls: Seq<int>,
    file_size: int,
    rows: int,
)
    requires
        line_index::in_order(nls, file_size),
        0 <= top,
        0 <= cursor,
        0 <= file_size,
        rows > 0,
    ensures
        at_line_start(nls, file_size, top) ==> at_line_start(
            nls,
            file_size,
            text_move(op, cursor, top, nls, file_size, rows).1,
        ),
        ({
            let (c, t) = text_move(shown_anew()[0], cursor, top, nls, file_size, rows);
            at_line_start(
                nls,
                file_size,
                text_move(shown_anew()[1], c, t, nls, file_size, rows).1,
            )
        }),
{
    let line = viewport::line_of(nls, file_size, cursor);
    let first = viewport::line_of(nls, file_size, top);
    line_index::lemma_line_of(nls, file_size, viewport::within(cursor, file_size));
    line_index::lemma_line_of(nls, file_size, viewport::within(top, file_size));
    assert(at_line_start(nls, file_size, line_index::start_of(nls, file_size, first)));
    assert(at_line_start(nls, file_size, line_index::start_of(nls, file_size, line)));
    let middle = viewport::centred(line, rows);
    assert(at_line_start(nls, file_size, line_index::start_of(nls, file_size, middle)));
    match op {
        ViewOp::ScrollLines(n) => {
            let goal = cursor::line_target(nls, viewport::within(top, file_size), n as int);
            assert(at_line_start(nls, file_size, line_index::start_of(nls, file_size, goal)));
        },
        ViewOp::ScrollPage(n) => {
            let goal = cursor::line_target(nls, viewport::within(top, file_size), n * rows);
            assert(at_line_start(nls, file_size, line_index::start_of(nls, file_size, goal)));
        },
        _ => {},
    }
}

impl ViewPort {
    /// Makes a move. While a block is missing nothing moves.
    pub fn perform(&mut self, ed: &mut Editor, op: ViewOp, unreadable: &Vec<BlockId>) -> (r: Fetch<
        (),
    >)
        requires
            old(self).line_index.wf(),
            old(ed).wf(),
            old(self).row_width(*old(ed)) > 0,
            op matches ViewOp::ScrollPage(n) ==> i64::MIN <= n * old(self).visible_rows <= i64::MAX,
            old(self).visible_rows <= i64::MAX,
        ensures
            final(self).line_index.wf(),
            final(ed).wf(),
            *final(self) == (ViewPort {
                top_byte: final(self).top_byte,
                line_index: final(self).line_index,
                ..*old(self)
            }),
            *final(ed) == (Editor {
                cursor_byte: final(ed).cursor_byte,
                cache: final(ed).cache,
                ..*old(ed)
            }),
            old(ed).cache@.only_asked(final(ed).cache@),
            old(ed).mode != OpenMode::Binary ==> line_index::learned(
                old(self).line_index,
                *old(ed),
                final(self).line_index,
            ),
            r matches Fetch::Missing(id) ==> {
                &&& line_index::asks(
                    old(self).line_index,
                    *old(ed),
                    unreadable@,
                    id,
                    final(self).line_index,
                )
                &&& final(self).top_byte == old(self).top_byte
                &&& final(ed).cursor_byte == old(ed).cursor_byte
                &&& old(ed).mode != OpenMode::Binary
            },
            old(ed).mode == OpenMode::Binary ==> {
                &&& (final(ed).cursor_byte as int, final(self).top_byte as int) == hex_move(
                    op,
                    old(ed).cursor_byte as int,
                    old(self).top_byte as int,
                    old(ed).file_size as int,
                    old(self).row_width(*old(ed)),
                    old(self).visible_rows as int,
                )
                &&& final(self).line_index == old(self).line_index
                &&& final(ed).cache == old(ed).cache
            },
            old(ed).mode != OpenMode::Binary ==> forall|table: NewlineTable| #[trigger]
                line_index::reads(old(self).line_index, *old(ed), unreadable@, table) ==> {
                    &&& line_index::reads(final(self).line_index, *final(ed), unreadable@, table)
                    &&& r is Ready ==> (
                        final(ed).cursor_byte as int,
                        final(self).top_byte as int,
                    ) == text_move(
                        op,
                        old(ed).cursor_byte as int,
                        old(self).top_byte as int,
                        line_index::newlines(table, old(ed).delta_table.sizes()),
                        old(ed).file_size as int,
                        old(self).visible_rows as int,
                    )
                    &&& r matches Fetch::Missing(id) ==> delta_table::prefix(
                        old(ed).delta_table.sizes(),
                        id as int,
                    ) < text_reach(
                        op,
                        old(ed).cursor_byte as int,
                        old(self).top_byte as int,
                        line_index::newlines(table, old(ed).delta_table.sizes()),
                        old(ed).file_size as int,
                        old(self).visible_rows as int,
                    )
                },
    {
        match op {
            ViewOp::MoveLines(n) => {
                let width: u64 = self.bytes_per_line(ed);
                ed.move_cursor_lines(n, width, &mut self.line_index, unreadable)
            },
            ViewOp::ScrollLines(n) => self.scroll_lines(ed, n, unreadable),
            ViewOp::ScrollPage(n) => self.scroll_page(ed, n, unreadable),
            ViewOp::AlignTop => self.align_top(ed, unreadable),
            ViewOp::ShowCursor => self.ensure_cursor_visible(ed, unreadable),
        }
    }
}

/// A command has one outcome: what it asks for is determined by its text.
pub proof fn law_command_is_determined(
    s: SessionModel,
    ed: Editor,
    line: Seq<char>,
    a: CommandResult,
    b: CommandResult,
)
    requires
        command::is_command(line, a),
        command::is_command(line, b),
    ensures
        command_outcome(s, ed, a) == command_outcome(s, ed, b),
{
}

/// A document that may not be changed is neither edited nor saved by any key:
/// all that can be asked for is that the log is folded into the file.
pub proof fn law_read_only_asks_for_no_change(
    s: SessionModel,
    ed: Editor,
    key: KeyEvent,
    rows: usize,
    o: Outcome,
)
    requires
        ed.read_only,
        key_step(s, ed, key, rows, o),
    ensures
        !(o.asked is Edit),
        !(o.asked is SaveIncremental),
        o.asked matches Asked::SaveAs { purpose, .. } ==> purpose == SavePurpose::Merge,
{
}

/// While edits are unsaved, no key but the return key behind the command `q!`
/// ends the session.
pub proof fn law_unsaved_edits_keep_session(
    s: SessionModel,
    ed: Editor,
    key: KeyEvent,
    rows: usize,
    o: Outcome,
)
    requires
        has_unsaved(ed.cache@),
        !s.should_quit,
        key_step(s, ed, key, rows, o),
        o.session.should_quit,
    ensures
        s.input_mode == InputMode::Command,
        key.code == KeyCode::Enter,
        text::trimmed(s.status.command_buffer) == "q!"@,
{
}

/// The blocks to be loaded ahead are those that hold a byte of the screen, and as many
/// more behind and before it as the settings say, and no others: every byte that
/// is at most so many blocks from the screen is in one of them, and each of them,
/// but for the first, holds such a byte.
pub proof fn law_prefetch_is_around_screen(ed: Editor, vp: ViewPort, p: int)
    requires
        ed.file_size > 0,
        ed.block_count > 0,
        ed.config.block_size > 0,
        ed.block_count * ed.config.block_size >= ed.file_size,
        vp.top_byte < ed.file_size,
        vp.row_width(ed) > 0,
        vp.visible_rows > 0,
        0 <= p < ed.file_size,
    ensures
        ({
            let want = wanted_blocks(ed, vp);
            let bs = ed.config.block_size as int;
            let from = vp.top_byte - ed.config.prefetch_behind * bs;
            let to = vp.top_byte + vp.visible_rows * vp.row_width(ed) + ed.config.prefetch_ahead
                * bs;
            &&& from <= p < to ==> want.0 <= p / bs < want.1
            &&& want.0 <= p / bs < want.1 && p / bs > want.0 ==> p / bs * bs < to
            &&& p / bs == want.0 ==> p / bs * bs + bs > from
        }),
{
    let bs = ed.config.block_size as int;
    let size = ed.file_size as int;
    let top = vp.top_byte as int;
    let behind = ed.config.prefetch_behind as int;
    let ahead = ed.config.prefetch_ahead as int;
    let rows = vp.visible_rows as int;
    let width = vp.row_width(ed);
    assert(behind * bs >= 0 && ahead * bs >= 0 && rows * width >= 1) by (nonlinear_arith)
        requires
            behind >= 0,
            ahead >= 0,
            bs > 0,
            rows >= 1,
            width >= 1,
    ;
    let bottom = least(top + rows * width, size);
    let from = top - behind * bs;
    let low = if from > 0 {
        from
    } else {
        0
    };
    let to = least(bottom + ahead * bs, size);
    let want = wanted_blocks(ed, vp);
    assert(least(top, size - 1) == top);
    assert(screen_bytes(top, rows, width, size) == (top, bottom));
    let count = ed.block_count as int;
    assert(p / bs < count) by {
        vstd::arithmetic::div_mod::lemma_div_is_ordered(p, size - 1, bs);
        vstd::arithmetic::div_mod::lemma_fundamental_div_mod(size - 1, bs);
        vstd::arithmetic::div_mod::lemma_mod_bound(size - 1, bs);
        let q = (size - 1) / bs;
        if q >= count {
            assert(bs * q >= count * bs) by (nonlinear_arith)
                requires
                    q >= count,
                    bs > 0,
            ;
        }
    }
    vstd::arithmetic::div_mod::lemma_fundamental_div_mod(p, bs);
    vstd::arithmetic::div_mod::lemma_mod_bound(p, bs);
    let k = p / bs;
    assert(bs * k == k * bs) by (nonlinear_arith);
    if from <= p < to {
        vstd::arithmetic::div_mod::lemma_div_is_ordered(low, p, bs);
        vstd::arithmetic::div_mod::lemma_div_is_ordered(p + bs, to + bs - 1, bs);
        vstd::arithmetic::div_mod::lemma_div_plus_one(p, bs);
    }
    if want.0 <= k < want.1 && k > want.0 {
        let last = (to + bs - 1) / bs;
        assert(k < last);
        vstd::arithmetic::div_mod::lemma_fundamental_div_mod(to + bs - 1, bs);
        vstd::arithmetic::div_mod::lemma_mod_bound(to + bs - 1, bs);
        assert(k * bs + bs <= bs * last) by (nonlinear_arith)
            requires
                k + 1 <= last,
                bs > 0,
        ;
    }
    if k == want.0 {
        vstd::arithmetic::div_mod::lemma_fundamental_div_mod(low, bs);
        vstd::arithmetic::div_mod::lemma_mod_bound(low, bs);
        assert(bs * (low / bs) == k * bs) by (nonlinear_arith)
            requires
                low / bs == k,
        ;
    }
}

} // verus!
