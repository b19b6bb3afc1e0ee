use beditor::cache::BlockCache;
use beditor::command::{
    handle_insert_key, parse_command, CommandResult, InputMode, InsertAction, KeyCode, KeyEvent,
    ViewOp,
};
use beditor::config::{EditorConfig, OpenMode};
use beditor::editor::{Editor, Step};
use beditor::encoding::TextEncoding;
use beditor::error::{EditError, IoError};
use beditor::message::{Direction, SearchResult};
use beditor::session::{Edit, EditPurpose, Request, SavePurpose, SearchPurpose, Session};
use beditor::text;
use beditor::tui::viewport::ViewPort;
use beditor::wal::Wal;
use std::sync::Arc;

fn editor(data: &[u8]) -> Editor {
    let cfg = Arc::new(EditorConfig { block_size: 16, ..Default::default() });
    let mut ed = Editor::open(
        "file.bin".to_string(),
        cfg.clone(),
        OpenMode::Binary,
        TextEncoding::utf_8(),
        data.len() as u64,
        BlockCache::new(cfg, 8),
    )
    .unwrap();
    for (id, chunk) in data.chunks(16).enumerate() {
        ed.block_loaded(id as u64, chunk.to_vec());
    }
    ed
}

fn key(c: char) -> KeyEvent {
    KeyEvent { code: KeyCode::Char(c), control: false }
}

fn control(c: char) -> KeyEvent {
    KeyEvent { code: KeyCode::Char(c), control: true }
}

fn special(code: KeyCode) -> KeyEvent {
    KeyEvent { code, control: false }
}

fn type_line(s: &mut Session, ed: &mut Editor, vp: &ViewPort, line: &str) -> Request {
    for c in line.chars() {
        s.on_key(key(c), ed, vp);
    }
    s.on_key(special(KeyCode::Enter), ed, vp)
}

fn message(s: &Session) -> &str {
    s.status.message.as_deref().unwrap_or("")
}

#[test]
fn command_ro_rw_parse() {
    assert!(matches!(parse_command("ro"), CommandResult::SetReadOnly(true)));
    assert!(matches!(parse_command("rw"), CommandResult::SetReadOnly(false)));
    assert!(matches!(parse_command("e"), CommandResult::SetReadOnly(false)));
}

#[test]
fn commands_are_parsed() {
    assert!(matches!(parse_command("w"), CommandResult::Save));
    assert!(matches!(parse_command("  q "), CommandResult::Quit));
    assert!(matches!(parse_command("q!"), CommandResult::ForceQuit));
    assert!(matches!(parse_command("wq"), CommandResult::SaveAndQuit));
    assert!(matches!(parse_command("x"), CommandResult::SaveAndQuit));
    assert!(matches!(parse_command("h"), CommandResult::Help));
    assert!(matches!(parse_command("help"), CommandResult::Help));
    assert!(matches!(parse_command("info"), CommandResult::Info));
    match parse_command("w  some path ") {
        CommandResult::SaveAs(path) => assert_eq!(path, "some path"),
        _ => panic!("a path was given"),
    }
    match parse_command("enc  gbk") {
        CommandResult::SetEncoding(name) => assert_eq!(name, "gbk"),
        _ => panic!("an encoding was given"),
    }
    assert!(matches!(parse_command("mode text"), CommandResult::SwitchMode(OpenMode::Text)));
    assert!(matches!(parse_command("mode hex"), CommandResult::SwitchMode(OpenMode::Binary)));
    assert!(matches!(parse_command("mode binary"), CommandResult::SwitchMode(OpenMode::Binary)));
    match parse_command("mode other") {
        CommandResult::Unknown(what) => assert_eq!(what, "unknown mode: other"),
        _ => panic!("there is no such mode"),
    }
    match parse_command(" what now ") {
        CommandResult::Unknown(what) => assert_eq!(what, "what now"),
        _ => panic!("there is no such command"),
    }
}

#[test]
fn places_to_go_to_are_parsed() {
    let cases: Vec<(&str, u64)> = vec![
        ("goto 42", 42),
        ("goto   +7", 7),
        ("goto 0x1F", 31),
        ("goto 0Xff", 255),
        ("goto 0x+a", 10),
        ("goto -1", 0),
        ("goto x", 0),
        ("goto 18446744073709551615", u64::MAX),
        ("goto 18446744073709551616", 0),
        ("goto 0x10000000000000000", 0),
        ("goto 12 34", 0),
    ];
    for (input, byte) in cases {
        match parse_command(input) {
            CommandResult::GotoByte(b) => assert_eq!(b, byte, "{input}"),
            _ => panic!("a place was given"),
        }
    }
}

#[test]
fn blanks_are_those_of_unicode() {
    for n in 0..0x11_0000u32 {
        if let Some(c) = char::from_u32(n) {
            assert_eq!(text::is_blank(c), c.is_whitespace(), "{n:x}");
        }
    }
}

#[test]
fn insert_keys() {
    assert_eq!(handle_insert_key(key('a')), Some(InsertAction::InsertByte(b'a')));
    assert_eq!(handle_insert_key(key('中')), Some(InsertAction::InsertByte(0x2D)));
    assert_eq!(
        handle_insert_key(special(KeyCode::Enter)),
        Some(InsertAction::InsertByte(b'\n'))
    );
    assert_eq!(handle_insert_key(special(KeyCode::Backspace)), Some(InsertAction::Backspace));
    assert_eq!(handle_insert_key(special(KeyCode::Esc)), Some(InsertAction::ExitToNormal));
    assert_eq!(handle_insert_key(special(KeyCode::Left)), None);
}

#[test]
fn sessions_begin_read_only_unless_asked() {
    let mut ed = editor(b"abc");
    let s = Session::open(&mut ed, false);
    assert!(ed.read_only);
    assert_eq!(message(&s), "只读模式（:rw 切换为可写）");
    let s = Session::open(&mut ed, true);
    assert!(!ed.read_only);
    assert_eq!(message(&s), "");
    let mut wal = Wal::new();
    wal.append_one(0, b"xyz");
    ed.cache.attach_wal(wal);
    let s = Session::open(&mut ed, false);
    assert_eq!(message(&s), "检测到未合并的 WAL 数据，已自动恢复。:w 保存 / :wq 合并退出");
    assert!(s.status.message_is_error);
}

#[test]
fn movement_keys() {
    let mut ed = editor(&[0u8; 100]);
    let vp = ViewPort::new(10, 80);
    let mut s = Session::open(&mut ed, true);
    match s.on_key(key('l'), &mut ed, &vp) {
        Request::View(ops) => assert_eq!(ops, vec![ViewOp::ShowCursor]),
        _ => panic!("the cursor moves"),
    }
    assert_eq!(ed.cursor_byte, 1);
    s.on_key(special(KeyCode::Left), &mut ed, &vp);
    s.on_key(key('h'), &mut ed, &vp);
    assert_eq!(ed.cursor_byte, 0);
    s.on_key(key('G'), &mut ed, &vp);
    assert_eq!(ed.cursor_byte, 100);
    s.on_key(special(KeyCode::Right), &mut ed, &vp);
    assert_eq!(ed.cursor_byte, 100);
    s.on_key(key('g'), &mut ed, &vp);
    assert_eq!(ed.cursor_byte, 0);
    match s.on_key(special(KeyCode::PageUp), &mut ed, &vp) {
        Request::View(ops) => assert_eq!(
            ops,
            vec![ViewOp::MoveLines(-10), ViewOp::ScrollPage(-1), ViewOp::ShowCursor]
        ),
        _ => panic!("the screen moves"),
    }
    match s.on_key(control('d'), &mut ed, &vp) {
        Request::View(ops) => assert_eq!(
            ops,
            vec![ViewOp::MoveLines(5), ViewOp::ScrollLines(5), ViewOp::ShowCursor]
        ),
        _ => panic!("the screen moves"),
    }
    match s.on_key(key('d'), &mut ed, &vp) {
        Request::View(ops) => assert!(ops.is_empty()),
        _ => panic!("nothing moves"),
    }
}

#[test]
fn typing_inserts_bytes() {
    let mut ed = editor(b"abc");
    let vp = ViewPort::new(10, 80);
    let mut s = Session::open(&mut ed, true);
    s.on_key(key('a'), &mut ed, &vp);
    assert_eq!(s.input_mode, InputMode::Insert);
    assert_eq!(s.status.mode_name, "INSERT");
    assert_eq!(ed.cursor_byte, 1);
    assert!(matches!(
        s.on_key(key('x'), &mut ed, &vp),
        Request::Edit(Edit::Insert(b'x'), EditPurpose::Typing)
    ));
    assert!(matches!(
        s.on_key(special(KeyCode::Backspace), &mut ed, &vp),
        Request::Edit(Edit::DeleteForward, EditPurpose::Typing)
    ));
    assert_eq!(ed.cursor_byte, 0);
    assert!(matches!(s.on_key(special(KeyCode::Backspace), &mut ed, &vp), Request::View(_)));
    s.on_key(special(KeyCode::Esc), &mut ed, &vp);
    assert_eq!(s.input_mode, InputMode::Normal);
    assert_eq!(s.status.mode_name, "NORMAL");
}

#[test]
fn read_only_documents_are_not_edited_by_keys() {
    let mut ed = editor(b"abc");
    let vp = ViewPort::new(10, 80);
    let mut s = Session::open(&mut ed, false);
    s.on_key(key('i'), &mut ed, &vp);
    assert_eq!(s.input_mode, InputMode::Normal);
    assert_eq!(s.status.mode_name, "NORMAL");
    assert_eq!(message(&s), "只读模式，:rw 切换为可写");
    for k in [key('x'), key('u'), control('R'), control('r')] {
        assert!(matches!(s.on_key(k, &mut ed, &vp), Request::Nothing));
    }
    assert!(matches!(type_line(&mut s, &mut ed, &vp, ":w"), Request::Nothing));
    assert_eq!(message(&s), "只读模式，:rw 切换为可写后再保存");
    assert!(matches!(type_line(&mut s, &mut ed, &vp, ":wq"), Request::Nothing));
    assert_eq!(message(&s), "只读模式，:rw 切换为可写后再保存退出");
    assert!(matches!(type_line(&mut s, &mut ed, &vp, ":w other"), Request::Nothing));
}

#[test]
fn editing_keys() {
    let mut ed = editor(b"abc");
    let vp = ViewPort::new(10, 80);
    let mut s = Session::open(&mut ed, true);
    assert!(matches!(
        s.on_key(key('x'), &mut ed, &vp),
        Request::Edit(Edit::DeleteForward, EditPurpose::Command)
    ));
    assert!(matches!(
        s.on_key(key('u'), &mut ed, &vp),
        Request::Edit(Edit::Undo, EditPurpose::Command)
    ));
    assert!(matches!(
        s.on_key(control('R'), &mut ed, &vp),
        Request::Edit(Edit::Redo, EditPurpose::Command)
    ));
    assert!(s.edit_done(EditPurpose::Command, Err(EditError::NothingToUndo)).is_empty());
    assert_eq!(message(&s), "撤销栈空");
    assert_eq!(
        s.edit_done(EditPurpose::Typing, Err(EditError::NothingToRedo)),
        vec![ViewOp::ShowCursor]
    );
    assert_eq!(message(&s), "重做栈空");
    assert_eq!(
        s.edit_done(EditPurpose::Command, Ok(())),
        vec![ViewOp::AlignTop, ViewOp::ShowCursor]
    );
}

#[test]
fn commands_are_typed() {
    let mut ed = editor(&[0u8; 64]);
    let vp = ViewPort::new(10, 80);
    let mut s = Session::open(&mut ed, true);
    s.on_key(key(':'), &mut ed, &vp);
    assert_eq!(s.input_mode, InputMode::Command);
    s.on_key(key('g'), &mut ed, &vp);
    s.on_key(key('x'), &mut ed, &vp);
    s.on_key(special(KeyCode::Backspace), &mut ed, &vp);
    assert_eq!(s.status.command_buffer, "g");
    s.on_key(special(KeyCode::Esc), &mut ed, &vp);
    assert_eq!(s.input_mode, InputMode::Normal);
    assert_eq!(s.status.command_buffer, "");
    assert!(matches!(type_line(&mut s, &mut ed, &vp, ":goto 0x20"), Request::View(_)));
    assert_eq!(ed.cursor_byte, 32);
    type_line(&mut s, &mut ed, &vp, ":goto 999");
    assert_eq!(ed.cursor_byte, 64);
    match type_line(&mut s, &mut ed, &vp, ":mode text") {
        Request::View(ops) => assert_eq!(ops, vec![ViewOp::AlignTop, ViewOp::ShowCursor]),
        _ => panic!("the screen is shown anew"),
    }
    assert_eq!(ed.mode, OpenMode::Text);
    type_line(&mut s, &mut ed, &vp, ":enc gbk");
    assert_eq!(ed.text_encoding.name(), "GBK");
    assert_eq!(message(&s), "编码切换为: gbk");
    type_line(&mut s, &mut ed, &vp, ":enc nonsense");
    assert_eq!(message(&s), "未知编码: nonsense");
    type_line(&mut s, &mut ed, &vp, ":nonsense");
    assert_eq!(message(&s), "未知命令: nonsense");
    assert!(s.status.message_is_error);
    type_line(&mut s, &mut ed, &vp, ":info");
    assert_eq!(
        message(&s),
        "文件: 64 | 块: 4 | 缓存: 4/8 | 命中: 0 | 遗漏: 0 | 淘汰: 0"
    );
    type_line(&mut s, &mut ed, &vp, ":help");
    assert!(message(&s).starts_with(":w 保存 | :q 退出"));
    assert!(matches!(type_line(&mut s, &mut ed, &vp, ":w"), Request::SaveIncremental));
    match type_line(&mut s, &mut ed, &vp, ":w there") {
        Request::SaveAs { path, purpose } => {
            assert_eq!(path, "there");
            assert_eq!(purpose, SavePurpose::Keep);
        }
        _ => panic!("the document is saved"),
    }
    match type_line(&mut s, &mut ed, &vp, ":x") {
        Request::SaveAs { path, purpose } => {
            assert_eq!(path, "file.bin");
            assert_eq!(purpose, SavePurpose::Quit);
        }
        _ => panic!("the document is saved"),
    }
}

#[test]
fn read_only_is_switched() {
    let mut ed = editor(b"abc");
    let vp = ViewPort::new(10, 80);
    let mut s = Session::open(&mut ed, true);
    type_line(&mut s, &mut ed, &vp, ":ro");
    assert!(ed.read_only);
    assert_eq!(message(&s), "已切换为只读");
    assert!(matches!(type_line(&mut s, &mut ed, &vp, ":rw"), Request::EnsureWal));
    assert!(!ed.read_only);
    s.wal_opened(&mut ed, Ok(()));
    assert_eq!(message(&s), "已切换为可写");
    assert!(!ed.read_only);
    s.wal_opened(&mut ed, Err(IoError::PermissionDenied("x".to_string())));
    assert!(ed.read_only);
    assert!(message(&s).starts_with("切换可写失败: "));
}

#[test]
fn quitting_waits_for_unsaved_edits() {
    let mut ed = editor(b"abc");
    let vp = ViewPort::new(10, 80);
    let mut s = Session::open(&mut ed, true);
    ed.cache.attach_wal(Wal::new());
    assert!(matches!(ed.insert_bytes_at_cursor(b"x", None), Step::Done(Ok(()))));
    for k in [control('c'), control('q'), special(KeyCode::Esc)] {
        assert!(matches!(s.on_key(k, &mut ed, &vp), Request::Nothing));
        assert!(!s.should_quit);
        assert_eq!(message(&s), "有未保存修改，使用 :q! 强制退出 或 :w 保存");
    }
    type_line(&mut s, &mut ed, &vp, ":q");
    assert!(!s.should_quit);
    let (entries, _) = ed.save_incremental();
    for (id, bytes) in entries {
        ed.cache.note_appended(id, &bytes);
    }
    match s.try_quit(&ed) {
        Request::SaveAs { path, purpose } => {
            assert_eq!(path, "file.bin");
            assert_eq!(purpose, SavePurpose::Merge);
        }
        _ => panic!("the log is folded into the file"),
    }
    assert!(!s.should_quit);
    s.save_done(SavePurpose::Merge, Err(IoError::SaveFailed("disk full".to_string())));
    assert!(message(&s).starts_with("合并 WAL 失败: "));
    s.save_done(SavePurpose::Merge, Ok(()));
    assert!(s.should_quit);
}

#[test]
fn force_quit_always_quits() {
    let mut ed = editor(b"abc");
    let vp = ViewPort::new(10, 80);
    let mut s = Session::open(&mut ed, true);
    ed.cache.attach_wal(Wal::new());
    assert!(matches!(ed.insert_bytes_at_cursor(b"x", None), Step::Done(Ok(()))));
    type_line(&mut s, &mut ed, &vp, ":q!");
    assert!(s.should_quit);
}

#[test]
fn saves_are_reported() {
    let mut ed = editor(b"abc");
    let mut s = Session::open(&mut ed, true);
    s.save_done(SavePurpose::Keep, Ok(()));
    assert_eq!(message(&s), "已保存");
    s.saved_incremental(Ok(()));
    assert_eq!(message(&s), "已保存（WAL）");
    s.saved_incremental(Err(IoError::BlockOutOfRange(3, 2)));
    assert!(message(&s).starts_with("保存失败: "));
    s.save_done(SavePurpose::Quit, Err(IoError::ShortRead { expected: 4, actual: 1 }));
    assert!(message(&s).starts_with("保存失败: "));
    assert!(!s.should_quit);
    s.io_failed(&IoError::StdIo("broken".to_string()));
    assert!(message(&s).starts_with("IO错误: "));
    s.save_progress("40");
    assert_eq!(message(&s), "保存中... 40%");
    s.save_done(SavePurpose::Quit, Ok(()));
    assert!(s.should_quit);
}

fn found(matches: Vec<u64>) -> Option<SearchResult> {
    Some(SearchResult { matches, scanned_blocks: 1, has_more_behind: false })
}

#[test]
fn searches_are_asked_for_and_reported() {
    let mut ed = editor(&[0u8; 64]);
    let vp = ViewPort::new(10, 80);
    let mut s = Session::open(&mut ed, true);
    assert!(matches!(s.on_key(key('n'), &mut ed, &vp), Request::Nothing));
    assert_eq!(message(&s), "暂无搜索历史，按 / 开始搜索");
    match type_line(&mut s, &mut ed, &vp, "/中x") {
        Request::Search { query, direction, limit, purpose } => {
            assert_eq!(query, "中x".as_bytes().to_vec());
            assert_eq!(direction, Direction::Forward);
            assert_eq!(limit, 100);
            assert_eq!(purpose, SearchPurpose::Query);
        }
        _ => panic!("a search was typed"),
    }
    assert_eq!(s.input_mode, InputMode::Normal);
    assert_eq!(
        s.search_done(&mut ed, SearchPurpose::Query, found(vec![7, 9])),
        vec![ViewOp::ShowCursor]
    );
    assert_eq!(ed.cursor_byte, 7);
    assert_eq!(message(&s), "找到 2 个匹配");
    assert!(s.search_done(&mut ed, SearchPurpose::Step, found(vec![])).is_empty());
    assert_eq!(message(&s), "无匹配");
    assert_eq!(ed.cursor_byte, 7);
    assert!(s.search_done(&mut ed, SearchPurpose::Step, found(vec![7])).is_empty());
    assert_eq!(ed.cursor_byte, 7);
    assert_eq!(
        s.search_done(&mut ed, SearchPurpose::Step, found(vec![7, 9])),
        vec![ViewOp::ShowCursor]
    );
    assert_eq!(ed.cursor_byte, 9);
    let _ = s.search_done(&mut ed, SearchPurpose::Step, found(vec![20, 30]));
    assert_eq!(ed.cursor_byte, 20);
    let _ = s.search_done(&mut ed, SearchPurpose::Command, found(vec![20, 30]));
    assert_eq!(ed.cursor_byte, 20);
    assert!(s.search_done(&mut ed, SearchPurpose::Command, None).is_empty());
    assert!(matches!(type_line(&mut s, &mut ed, &vp, "/"), Request::Nothing));
    ed.last_search = Some(b"q".to_vec());
    match s.on_key(key('n'), &mut ed, &vp) {
        Request::Search { direction, limit, .. } => {
            assert_eq!(direction, Direction::Forward);
            assert_eq!(limit, 2);
        }
        _ => panic!("there is something to search for"),
    }
    match s.on_key(key('N'), &mut ed, &vp) {
        Request::Search { query, direction, limit, purpose } => {
            assert_eq!(query, b"q".to_vec());
            assert_eq!(direction, Direction::Backward);
            assert_eq!(limit, 1);
            assert_eq!(purpose, SearchPurpose::Step);
        }
        _ => panic!("there is something to search for"),
    }
}

#[test]
fn blocks_are_prefetched_once() {
    let mut ed = editor(&[0u8; 112]);
    let mut vp = ViewPort::new(2, 30);
    let mut s = Session::open(&mut ed, true);
    vp.top_byte = 40;
    // Two rows of eight bytes from 40 on are in blocks 2 and 3; one block
    // before and four behind are wanted too.
    assert_eq!(s.prefetch_range(&ed, &vp), Some((1, 7)));
    assert_eq!(s.prefetch_range(&ed, &vp), None);
    vp.top_byte = 0;
    assert_eq!(s.prefetch_range(&ed, &vp), Some((0, 5)));
    let empty = editor(b"");
    assert_eq!(s.prefetch_range(&empty, &vp), None);
}

#[test]
fn settings_have_limits() {
    let cfg = EditorConfig::from_cli(Some(64), None, Some(OpenMode::Text)).unwrap();
    assert_eq!(cfg.block_size, 64 * 1024);
    assert_eq!(cfg.default_mode, OpenMode::Text);
    let ratio = |r: f32| EditorConfig::from_cli(None, Some(r.to_bits()), None);
    assert_eq!(f32::from_bits(ratio(0.5).unwrap().mem_ratio), 0.5);
    assert_eq!(f32::from_bits(ratio(0.75).unwrap().mem_ratio), 0.7);
    assert!(ratio(0.01).is_err());
    assert!(ratio(0.9).is_err());
    assert!(ratio(-0.3).is_err());
    assert!(ratio(f32::NAN).is_err());
    let e = EditorConfig::from_cli(Some(1), None, None).unwrap_err();
    assert_eq!(e.to_string(), "配置错误: block_size 必须在 4KB ~ 16MB 之间");
    assert!(matches!(
        EditorConfig::from_cli(Some(17 * 1024), None, None),
        Err(EditError::InvalidConfig(_))
    ));
}
