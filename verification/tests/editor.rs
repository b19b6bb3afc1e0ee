//! The editor over a file and a log that are kept in memory.

use beditor::block::BlockId;
use beditor::cache::BlockCache;
use beditor::command::ViewOp;
use beditor::config::{EditorConfig, OpenMode};
use beditor::editor::{Editor, SaveStep, Step};
use beditor::encoding::TextEncoding;
use beditor::error::EditError;
use beditor::io_worker;
use beditor::io_worker::BlockSource;
use beditor::line_index::Fetch;
use beditor::message::{Direction, SearchResult};
use beditor::search::SearchJob;
use beditor::tui::frame::{try_view_lines, view_lines};
use beditor::tui::status_bar::{render_status_bar, StatusState};
use beditor::tui::viewport::ViewPort;
use beditor::wal::Wal;
use std::sync::Arc;

/// An open document, the file it came from and its log.
struct Doc {
    ed: Editor,
    disk: Vec<u8>,
    log: Option<Vec<u8>>,
}

impl Doc {
    fn reopen(disk: &[u8], log: Option<Vec<u8>>, block_size: usize, mode: OpenMode, room: usize) -> Doc {
        let cfg = Arc::new(EditorConfig { block_size, ..Default::default() });
        let mut cache = BlockCache::new(cfg.clone(), room);
        if let Some(wal) = Wal::open(log.as_deref(), false) {
            cache.attach_wal(wal);
        }
        let ed = Editor::open(
            "doc.bin".to_string(),
            cfg,
            mode,
            TextEncoding::utf_8(),
            disk.len() as u64,
            cache,
        )
        .unwrap();
        Doc { ed, disk: disk.to_vec(), log }
    }

    fn open(disk: &[u8], block_size: usize, mode: OpenMode) -> Doc {
        Doc::reopen(disk, None, block_size, mode, 64)
    }

    fn default(disk: &[u8], mode: OpenMode) -> Doc {
        Doc::open(disk, EditorConfig::default().block_size, mode)
    }

    fn open_log(&mut self) {
        if let Step::NeedWal = self.ed.ensure_wal() {
            let wal = Wal::open(self.log.as_deref(), true).unwrap();
            self.log.get_or_insert_with(Vec::new);
            self.ed.cache.attach_wal(wal);
        }
    }

    fn append(&mut self, id: BlockId, bytes: &[u8]) {
        if let Some(wal) = self.ed.cache.wal() {
            let at = wal.end() as usize;
            let log = self.log.as_mut().unwrap();
            log.truncate(at);
            log.extend_from_slice(&Wal::record(id, bytes));
            self.ed.cache.note_appended(id, bytes);
        }
    }

    fn log_evicted(&mut self) {
        for (id, bytes) in self.ed.cache.take_evicted() {
            self.append(id, &bytes);
        }
    }

    fn bytes_of(&mut self, id: BlockId) -> Vec<u8> {
        let size = self.disk.len() as u64;
        let block_size = self.ed.config.block_size;
        match io_worker::block_source(&mut self.ed.cache, id, block_size, size) {
            BlockSource::Ready(bytes) => bytes,
            BlockSource::Log(e) => {
                let at = e.offset as usize;
                self.log.as_ref().unwrap()[at..at + e.len as usize].to_vec()
            }
            BlockSource::Disk { offset, len } => {
                self.disk[offset as usize..offset as usize + len].to_vec()
            }
            BlockSource::Nothing => Vec::new(),
        }
    }

    fn load(&mut self, id: BlockId) {
        let bytes = self.bytes_of(id);
        self.ed.block_loaded(id, bytes);
        self.log_evicted();
    }

    /// Repeats `act` until it needs nothing more.
    fn run(
        &mut self,
        act: fn(&mut Editor, &[u8], usize) -> Step<Result<(), EditError>>,
        bytes: &[u8],
        n: usize,
    ) -> Result<(), EditError> {
        loop {
            match act(&mut self.ed, bytes, n) {
                Step::Done(r) => {
                    self.log_evicted();
                    return r;
                }
                Step::NeedWal => self.open_log(),
                Step::NeedBlock(id) => self.load(id),
            }
        }
    }

    fn insert(&mut self, bytes: &[u8]) -> Result<(), EditError> {
        assert!(self.ed.can_insert(bytes.len()));
        self.run(|ed, b, _| ed.insert_bytes_at_cursor(b, None), bytes, 0)
    }

    fn delete(&mut self, n: usize) -> Result<(), EditError> {
        assert!(self.ed.can_delete(n));
        self.run(|ed, _, n| ed.delete_bytes_at_cursor_forward(n, None), &[], n)
    }

    fn undo(&mut self) -> Result<(), EditError> {
        assert!(self.ed.can_undo());
        self.run(|ed, _, _| ed.undo(None), &[], 0)
    }

    fn redo(&mut self) -> Result<(), EditError> {
        assert!(self.ed.can_redo());
        self.run(|ed, _, _| ed.redo(None), &[], 0)
    }

    fn save(&mut self, fold: bool) -> Vec<u8> {
        let mut job = self.ed.save_as();
        let mut out: Vec<u8> = Vec::new();
        loop {
            assert!(self.ed.can_save_next(&job));
            match self.ed.save_next(&mut job) {
                SaveStep::Write(bytes) => out.extend_from_slice(&bytes),
                SaveStep::NeedBlock(id) => {
                    let bytes = self.bytes_of(id);
                    assert!(job.accepts(bytes.len()));
                    self.ed.save_given(&mut job, &bytes);
                    out.extend_from_slice(&bytes);
                }
                SaveStep::Finished => break,
            }
        }
        assert!(self.ed.can_fold(&job));
        self.ed.finish_save(job, fold);
        if fold {
            self.disk = out.clone();
            self.log = None;
        }
        out
    }

    fn save_as(&mut self) -> Vec<u8> {
        self.save(false)
    }

    fn save_incremental(&mut self) {
        self.open_log();
        let (entries, report) = self.ed.save_incremental();
        assert_eq!(report.dirty_blocks_written, entries.len());
        for (id, bytes) in entries {
            self.append(id, &bytes);
        }
    }

    fn run_search(&mut self, mut job: SearchJob) -> SearchResult {
        while let Some(id) = job.wanted() {
            let bytes = self.bytes_of(id);
            assert!(job.accepts(bytes.len()));
            job.scan(&bytes);
        }
        job.result()
    }

    fn search(&mut self, query: &[u8], direction: Direction, limit: usize) -> SearchResult {
        let job = self.ed.search_literal(query, direction, limit);
        self.run_search(job)
    }

    fn perform(&mut self, vp: &mut ViewPort, op: ViewOp) {
        let none: Vec<BlockId> = Vec::new();
        while let Fetch::Missing(id) = vp.perform(&mut self.ed, op, &none) {
            self.load(id);
        }
    }

    fn cursor_pos(&mut self, vp: &mut ViewPort, width: usize) -> Option<(usize, usize)> {
        let none: Vec<BlockId> = Vec::new();
        loop {
            match vp.cursor_screen_pos(&mut self.ed, width, &none) {
                Fetch::Ready(place) => return place,
                Fetch::Missing(id) => self.load(id),
            }
        }
    }

    fn text_rows(&mut self, vp: &ViewPort) -> Vec<Option<(u64, Vec<u8>)>> {
        let none: Vec<BlockId> = Vec::new();
        let mut job = vp.begin_rows();
        while let Fetch::Missing(id) = vp.text_rows(&mut self.ed, &mut job, &none) {
            self.load(id);
        }
        job.rows
    }
}

fn spliced(data: &[u8], at: usize, bytes: &[u8]) -> Vec<u8> {
    let mut v = data[..at].to_vec();
    v.extend_from_slice(bytes);
    v.extend_from_slice(&data[at..]);
    v
}

fn xorshift64(state: &mut u64) -> u64 {
    let mut x = *state;
    x ^= x << 13;
    x ^= x >> 7;
    x ^= x << 17;
    *state = x;
    x
}

fn make_random_data(len: usize, seed: u64) -> Vec<u8> {
    let mut state = seed;
    let mut out = Vec::with_capacity(len);
    while out.len() < len {
        let r = xorshift64(&mut state);
        let b = (r & 0x3F) as u8;
        out.push(b.wrapping_add(0x20));
    }
    out
}

#[test]
fn undo_insert() {
    let mut doc = Doc::default(b"Hello World", OpenMode::Text);
    let orig_size = doc.ed.file_size;
    doc.ed.goto_byte(5);
    doc.insert(b" XXX ").unwrap();
    assert_eq!(doc.ed.file_size, orig_size + 5);
    doc.undo().unwrap();
    assert_eq!(doc.ed.file_size, orig_size);
    assert_eq!(doc.save_as(), b"Hello World");
}

#[test]
fn redo_after_undo() {
    let mut doc = Doc::default(b"ABCDEF", OpenMode::Text);
    doc.ed.goto_byte(3);
    doc.insert(b"XYZ").unwrap();
    assert_eq!(doc.ed.file_size, 9);
    doc.undo().unwrap();
    assert_eq!(doc.ed.file_size, 6);
    doc.redo().unwrap();
    assert_eq!(doc.ed.file_size, 9);
    assert_eq!(doc.save_as(), b"ABCXYZDEF");
}

#[test]
fn insert_trigger_split() {
    let init = vec![0x41u8; 64];
    let mut doc = Doc::open(&init, 32, OpenMode::Text);
    doc.ed.goto_byte(30);
    doc.insert(&[0x42u8; 50]).unwrap();
    assert!(doc.ed.block_count >= 2, "分裂后块数应增加, got {}", doc.ed.block_count);
    let got = doc.save_as();
    let mut exp = vec![0x41u8; 64];
    let right = exp.split_off(30);
    exp.extend(vec![0x42u8; 50]);
    exp.extend(right);
    assert_eq!(got.len(), 114);
    assert_eq!(got, exp);
}

#[test]
fn stream_save_multi_block() {
    let data = vec![0xAAu8; 1000];
    let mut doc = Doc::open(&data, 64, OpenMode::Binary);
    doc.ed.goto_byte(100);
    doc.insert(b"TEST").unwrap();
    assert_eq!(doc.ed.file_size, 1004);
    let got = doc.save_as();
    assert_eq!(got.len(), 1004);
    assert_eq!(got, spliced(&data, 100, b"TEST"));
}

#[test]
fn insert_at_exact_block_boundary() {
    let data = vec![0x41u8; 96];
    let mut doc = Doc::open(&data, 32, OpenMode::Binary);
    doc.ed.goto_byte(32);
    doc.insert(b"XYZ").unwrap();
    assert_eq!(doc.ed.file_size, 99);
    assert_eq!(doc.save_as(), spliced(&data, 32, b"XYZ"));
}

#[test]
fn delete_at_block_boundary() {
    let data: Vec<u8> = (0..96).map(|i| (i % 26) as u8 + b'a').collect();
    let mut doc = Doc::open(&data, 32, OpenMode::Text);
    doc.ed.goto_byte(42);
    doc.delete(12).unwrap();
    assert_eq!(doc.ed.file_size, 84);
    let mut exp = data.clone();
    exp.drain(42..54);
    assert_eq!(doc.save_as(), exp);
}

#[test]
fn split_then_save() {
    let data = vec![0x41u8; 32];
    let mut doc = Doc::open(&data, 32, OpenMode::Binary);
    assert_eq!(doc.ed.block_count, 1);
    doc.ed.goto_byte(0);
    doc.insert(&[0x42u8; 48]).unwrap();
    assert_eq!(doc.ed.block_count, 2, "插入后应分裂为 2 块");
    assert_eq!(doc.ed.file_size, 80);
    let got = doc.save_as();
    assert_eq!(got.len(), 80);
    assert_eq!(got, spliced(&data, 0, &[0x42u8; 48]));
}

#[test]
fn multiple_inserts_trigger_multiple_splits() {
    let data = vec![0x41u8; 32];
    let mut doc = Doc::open(&data, 32, OpenMode::Binary);
    for _ in 0..3 {
        let end = doc.ed.file_size;
        doc.ed.goto_byte(end);
        doc.insert(&[0x43u8; 40]).unwrap();
    }
    assert!(doc.ed.block_count >= 3, "3 次插入应产生 >= 3 块, got {}", doc.ed.block_count);
    assert_eq!(doc.ed.file_size, 152);
    let mut exp = data.clone();
    exp.extend_from_slice(&[0x43u8; 120]);
    assert_eq!(doc.save_as(), exp);
}

#[test]
fn edit_multiple_blocks_then_undo_all() {
    let data: Vec<u8> = (0..128).map(|i| (i % 26) as u8 + b'a').collect();
    let mut doc = Doc::open(&data, 16, OpenMode::Text);
    let orig_size = doc.ed.file_size;
    for &pos in &[32u64, 80, 112] {
        doc.ed.goto_byte(pos);
        doc.insert(b"QQ").unwrap();
    }
    assert_eq!(doc.ed.file_size, orig_size + 6);
    for _ in 0..3 {
        doc.undo().unwrap();
    }
    assert_eq!(doc.ed.file_size, orig_size);
    assert_eq!(doc.save_as(), data, "全部 undo 后保存应等于原始");
}

#[test]
fn undo_after_split() {
    let data = vec![0x41u8; 32];
    let mut doc = Doc::open(&data, 32, OpenMode::Binary);
    assert_eq!(doc.ed.block_count, 1);
    doc.ed.goto_byte(0);
    doc.insert(&[0x42u8; 48]).unwrap();
    assert_eq!(doc.ed.block_count, 2, "插入后应分裂为 2 块");
    assert_eq!(doc.ed.file_size, 80);
    doc.undo().unwrap();
    assert_eq!(doc.ed.block_count, 1, "undo 后应合并回 1 块");
    assert_eq!(doc.ed.file_size, 32, "undo 后文件应还原");
    assert_eq!(doc.save_as(), data, "undo 后保存应等于原始");
}

#[test]
fn redo_after_split_undo() {
    let data = vec![0x41u8; 32];
    let mut doc = Doc::open(&data, 32, OpenMode::Binary);
    doc.ed.goto_byte(0);
    doc.insert(&[0x42u8; 48]).unwrap();
    assert_eq!(doc.ed.block_count, 2);
    let (bid, inner) = doc.ed.delta_table.locate_offset(60);
    assert_eq!((bid, inner), (1, 20), "分裂后 offset 60 应位于块 1 的 inner 20");
    doc.undo().unwrap();
    assert_eq!(doc.ed.block_count, 1);
    doc.redo().unwrap();
    assert_eq!(doc.ed.block_count, 2, "redo 后应恢复 2 块");
    assert_eq!(doc.ed.file_size, 80);
    assert_eq!(doc.ed.delta_table.locate_offset(60), (1, 20));
    assert_eq!(
        doc.save_as(),
        spliced(&data, 0, &[0x42u8; 48]),
        "redo 后保存应等于分裂后内容"
    );
}

#[test]
fn edit_flow_multi_insert_delete_save_consistency() {
    const DATA_LEN: usize = 4 * 1024 * 1024;
    const BLOCK: usize = 256 * 1024;
    let data = make_random_data(DATA_LEN, 0x1234_5678_dead_beef);
    let mut doc = Doc::open(&data, BLOCK, OpenMode::Text);
    assert_eq!(doc.ed.file_size, DATA_LEN as u64);
    assert_eq!(doc.ed.block_count, (DATA_LEN / BLOCK) as u64);
    let mut expected = data.clone();

    let pos1 = 3 * BLOCK + 100;
    doc.ed.goto_byte(pos1 as u64);
    doc.insert(b"<<<INSERT_MARK_1>>>").unwrap();
    expected = spliced(&expected, pos1, b"<<<INSERT_MARK_1>>>");
    assert_eq!(doc.ed.file_size, expected.len() as u64);

    let pos2 = 7 * BLOCK + 100;
    doc.ed.goto_byte(pos2 as u64);
    doc.delete(120).unwrap();
    expected.drain(pos2..pos2 + 120);
    assert_eq!(doc.ed.file_size, expected.len() as u64);

    let pos3 = 12 * BLOCK + 2048;
    doc.ed.goto_byte(pos3 as u64);
    doc.insert(b"<<<MARK_2>>>").unwrap();
    expected = spliced(&expected, pos3, b"<<<MARK_2>>>");
    assert_eq!(doc.ed.file_size, expected.len() as u64);

    let pos4 = doc.ed.file_size;
    doc.ed.goto_byte(pos4);
    doc.insert(b"TAIL").unwrap();
    expected.extend_from_slice(b"TAIL");
    assert_eq!(doc.ed.file_size, expected.len() as u64);

    let got = doc.save_as();
    assert_eq!(got.len(), expected.len());
    assert!(got == expected, "保存内容与期望不一致");
}

#[test]
fn edit_flow_save_idempotent_double_save() {
    const DATA_LEN: usize = 512 * 1024;
    const BLOCK: usize = 64 * 1024;
    let data = make_random_data(DATA_LEN, 0xfeed_face);
    let mut doc = Doc::open(&data, BLOCK, OpenMode::Text);
    let pos = 100_000usize;
    doc.ed.goto_byte(pos as u64);
    doc.insert(b"MARK").unwrap();
    let got1 = doc.save_as();
    let got2 = doc.save_as();
    assert!(got1 == got2, "两次保存结果应一致");
    assert!(got1 == spliced(&data, pos, b"MARK"));
}

#[test]
fn edit_flow_undo_redo_save_consistency() {
    const DATA_LEN: usize = 256 * 1024;
    const BLOCK: usize = 32 * 1024;
    let data = make_random_data(DATA_LEN, 0xabc_def);
    let mut doc = Doc::open(&data, BLOCK, OpenMode::Text);
    let pos = 50_000usize;
    doc.ed.goto_byte(pos as u64);
    doc.insert(b"X").unwrap();
    doc.insert(b"Y").unwrap();
    let expected_xy = spliced(&data, pos, b"XY");
    doc.undo().unwrap();
    doc.undo().unwrap();
    assert_eq!(doc.ed.file_size, DATA_LEN as u64);
    assert!(doc.save_as() == data, "undo 后保存应等于原始数据");
    doc.redo().unwrap();
    doc.redo().unwrap();
    assert!(doc.save_as() == expected_xy, "redo 后保存应等于编辑后数据");
}

#[test]
fn undo_restores_cursor_to_insert_point() {
    const BLOCK: usize = 32 * 1024;
    let mut doc = Doc::open(&vec![0x41u8; 1000], BLOCK, OpenMode::Text);
    let pos = 100u64;
    doc.ed.goto_byte(pos);
    doc.insert(b"HELLO").unwrap();
    assert_eq!(doc.ed.cursor_byte, pos + 5);
    doc.ed.goto_byte(500);
    doc.undo().unwrap();
    assert_eq!(doc.ed.cursor_byte, pos, "undo 插入后光标应回到插入点");
    doc.redo().unwrap();
    assert_eq!(doc.ed.cursor_byte, pos + 5, "redo 插入后光标应到插入内容末尾");
}

#[test]
fn undo_restores_cursor_to_delete_start() {
    const BLOCK: usize = 32 * 1024;
    let mut doc = Doc::open(&vec![0x42u8; 1000], BLOCK, OpenMode::Text);
    let pos = 100u64;
    doc.ed.goto_byte(pos);
    doc.delete(5).unwrap();
    doc.ed.goto_byte(900);
    doc.undo().unwrap();
    assert_eq!(doc.ed.cursor_byte, pos, "undo 删除后光标应回到删除起点");
    doc.redo().unwrap();
    assert_eq!(doc.ed.cursor_byte, pos, "redo 删除后光标保持在删除起点");
}

#[test]
fn search_finds_unsaved_edits() {
    const BLOCK: usize = 32 * 1024;
    let mut doc = Doc::open(b"AAAAfind original BBBB", BLOCK, OpenMode::Text);
    doc.ed.goto_byte(4);
    doc.insert(b"find-new-").unwrap();
    doc.ed.goto_byte(0);
    let r = doc.search(b"find-new", Direction::Forward, 10);
    assert_eq!(r.matches, vec![4], "应命中内存中新插入的内容");
    let end = doc.ed.file_size;
    doc.ed.goto_byte(end);
    let r2 = doc.search(b"find-new", Direction::Backward, 10);
    assert_eq!(r2.matches, vec![4]);
    doc.ed.goto_byte(0);
    let r3 = doc.search(b"original", Direction::Forward, 10);
    assert_eq!(r3.matches, vec![18], "编辑偏移后的原内容位置应正确");
}

#[test]
fn search_after_split_finds_content() {
    const BLOCK: usize = 32;
    let mut doc = Doc::open(&vec![0x41u8; 32], BLOCK, OpenMode::Text);
    doc.ed.goto_byte(0);
    doc.insert(&[0x42u8; 48]).unwrap();
    assert!(doc.ed.block_count >= 2);
    doc.ed.goto_byte(0);
    let r = doc.search(&[0x42u8; 4], Direction::Forward, 1);
    assert_eq!(r.matches, vec![0], "前 48 字节都是 0x42");
    let mut pattern = vec![0x42u8; 10];
    pattern.push(0x41);
    let cross = doc.search(&pattern, Direction::Forward, 10);
    assert_eq!(cross.matches, vec![38], "跨块边界应匹配到位置 38");
}

#[test]
fn open_small_cursor_move_insert() {
    let init = b"0123456789".repeat(10);
    let mut doc = Doc::open(&init, 32, OpenMode::Text);
    assert_eq!(doc.ed.file_size, 100);
    assert_eq!(doc.ed.cursor_byte, 0);
    doc.ed.goto_byte(50);
    assert_eq!(doc.ed.cursor_byte, 50);
    doc.insert(b"XY").unwrap();
    assert_eq!(doc.ed.file_size, 102);
    assert_eq!(doc.ed.cursor_byte, 52);
    doc.delete(1).unwrap();
    assert_eq!(doc.ed.file_size, 101);
    let mut exp = init[..50].to_vec();
    exp.extend_from_slice(b"XY");
    exp.extend_from_slice(&init[51..]);
    assert_eq!(doc.save_as(), exp);
}

#[test]
fn open_empty_file() {
    let mut doc = Doc::default(b"", OpenMode::Text);
    assert_eq!(doc.ed.file_size, 0);
    doc.insert(b"Hello").unwrap();
    assert_eq!(doc.ed.file_size, 5);
    assert_eq!(doc.ed.cursor_byte, 5);
    assert_eq!(doc.save_as(), b"Hello");
}

#[test]
fn insert_at_end() {
    let mut doc = Doc::default(b"ABCDEF", OpenMode::Text);
    doc.ed.goto_byte(6);
    doc.insert(b"GHI").unwrap();
    assert_eq!(doc.ed.file_size, 9);
    assert_eq!(doc.save_as(), b"ABCDEFGHI");
}

#[test]
fn load_sequential_blocks() {
    let data: Vec<u8> = (0u64..4)
        .flat_map(|i| std::iter::repeat(i as u8).take(256 * 1024))
        .collect();
    let mut doc = Doc::default(&data, OpenMode::Binary);
    let block_bytes = doc.bytes_of(3);
    assert_eq!(block_bytes.len(), 256 * 1024);
    assert!(block_bytes.iter().all(|b| *b == 3), "所有字节应该为 3");
}

#[test]
fn partial_last_block() {
    let size = 256 * 1024 + 42;
    let mut doc = Doc::default(&vec![0xABu8; size], OpenMode::Binary);
    assert_eq!(doc.bytes_of(1).len(), 42);
}

fn search_from(data: &[u8], start: u64, direction: Direction, limit: usize, query: &[u8]) -> SearchResult {
    let mut doc = Doc::default(data, OpenMode::Text);
    doc.run_search(SearchJob::new(query.to_vec(), start, 0, 0, 1, direction, limit))
}

#[test]
fn search_forward_basic() {
    let result = search_from(b"abcXXXXXXXabcXXXXXXXabc", 0, Direction::Forward, 10, b"abc");
    assert_eq!(result.matches, vec![0, 10, 20]);
    assert!(!result.has_more_behind);
}

#[test]
fn search_forward_with_limit() {
    let result = search_from(b"abcXXXabcXXXabcXXXabc", 0, Direction::Forward, 2, b"abc");
    assert_eq!(result.matches, vec![0, 6]);
    assert!(result.has_more_behind);
}

#[test]
fn search_forward_from_offset() {
    let result = search_from(b"abcXXXabcXXXabc", 5, Direction::Forward, 10, b"abc");
    assert_eq!(result.matches, vec![6, 12]);
}

#[test]
fn search_backward_basic() {
    let result = search_from(b"abcXXXabcXXXabc", 13, Direction::Backward, 10, b"abc");
    assert_eq!(result.matches, vec![12, 6, 0]);
}

#[test]
fn search_not_found() {
    let result = search_from(b"hello world no match here", 0, Direction::Forward, 10, b"xyz");
    assert!(result.matches.is_empty());
}

fn search_blocks(
    data: &[u8],
    block_size: usize,
    query: &[u8],
    start: u64,
    direction: Direction,
    limit: usize,
) -> SearchResult {
    let mut doc = Doc::open(data, block_size, OpenMode::Binary);
    let block_count = io_worker::compute_block_count(data.len() as u64, block_size);
    let start_block = (start / block_size as u64).min(block_count.saturating_sub(1));
    doc.run_search(SearchJob::new(
        query.to_vec(),
        start,
        start_block,
        start_block * block_size as u64,
        block_count,
        direction,
        limit,
    ))
}

#[test]
fn cross_block_match_forward() {
    let mut data = vec![0x41u8; 32];
    data[12..20].copy_from_slice(b"ABCDEFGH");
    let result = search_blocks(&data, 16, b"ABCDEFGH", 0, Direction::Forward, 10);
    assert_eq!(result.matches, vec![12], "应匹配跨块位置 12");
    assert!(!result.has_more_behind);
}

#[test]
fn cross_block_match_backward() {
    let mut data = vec![0x41u8; 32];
    data[12..20].copy_from_slice(b"ABCDEFGH");
    let result = search_blocks(&data, 16, b"ABCDEFGH", 25, Direction::Backward, 10);
    assert_eq!(result.matches, vec![12]);
}

#[test]
fn multiple_cross_block_matches() {
    let block_size = 16;
    let mut data = vec![0x41u8; block_size * 4];
    for &start in &[14usize, 30, 46] {
        data[start..start + 4].copy_from_slice(b"XXXX");
    }
    let result = search_blocks(&data, block_size, b"XXXX", 0, Direction::Forward, 10);
    assert_eq!(result.matches, vec![14, 30, 46], "应匹配 3 个跨块位置");
}

#[test]
fn match_at_exact_block_boundary() {
    let block_size = 16;
    let mut data = vec![0x41u8; 32];
    data[block_size..block_size + 4].copy_from_slice(b"TEST");
    let result = search_blocks(&data, block_size, b"TEST", 0, Direction::Forward, 10);
    assert_eq!(result.matches, vec![block_size as u64]);
}

#[test]
fn no_false_positive_at_boundary() {
    let block_size = 8;
    let mut data = vec![0x41u8; 32];
    data[6..8].copy_from_slice(b"AB");
    data[8..10].copy_from_slice(b"CD");
    let result = search_blocks(&data, block_size, b"ABCD", 0, Direction::Forward, 10);
    assert_eq!(result.matches, vec![6], "跨块拼接应匹配位置 6");
}

#[test]
fn search_after_edit_offset_shift() {
    let block_size = 16;
    let mut data = vec![0x41u8; 48];
    data[20..24].copy_from_slice(b"FIND");
    let result = search_blocks(&data, block_size, b"FIND", 0, Direction::Forward, 10);
    assert_eq!(result.matches, vec![20]);
    let result = search_blocks(&data, block_size, b"FIND", 25, Direction::Forward, 10);
    assert!(result.matches.is_empty());
}

#[test]
fn read_only_blocks_mutation() {
    let mut doc = Doc::default(b"hello world", OpenMode::Text);
    doc.ed.read_only = true;
    doc.ed.goto_byte(5);
    let r = doc.insert(b"XXX");
    assert!(r.is_err(), "只读模式下插入应失败");
    assert_eq!(doc.ed.file_size, 11, "文件大小不应变化");
    assert!(doc.ed.cache.dirty_ids().is_empty(), "不应产生脏块");
    let r = doc.delete(3);
    assert!(r.is_err(), "只读模式下删除应失败");
    doc.ed.read_only = false;
    doc.insert(b"YY").unwrap();
    doc.ed.read_only = true;
    assert!(doc.undo().is_err(), "只读模式下撤销应失败");
    assert_eq!(doc.ed.file_size, 13, "撤销不应生效");
    doc.ed.read_only = false;
    doc.undo().unwrap();
    assert_eq!(doc.ed.file_size, 11, "可写后撤销应生效");
}

#[test]
fn save_incremental_persists_to_wal() {
    let mut doc = Doc::open(b"AAAAAAAAAA", 32, OpenMode::Text);
    doc.ed.goto_byte(2);
    doc.insert(b"NEW").unwrap();
    assert!(!doc.ed.cache.dirty_ids().is_empty());
    doc.save_incremental();
    assert!(doc.ed.cache.dirty_ids().is_empty(), ":w 后脏块应清空");
    assert!(doc.ed.wal_pending(), ":w 后应有未合并 WAL 增量");
    let w = doc.ed.cache.wal().unwrap().read(0, doc.log.as_ref().unwrap()).unwrap();
    assert!(w.windows(3).any(|x| x == b"NEW"), "WAL 应含编辑后内容, got {:?}", w);
}

#[test]
fn save_as_merges_wal_content() {
    let mut doc = Doc::open(b"AAAAAAAAAA", 32, OpenMode::Text);
    doc.open_log();
    let edited0 = b"XNEWAAAAAAAAA".to_vec();
    doc.append(0, &edited0);
    assert_eq!(doc.save_as(), edited0, "save_as 应采用 WAL 中的块内容");
}

#[test]
fn lazy_wal_no_file_until_first_edit() {
    let mut doc = Doc::open(b"AAAAAAAAAA", 32, OpenMode::Text);
    assert!(doc.ed.cache.wal().is_none(), "未编辑前不应挂接 WAL");
    assert!(doc.log.is_none(), "未编辑前不应生成 WAL 临时文件");
    doc.ed.goto_byte(2);
    doc.insert(b"NEW").unwrap();
    assert!(doc.ed.cache.wal().is_some(), "首次编辑后应挂接 WAL");
    assert!(doc.log.is_some(), "首次编辑后应生成 WAL 临时文件");
}

#[test]
fn fold_save_removes_wal_file() {
    let mut doc = Doc::open(b"AAAAAAAAAA", 32, OpenMode::Text);
    doc.ed.goto_byte(2);
    doc.insert(b"NEW").unwrap();
    assert!(doc.log.is_some(), "编辑后 WAL 已创建");
    doc.save(true);
    assert!(doc.ed.cache.wal().is_none(), "合并保存后应删除 WAL 临时文件");
    assert!(!doc.ed.wal_pending(), "折叠后不应有未合并 WAL 增量");
    doc.open_log();
    assert!(doc.log.is_some(), "ensure_wal 应重新创建 WAL 临时文件");
    assert!(doc.ed.cache.wal().is_some());
}

#[test]
fn reopen_replays_wal() {
    let disk = b"AAAAAAAAAA";
    let log = {
        let mut doc = Doc::open(disk, 32, OpenMode::Text);
        doc.ed.goto_byte(2);
        doc.insert(b"NEW").unwrap();
        doc.save_incremental();
        doc.log
    };
    let mut doc2 = Doc::reopen(disk, log, 32, OpenMode::Text, 64);
    assert!(doc2.ed.wal_pending(), "重新打开应检测到 WAL");
    if let Step::NeedBlock(id) = doc2.ed.ensure_block_loaded(0) {
        doc2.load(id);
    }
    let snap = match doc2.ed.ensure_block_loaded(0) {
        Step::Done(snap) => snap,
        _ => panic!("block 0 was loaded"),
    };
    assert!(
        snap.contiguous.windows(3).any(|x| x == b"NEW"),
        "应从 WAL 回放编辑内容, got {:?}",
        snap.contiguous
    );
}

#[test]
fn cursor_screen_pos_text_and_hex() {
    let mut content = b"aaaa\nbbbb\ncccc\n".to_vec();
    content.resize(100, 0x41);
    let mut doc = Doc::default(&content, OpenMode::Text);
    let mut vp = ViewPort::new(24, 80);
    doc.ed.goto_byte(0);
    assert_eq!(doc.cursor_pos(&mut vp, 16), Some((0, 0)));
    doc.ed.goto_byte(5);
    assert_eq!(doc.cursor_pos(&mut vp, 16), Some((1, 0)));
    doc.ed.goto_byte(7);
    assert_eq!(doc.cursor_pos(&mut vp, 16), Some((1, 2)));
    doc.ed.goto_byte(14);
    assert_eq!(doc.cursor_pos(&mut vp, 16), Some((2, 4)));

    let mut doch = Doc::default(&content, OpenMode::Binary);
    let mut vph = ViewPort::new(24, 80);
    doch.ed.goto_byte(0);
    assert_eq!(doch.cursor_pos(&mut vph, 16), Some((0, 10)));
    doch.ed.goto_byte(1);
    assert_eq!(doch.cursor_pos(&mut vph, 16), Some((0, 13)));
    doch.ed.goto_byte(16);
    assert_eq!(doch.cursor_pos(&mut vph, 16), Some((1, 10)));
}

#[test]
fn move_cursor_lines_follows_viewport() {
    let mut data = Vec::new();
    for i in 0..100 {
        data.extend_from_slice(format!("line{i:03}\n").as_bytes());
    }
    let mut doc = Doc::default(&data, OpenMode::Text);
    let mut vp = ViewPort::new(24, 80);
    doc.ed.goto_byte(40 + 3);
    doc.perform(&mut vp, ViewOp::MoveLines(1));
    assert_eq!(doc.ed.cursor_byte, 48 + 3, "下移一行应到第 6 行同列");
    assert_eq!(doc.cursor_pos(&mut vp, 16), Some((6, 3)));
    doc.perform(&mut vp, ViewOp::MoveLines(-1));
    assert_eq!(doc.ed.cursor_byte, 40 + 3);
    for _ in 0..80 {
        doc.perform(&mut vp, ViewOp::MoveLines(1));
        doc.perform(&mut vp, ViewOp::ShowCursor);
        assert!(doc.cursor_pos(&mut vp, 16).is_some(), "光标应始终在视口内");
    }

    let mut doch = Doc::default(&data, OpenMode::Binary);
    let mut vph = ViewPort::new(24, 80);
    doch.ed.goto_byte(20);
    doch.perform(&mut vph, ViewOp::MoveLines(1));
    assert_eq!(doch.ed.cursor_byte, 36);
    assert_eq!(doch.cursor_pos(&mut vph, 16), Some((2, 22)));
    for _ in 0..40 {
        doch.perform(&mut vph, ViewOp::MoveLines(1));
        doch.perform(&mut vph, ViewOp::ShowCursor);
        assert!(doch.cursor_pos(&mut vph, 16).is_some(), "hex 光标应始终在视口内");
    }
}

#[test]
fn narrow_terminal_hex_bytes_per_line() {
    let mut doc = Doc::default(&vec![0x41u8; 10_000], OpenMode::Binary);
    let mut vp = ViewPort::new(24, 30);
    assert_eq!(vp.bytes_per_line(&doc.ed), 8, "窄终端 hex 行宽应降级为 8");
    doc.ed.goto_byte(20);
    doc.perform(&mut vp, ViewOp::MoveLines(1));
    assert_eq!(doc.ed.cursor_byte, 28);
    assert_eq!(doc.cursor_pos(&mut vp, 8), Some((3, 22)));
    for _ in 0..40 {
        doc.perform(&mut vp, ViewOp::MoveLines(1));
        doc.perform(&mut vp, ViewOp::ShowCursor);
        assert!(doc.cursor_pos(&mut vp, 8).is_some(), "窄终端光标应始终在视口内");
    }
    let vp_wide = ViewPort::new(24, 80);
    assert_eq!(vp_wide.bytes_per_line(&doc.ed), 16);
}

#[test]
fn text_rows_follow_real_lines() {
    let mut doc = Doc::default(b"aaa\nbb\nccccccc\n", OpenMode::Text);
    let vp = ViewPort::new(24, 80);
    let rows = doc.text_rows(&vp);
    assert_eq!(rows[0], Some((0, b"aaa".to_vec())));
    assert_eq!(rows[1], Some((4, b"bb".to_vec())));
    assert_eq!(rows[2], Some((7, b"ccccccc".to_vec())));
    assert_eq!(rows[3], None, "超出文件末尾应返回 None");
    assert_eq!(rows[23], None);
    let mut vp2 = ViewPort::new(24, 80);
    doc.perform(&mut vp2, ViewOp::ScrollLines(1));
    assert_eq!(vp2.top_byte, 4, "按真实行滚动一行后顶部应为第 1 行");
}

#[test]
fn lines_cross_blocks_with_little_room() {
    // A line longer than all the blocks that fit into the cache.
    let mut data = vec![b'x'; 100];
    data.push(b'\n');
    data.extend_from_slice(b"tail");
    let mut doc = Doc::reopen(&data, None, 8, OpenMode::Text, 2);
    let vp = ViewPort::new(3, 80);
    let rows = doc.text_rows(&vp);
    assert_eq!(rows[0], Some((0, vec![b'x'; 100])));
    assert_eq!(rows[1], Some((101, b"tail".to_vec())));
    assert_eq!(rows[2], None);
}

#[test]
fn a_line_ends_before_a_block_that_cannot_be_read() {
    let data = b"0123456789abcdef\n".to_vec();
    let mut doc = Doc::open(&data, 8, OpenMode::Text);
    doc.load(0);
    let vp = ViewPort::new(2, 80);
    let mut job = vp.begin_rows();
    match vp.text_rows(&mut doc.ed, &mut job, &Vec::new()) {
        Fetch::Missing(id) => assert_eq!(id, 1),
        Fetch::Ready(_) => panic!("block 1 is not there"),
    }
    assert!(matches!(vp.text_rows(&mut doc.ed, &mut job, &vec![1]), Fetch::Ready(_)));
    assert_eq!(job.rows, vec![Some((0, b"01234567".to_vec())), None]);
}

#[test]
fn hex_rows_show_cached_blocks() {
    let data: Vec<u8> = (0..40).collect();
    let mut doc = Doc::open(&data, 16, OpenMode::Binary);
    doc.load(0);
    doc.load(2);
    let vp = ViewPort::new(6, 30);
    let rows = doc.ed.cache.stats().hits;
    assert_eq!(rows, 0);
    let rows = vp.hex_rows(&mut doc.ed, 8);
    assert_eq!(rows[0], Some((0, data[0..8].to_vec())));
    assert_eq!(rows[1], Some((8, data[8..16].to_vec())));
    assert_eq!(rows[2], Some((16, vec![])));
    assert_eq!(rows[4], Some((32, data[32..40].to_vec())));
    assert_eq!(rows[5], None);
}

#[test]
fn frames_show_text_and_bytes() {
    let mut doc = Doc::default(b"ab\n\tc", OpenMode::Text);
    let vp = ViewPort::new(3, 80);
    let rows = doc.text_rows(&vp);
    let lines = view_lines(&doc.ed, &vp, &rows, 16, 3);
    assert_eq!(lines[0].spans[0].content, "ab");
    assert_eq!(lines[1].spans[0].content, "    c");
    assert_eq!(lines[2].spans[0].content, "~");

    doc.ed.mode = OpenMode::Binary;
    doc.ed.goto_byte(1);
    let rows = vp.hex_rows(&mut doc.ed, 4);
    let lines = view_lines(&doc.ed, &vp, &rows, 4, 2);
    assert_eq!(lines.len(), 2);
    let text: String = lines[0].spans.iter().map(|s| s.content.as_str()).collect();
    assert_eq!(text, "00000000  61 62 0A 09  ab··");
}

#[test]
fn status_bar_tells_place_and_cache() {
    let mut doc = Doc::open(&vec![0u8; 100], 16, OpenMode::Binary);
    doc.ed.goto_byte(40);
    doc.load(2);
    let stats = doc.ed.cache.stats();
    let line = render_status_bar(&doc.ed, &stats, &StatusState::default(), "50");
    assert_eq!(
        line.spans[0].content,
        "[NORMAL] [Hex] [RW] Pos 40/100 Block 2/7 Cache 1/64 Hit 50% Enc UTF-8"
    );
}

#[test]
fn deleting_across_blocks_is_refused() {
    let data = vec![0x41u8; 64];
    let mut doc = Doc::open(&data, 32, OpenMode::Binary);
    doc.ed.goto_byte(30);
    let e = doc.delete(4).unwrap_err();
    assert!(e.to_string().contains("跨块删除在 Task9 实现"), "{}", e.to_string());
    assert_eq!(doc.save_as(), data);
}

#[test]
fn nothing_to_undo_or_redo_errors() {
    let mut doc = Doc::default(b"abc", OpenMode::Text);
    doc.open_log();
    assert!(matches!(doc.undo(), Err(EditError::NothingToUndo)));
    assert!(matches!(doc.redo(), Err(EditError::NothingToRedo)));
}

#[test]
fn deleting_behind_the_end_errors() {
    let mut doc = Doc::default(b"abc", OpenMode::Text);
    doc.ed.goto_byte(2);
    assert!(doc.delete(5).is_err());
    assert_eq!(doc.ed.file_size, 3);
}

#[test]
fn unreadable_blocks_refuse_edits() {
    let mut doc = Doc::default(b"abc", OpenMode::Text);
    doc.open_log();
    assert!(matches!(doc.ed.insert_bytes_at_cursor(b"x", None), Step::NeedBlock(0)));
    match doc.ed.insert_bytes_at_cursor(b"x", Some(0)) {
        Step::Done(Err(e)) => assert_eq!(e.to_string(), "GapBuffer: 加载块 0 失败"),
        _ => panic!("block 0 cannot be read"),
    }
}

#[test]
fn edits_survive_a_full_cache() {
    // Eight blocks are edited, and two fit into the cache.
    let data: Vec<u8> = (0..128).map(|i| (i % 26) as u8 + b'a').collect();
    let mut doc = Doc::reopen(&data, None, 16, OpenMode::Text, 2);
    let mut expected = data.clone();
    for k in (0..8usize).rev() {
        doc.ed.goto_byte(k as u64 * 16 + 3);
        doc.insert(b"<>").unwrap();
        expected = spliced(&expected, k * 16 + 3, b"<>");
    }
    assert!(doc.ed.wal_pending());
    assert_eq!(doc.save_as(), expected);
}

#[test]
fn undo_limit_forgets_the_oldest() {
    let mut doc = Doc::default(b"", OpenMode::Text);
    let cfg = EditorConfig { undo_limit: 2, ..Default::default() };
    doc.ed.config = Arc::new(cfg);
    for b in [b"1", b"2", b"3"] {
        doc.insert(b).unwrap();
    }
    assert_eq!(doc.ed.undo_stack.len(), 2);
    doc.undo().unwrap();
    doc.undo().unwrap();
    assert!(matches!(doc.undo(), Err(EditError::NothingToUndo)));
    assert_eq!(doc.save_as(), b"1");
}

#[test]
fn line_index_after_edits() {
    let mut doc = Doc::open(b"one\ntwo\nthree\n", 4, OpenMode::Text);
    let none: Vec<BlockId> = Vec::new();
    let mut vp = ViewPort::new(5, 80);
    loop {
        match vp.line_index.total_lines(&mut doc.ed, &none) {
            Fetch::Ready(n) => {
                assert_eq!(n, 4);
                break;
            }
            Fetch::Missing(id) => doc.load(id),
        }
    }
    doc.ed.goto_byte(3);
    doc.insert(b"\nhalf").unwrap();
    loop {
        match vp.line_index.line_start(&mut doc.ed, 2, &none) {
            Fetch::Ready(b) => {
                assert_eq!(b, 9);
                break;
            }
            Fetch::Missing(id) => doc.load(id),
        }
    }
    loop {
        match vp.line_index.offset_to_line(&mut doc.ed, 6, &none) {
            Fetch::Ready(place) => {
                assert_eq!(place, (1, 2));
                break;
            }
            Fetch::Missing(id) => doc.load(id),
        }
    }
}

#[test]
fn searching_back_sees_a_match_that_runs_into_the_next_block() {
    let mut data = vec![0x41u8; 32];
    data[12..20].copy_from_slice(b"ABCDEFGH");
    let mut doc = Doc::open(&data, 16, OpenMode::Binary);
    doc.ed.goto_byte(15);
    let result = doc.search(b"ABCDEFGH", Direction::Backward, 10);
    assert_eq!(result.matches, vec![12]);
}

#[test]
fn a_small_block_joins_its_neighbour() {
    let data: Vec<u8> = (0..64).collect();
    let mut doc = Doc::open(&data, 32, OpenMode::Binary);
    doc.delete(20).unwrap();
    assert_eq!(doc.ed.block_count, 1);
    assert_eq!(doc.ed.file_size, 44);
    assert_eq!(doc.save_as(), &data[20..]);

    doc.ed.goto_byte(40);
    doc.undo().unwrap();
    assert_eq!(doc.ed.block_count, 2);
    assert_eq!(doc.ed.cursor_byte, 0);
    assert_eq!(doc.save_as(), data);

    doc.redo().unwrap();
    assert_eq!(doc.ed.block_count, 1);
    assert_eq!(doc.save_as(), &data[20..]);
}

#[test]
fn the_last_block_joins_the_one_before_it() {
    let data: Vec<u8> = (0..96).collect();
    let mut doc = Doc::open(&data, 32, OpenMode::Binary);
    doc.ed.goto_byte(64);
    doc.delete(16).unwrap();
    assert_eq!(doc.ed.block_count, 3, "half a block stays");
    doc.delete(1).unwrap();
    assert_eq!(doc.ed.block_count, 2);
    assert_eq!(doc.save_as(), [&data[..64], &data[81..]].concat());
    doc.undo().unwrap();
    doc.undo().unwrap();
    assert_eq!(doc.ed.block_count, 3);
    assert_eq!(doc.save_as(), data);
}

#[test]
fn joined_blocks_are_logged_and_come_back() {
    let data: Vec<u8> = (0..64).collect();
    let mut doc = Doc::open(&data, 32, OpenMode::Binary);
    doc.delete(20).unwrap();
    doc.save_incremental();
    let log = doc.log.as_ref().unwrap();
    let wal = doc.ed.cache.wal().unwrap();
    assert_eq!(wal.read(0, log), Some(data[20..].to_vec()));
    assert_eq!(wal.read(1, log), Some(Vec::new()));
}

#[test]
fn both_halves_of_a_split_block_are_logged() {
    let mut doc = Doc::open(&[0x41; 32], 32, OpenMode::Binary);
    doc.insert(&[0x42; 48]).unwrap();
    assert_eq!(doc.ed.block_count, 2);
    doc.save_incremental();
    let log = doc.log.as_ref().unwrap();
    let wal = doc.ed.cache.wal().unwrap();
    assert_eq!(wal.read(0, log), Some(vec![0x42; 40]));
    assert_eq!(wal.read(1, log), Some([vec![0x42; 8], vec![0x41; 32]].concat()));
    assert!(doc.ed.cache.dirty_ids().is_empty());
}

#[test]
fn split_halves_survive_a_full_cache() {
    let mut doc = Doc::reopen(&[0x41; 32], None, 32, OpenMode::Binary, 1);
    doc.insert(&[0x42; 48]).unwrap();
    doc.load(0);
    doc.load(1);
    assert_eq!(doc.save_as(), [vec![0x42; 48], vec![0x41; 32]].concat());
}

#[test]
fn a_single_line_keeps_the_column() {
    let mut doc = Doc::default(b"abcdef", OpenMode::Text);
    let mut vp = ViewPort::new(5, 80);
    doc.ed.goto_byte(3);
    doc.perform(&mut vp, ViewOp::MoveLines(1));
    assert_eq!(doc.ed.cursor_byte, 3);
    doc.perform(&mut vp, ViewOp::MoveLines(-1));
    assert_eq!(doc.ed.cursor_byte, 3);
}

#[test]
fn a_shorter_line_stops_the_cursor_at_its_end() {
    let mut doc = Doc::default(b"aaaaaa\nbb\ncccccc\n", OpenMode::Text);
    let mut vp = ViewPort::new(5, 80);
    doc.ed.goto_byte(5);
    doc.perform(&mut vp, ViewOp::MoveLines(1));
    assert_eq!(doc.ed.cursor_byte, 9);
    doc.ed.goto_byte(5);
    doc.perform(&mut vp, ViewOp::MoveLines(2));
    assert_eq!(doc.ed.cursor_byte, 15);
}

#[test]
fn the_screen_of_bytes_follows_the_cursor_up() {
    let mut doc = Doc::open(&[0u8; 20], 32, OpenMode::Binary);
    let mut vp = ViewPort::new(4, 80);
    vp.top_byte = 20;
    doc.ed.goto_byte(18);
    doc.perform(&mut vp, ViewOp::ShowCursor);
    assert_eq!(vp.bytes_per_line(&doc.ed), 16);
    assert_eq!(vp.top_byte, 16);
    assert_eq!(doc.cursor_pos(&mut vp, 16), Some((0, 16)));
}

#[test]
fn a_screen_of_text_starts_with_a_line() {
    let mut doc = Doc::default(b"first\nsecond\nthird\n", OpenMode::Text);
    let mut vp = ViewPort::new(3, 80);
    vp.top_byte = 9;
    doc.ed.goto_byte(10);
    doc.perform(&mut vp, ViewOp::AlignTop);
    doc.perform(&mut vp, ViewOp::ShowCursor);
    assert_eq!(vp.top_byte, 6);
    let rows = doc.text_rows(&vp);
    assert_eq!(rows[0], Some((6, b"second".to_vec())));
}

#[test]
fn hex_rows_cross_blocks_after_an_edit() {
    let data = [vec![0x41u8; 32], vec![0x42u8; 32]].concat();
    let mut doc = Doc::open(&data, 32, OpenMode::Binary);
    doc.load(1);
    doc.insert(b"XXXX").unwrap();
    let vp = ViewPort::new(6, 80);
    let rows = vp.hex_rows(&mut doc.ed, 16);
    assert_eq!(rows[0], Some((0, [b"XXXX".to_vec(), vec![0x41; 12]].concat())));
    assert_eq!(rows[1], Some((16, vec![0x41; 16])));
    assert_eq!(rows[2], Some((32, [vec![0x41; 4], vec![0x42; 12]].concat())));
    assert_eq!(rows[3], Some((48, vec![0x42; 16])));
    assert_eq!(rows[4], Some((64, vec![0x42; 4])));
    assert_eq!(rows[5], None);
}

#[test]
fn a_line_behind_the_last_leaves_the_index_right() {
    let mut doc = Doc::default(b"aaa\nbb", OpenMode::Text);
    doc.load(0);
    let none: Vec<BlockId> = Vec::new();
    let mut vp = ViewPort::new(5, 80);
    assert!(matches!(vp.line_index.line_start(&mut doc.ed, 100, &none), Fetch::Ready(_)));
    match vp.line_index.offset_to_line(&mut doc.ed, 6, &none) {
        Fetch::Ready(place) => assert_eq!(place, (1, 2)),
        Fetch::Missing(_) => panic!("block 0 was loaded"),
    }
}

#[test]
fn saving_elsewhere_leaves_edits_unsaved() {
    let mut doc = Doc::open(b"AAAAAAAAAA", 32, OpenMode::Text);
    doc.insert(b"NEW").unwrap();
    assert_eq!(doc.save_as(), b"NEWAAAAAAAAAA");
    assert_eq!(doc.ed.cache.dirty_ids(), vec![0]);
    doc.undo().unwrap();
    assert_eq!(doc.save_as(), b"AAAAAAAAAA");
}

#[test]
fn saving_over_the_file_lays_it_out_anew() {
    let data: Vec<u8> = (0..64).collect();
    let mut doc = Doc::open(&data, 32, OpenMode::Binary);
    doc.ed.goto_byte(4);
    doc.insert(b"XXXX").unwrap();
    let expected = spliced(&data, 4, b"XXXX");
    assert_eq!(doc.save(true), expected);
    assert_eq!(doc.disk, expected);
    assert_eq!(doc.ed.block_count, 3);
    assert_eq!(doc.ed.file_size, 68);
    assert_eq!(doc.ed.original_file_size, 68);
    assert!(doc.ed.cache.dirty_ids().is_empty());
    assert!(!doc.ed.wal_pending());
    assert!(doc.ed.undo_stack.is_empty());
    assert_eq!(doc.bytes_of(1), &expected[32..64]);
    assert_eq!(doc.bytes_of(2), &expected[64..]);

    doc.ed.goto_byte(66);
    doc.insert(b"!").unwrap();
    assert_eq!(doc.save_as(), spliced(&expected, 66, b"!"));
    assert_eq!(doc.save_as(), spliced(&expected, 66, b"!"));
}

#[test]
fn redo_lasts_until_the_next_edit() {
    let mut doc = Doc::default(b"abc", OpenMode::Text);
    doc.insert(b"1").unwrap();
    doc.ed.goto_byte(3);
    doc.undo().unwrap();
    doc.ed.goto_byte(2);
    doc.redo().unwrap();
    assert_eq!(doc.ed.cursor_byte, 1);
    assert_eq!(doc.save_as(), b"1abc");
    doc.undo().unwrap();
    doc.insert(b"2").unwrap();
    assert!(matches!(doc.redo(), Err(EditError::NothingToRedo)));
    assert_eq!(doc.save_as(), b"2abc");
}

/// The document as it is opened again after the program ended.
fn reopened(doc: &Doc, block_size: usize, mode: OpenMode) -> Doc {
    Doc::reopen(&doc.disk, doc.log.clone(), block_size, mode, 64)
}

#[test]
fn a_grown_block_comes_back() {
    let mut doc = Doc::open(b"AAAAAAAAAA", 32, OpenMode::Text);
    doc.ed.goto_byte(2);
    doc.insert(b"NEW").unwrap();
    doc.save_incremental();
    let mut again = reopened(&doc, 32, OpenMode::Text);
    assert_eq!(again.ed.file_size, 13);
    assert_eq!(again.ed.original_file_size, 10);
    assert_eq!(again.save_as(), b"AANEWAAAAAAAA");
    again.ed.goto_byte(13);
    again.insert(b"!").unwrap();
    assert_eq!(again.save_as(), b"AANEWAAAAAAAA!");
}

#[test]
fn a_split_block_comes_back() {
    let mut doc = Doc::open(&[0x41; 32], 32, OpenMode::Binary);
    doc.insert(&[0x42; 48]).unwrap();
    doc.save_incremental();
    let mut again = reopened(&doc, 32, OpenMode::Binary);
    assert_eq!(again.ed.block_count, 2);
    assert_eq!(again.ed.file_size, 80);
    assert_eq!(again.save_as(), [vec![0x42; 48], vec![0x41; 32]].concat());
}

#[test]
fn a_split_that_was_undone_does_not_come_back() {
    let mut doc = Doc::open(&[0x41; 32], 32, OpenMode::Binary);
    doc.insert(&[0x42; 48]).unwrap();
    doc.save_incremental();
    doc.undo().unwrap();
    assert_eq!(doc.save_as(), vec![0x41; 32]);
    doc.save_incremental();
    let mut again = reopened(&doc, 32, OpenMode::Binary);
    assert_eq!(again.ed.file_size, 32);
    assert_eq!(again.save_as(), vec![0x41; 32]);
    doc.redo().unwrap();
    assert_eq!(doc.save_as(), [vec![0x42; 48], vec![0x41; 32]].concat());
}

#[test]
fn a_joined_block_comes_back() {
    let data: Vec<u8> = (0..64).collect();
    let mut doc = Doc::open(&data, 32, OpenMode::Binary);
    doc.delete(20).unwrap();
    doc.save_incremental();
    let mut again = reopened(&doc, 32, OpenMode::Binary);
    assert_eq!(again.ed.file_size, 44);
    assert_eq!(again.save_as(), &data[20..]);
    again.ed.goto_byte(44);
    again.insert(b"end").unwrap();
    assert_eq!(again.save_as(), [&data[20..], b"end"].concat());
}

#[test]
fn an_empty_file_with_a_log_comes_back() {
    let mut doc = Doc::open(b"", 32, OpenMode::Text);
    doc.insert(b"hello").unwrap();
    doc.save_incremental();
    let mut again = reopened(&doc, 32, OpenMode::Text);
    assert_eq!(again.ed.file_size, 5);
    assert_eq!(again.save_as(), b"hello");
}

#[test]
fn edits_that_left_memory_come_back() {
    let data: Vec<u8> = (0..128).map(|i| (i % 26) as u8 + b'a').collect();
    let mut doc = Doc::reopen(&data, None, 16, OpenMode::Text, 2);
    let mut expected = data.clone();
    for k in (0..8usize).rev() {
        doc.ed.goto_byte(k as u64 * 16 + 3);
        doc.insert(b"<>").unwrap();
        expected = spliced(&expected, k * 16 + 3, b"<>");
    }
    doc.save_incremental();
    let mut again = reopened(&doc, 16, OpenMode::Text);
    assert_eq!(again.ed.file_size, 144);
    assert_eq!(again.save_as(), expected);
}

#[test]
fn a_file_that_cannot_be_counted_is_not_opened() {
    let cfg = Arc::new(EditorConfig { block_size: 1 << 40, ..Default::default() });
    let open = |size: u64| {
        Editor::open(
            "doc.bin".to_string(),
            cfg.clone(),
            OpenMode::Binary,
            TextEncoding::utf_8(),
            size,
            BlockCache::new(cfg.clone(), 4),
        )
    };
    assert_eq!(open(i64::MAX as u64).map(|ed| ed.block_count).unwrap(), 1 << 23);
    match open(i64::MAX as u64 + 1) {
        Err(e) => assert!(e.to_string().contains("文件过大"), "{}", e.to_string()),
        Ok(_) => panic!("the size does not fit"),
    }
}

#[test]
fn a_log_can_be_taken_away() {
    let mut doc = Doc::open(b"AAAA", 32, OpenMode::Text);
    doc.insert(b"N").unwrap();
    assert!(doc.ed.cache.wal().is_some());
    doc.ed.dispose_wal();
    assert!(doc.ed.cache.wal().is_none());
    assert!(!doc.ed.wal_pending());
    assert_eq!(doc.ed.file_size, 5);
}

/// A text of `n` lines of sixteen bytes each, in blocks of as many.
fn lined(n: usize) -> Vec<u8> {
    (0..n).flat_map(|i| format!("line {:010}\n", i).into_bytes()).collect()
}

/// Does `op`, and says which blocks had to be loaded.
fn loads(doc: &mut Doc, vp: &mut ViewPort, op: ViewOp) -> Vec<BlockId> {
    let none: Vec<BlockId> = Vec::new();
    let mut asked = Vec::new();
    while let Fetch::Missing(id) = vp.perform(&mut doc.ed, op, &none) {
        asked.push(id);
        doc.load(id);
    }
    asked
}

#[test]
fn only_the_blocks_that_are_needed_are_asked_for() {
    let mut doc = Doc::reopen(&lined(1000), None, 16, OpenMode::Text, 4);
    let mut vp = ViewPort::new(5, 80);
    let none: Vec<BlockId> = Vec::new();
    assert!(matches!(vp.line_index.line_start(&mut doc.ed, 0, &none), Fetch::Ready(0)));
    assert_eq!(loads(&mut doc, &mut vp, ViewOp::MoveLines(2)), vec![0, 1, 2]);
    assert_eq!(doc.ed.cursor_byte, 32);
    assert_eq!(loads(&mut doc, &mut vp, ViewOp::MoveLines(1)), vec![3]);
    assert_eq!(loads(&mut doc, &mut vp, ViewOp::MoveLines(-3)), Vec::<BlockId>::new());
    assert_eq!(loads(&mut doc, &mut vp, ViewOp::ScrollPage(1)), vec![4]);
    assert_eq!(vp.top_byte, 80);

    let mut job = vp.begin_rows();
    let mut asked = Vec::new();
    while let Fetch::Missing(id) = vp.text_rows(&mut doc.ed, &mut job, &none) {
        asked.push(id);
        doc.load(id);
    }
    assert_eq!(asked, vec![5, 6, 7, 8, 9]);
    assert_eq!(job.rows[4], Some((144, b"line 0000000009".to_vec())));
}

#[test]
fn no_block_is_asked_for_twice() {
    let mut doc = Doc::reopen(&lined(200), None, 16, OpenMode::Text, 1);
    let mut vp = ViewPort::new(5, 80);
    doc.ed.goto_byte(3200);
    let asked = loads(&mut doc, &mut vp, ViewOp::ShowCursor);
    assert_eq!(asked, (0..200).collect::<Vec<BlockId>>());
    assert_eq!(loads(&mut doc, &mut vp, ViewOp::MoveLines(-150)), Vec::<BlockId>::new());
    assert_eq!(doc.ed.cursor_byte, 800);
}

#[test]
fn moves_stop_at_the_last_line() {
    for (text, last) in [("a\nb\n", 4u64), ("a\nb", 2), ("", 0)] {
        let mut doc = Doc::open(text.as_bytes(), 2, OpenMode::Text);
        let mut vp = ViewPort::new(5, 80);
        loads(&mut doc, &mut vp, ViewOp::MoveLines(i64::MAX));
        assert_eq!(doc.ed.cursor_byte, last);
        loads(&mut doc, &mut vp, ViewOp::ScrollLines(i64::MAX));
        assert_eq!(vp.top_byte, last);
        loads(&mut doc, &mut vp, ViewOp::ScrollLines(i64::MIN));
        assert_eq!(vp.top_byte, 0);
    }
}

#[test]
fn a_split_whose_halves_left_memory_is_undone() {
    let data = [vec![0x41u8; 32], vec![0x43u8; 32]].concat();
    let mut doc = Doc::reopen(&data, None, 32, OpenMode::Binary, 2);
    doc.ed.goto_byte(32);
    doc.insert(&[0x42; 48]).unwrap();
    assert_eq!(doc.ed.block_count, 3);
    doc.load(0);
    assert!(doc.ed.cache.block_len(1).is_none() || doc.ed.cache.block_len(2).is_none());
    doc.undo().unwrap();
    assert_eq!(doc.ed.block_count, 2);
    assert_eq!(doc.save_as(), data);
    doc.redo().unwrap();
    assert_eq!(doc.ed.block_count, 3);
}

#[test]
fn an_edit_that_cannot_be_undone_stays_the_last_one() {
    let mut doc = Doc::reopen(&[0x41; 64], None, 32, OpenMode::Binary, 2);
    doc.ed.goto_byte(32);
    doc.insert(&[0x42; 48]).unwrap();
    doc.load(0);
    let missing = match doc.ed.undo(None) {
        Step::NeedBlock(id) => id,
        _ => panic!("a half is not there"),
    };
    match doc.ed.undo(Some(missing)) {
        Step::Done(Err(e)) => assert!(e.to_string().contains("undo 分裂合并失败"), "{}", e.to_string()),
        _ => panic!("a half cannot be read"),
    }
    assert_eq!(doc.ed.undo_stack.len(), 1);
    assert_eq!(doc.ed.file_size, 112);
    doc.undo().unwrap();
    assert_eq!(doc.save_as(), vec![0x41; 64]);
}

#[test]
fn an_edit_that_does_not_fit_is_refused() {
    let mut doc = Doc::open(&[0x41; 32], 32, OpenMode::Binary);
    doc.insert(&[0x42; 48]).unwrap();
    let e = doc.ed.undo_stack.pop().unwrap();
    doc.ed.undo_stack.clear();
    doc.ed.undo_stack.push(e);
    doc.ed.goto_byte(80);
    doc.insert(&[0x43; 48]).unwrap();
    assert_eq!(doc.ed.block_count, 3);
    doc.ed.undo_stack.pop();
    let before = doc.save_as();
    assert!(doc.ed.can_undo());
    match doc.ed.undo(None) {
        Step::Done(Err(e)) => assert!(e.to_string().contains("编辑记录与文件不符"), "{}", e.to_string()),
        _ => panic!("the halves are not the last two blocks"),
    }
    assert_eq!(doc.ed.undo_stack.len(), 1);
    assert_eq!(doc.save_as(), before);
}

#[test]
fn many_edits_are_undone_and_redone_in_turn() {
    let data: Vec<u8> = (0..96).collect();
    let mut doc = Doc::reopen(&data, None, 32, OpenMode::Binary, 2);
    let mut states = vec![(doc.save_as(), doc.ed.block_count)];
    let mut seed = 0x1234_5678u64;
    for i in 0..40u64 {
        let at = xorshift64(&mut seed) % doc.ed.file_size;
        doc.ed.goto_byte(at);
        if i % 3 == 2 {
            let _ = doc.delete((xorshift64(&mut seed) % 9 + 1) as usize);
        } else {
            doc.insert(&vec![i as u8; (xorshift64(&mut seed) % 30 + 1) as usize]).unwrap();
        }
        if doc.ed.undo_stack.len() == states.len() {
            states.push((doc.save_as(), doc.ed.block_count));
        }
    }
    for state in states.iter().rev().skip(1) {
        doc.undo().unwrap();
        assert_eq!((doc.save_as(), doc.ed.block_count), *state);
    }
    for state in states.iter().skip(1) {
        doc.redo().unwrap();
        assert_eq!((doc.save_as(), doc.ed.block_count), *state);
    }
}

#[test]
fn read_only_refuses_whatever_the_limits() {
    let mut doc = Doc::default(b"abc", OpenMode::Text);
    doc.ed.read_only = true;
    doc.ed.edit_epoch = u64::MAX;
    assert!(!doc.ed.can_undo());
    assert!(matches!(doc.ed.undo(None), Step::Done(Err(_))));
    assert!(matches!(doc.ed.redo(None), Step::Done(Err(_))));
    assert!(matches!(doc.ed.insert_bytes_at_cursor(b"x", None), Step::Done(Err(_))));
    assert!(matches!(doc.ed.delete_bytes_at_cursor_forward(1, None), Step::Done(Err(_))));
    assert_eq!(doc.ed.file_size, 3);
}

#[test]
fn tabs_need_a_width_only_where_they_are() {
    let mut doc = Doc::default(b"ab\n\tc", OpenMode::Text);
    doc.ed.config = Arc::new(EditorConfig { tab_width: 0, ..Default::default() });
    let vp = ViewPort::new(1, 80);
    let rows = doc.text_rows(&vp);
    let lines = try_view_lines(&doc.ed, &vp, &rows, 16, 1).unwrap();
    assert_eq!(lines[0].spans[0].content, "ab");
    let vp = ViewPort::new(2, 80);
    let rows = doc.text_rows(&vp);
    assert!(try_view_lines(&doc.ed, &vp, &rows, 16, 2).is_none());
}
