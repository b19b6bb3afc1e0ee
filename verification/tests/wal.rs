use beditor::block::{Block, GapBuffer};
use beditor::cache::BlockCache;
use beditor::config::EditorConfig;
use beditor::wal::Wal;
use std::sync::Arc;

/// A log and what its file holds.
struct LogFile {
    wal: Wal,
    image: Vec<u8>,
}

impl LogFile {
    fn create() -> LogFile {
        LogFile { wal: Wal::open(None, true).unwrap(), image: Vec::new() }
    }

    fn append_many(&mut self, entries: &Vec<(u64, Vec<u8>)>) {
        let at = self.wal.end() as usize;
        self.image.truncate(at);
        let bytes = self.wal.append_many(entries);
        self.image.extend_from_slice(&bytes);
    }

    fn append_one(&mut self, id: u64, bytes: &[u8]) {
        let at = self.wal.end() as usize;
        self.image.truncate(at);
        let record = self.wal.append_one(id, bytes);
        self.image.extend_from_slice(&record);
    }

    fn get(&self, id: u64) -> Option<Vec<u8>> {
        self.wal.read(id, &self.image)
    }
}

#[test]
fn wal_append_get_reset() {
    let mut log = LogFile::create();
    assert!(!log.wal.has_entries());
    log.append_many(&vec![(0, b"hello".to_vec()), (1, b"world".to_vec())]);
    assert!(log.wal.has_entries());
    assert_eq!(log.wal.len(), 2);
    assert_eq!(log.get(0), Some(b"hello".to_vec()));
    assert_eq!(log.get(1), Some(b"world".to_vec()));
    assert_eq!(log.get(9), None);
    log.wal.reset();
    assert!(!log.wal.has_entries());
    assert_eq!(log.get(0), None);
}

#[test]
fn wal_open_nonexistent_create_false() {
    assert!(Wal::open(None, false).is_none());
}

#[test]
fn wal_same_block_latest_wins() {
    let mut log = LogFile::create();
    log.append_one(0, b"v1");
    log.append_one(0, b"v2-longer");
    assert_eq!(log.get(0), Some(b"v2-longer".to_vec()));
    assert_eq!(log.wal.len(), 1);
}

#[test]
fn wal_replay_after_reopen() {
    let mut log = LogFile::create();
    log.append_one(3, b"persisted");
    let image = log.image;
    let wal2 = Wal::open(Some(&image), false).unwrap();
    assert!(wal2.has_entries());
    assert_eq!(wal2.read(3, &image), Some(b"persisted".to_vec()));
}

#[test]
fn wal_partial_tail_ignored() {
    let mut image: Vec<u8> = Vec::new();
    image.extend_from_slice(&1u32.to_le_bytes());
    image.extend_from_slice(&4u32.to_le_bytes());
    image.extend_from_slice(b"AAAA");
    image.extend_from_slice(&2u32.to_le_bytes());
    image.extend_from_slice(&8u32.to_le_bytes());
    image.extend_from_slice(b"XYZ");
    let wal = Wal::open(Some(&image), true).unwrap();
    assert_eq!(wal.read(1, &image), Some(b"AAAA".to_vec()));
    assert_eq!(wal.read(2, &image), None, "半截条目应被忽略");
    assert_eq!(wal.end(), 12);
}

#[test]
fn wal_records_are_number_length_and_bytes() {
    assert_eq!(
        Wal::record(0x0102_0304, b"xy"),
        vec![4, 3, 2, 1, 2, 0, 0, 0, b'x', b'y']
    );
    let mut log = LogFile::create();
    log.append_one(7, b"abc");
    log.append_one(8, b"");
    let entry = log.wal.get(8).unwrap();
    assert_eq!((entry.offset, entry.len), (19, 0));
    assert_eq!(log.wal.end(), 19);
}

#[test]
fn eviction_flushes_dirty_block_to_wal() {
    let cfg = Arc::new(EditorConfig::default());
    let mut cache = BlockCache::new_for_test(cfg, 1);
    cache.attach_wal(Wal::open(None, true).unwrap());
    let mut image: Vec<u8> = Vec::new();

    cache.insert_loaded(Block::new_clean(0, b"original0".to_vec()));
    let guard = match cache.pin_for_edit(0) {
        Ok(guard) => guard,
        Err(_) => panic!("block 0 can be pinned"),
    };
    cache.with_pin_mut(0, |gb: &mut GapBuffer| gb.insert(0, b"EDITED")).unwrap();
    cache.release(guard);

    cache.insert_loaded(Block::new_clean(1, b"block1".to_vec()));
    assert!(cache.try_get(0).is_none(), "块 0 应已被淘汰");
    for (id, bytes) in cache.take_evicted() {
        image.extend_from_slice(&Wal::record(id, &bytes));
        cache.note_appended(id, &bytes);
    }
    let wal = cache.wal().unwrap();
    assert!(wal.has_entries(), "脏块被淘汰前应写入 WAL");
    let w = wal.read(0, &image).unwrap();
    assert!(w.windows(6).any(|x| x == b"EDITED"), "WAL 应含编辑后内容, got {:?}", w);
    assert_eq!(w, b"EDITEDoriginal0");
}

#[test]
fn clean_blocks_are_not_logged_when_they_go() {
    let cfg = Arc::new(EditorConfig::default());
    let mut cache = BlockCache::new_for_test(cfg, 1);
    cache.attach_wal(Wal::new());
    cache.insert_loaded(Block::new_clean(0, b"a".to_vec()));
    cache.insert_loaded(Block::new_clean(1, b"b".to_vec()));
    assert!(cache.take_evicted().is_empty());
    assert!(cache.wal().unwrap().is_empty());
}

#[test]
fn wal_append_cuts_a_partial_tail_off() {
    let mut image = Vec::new();
    image.extend_from_slice(&2u32.to_le_bytes());
    image.extend_from_slice(&100u32.to_le_bytes());
    image.extend_from_slice(&[0; 17]);
    let mut log = LogFile { wal: Wal::open(Some(&image), true).unwrap(), image };
    assert_eq!(log.wal.end(), 0);
    log.append_one(1, b"A");
    let again = LogFile { wal: Wal::open(Some(&log.image), true).unwrap(), image: log.image };
    assert_eq!(again.wal.len(), 1);
    assert_eq!(again.get(1), Some(b"A".to_vec()));
    assert_eq!(again.get(0), None);
    assert_eq!(again.get(2), None);
}
