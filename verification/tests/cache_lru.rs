use beditor::block::{Block, BlockId};
use beditor::cache::{BlockCache, GetOutcome};
use beditor::config::EditorConfig;
use beditor::error::CacheError;
use std::sync::Arc;

fn make_cfg() -> Arc<EditorConfig> {
    Arc::new(EditorConfig::default())
}

fn make_block(id: BlockId) -> Block {
    Block::new_clean(id, vec![(id & 0xFF) as u8; 100])
}

#[test]
fn basic_lru_eviction() {
    let cfg = make_cfg();
    let mut cache = BlockCache::new_for_test(cfg, 3);
    cache.insert_loaded(make_block(0));
    cache.insert_loaded(make_block(1));
    cache.insert_loaded(make_block(2));
    cache.insert_loaded(make_block(3));
    assert!(cache.try_get(0).is_none(), "块0应被淘汰");
    assert!(cache.try_get(1).is_some());
    assert!(cache.try_get(2).is_some());
    assert!(cache.try_get(3).is_some());
    let s = cache.stats();
    assert_eq!(s.evictions, 1);
    assert_eq!(s.size_blocks, 3);
}

#[test]
fn access_reorders_lru() {
    let cfg = make_cfg();
    let mut cache = BlockCache::new_for_test(cfg, 3);
    cache.insert_loaded(make_block(0));
    cache.insert_loaded(make_block(1));
    cache.insert_loaded(make_block(2));
    cache.try_get(0);
    cache.insert_loaded(make_block(3));
    assert!(cache.try_get(0).is_some(), "块0刚访问过不应淘汰");
    assert!(cache.try_get(1).is_none(), "块1应被淘汰");
}

#[test]
fn pinned_blocks_not_evicted() {
    let cfg = make_cfg();
    let mut cache = BlockCache::new_for_test(cfg, 2);
    cache.insert_loaded(make_block(0));
    cache.insert_loaded(make_block(1));
    let guard = match cache.pin_for_edit(0) {
        Ok(guard) => guard,
        Err(_) => panic!("pin OK"),
    };
    cache.insert_loaded(make_block(2));
    assert!(cache.try_get(0).is_some(), "被pin的块0不可淘汰");
    assert!(cache.try_get(1).is_none());
    assert!(cache.try_get(2).is_some());
    cache.release(guard);
    cache.insert_loaded(make_block(3));
    assert!(cache.try_get(0).is_none(), "unpin后块0可淘汰");
}

#[test]
fn hit_miss_stats() {
    let cfg = make_cfg();
    let mut cache = BlockCache::new_for_test(cfg, 4);
    cache.insert_loaded(make_block(0));
    cache.try_get(0);
    cache.try_get(0);
    cache.try_get(999);
    let s = cache.stats();
    assert_eq!(s.hits, 2);
    assert_eq!(s.misses, 1);
}

#[test]
fn requests_for_a_missing_block_are_answered_together() {
    let mut cache = BlockCache::new_for_test(make_cfg(), 4);
    let mut waiting: Vec<u64> = vec![];
    for _ in 0..3 {
        match cache.get_or_register_pending(5) {
            GetOutcome::MissNeedLoad(n) => waiting.push(n),
            GetOutcome::Hit(_) => panic!("block 5 is not there yet"),
        }
    }
    let delivery = cache.insert_loaded(make_block(5));
    assert_eq!(delivery.waiting, waiting);
    assert_eq!(delivery.snapshot.contiguous, vec![5u8; 100]);
    match cache.get_or_register_pending(5) {
        GetOutcome::Hit(snap) => assert_eq!(snap.id, 5),
        GetOutcome::MissNeedLoad(_) => panic!("block 5 is there"),
    }
}

#[test]
fn edits_make_a_block_dirty_until_it_is_taken() {
    let mut cache = BlockCache::new_for_test(make_cfg(), 4);
    cache.insert_loaded(Block::new_clean(0, b"abc".to_vec()));
    assert!(cache.dirty_ids().is_empty());
    cache.insert_in_block(0, 1, b"XY").unwrap();
    assert_eq!(cache.dirty_ids(), vec![0]);
    assert_eq!(cache.take_contiguous_and_mark_clean(0), Some(b"aXYbc".to_vec()));
    assert!(cache.dirty_ids().is_empty());
    assert_eq!(cache.take_contiguous_and_mark_clean(9), None);
}

#[test]
fn split_and_merge_keep_the_bytes() {
    let mut cache = BlockCache::new_for_test(make_cfg(), 4);
    cache.insert_loaded(Block::new_clean(0, b"HELLOWORLD".to_vec()));
    assert!(cache.split_block(0, 5).is_ok());
    assert_eq!(cache.try_get(0).unwrap().contiguous, b"HELLO");
    cache.insert_loaded(Block::new_clean(1, b"WORLD".to_vec()));
    cache.merge_blocks(0, 1).unwrap();
    assert_eq!(cache.try_get(0).unwrap().contiguous, b"HELLOWORLD");
    assert!(cache.try_get(1).is_none());
}

#[test]
fn merging_with_a_missing_block_errors() {
    let mut cache = BlockCache::new_for_test(make_cfg(), 4);
    cache.insert_loaded(Block::new_clean(0, b"abc".to_vec()));
    let e = cache.merge_blocks(0, 1).unwrap_err();
    assert!(e.to_string().starts_with("GapBuffer: "), "{}", e.to_string());
}

#[test]
fn cache_errors_have_messages() {
    assert_eq!(CacheError::BlockPinned(7).to_string().contains('7'), true);
    assert!(!CacheError::CannotEvict.to_string().is_empty());
}
