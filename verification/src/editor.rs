//! The editor: the document as blocks, the cursor, and the edits that can be
//! undone and redone.
//!
//! The editor does no input or output of its own. Where an operation needs a
//! block that is not in the cache, or the log that is not open yet, it says so
//! and leaves the document as it is; the caller provides it and asks again.

use crate::block;
use crate::block::{Block, BlockId, BlockModel};
use crate::cache;
use crate::cache::{BlockCache, BlockSnapshot, CacheModel};
use crate::config::{EditorConfig, OpenMode};
use crate::content;
use crate::delta_table;
use crate::delta_table::DeltaTable;
use crate::encoding::TextEncoding;
use crate::error::{EditError, IoError};
use crate::io_worker;
use crate::layout;
use crate::message::Direction;
use crate::search::{SearchJob, SearchModel};
use crate::text;
use std::sync::Arc;
use vstd::prelude::*;

verus! {

/// An edit that can be undone or redone.
#[derive(Debug)]
pub enum UndoEntry {
    InsertBytes {
        block_id: BlockId,
        inner_pos: usize,
        bytes: Vec<u8>,
        cursor_before: u64,
        /// Where the insertion made the block split: the number of the new
        /// block and how many bytes stayed in the old one.
        split: Option<(BlockId, usize)>,
    },
    DeleteBytes {
        block_id: BlockId,
        inner_pos: usize,
        bytes: Vec<u8>,
        cursor_before: u64,
        /// Where the deletion made the block join its neighbour: the number of
        /// the block that went into the one before it, and how many bytes that
        /// one held.
        merge: Option<(BlockId, usize)>,
    },
}

/// How far an operation got.
pub enum Step<T> {
    /// It is done.
    Done(T),
    /// The log has to be opened first.
    NeedWal,
    /// The block has to be loaded first.
    NeedBlock(BlockId),
}

/// The editor.
pub struct Editor {
    pub config: Arc<EditorConfig>,
    pub cache: BlockCache,
    pub file_path: String,
    pub file_size: u64,
    pub original_file_size: u64,
    pub block_count: u64,
    pub cursor_byte: u64,
    pub mode: OpenMode,
    pub text_encoding: TextEncoding,
    pub undo_stack: Vec<UndoEntry>,
    pub redo_stack: Vec<UndoEntry>,
    pub delta_table: DeltaTable,
    pub should_quit: bool,
    /// What was searched for last, to be searched for again.
    pub last_search: Option<Vec<u8>>,
    /// Counts the edits, so that what was derived from the document can tell
    /// whether it still holds.
    pub edit_epoch: u64,
    /// Whether the document may not be changed.
    pub read_only: bool,
}

/// What is said of an edit of a document that may not be changed.
pub open spec fn read_only_message() -> Seq<char> {
    "只读模式，禁止修改"@
}

/// What is said of a block that could not be loaded.
pub open spec fn load_message(id: BlockId) -> Seq<char> {
    "加载块 "@ + text::dec(id as nat) + " 失败"@
}

/// How many bytes a block may hold before it is split.
pub open spec fn split_threshold(block_size: nat) -> nat {
    let t = (block_size + block_size / 2) as nat;
    if t <= usize::MAX {
        t
    } else {
        usize::MAX as nat
    }
}

/// Whether block `b` of `count` is to be split: it is too large and the last.
pub open spec fn split_due(c: CacheModel, b: BlockId, block_size: nat, count: nat) -> bool {
    &&& c.has(b)
    &&& c.blocks[b].bytes.len() > split_threshold(block_size)
    &&& b + 1 >= count
}

/// The cache once block `b` was cut off at half its length.
pub open spec fn halved(c: CacheModel, b: BlockId) -> CacheModel {
    let bytes = c.blocks[b].bytes;
    c.touched(b).edited(b, bytes.subrange(0, bytes.len() as int / 2))
}

/// The cache once block `b` was split, if that was due.
pub open spec fn split_if_due(
    c: CacheModel,
    b: BlockId,
    block_size: nat,
    count: nat,
) -> CacheModel {
    if split_due(c, b, block_size, count) {
        let bytes = c.blocks[b].bytes;
        halved(c, b).loaded(
            (b + 1) as u64,
            BlockModel::cut_off(bytes.subrange(bytes.len() as int / 2, bytes.len() as int)),
        )
    } else {
        c.touched(b)
    }
}

/// The neighbour that block `b` of `count` is to be joined with once it holds
/// `len` bytes, less than half a block. As only the last block is split, only
/// the last one is joined, to the one before it: the others keep their numbers.
/// Both have to fit into the cache.
pub open spec fn merge_partner(
    b: BlockId,
    len: int,
    block_size: nat,
    count: nat,
    capacity: usize,
) -> Option<BlockId> {
    if 2 * len >= block_size || count < 2 || capacity < 2 {
        None
    } else if b + 1 == count {
        Some((b - 1) as u64)
    } else if b + 2 == count {
        Some((b + 1) as u64)
    } else {
        None
    }
}

/// Whether block `left` and the next one are there and fit into one.
pub open spec fn merge_due(c: CacheModel, sizes: Seq<i64>, left: BlockId) -> bool {
    let right = (left + 1) as u64;
    &&& c.has(left)
    &&& c.has(right)
    &&& c.blocks[left].bytes.len() + c.blocks[right].bytes.len() <= usize::MAX
    &&& sizes[left as int] + sizes[left + 1] <= usize::MAX
    &&& c.pins(left) < usize::MAX
    &&& c.pins(right) < usize::MAX
}

/// The cache once the block behind `left` was joined to it. That block stays,
/// with nothing in it, so that nothing is stored of it any more.
pub open spec fn fused(c: CacheModel, left: BlockId) -> CacheModel {
    let right = (left + 1) as u64;
    c.edited(right, Seq::empty()).edited(
        left,
        c.blocks[left].bytes + c.blocks[right].bytes,
    )
}

/// The join of block `left` with the next one, if it is due: the number of the
/// block that goes and how many bytes are before its own.
pub open spec fn merge_of(c: CacheModel, sizes: Seq<i64>, left: BlockId) -> Option<
    (BlockId, usize),
> {
    if merge_due(c, sizes, left) {
        Some(((left + 1) as u64, c.blocks[left].bytes.len() as usize))
    } else {
        None
    }
}

/// The cache once the block behind `left` was joined to it, if that was due.
pub open spec fn merged_if_due(c: CacheModel, sizes: Seq<i64>, left: BlockId) -> CacheModel {
    if merge_due(c, sizes, left) {
        fused(c, left)
    } else {
        c
    }
}

/// The smaller of two block numbers.
pub open spec fn first_of(a: BlockId, b: BlockId) -> BlockId {
    if a < b {
        a
    } else {
        b
    }
}

/// `stack` with at most the last `limit` entries.
pub open spec fn trimmed(stack: Seq<UndoEntry>, limit: int) -> Seq<UndoEntry> {
    if stack.len() > limit {
        stack.subrange(stack.len() - limit, stack.len() as int)
    } else {
        stack
    }
}

impl UndoEntry {
    /// This is the insertion of `bytes`.
    pub open spec fn is_insert(
        &self,
        block_id: BlockId,
        inner_pos: usize,
        bytes: Seq<u8>,
        cursor_before: u64,
        split: Option<(BlockId, usize)>,
    ) -> bool {
        self matches UndoEntry::InsertBytes {
            block_id: b,
            inner_pos: p,
            bytes: v,
            cursor_before: c,
            split: s,
        } && *b == block_id && *p == inner_pos && v@ == bytes && *c == cursor_before && *s == split
    }

    /// This is the deletion of `bytes`.
    pub open spec fn is_delete(
        &self,
        block_id: BlockId,
        inner_pos: usize,
        bytes: Seq<u8>,
        cursor_before: u64,
        merge: Option<(BlockId, usize)>,
    ) -> bool {
        self matches UndoEntry::DeleteBytes {
            block_id: b,
            inner_pos: p,
            bytes: v,
            cursor_before: c,
            merge: m,
        } && *b == block_id && *p == inner_pos && v@ == bytes && *c == cursor_before && *m == merge
    }
}

impl Editor {
    pub open spec fn wf(&self) -> bool {
        &&& self.delta_table.wf()
        &&& self.delta_table.addressable()
        &&& forall|i: int|
            0 <= i < self.delta_table.originals().len() ==> #[trigger] self.delta_table.originals()[i]
                >= 0
        &&& self.cache.wf()
        &&& self.block_count == self.delta_table.sizes().len()
        &&& self.block_count == 0 ==> self.file_size == 0
    }

    /// Within the limits of the machine for growing by `n` bytes at the cursor.
    pub open spec fn editable(&self, n: int) -> bool {
        let sizes = self.delta_table.sizes();
        let b = self.cursor_block();
        &&& self.edit_epoch < u64::MAX
        &&& self.file_size + n <= i64::MAX
        &&& self.cursor_byte + n <= u64::MAX
        &&& self.block_count + 3 < usize::MAX
        &&& delta_table::total(sizes) + n <= i64::MAX
        &&& n <= usize::MAX
        &&& self.block_count > 0 ==> sizes[b as int] + n <= usize::MAX
        &&& self.cache@.has(b) ==> {
            &&& self.cache@.blocks[b].bytes.len() + n <= usize::MAX
            &&& delta_table::total(sizes) + self.cache@.blocks[b].bytes.len() + n <= i64::MAX
        }
        &&& self.cache@.pins(b) < usize::MAX
    }

    pub open spec fn block_size(&self) -> nat {
        self.config.block_size as nat
    }

    /// The blocks, over the file `base` on disk.
    pub open spec fn blocks(&self, base: Seq<u8>) -> Seq<Seq<u8>> {
        Seq::new(
            self.block_count as nat,
            |i: int| content::bytes_of(self.cache@, base, self.block_size(), i as u64),
        )
    }

    /// What the document holds, over the file `base` on disk.
    pub open spec fn content(&self, base: Seq<u8>) -> Seq<u8> {
        content::joined(self.blocks(base))
    }

    /// The recorded sizes are those of the blocks.
    pub open spec fn consistent(&self, base: Seq<u8>) -> bool {
        &&& forall|i: int|
            0 <= i < self.block_count ==> #[trigger] self.delta_table.sizes()[i] == self.blocks(
                base,
            )[i].len()
        &&& self.file_size == delta_table::total(self.delta_table.sizes())
    }

    /// Every block in the cache without edits is stored as it is, over the file
    /// `base` on disk: none that has to go takes edits with it.
    pub open spec fn safe(&self, base: Seq<u8>) -> bool {
        content::safe(self.cache@, base, self.block_size())
    }

    /// Opens a document over a file of `file_size` bytes, with what the log of
    /// the cache holds. It fails where the blocks cannot be counted.
    pub fn open(
        file_path: String,
        config: Arc<EditorConfig>,
        mode: OpenMode,
        text_encoding: TextEncoding,
        file_size: u64,
        cache: BlockCache,
    ) -> (r: Result<Self, IoError>)
        requires
            cache.wf(),
            config.block_size > 0,
        ensures
            match r {
                Ok(ed) => {
                    &&& ed.wf()
                    &&& ed.config == config
                    &&& ed.cache == cache
                    &&& ed.file_path == file_path
                    &&& layout::opened(
                        layout::log_of(cache@),
                        file_size as nat,
                        config.block_size as nat,
                        ed.delta_table.sizes(),
                    )
                    &&& ed.delta_table.originals() == ed.delta_table.sizes()
                    &&& ed.block_count == ed.delta_table.sizes().len()
                    &&& ed.file_size == delta_table::total(ed.delta_table.sizes())
                    &&& ed.original_file_size == file_size
                    &&& ed.cursor_byte == 0
                    &&& ed.mode == mode
                    &&& ed.text_encoding == text_encoding
                    &&& ed.undo_stack@ == Seq::<UndoEntry>::empty()
                    &&& ed.redo_stack@ == Seq::<UndoEntry>::empty()
                    &&& !ed.should_quit
                    &&& ed.last_search is None
                    &&& ed.edit_epoch == 0
                    &&& !ed.read_only
                },
                Err(e) => {
                    &&& e matches IoError::SaveFailed(m) && m@ == "文件过大"@
                    &&& forall|sizes: Seq<i64>|
                        layout::opened(
                            layout::log_of(cache@),
                            file_size as nat,
                            config.block_size as nat,
                            sizes,
                        ) ==> !#[trigger] layout::countable(sizes)
                },
            },
    {
        let sizes = match layout::opened_sizes(&cache, file_size, config.block_size) {
            Some(sizes) => sizes,
            None => {
                return Err(IoError::SaveFailed("文件过大".to_string()));
            },
        };
        let block_count: u64 = sizes.len() as u64;
        let delta_table = DeltaTable::from_sizes(sizes);
        proof {
            delta_table::lemma_prefix_monotone(sizes@, 0, sizes@.len() as int);
        }
        let total: u64 = delta_table.block_start_offset(block_count, config.block_size);
        Ok(
            Self {
                config,
                cache,
                file_path,
                file_size: total,
                original_file_size: file_size,
                block_count,
                cursor_byte: 0,
                mode,
                text_encoding,
                undo_stack: Vec::new(),
                redo_stack: Vec::new(),
                delta_table,
                should_quit: false,
                last_search: None,
                edit_epoch: 0,
                read_only: false,
            },
        )
    }

    /// Moves the cursor to `byte`, or to the end where that is behind it.
    pub fn goto_byte(&mut self, byte: u64)
        ensures
            *final(self) == (Editor {
                cursor_byte: if byte < old(self).file_size {
                    byte
                } else {
                    old(self).file_size
                },
                ..*old(self)
            }),
    {
        self.cursor_byte = if byte < self.file_size { byte } else { self.file_size };
    }

    /// A copy of block `block_id`, where it is in the cache.
    pub fn ensure_block_loaded(&mut self, block_id: BlockId) -> (step: Step<BlockSnapshot>)
        requires
            old(self).wf(),
        ensures
            final(self).wf(),
            *final(self) == (Editor { cache: final(self).cache, ..*old(self) }),
            final(self).cache@ == old(self).cache@.touched(block_id),
            match step {
                Step::Done(snap) => old(self).cache@.has(block_id) && snap.copies(
                    block_id,
                    old(self).cache@.blocks[block_id],
                ),
                Step::NeedBlock(id) => !old(self).cache@.has(block_id) && id == block_id,
                Step::NeedWal => false,
            },
    {
        match self.cache.try_get(block_id) {
            Some(snap) => Step::Done(snap),
            None => Step::NeedBlock(block_id),
        }
    }

    /// Takes in a block that was loaded.
    pub fn block_loaded(&mut self, block_id: BlockId, bytes: Vec<u8>)
        requires
            old(self).wf(),
        ensures
            final(self).wf(),
            *final(self) == (Editor { cache: final(self).cache, ..*old(self) }),
            final(self).cache@ == old(self).cache@.loaded(block_id, BlockModel::clean(bytes@)),
            forall|base: Seq<u8>|
                bytes@ == content::bytes_of(
                    old(self).cache@,
                    base,
                    old(self).block_size(),
                    block_id,
                ) && old(self).safe(base) ==> #[trigger] final(self).blocks(base) == old(
                    self,
                ).blocks(base),
            forall|base: Seq<u8>|
                bytes@ == content::stored(
                    old(self).cache@,
                    base,
                    old(self).block_size(),
                    block_id,
                ) && old(self).safe(base) ==> #[trigger] final(self).safe(base),
    {
        let _ = self.cache.insert_loaded(Block::new_clean(block_id, bytes));
        proof {
            assert forall|base: Seq<u8>|
                bytes@ == content::bytes_of(
                    old(self).cache@,
                    base,
                    old(self).block_size(),
                    block_id,
                ) && old(self).safe(base) implies #[trigger] self.blocks(base) == old(
                self,
            ).blocks(base) by {
                assert forall|i: int| 0 <= i < self.block_count implies self.blocks(base)[i] == old(
                    self,
                ).blocks(base)[i] by {
                    content::lemma_loaded_keeps(
                        old(self).cache@,
                        block_id,
                        BlockModel::clean(bytes@),
                        base,
                        self.block_size(),
                        i as u64,
                    );
                }
                assert(self.blocks(base) =~= old(self).blocks(base));
            }
            assert forall|base: Seq<u8>|
                bytes@ == content::stored(
                    old(self).cache@,
                    base,
                    old(self).block_size(),
                    block_id,
                ) && old(self).safe(base) implies #[trigger] self.safe(base) by {
                content::lemma_loaded_safe(
                    old(self).cache@,
                    block_id,
                    BlockModel::clean(bytes@),
                    base,
                    self.block_size(),
                );
            }
        }
    }
}

impl Editor {
    /// Records that block `id` holds `left` bytes and a new block behind it
    /// holds `right`.
    fn record_split(&mut self, id: BlockId, left: usize, right: usize)
        requires
            old(self).wf(),
            id < old(self).block_count,
            old(self).block_count + 2 < usize::MAX,
            delta_table::total(old(self).delta_table.sizes()) - old(
                self,
            ).delta_table.sizes()[id as int] + left + right <= i64::MAX,
        ensures
            final(self).wf(),
            *final(self) == (Editor {
                delta_table: final(self).delta_table,
                block_count: final(self).block_count,
                ..*old(self)
            }),
            final(self).block_count == old(self).block_count + 1,
            final(self).delta_table.sizes() == old(self).delta_table.sizes().update(
                id as int,
                left as i64,
            ).insert(id + 1, right as i64),
            final(self).delta_table.originals() == old(self).delta_table.originals().insert(
                id + 1,
                0i64,
            ),
    {
        let ghost sizes = self.delta_table.sizes();
        let ghost originals = self.delta_table.originals();
        proof {
            self.delta_table.lemma_wf();
            lemma_size_in_total(sizes, id as int);
            let wider = sizes.insert(id + 1, 0i64);
            delta_table::lemma_prefix_insert(sizes, id + 1, 0i64, wider.len() as int);
            delta_table::lemma_prefix_insert(originals, id + 1, 0i64, wider.len() as int);
            let first = wider.update(id as int, left as i64);
            let both = first.update(id + 1, right as i64);
            delta_table::lemma_prefix_update(wider, id as int, left as i64, wider.len() as int);
            delta_table::lemma_prefix_update(first, id + 1, right as i64, first.len() as int);
            delta_table::lemma_magnitude_of_nonnegative(first, first.len() as int);
            delta_table::lemma_magnitude_of_nonnegative(both, both.len() as int);
            assert(both =~= sizes.update(id as int, left as i64).insert(id + 1, right as i64));
        }
        self.delta_table.insert_block_after(id, 0);
        let size: i64 = self.delta_table.block_size(id);
        let original: i64 = size - self.delta_table.block_delta(id);
        self.delta_table.record_delta(id, left as i64 - original);
        self.delta_table.record_delta(id + 1, right as i64);
        self.block_count = self.block_count + 1;
        assert(self.delta_table.sizes() =~= sizes.update(id as int, left as i64).insert(
            id + 1,
            right as i64,
        ));
    }

    /// Splits block `block_id` in the middle if it is too large and the last.
    /// Says what the number of the new block is and how many bytes stayed in
    /// the old one.
    fn maybe_split_block(&mut self, block_id: BlockId) -> (split: Option<(BlockId, usize)>)
        requires
            old(self).wf(),
            block_id < old(self).block_count,
            old(self).block_count + 2 < usize::MAX,
            old(self).cache@.has(block_id) ==> delta_table::total(old(self).delta_table.sizes())
                - old(self).delta_table.sizes()[block_id as int] + old(
                self,
            ).cache@.blocks[block_id].bytes.len() <= i64::MAX,
            old(self).cache@.pinned.dom().contains(block_id) ==> old(self).cache@.pinned[block_id]
                < usize::MAX,
        ensures
            final(self).wf(),
            *final(self) == (Editor {
                cache: final(self).cache,
                delta_table: final(self).delta_table,
                block_count: final(self).block_count,
                ..*old(self)
            }),
            final(self).cache@ == split_if_due(
                old(self).cache@,
                block_id,
                old(self).block_size(),
                old(self).block_count as nat,
            ),
            split == split_of(
                old(self).cache@,
                block_id,
                old(self).block_size(),
                old(self).block_count as nat,
            ),
            match split {
                Some((_, mid)) => {
                    let len = old(self).cache@.blocks[block_id].bytes.len();
                    &&& final(self).block_count == old(self).block_count + 1
                    &&& final(self).delta_table.sizes() == old(self).delta_table.sizes().update(
                        block_id as int,
                        mid as i64,
                    ).insert(block_id + 1, (len - mid) as i64)
                    &&& final(self).delta_table.originals() == old(
                        self,
                    ).delta_table.originals().insert(block_id + 1, 0i64)
                },
                None => {
                    &&& final(self).block_count == old(self).block_count
                    &&& final(self).delta_table == old(self).delta_table
                },
            },
    {
        let half: usize = self.config.block_size / 2;
        let threshold: usize = self.config.block_size.saturating_add(half);
        if !self.cache.touch(block_id) {
            return None;
        }
        let len: usize = match self.cache.block_len(block_id) {
            Some(n) => n,
            None => {
                return None;
            },
        };
        if len <= threshold {
            return None;
        }
        if block_id + 1 < self.block_count {
            return None;
        }
        let mid: usize = len / 2;
        let right_bytes = match self.cache.cut_block(block_id, mid) {
            Some(bytes) => bytes,
            None => {
                return None;
            },
        };
        let right_len: usize = right_bytes.len();
        let new_block_id: BlockId = block_id + 1;
        let _ = self.cache.insert_loaded(Block::new_cut_off(new_block_id, right_bytes));
        self.record_split(block_id, mid, right_len);
        Some((new_block_id, mid))
    }
}

impl Editor {
    /// Joins the last block to block `left`, the one before it, if both are there
    /// and fit into one. Says what the number of the block is that went and how
    /// many bytes are before its own.
    fn maybe_merge_blocks(&mut self, left: BlockId) -> (merge: Option<(BlockId, usize)>)
        requires
            old(self).wf(),
            left + 2 == old(self).block_count,
        ensures
            final(self).wf(),
            *final(self) == (Editor {
                cache: final(self).cache,
                delta_table: final(self).delta_table,
                block_count: final(self).block_count,
                ..*old(self)
            }),
            merge == merge_of(old(self).cache@, old(self).delta_table.sizes(), left),
            final(self).cache@ == merged_if_due(
                old(self).cache@,
                old(self).delta_table.sizes(),
                left,
            ),
            match merge {
                Some(_) => {
                    &&& final(self).block_count == old(self).block_count - 1
                    &&& final(self).delta_table.sizes() == delta_table::merged(
                        old(self).delta_table.sizes(),
                        left as int,
                    )
                    &&& final(self).delta_table.originals() == delta_table::merged(
                        old(self).delta_table.originals(),
                        left as int,
                    )
                },
                None => {
                    &&& final(self).block_count == old(self).block_count
                    &&& final(self).delta_table == old(self).delta_table
                },
            },
    {
        let right: BlockId = left + 1;
        let (at, len): (usize, usize) = match (
            self.cache.block_len(left),
            self.cache.block_len(right),
        ) {
            (Some(at), Some(len)) => (at, len),
            _ => {
                return None;
            },
        };
        let size: i128 = self.delta_table.block_size(left) as i128 + self.delta_table.block_size(
            right,
        ) as i128;
        if at > usize::MAX - len || size > usize::MAX as i128 || self.cache.pin_count(left)
            == usize::MAX || self.cache.pin_count(right) == usize::MAX {
            return None;
        }
        let ghost c = self.cache@;
        let bytes = match self.cache.cut_block(right, 0) {
            Some(bytes) => bytes,
            None => {
                return None;
            },
        };
        proof {
            let all = c.blocks[right].bytes;
            assert(all.subrange(0, all.len() as int) =~= all);
            assert(all.subrange(0, 0) =~= Seq::<u8>::empty());
            assert(c.edited(right, Seq::empty()).pins(left) == c.pins(left));
            assert(block::spliced_in(c.blocks[left].bytes, at as int, bytes@)
                =~= c.blocks[left].bytes + all);
        }
        match self.cache.insert_in_block(left, at, bytes.as_slice()) {
            Ok(_) => {},
            Err(_) => {
                return None;
            },
        }
        proof {
            let sizes = self.delta_table.sizes();
            let originals = self.delta_table.originals();
            self.delta_table.lemma_wf();
            delta_table::lemma_merged(sizes, left as int, sizes.len() - 1);
            delta_table::lemma_merged(originals, left as int, sizes.len() - 1);
        }
        self.delta_table.merge_block(left, right);
        self.block_count = self.block_count - 1;
        Some((right, at))
    }
}

/// The split of block `b`, if it is due: the number of the new block and how
/// many bytes stay in the old one.
pub open spec fn split_of(c: CacheModel, b: BlockId, block_size: nat, count: nat) -> Option<
    (BlockId, usize),
> {
    if split_due(c, b, block_size, count) {
        Some(((b + 1) as u64, (c.blocks[b].bytes.len() / 2) as usize))
    } else {
        None
    }
}

impl Editor {
    /// The document holds nothing and has no block yet.
    pub open spec fn fresh(&self) -> bool {
        self.file_size == 0 && self.block_count == 0
    }

    /// The cache, with a first block where there was none.
    pub open spec fn cache_to_edit(&self) -> CacheModel {
        if self.fresh() {
            self.cache@.loaded(0, BlockModel::clean(Seq::empty()))
        } else {
            self.cache@
        }
    }

    /// The sizes, with a first block where there was none.
    pub open spec fn sizes_to_edit(&self) -> Seq<i64> {
        if self.fresh() {
            seq![0i64]
        } else {
            self.delta_table.sizes()
        }
    }

    /// The original sizes, with a first block where there was none.
    pub open spec fn originals_to_edit(&self) -> Seq<i64> {
        if self.fresh() {
            seq![0i64]
        } else {
            self.delta_table.originals()
        }
    }

    /// The block that the cursor is in.
    pub open spec fn cursor_block(&self) -> BlockId {
        delta_table::block_at(self.sizes_to_edit(), self.cursor_byte as int) as u64
    }

    /// Where in its block the cursor is.
    pub open spec fn cursor_inner(&self) -> usize {
        delta_table::inner_at(self.sizes_to_edit(), self.cursor_byte as int) as usize
    }

    /// The cache once `bytes` were put in at the cursor, before any split.
    pub open spec fn cache_with(&self, bytes: Seq<u8>) -> CacheModel {
        let b = self.cursor_block();
        let c = self.cache_to_edit();
        c.touched(b).edited(
            b,
            block::spliced_in(c.blocks[b].bytes, self.cursor_inner() as int, bytes),
        )
    }

    /// The split that putting `bytes` in at the cursor brings about.
    pub open spec fn split_with(&self, bytes: Seq<u8>) -> Option<(BlockId, usize)> {
        split_of(
            self.cache_with(bytes),
            self.cursor_block(),
            self.block_size(),
            self.sizes_to_edit().len(),
        )
    }
}

/// The operation was refused with the message `m`.
pub open spec fn refused(step: Step<Result<(), EditError>>, m: Seq<char>) -> bool {
    step matches Step::Done(Err(EditError::GapBuffer(s))) && s@ == m
}

/// `after` is `before` with `bytes` put in at the cursor.
pub open spec fn inserted(before: Editor, bytes: Seq<u8>, after: Editor) -> bool {
    let n = bytes.len();
    let b = before.cursor_block();
    let c = before.cache_with(bytes);
    let sizes = before.sizes_to_edit();
    let grown = sizes.update(b as int, (sizes[b as int] + n) as i64);
    let originals = before.originals_to_edit();
    let split = before.split_with(bytes);
    &&& after == (Editor {
        cache: after.cache,
        delta_table: after.delta_table,
        block_count: after.block_count,
        undo_stack: after.undo_stack,
        redo_stack: after.redo_stack,
        file_size: (before.file_size + n) as u64,
        cursor_byte: (before.cursor_byte + n) as u64,
        edit_epoch: (before.edit_epoch + 1) as u64,
        ..before
    })
    &&& after.cache@ == split_if_due(c, b, before.block_size(), sizes.len())
    &&& match split {
        Some((_, mid)) => {
            &&& after.block_count == sizes.len() + 1
            &&& after.delta_table.sizes() == grown.update(b as int, mid as i64).insert(
                b + 1,
                (c.blocks[b].bytes.len() - mid) as i64,
            )
            &&& after.delta_table.originals() == originals.insert(b + 1, 0i64)
        },
        None => {
            &&& after.block_count == sizes.len()
            &&& after.delta_table.sizes() == grown
            &&& after.delta_table.originals() == originals
        },
    }
    &&& after.redo_stack@ == Seq::<UndoEntry>::empty()
    &&& exists|e: UndoEntry|
        {
            &&& #[trigger] e.is_insert(b, before.cursor_inner(), bytes, before.cursor_byte, split)
            &&& after.undo_stack@ == trimmed(
                before.undo_stack@.push(e),
                before.config.undo_limit as int,
            )
        }
}

/// What comes of putting `bytes` in at the cursor.
pub open spec fn insert_outcome(
    before: Editor,
    bytes: Seq<u8>,
    unreadable: Option<BlockId>,
    step: Step<Result<(), EditError>>,
    after: Editor,
) -> bool {
    let b = before.cursor_block();
    let c = before.cache_to_edit();
    if before.read_only {
        refused(step, read_only_message()) && after == before
    } else if before.cache@.wal is None {
        step is NeedWal && after == before
    } else if before.cursor_byte > before.file_size {
        step == Step::Done(
            Err::<(), EditError>(
                EditError::OffsetOutOfRange(before.cursor_byte, before.file_size),
            ),
        ) && after == before
    } else if bytes.len() == 0 {
        step == Step::Done(Ok::<(), EditError>(())) && after == before
    } else if !c.has(b) {
        &&& after == (Editor { cache: after.cache, ..before })
        &&& after.cache@ == c.touched(b)
        &&& if unreadable == Some(b) {
            refused(step, load_message(b))
        } else {
            step == Step::<Result<(), EditError>>::NeedBlock(b)
        }
    } else if before.cursor_inner() > c.blocks[b].bytes.len() {
        &&& after == (Editor { cache: after.cache, ..before })
        &&& after.cache@ == c.touched(b).edited(b, c.blocks[b].bytes)
        &&& refused(
            step,
            block::insert_message(before.cursor_inner() as nat, c.blocks[b].bytes.len()),
        )
    } else {
        step == Step::Done(Ok::<(), EditError>(())) && inserted(before, bytes, after)
    }
}

impl Editor {
    fn refuse_read_only() -> (step: Step<Result<(), EditError>>)
        ensures
            refused(step, read_only_message()),
    {
        Step::Done(Err(EditError::GapBuffer("只读模式，禁止修改".to_string())))
    }

    fn refuse_unreadable(id: BlockId) -> (step: Step<Result<(), EditError>>)
        ensures
            refused(step, load_message(id)),
    {
        let mut m = "加载块 ".to_string();
        text::push_dec(&mut m, id);
        m.append(" 失败");
        Step::Done(Err(EditError::GapBuffer(m)))
    }

    /// Remembers an edit, and forgets the oldest where there are too many.
    fn remember(&mut self, entry: UndoEntry)
        ensures
            *final(self) == (Editor { undo_stack: final(self).undo_stack, ..*old(self) }),
            final(self).undo_stack@ == trimmed(
                old(self).undo_stack@.push(entry),
                old(self).config.undo_limit as int,
            ),
    {
        self.undo_stack.push(entry);
        if self.undo_stack.len() > self.config.undo_limit {
            let drain: usize = self.undo_stack.len() - self.config.undo_limit;
            let kept = self.undo_stack.split_off(drain);
            self.undo_stack = kept;
        }
    }

    /// Records that block `id` grew by `grown` bytes.
    fn resize_block(&mut self, id: BlockId, grown: i64)
        requires
            old(self).wf(),
            id < old(self).block_count,
            0 <= old(self).delta_table.sizes()[id as int] + grown <= usize::MAX,
            delta_table::total(old(self).delta_table.sizes()) + grown <= i64::MAX,
        ensures
            final(self).wf(),
            *final(self) == (Editor { delta_table: final(self).delta_table, ..*old(self) }),
            final(self).delta_table.sizes() == old(self).delta_table.sizes().update(
                id as int,
                (old(self).delta_table.sizes()[id as int] + grown) as i64,
            ),
            final(self).delta_table.originals() == old(self).delta_table.originals(),
    {
        let ghost sizes = self.delta_table.sizes();
        proof {
            self.delta_table.lemma_wf();
            let size = sizes[id as int] + grown;
            delta_table::lemma_prefix_monotone(sizes, 0, id as int);
            delta_table::lemma_prefix_monotone(sizes, id + 1, sizes.len() as int);
            assert(delta_table::prefix(sizes, id + 1) == delta_table::prefix(sizes, id as int)
                + sizes[id as int]);
            let news = sizes.update(id as int, size as i64);
            delta_table::lemma_prefix_update(sizes, id as int, size as i64, sizes.len() as int);
            delta_table::lemma_magnitude_of_nonnegative(news, news.len() as int);
        }
        let current: i64 = self.delta_table.block_delta(id);
        self.delta_table.record_delta(id, current + grown);
    }

    /// Puts `bytes` in at the cursor, and moves the cursor behind them.
    pub fn insert_bytes_at_cursor(&mut self, bytes: &[u8], unreadable: Option<BlockId>) -> (step:
        Step<Result<(), EditError>>)
        requires
            old(self).wf(),
            !old(self).read_only ==> old(self).editable(bytes@.len() as int),
        ensures
            final(self).wf(),
            insert_outcome(*old(self), bytes@, unreadable, step, *final(self)),
    {
        if self.read_only {
            return Self::refuse_read_only();
        }
        if self.cache.wal().is_none() {
            return Step::NeedWal;
        }
        if self.cursor_byte > self.file_size {
            return Step::Done(
                Err(EditError::OffsetOutOfRange(self.cursor_byte, self.file_size)),
            );
        }
        if bytes.len() == 0 {
            return Step::Done(Ok(()));
        }
        if self.file_size == 0 && self.block_count == 0 {
            proof {
                self.cache@.lemma_loaded(0, BlockModel::clean(Seq::empty()));
            }
            let _ = self.cache.insert_loaded(Block::new_clean(0, Vec::new()));
            self.block_count = 1;
            proof {
                delta_table::lemma_initial_total(1, 0, 0);
            }
            self.delta_table = DeltaTable::new(1, 0, 0);
            assert(self.delta_table.sizes() =~= seq![0i64]);
        }
        let ghost c = self.cache@;
        let ghost sizes = self.delta_table.sizes();
        proof {
            assert(c == old(self).cache_to_edit());
            assert(sizes == old(self).sizes_to_edit());
        }
        let (block_id, inner_pos) = self.delta_table.locate_offset(self.cursor_byte);
        if !self.cache.touch(block_id) {
            if let Some(id) = unreadable {
                if id == block_id {
                    return Self::refuse_unreadable(block_id);
                }
            }
            return Step::NeedBlock(block_id);
        }
        match self.cache.insert_in_block(block_id, inner_pos, bytes) {
            Ok(_) => {},
            Err(e) => {
                return Step::Done(Err(e));
            },
        }
        let n: u64 = bytes.len() as u64;
        self.resize_block(block_id, bytes.len() as i64);
        self.file_size = self.file_size + n;
        let cursor_before: u64 = self.cursor_byte;
        self.cursor_byte = self.cursor_byte + n;
        proof {
            delta_table::lemma_prefix_update(
                sizes,
                block_id as int,
                (sizes[block_id as int] + n) as i64,
                sizes.len() as int,
            );
            if old(self).fresh() {
                reveal_with_fuel(delta_table::prefix, 2);
            } else {
                assert(old(self).cache@.has(block_id));
            }
        }
        let split = self.maybe_split_block(block_id);
        let copy = vstd::slice::slice_to_vec(bytes);
        let entry = UndoEntry::InsertBytes {
            block_id,
            inner_pos,
            bytes: copy,
            cursor_before,
            split,
        };
        assert(entry.is_insert(block_id, inner_pos, bytes@, cursor_before, split));
        self.remember(entry);
        self.redo_stack.clear();
        self.edit_epoch = self.edit_epoch + 1;
        Step::Done(Ok(()))
    }
}

/// What is said of a deletion that reaches behind its block.
pub open spec fn cross_block_message() -> Seq<char> {
    "跨块删除在 Task9 实现"@
}

impl Editor {
    /// Within the limits of the machine for deleting `n` bytes at the cursor,
    /// and not more than the cursor's block is recorded to hold.
    pub open spec fn deletable(&self, n: int) -> bool {
        let b = self.cursor_block();
        &&& self.edit_epoch < u64::MAX
        &&& self.cursor_byte + n <= u64::MAX
        &&& self.cursor_inner() + n <= usize::MAX
        &&& self.cache@.pins(b) < usize::MAX
        &&& self.block_count > 0 && self.cache@.has(b) && self.cursor_inner() + n
            <= self.cache@.blocks[b].bytes.len() ==> n <= self.delta_table.sizes()[b as int]
    }
}

impl Editor {
    /// The neighbour that the cursor's block is to be joined with once `n` bytes
    /// of it are deleted.
    pub open spec fn partner_without(&self, n: int) -> Option<BlockId> {
        let b = self.cursor_block();
        merge_partner(
            b,
            self.cache@.blocks[b].bytes.len() - n,
            self.block_size(),
            self.block_count as nat,
            self.cache@.capacity,
        )
    }

    /// The cache once `n` bytes are deleted from the cursor on, before any join.
    pub open spec fn cache_without(&self, n: int) -> CacheModel {
        let b = self.cursor_block();
        let inner = self.cursor_inner();
        let c = self.cache@.touched(b).touched(b);
        let asked = match self.partner_without(n) {
            Some(o) => c.touched(o),
            None => c,
        };
        asked.edited(
            b,
            block::spliced_out(self.cache@.blocks[b].bytes, inner as int, inner + n),
        )
    }

    /// The sizes once `n` bytes are deleted from the cursor on, before any join.
    pub open spec fn sizes_without(&self, n: int) -> Seq<i64> {
        let b = self.cursor_block() as int;
        let sizes = self.delta_table.sizes();
        sizes.update(b, (sizes[b] - n) as i64)
    }

    /// The join that deleting `n` bytes from the cursor on brings about.
    pub open spec fn merge_without(&self, n: int) -> Option<(BlockId, usize)> {
        match self.partner_without(n) {
            Some(o) => merge_of(
                self.cache_without(n),
                self.sizes_without(n),
                first_of(self.cursor_block(), o),
            ),
            None => None,
        }
    }
}

/// `after` is `before` with `n` bytes deleted from the cursor on.
pub open spec fn deleted(before: Editor, n: int, after: Editor) -> bool {
    let b = before.cursor_block();
    let inner = before.cursor_inner();
    let bytes = before.cache@.blocks[b].bytes;
    let c = before.cache_without(n);
    let sizes = before.sizes_without(n);
    let originals = before.delta_table.originals();
    let merge = before.merge_without(n);
    &&& after == (Editor {
        cache: after.cache,
        delta_table: after.delta_table,
        block_count: after.block_count,
        undo_stack: after.undo_stack,
        redo_stack: after.redo_stack,
        file_size: (before.file_size - n) as u64,
        edit_epoch: (before.edit_epoch + 1) as u64,
        ..before
    })
    &&& match merge {
        Some((right, _)) => {
            &&& after.cache@ == fused(c, (right - 1) as u64)
            &&& after.block_count == before.block_count - 1
            &&& after.delta_table.sizes() == delta_table::merged(sizes, right - 1)
            &&& after.delta_table.originals() == delta_table::merged(originals, right - 1)
        },
        None => {
            &&& after.cache@ == c
            &&& after.block_count == before.block_count
            &&& after.delta_table.sizes() == sizes
            &&& after.delta_table.originals() == originals
        },
    }
    &&& after.redo_stack@ == Seq::<UndoEntry>::empty()
    &&& exists|e: UndoEntry|
        {
            &&& #[trigger] e.is_delete(
                b,
                inner,
                bytes.subrange(inner as int, inner + n),
                before.cursor_byte,
                merge,
            )
            &&& after.undo_stack@ == trimmed(
                before.undo_stack@.push(e),
                before.config.undo_limit as int,
            )
        }
}

/// What comes of deleting `n` bytes from the cursor on.
pub open spec fn delete_outcome(
    before: Editor,
    n: int,
    unreadable: Option<BlockId>,
    step: Step<Result<(), EditError>>,
    after: Editor,
) -> bool {
    let b = before.cursor_block();
    let c = before.cache@;
    if before.read_only {
        refused(step, read_only_message()) && after == before
    } else if c.wal is None {
        step is NeedWal && after == before
    } else if n == 0 {
        step == Step::Done(Ok::<(), EditError>(())) && after == before
    } else if before.cursor_byte + n > before.file_size {
        step == Step::Done(
            Err::<(), EditError>(
                EditError::OffsetOutOfRange((before.cursor_byte + n) as u64, before.file_size),
            ),
        ) && after == before
    } else if !c.has(b) {
        &&& after == (Editor { cache: after.cache, ..before })
        &&& after.cache@ == c.touched(b)
        &&& if unreadable == Some(b) {
            refused(step, load_message(b))
        } else {
            step == Step::<Result<(), EditError>>::NeedBlock(b)
        }
    } else if before.cursor_inner() + n > c.blocks[b].bytes.len() {
        &&& after == (Editor { cache: after.cache, ..before })
        &&& after.cache@ == c.touched(b).touched(b)
        &&& refused(step, cross_block_message())
    } else if before.partner_without(n) is Some && !c.has(before.partner_without(n)->0)
        && unreadable != before.partner_without(n) {
        &&& after == (Editor { cache: after.cache, ..before })
        &&& after.cache@ == c.touched(b).touched(b).touched(before.partner_without(n)->0)
        &&& step == Step::<Result<(), EditError>>::NeedBlock(before.partner_without(n)->0)
    } else {
        step == Step::Done(Ok::<(), EditError>(())) && deleted(before, n, after)
    }
}

impl Editor {
    /// The neighbour that block `b` is to be joined with once it holds `len`
    /// bytes.
    fn partner_of(&self, b: BlockId, len: usize) -> (o: Option<BlockId>)
        requires
            b < self.block_count,
        ensures
            o == merge_partner(
                b,
                len as int,
                self.block_size(),
                self.block_count as nat,
                self.cache@.capacity,
            ),
    {
        if 2 * len as u128 >= self.config.block_size as u128 || self.block_count < 2
            || self.cache.capacity() < 2 {
            return None;
        }
        if b == self.block_count - 1 {
            Some(b - 1)
        } else if b == self.block_count - 2 {
            Some(b + 1)
        } else {
            None
        }
    }

    /// Deletes `len` bytes from the cursor on. They have to be in one block. A
    /// block of which less than half a block is left is joined with its
    /// neighbour, where one of the two is the last.
    pub fn delete_bytes_at_cursor_forward(&mut self, len: usize, unreadable: Option<BlockId>) -> (step:
        Step<Result<(), EditError>>)
        requires
            old(self).wf(),
            !old(self).read_only ==> old(self).deletable(len as int),
        ensures
            final(self).wf(),
            delete_outcome(*old(self), len as int, unreadable, step, *final(self)),
    {
        if self.read_only {
            return Self::refuse_read_only();
        }
        if self.cache.wal().is_none() {
            return Step::NeedWal;
        }
        if len == 0 {
            return Step::Done(Ok(()));
        }
        let end: u64 = self.cursor_byte + len as u64;
        if end > self.file_size {
            return Step::Done(Err(EditError::OffsetOutOfRange(end, self.file_size)));
        }
        let ghost sizes = self.delta_table.sizes();
        let (block_id, inner_pos) = self.delta_table.locate_offset(self.cursor_byte);
        if !self.cache.touch(block_id) {
            if let Some(id) = unreadable {
                if id == block_id {
                    return Self::refuse_unreadable(block_id);
                }
            }
            return Step::NeedBlock(block_id);
        }
        let snap = match self.cache.try_get(block_id) {
            Some(snap) => snap,
            None => {
                return Step::NeedBlock(block_id);
            },
        };
        if inner_pos + len > snap.contiguous.len() {
            return Step::Done(
                Err(EditError::GapBuffer("跨块删除在 Task9 实现".to_string())),
            );
        }
        let removed = vstd::slice::slice_to_vec(
            vstd::slice::slice_subrange(snap.contiguous.as_slice(), inner_pos, inner_pos + len),
        );
        let partner = self.partner_of(block_id, snap.contiguous.len() - len);
        if let Some(o) = partner {
            if !self.cache.touch(o) {
                let given_up = match unreadable {
                    Some(id) => id == o,
                    None => false,
                };
                if !given_up {
                    return Step::NeedBlock(o);
                }
            }
        }
        match self.cache.delete_in_block(block_id, inner_pos, len) {
            Ok(_) => {},
            Err(e) => {
                return Step::Done(Err(e));
            },
        }
        proof {
            lemma_size_in_total(sizes, block_id as int);
            self.delta_table.lemma_wf();
            delta_table::lemma_run_fits(sizes, 0, sizes.len() as int);
        }
        self.resize_block(block_id, -(len as i64));
        self.file_size = self.file_size - len as u64;
        assert(self.cache@ == old(self).cache_without(len as int));
        assert(self.delta_table.sizes() == old(self).sizes_without(len as int));
        let merge = match partner {
            Some(o) => self.maybe_merge_blocks(if block_id < o { block_id } else { o }),
            None => None,
        };
        let entry = UndoEntry::DeleteBytes {
            block_id,
            inner_pos,
            bytes: removed,
            cursor_before: self.cursor_byte,
            merge,
        };
        assert(entry.is_delete(block_id, inner_pos, removed@, self.cursor_byte, merge));
        self.remember(entry);
        self.redo_stack.clear();
        self.edit_epoch = self.edit_epoch + 1;
        Step::Done(Ok(()))
    }
}

/// What the sizes come to with block `b` cut into parts of `left` and `right`
/// bytes.
proof fn lemma_cut_total(sizes: Seq<i64>, b: int, left: i64, right: i64)
    requires
        0 <= b < sizes.len(),
    ensures
        delta_table::total(sizes.update(b, left).insert(b + 1, right)) == delta_table::total(sizes)
            - sizes[b] + left + right,
{
    let first = sizes.update(b, left);
    delta_table::lemma_prefix_update(sizes, b, left, sizes.len() as int);
    delta_table::lemma_prefix_insert(first, b + 1, right, first.len() as int + 1);
}

/// No block is larger than all blocks together.
pub proof fn lemma_size_in_total(sizes: Seq<i64>, i: int)
    requires
        0 <= i < sizes.len(),
        forall|k: int| 0 <= k < sizes.len() ==> sizes[k] >= 0,
    ensures
        0 <= sizes[i] <= delta_table::total(sizes),
{
    delta_table::lemma_prefix_monotone(sizes, 0, i);
    delta_table::lemma_prefix_monotone(sizes, i + 1, sizes.len() as int);
    assert(delta_table::prefix(sizes, i + 1) == delta_table::prefix(sizes, i) + sizes[i]);
}

/// What is said where the halves of a split block cannot be joined again.
pub open spec fn unsplit_message(c: CacheModel, b: BlockId, right: BlockId) -> Seq<char> {
    "undo 分裂合并失败: "@ + ("GapBuffer: "@ + cache::merge_message(c.has(right), b, right))
}

/// What is said where a joined block that is to be split again is not there.
pub open spec fn rejoined_message(b: BlockId) -> Seq<char> {
    "undo 分裂失败: "@ + ("GapBuffer: "@ + cache::split_missing_message(b))
}

/// What is said of an edit that does not fit the document, so that it can be
/// neither undone nor redone.
pub open spec fn stale_message() -> Seq<char> {
    "编辑记录与文件不符"@
}

/// The smaller of two numbers.
pub open spec fn min(a: int, b: int) -> int {
    if a < b {
        a
    } else {
        b
    }
}

/// `bytes` without `n` bytes from `pos` on.
pub open spec fn without_run(bytes: Seq<u8>, pos: int, n: int) -> Seq<u8> {
    if n == 0 {
        bytes
    } else {
        block::spliced_out(bytes, pos, pos + n)
    }
}

impl Editor {
    /// With what the undoing of a split leaves: the halves joined, and nothing in
    /// the place of the second.
    pub open spec fn unsplit(&self, b: BlockId, split: Option<(BlockId, usize)>) -> (
        CacheModel,
        Seq<i64>,
        Seq<i64>,
        int,
    ) {
        let sizes = self.delta_table.sizes();
        let originals = self.delta_table.originals();
        match split {
            Some((right, _)) => (
                self.cache@.merge(b, right).vacated(right),
                delta_table::merged(sizes, b as int),
                delta_table::merged(originals, b as int),
                self.block_count - 1,
            ),
            None => (self.cache@, sizes, originals, self.block_count as int),
        }
    }

    /// The block that holds the bytes around a deletion in block `b`.
    pub open spec fn home_of(b: BlockId, merge: Option<(BlockId, usize)>) -> BlockId {
        match merge {
            Some((right, _)) => (right - 1) as u64,
            None => b,
        }
    }

    /// With what the undoing of a join leaves: the blocks apart again.
    pub open spec fn unmerged(&self, b: BlockId, merge: Option<(BlockId, usize)>) -> (
        CacheModel,
        Seq<i64>,
        Seq<i64>,
        int,
    ) {
        let sizes = self.delta_table.sizes();
        let originals = self.delta_table.originals();
        let home = Editor::home_of(b, merge);
        let c = self.cache@.touched(home);
        match merge {
            Some((right, at)) => (
                c.split(home, at as int),
                sizes.update(home as int, at as i64).insert(
                    home + 1,
                    (c.blocks[home].bytes.len() - at) as i64,
                ),
                originals.insert(home + 1, 0i64),
                self.block_count + 1,
            ),
            None => (c, sizes, originals, self.block_count as int),
        }
    }

    /// The insertion `e` can be the last change of the document: its block is
    /// there and large enough, and where it split the block, the halves are the
    /// last two.
    pub open spec fn insert_made(&self, e: UndoEntry) -> bool {
        let b = e->InsertBytes_block_id;
        let n = e->InsertBytes_bytes@.len();
        &&& b < self.block_count
        &&& e->split matches Some((right, _)) ==> right == b + 1 && right + 1 == self.block_count
        &&& n <= self.unsplit(b, e->split).1[b as int]
        &&& n <= self.file_size
    }

    /// The deletion `e` can be the last change of the document: its block is
    /// there, and where it made blocks join, they are the last one now.
    pub open spec fn delete_made(&self, e: UndoEntry) -> bool {
        let b = e->DeleteBytes_block_id;
        match e->merge {
            Some((right, _)) => {
                &&& 0 < right == self.block_count
                &&& b == right || b + 1 == right
            },
            None => b < self.block_count,
        }
    }

    /// Undoing the last edit is within the limits of the machine.
    pub open spec fn undo_fits(&self) -> bool {
        let c = self.cache@;
        let sizes = self.delta_table.sizes();
        &&& self.edit_epoch < u64::MAX
        &&& self.undo_stack@.len() > 0 ==> match self.undo_stack@.last() {
            UndoEntry::InsertBytes { block_id: b, inner_pos, bytes, split, .. } => {
                self.insert_made(self.undo_stack@.last()) ==> {
                    &&& c.pins(b) < usize::MAX
                    &&& inner_pos + bytes@.len() <= usize::MAX
                    &&& split matches Some((right, _)) ==> {
                        &&& sizes[b as int] + sizes[b + 1] <= usize::MAX
                        &&& c.has(b) && c.has(right) ==> c.blocks[b].bytes.len()
                            + c.blocks[right].bytes.len() <= usize::MAX
                    }
                }
            },
            UndoEntry::DeleteBytes { block_id: b, bytes, merge, .. } => {
                let home = Editor::home_of(b, merge);
                self.delete_made(self.undo_stack@.last()) ==> {
                    &&& c.pins(b) < usize::MAX
                    &&& c.pins(home) < usize::MAX
                    &&& sizes[home as int] + bytes@.len() <= usize::MAX
                    &&& delta_table::total(sizes) + bytes@.len() <= i64::MAX
                    &&& self.file_size + bytes@.len() <= i64::MAX
                    &&& c.has(home) ==> c.blocks[home].bytes.len() + bytes@.len() <= usize::MAX
                    &&& merge is Some ==> {
                        &&& self.block_count + 2 < usize::MAX
                        &&& c.has(home) ==> delta_table::total(sizes) - sizes[home as int]
                            + c.blocks[home].bytes.len() + bytes@.len() <= i64::MAX
                    }
                }
            },
        }
    }
}

/// The one of the halves `b` and `right` of a split that is not in the cache.
pub open spec fn missing_half(c: CacheModel, b: BlockId, right: BlockId) -> BlockId {
    if c.has(b) {
        right
    } else {
        b
    }
}

/// What comes of undoing the insertion `e`, the last edit. Where it cannot be
/// undone, it stays the last edit.
pub open spec fn undo_insert_outcome(
    before: Editor,
    unreadable: Option<BlockId>,
    e: UndoEntry,
    step: Step<Result<(), EditError>>,
    after: Editor,
) -> bool {
    let c = before.cache@;
    let b = e->InsertBytes_block_id;
    let inner = e->InsertBytes_inner_pos;
    let n = e->InsertBytes_bytes@.len();
    let split = e->split;
    let (joined, sizes, originals, count) = before.unsplit(b, split);
    if !before.insert_made(e) {
        refused(step, stale_message()) && after == before
    } else if split is Some && !(c.has(b) && c.has((split->0).0)) {
        let missing = missing_half(c, b, (split->0).0);
        &&& after == (Editor { cache: after.cache, ..before })
        &&& after.cache@ == c
        &&& if unreadable == Some(missing) || c.capacity < 2 {
            refused(step, unsplit_message(c, b, (split->0).0))
        } else {
            step == Step::<Result<(), EditError>>::NeedBlock(missing)
        }
    } else if !c.has(b) {
        &&& after == (Editor { cache: after.cache, ..before })
        &&& after.cache@ == c.touched(b)
        &&& if unreadable == Some(b) {
            refused(step, cache::pin_message(b))
        } else {
            step == Step::<Result<(), EditError>>::NeedBlock(b)
        }
    } else if n > 0 && inner + n > joined.blocks[b].bytes.len() {
        &&& after == (Editor { cache: after.cache, ..before })
        &&& after.cache@ == (if split is Some {
            c
        } else {
            c.touched(b)
        })
        &&& refused(step, stale_message())
    } else {
        &&& step == Step::Done(Ok::<(), EditError>(()))
        &&& after == (Editor {
            cache: after.cache,
            delta_table: after.delta_table,
            block_count: after.block_count,
            undo_stack: after.undo_stack,
            redo_stack: after.redo_stack,
            file_size: (before.file_size - n) as u64,
            cursor_byte: min(e->InsertBytes_cursor_before as int, before.file_size - n) as u64,
            edit_epoch: (before.edit_epoch + 1) as u64,
            ..before
        })
        &&& after.cache@ == joined.touched(b).edited(
            b,
            without_run(joined.blocks[b].bytes, inner as int, n as int),
        )
        &&& after.block_count == count
        &&& after.delta_table.sizes() == sizes.update(b as int, (sizes[b as int] - n) as i64)
        &&& after.delta_table.originals() == originals
        &&& after.undo_stack@ == before.undo_stack@.drop_last()
        &&& after.redo_stack@ == before.redo_stack@.push(e)
    }
}

/// What comes of undoing the deletion `e`, the last edit. Where it cannot be
/// undone, it stays the last edit.
pub open spec fn undo_delete_outcome(
    before: Editor,
    unreadable: Option<BlockId>,
    e: UndoEntry,
    step: Step<Result<(), EditError>>,
    after: Editor,
) -> bool {
    let c = before.cache@;
    let b = e->DeleteBytes_block_id;
    let inner = e->DeleteBytes_inner_pos;
    let bytes = e->DeleteBytes_bytes@;
    let n = bytes.len();
    let home = Editor::home_of(b, e->merge);
    let (apart, sizes, originals, count) = before.unmerged(b, e->merge);
    if !before.delete_made(e) {
        refused(step, stale_message()) && after == before
    } else if !c.has(home) {
        &&& after == (Editor { cache: after.cache, ..before })
        &&& after.cache@ == c.touched(home)
        &&& if unreadable != Some(home) {
            step == Step::<Result<(), EditError>>::NeedBlock(home)
        } else if e->merge is Some {
            refused(step, rejoined_message(home))
        } else {
            refused(step, cache::pin_message(home))
        }
    } else if (e->merge matches Some((_, at)) && at > c.blocks[home].bytes.len()) || inner
        > apart.blocks[b].bytes.len() {
        &&& after == (Editor { cache: after.cache, ..before })
        &&& after.cache@ == c.touched(home)
        &&& refused(step, stale_message())
    } else {
        &&& step == Step::Done(Ok::<(), EditError>(()))
        &&& after == (Editor {
            cache: after.cache,
            delta_table: after.delta_table,
            block_count: after.block_count,
            undo_stack: after.undo_stack,
            redo_stack: after.redo_stack,
            file_size: (before.file_size + n) as u64,
            cursor_byte: min(e->DeleteBytes_cursor_before as int, before.file_size + n) as u64,
            edit_epoch: (before.edit_epoch + 1) as u64,
            ..before
        })
        &&& after.cache@ == apart.edited(
            b,
            block::spliced_in(apart.blocks[b].bytes, inner as int, bytes),
        )
        &&& after.block_count == count
        &&& after.delta_table.sizes() == sizes.update(b as int, (sizes[b as int] + n) as i64)
        &&& after.delta_table.originals() == originals
        &&& after.undo_stack@ == before.undo_stack@.drop_last()
        &&& after.redo_stack@ == before.redo_stack@.push(e)
    }
}

/// What comes of undoing the last edit.
pub open spec fn undo_outcome(
    before: Editor,
    unreadable: Option<BlockId>,
    step: Step<Result<(), EditError>>,
    after: Editor,
) -> bool {
    if before.read_only {
        refused(step, read_only_message()) && after == before
    } else if before.cache@.wal is None {
        step is NeedWal && after == before
    } else if before.undo_stack@.len() == 0 {
        step == Step::Done(Err::<(), EditError>(EditError::NothingToUndo)) && after == before
    } else {
        let e = before.undo_stack@.last();
        match e {
            UndoEntry::InsertBytes { .. } => undo_insert_outcome(before, unreadable, e, step, after),
            UndoEntry::DeleteBytes { .. } => undo_delete_outcome(before, unreadable, e, step, after),
        }
    }
}

/// Whether the block that could not be read is `id`.
fn gave_up(unreadable: Option<BlockId>, id: BlockId) -> (b: bool)
    ensures
        b == (unreadable == Some(id)),
{
    match unreadable {
        Some(u) => u == id,
        None => false,
    }
}

impl Editor {
    fn refuse_stale() -> (step: Step<Result<(), EditError>>)
        ensures
            refused(step, stale_message()),
    {
        Step::Done(Err(EditError::GapBuffer("编辑记录与文件不符".to_string())))
    }

    /// The answer where block `id`, which is not in the cache, is to be edited.
    fn need_or_refuse(unreadable: Option<BlockId>, id: BlockId) -> (step: Step<
        Result<(), EditError>,
    >)
        ensures
            if unreadable == Some(id) {
                refused(step, cache::pin_message(id))
            } else {
                step == Step::<Result<(), EditError>>::NeedBlock(id)
            },
    {
        if gave_up(unreadable, id) {
            let mut m = "pin 块 ".to_string();
            text::push_dec(&mut m, id);
            m.append(" 失败");
            Step::Done(Err(EditError::GapBuffer(m)))
        } else {
            Step::NeedBlock(id)
        }
    }

    /// Undoes the insertion that is the last edit.
    fn undo_insert(&mut self, unreadable: Option<BlockId>) -> (step: Step<Result<(), EditError>>)
        requires
            old(self).wf(),
            old(self).undo_fits(),
            old(self).undo_stack@.len() > 0,
            old(self).undo_stack@.last() is InsertBytes,
        ensures
            final(self).wf(),
            undo_insert_outcome(
                *old(self),
                unreadable,
                old(self).undo_stack@.last(),
                step,
                *final(self),
            ),
    {
        let depth: usize = self.undo_stack.len();
        let (block_id, inner_pos, n, split): (
            BlockId,
            usize,
            usize,
            Option<(BlockId, usize)>,
        ) = match &self.undo_stack[depth - 1] {
            UndoEntry::InsertBytes { block_id, inner_pos, bytes, split, .. } => (
                *block_id,
                *inner_pos,
                bytes.len(),
                *split,
            ),
            UndoEntry::DeleteBytes { .. } => {
                return Self::refuse_stale();
            },
        };
        let ghost e = self.undo_stack@.last();
        proof {
            self.delta_table.lemma_wf();
            let sizes = self.delta_table.sizes();
            if block_id < self.block_count {
                lemma_size_in_total(sizes, block_id as int);
            }
            if block_id + 1 < self.block_count {
                delta_table::lemma_run_fits(sizes, block_id as int, block_id + 2);
                assert(delta_table::prefix(sizes, block_id + 2) == delta_table::prefix(
                    sizes,
                    block_id + 1,
                ) + sizes[block_id + 1]);
                assert(delta_table::prefix(sizes, block_id + 1) == delta_table::prefix(
                    sizes,
                    block_id as int,
                ) + sizes[block_id as int]);
            }
        }
        if block_id >= self.block_count {
            return Self::refuse_stale();
        }
        let mut size: i64 = self.delta_table.block_size(block_id);
        if let Some((right, _)) = split {
            if right != block_id + 1 || right != self.block_count - 1 {
                return Self::refuse_stale();
            }
            size = size + self.delta_table.block_size(right);
        }
        assert(size == self.unsplit(block_id, split).1[block_id as int]);
        if n as u64 > size as u64 || n as u64 > self.file_size {
            return Self::refuse_stale();
        }
        assert(self.insert_made(e));
        let len: usize = match split {
            Some((right, _)) => match (self.cache.block_len(block_id), self.cache.block_len(right)) {
                (Some(a), Some(b)) => a + b,
                (a, _) => {
                    let missing: BlockId = if a.is_none() { block_id } else { right };
                    if !gave_up(unreadable, missing) && self.cache.capacity() >= 2 {
                        return Step::NeedBlock(missing);
                    }
                    let mut m = "undo 分裂合并失败: ".to_string();
                    if let Err(e) = self.cache.merge_blocks(block_id, right) {
                        m.append(e.to_string().as_str());
                    }
                    return Step::Done(Err(EditError::GapBuffer(m)));
                },
            },
            None => {
                if !self.cache.touch(block_id) {
                    return Self::need_or_refuse(unreadable, block_id);
                }
                match self.cache.block_len(block_id) {
                    Some(a) => a,
                    None => 0,
                }
            },
        };
        if n > 0 && inner_pos + n > len {
            return Self::refuse_stale();
        }
        let (bytes, cursor_before): (Vec<u8>, u64) = match self.undo_stack.pop() {
            Some(UndoEntry::InsertBytes { bytes, cursor_before, .. }) => (bytes, cursor_before),
            _ => {
                return Self::refuse_stale();
            },
        };
        assert(self.undo_stack@ =~= old(self).undo_stack@.drop_last());
        if let Some((right, _)) = split {
            if self.cache.merge_blocks(block_id, right).is_err() {
                return Self::refuse_stale();
            }
            proof {
                let sizes = self.delta_table.sizes();
                let originals = self.delta_table.originals();
                delta_table::lemma_merged(sizes, block_id as int, sizes.len() - 1);
                delta_table::lemma_merged(originals, block_id as int, sizes.len() - 1);
            }
            self.cache.vacate(right);
            self.delta_table.merge_block(block_id, right);
            self.block_count = self.block_count - 1;
            let _ = self.cache.touch(block_id);
        }
        if self.cache.delete_in_block(block_id, inner_pos, n).is_err() {
            return Self::refuse_stale();
        }
        proof {
            let sizes = self.delta_table.sizes();
            self.delta_table.lemma_wf();
            lemma_size_in_total(sizes, block_id as int);
            delta_table::lemma_run_fits(sizes, 0, sizes.len() as int);
        }
        self.resize_block(block_id, -(n as i64));
        self.file_size = self.file_size - n as u64;
        self.cursor_byte = if cursor_before < self.file_size {
            cursor_before
        } else {
            self.file_size
        };
        self.redo_stack.push(
            UndoEntry::InsertBytes { block_id, inner_pos, bytes, cursor_before, split },
        );
        self.edit_epoch = self.edit_epoch + 1;
        Step::Done(Ok(()))
    }

    /// Undoes the deletion that is the last edit.
    fn undo_delete(&mut self, unreadable: Option<BlockId>) -> (step: Step<Result<(), EditError>>)
        requires
            old(self).wf(),
            old(self).undo_fits(),
            old(self).undo_stack@.len() > 0,
            old(self).undo_stack@.last() is DeleteBytes,
        ensures
            final(self).wf(),
            undo_delete_outcome(
                *old(self),
                unreadable,
                old(self).undo_stack@.last(),
                step,
                *final(self),
            ),
    {
        let depth: usize = self.undo_stack.len();
        let (block_id, inner_pos, n, merge): (
            BlockId,
            usize,
            usize,
            Option<(BlockId, usize)>,
        ) = match &self.undo_stack[depth - 1] {
            UndoEntry::DeleteBytes { block_id, inner_pos, bytes, merge, .. } => (
                *block_id,
                *inner_pos,
                bytes.len(),
                *merge,
            ),
            UndoEntry::InsertBytes { .. } => {
                return Self::refuse_stale();
            },
        };
        let home: BlockId = match merge {
            Some((right, _)) => {
                if right == 0 || right != self.block_count || (block_id != right && block_id
                    != right - 1) {
                    return Self::refuse_stale();
                }
                right - 1
            },
            None => {
                if block_id >= self.block_count {
                    return Self::refuse_stale();
                }
                block_id
            },
        };
        assert(self.delete_made(old(self).undo_stack@.last()));
        if !self.cache.touch(home) {
            if merge.is_some() && gave_up(unreadable, home) {
                let mut m = "undo 分裂失败: ".to_string();
                if let Err(e) = self.cache.split_block(home, 0) {
                    m.append(e.to_string().as_str());
                }
                return Step::Done(Err(EditError::GapBuffer(m)));
            }
            return Self::need_or_refuse(unreadable, home);
        }
        let len: usize = match self.cache.block_len(home) {
            Some(len) => len,
            None => 0,
        };
        let room: usize = match merge {
            Some((right, at)) => {
                if at > len {
                    return Self::refuse_stale();
                }
                if block_id == right {
                    len - at
                } else {
                    at
                }
            },
            None => len,
        };
        if inner_pos > room {
            return Self::refuse_stale();
        }
        let (bytes, cursor_before): (Vec<u8>, u64) = match self.undo_stack.pop() {
            Some(UndoEntry::DeleteBytes { bytes, cursor_before, .. }) => (bytes, cursor_before),
            _ => {
                return Self::refuse_stale();
            },
        };
        assert(self.undo_stack@ =~= old(self).undo_stack@.drop_last());
        if let Some((right, at)) = merge {
            match self.cache.split_block(right - 1, at) {
                Ok(right_len) => {
                    proof {
                        lemma_size_in_total(self.delta_table.sizes(), right - 1);
                    }
                    self.record_split(right - 1, at, right_len);
                },
                Err(_) => {
                    return Self::refuse_stale();
                },
            }
        }
        assert(self.delta_table.sizes() == old(self).unmerged(block_id, merge).1);
        if self.cache.insert_in_block(block_id, inner_pos, bytes.as_slice()).is_err() {
            return Self::refuse_stale();
        }
        proof {
            lemma_size_in_total(self.delta_table.sizes(), block_id as int);
            if let Some((right, at)) = merge {
                let len = old(self).cache@.blocks[(right - 1) as u64].bytes.len();
                lemma_cut_total(
                    old(self).delta_table.sizes(),
                    right - 1,
                    at as i64,
                    (len - at) as i64,
                );
            }
        }
        self.resize_block(block_id, n as i64);
        self.file_size = self.file_size + n as u64;
        self.cursor_byte = if cursor_before < self.file_size {
            cursor_before
        } else {
            self.file_size
        };
        self.redo_stack.push(
            UndoEntry::DeleteBytes { block_id, inner_pos, bytes, cursor_before, merge },
        );
        self.edit_epoch = self.edit_epoch + 1;
        Step::Done(Ok(()))
    }

    /// Undoes the last edit.
    pub fn undo(&mut self, unreadable: Option<BlockId>) -> (step: Step<Result<(), EditError>>)
        requires
            old(self).wf(),
            !old(self).read_only ==> old(self).undo_fits(),
        ensures
            final(self).wf(),
            undo_outcome(*old(self), unreadable, step, *final(self)),
    {
        if self.read_only {
            return Self::refuse_read_only();
        }
        if self.cache.wal().is_none() {
            return Step::NeedWal;
        }
        let depth: usize = self.undo_stack.len();
        if depth == 0 {
            return Step::Done(Err(EditError::NothingToUndo));
        }
        let insertion = match &self.undo_stack[depth - 1] {
            UndoEntry::InsertBytes { .. } => true,
            UndoEntry::DeleteBytes { .. } => false,
        };
        if insertion {
            self.undo_insert(unreadable)
        } else {
            self.undo_delete(unreadable)
        }
    }
}

impl Editor {
    /// The insertion `e` can have been undone last: its block is there, and is the
    /// last one where the insertion split it.
    pub open spec fn insert_undone(&self, e: UndoEntry) -> bool {
        let b = e->InsertBytes_block_id;
        &&& b < self.block_count
        &&& e->split matches Some((right, _)) ==> right == b + 1 == self.block_count
    }

    /// The deletion `e` can have been undone last: its block is there and large
    /// enough, and those that it made join are the last two.
    pub open spec fn delete_undone(&self, e: UndoEntry) -> bool {
        let b = e->DeleteBytes_block_id;
        let n = e->DeleteBytes_bytes@.len();
        &&& b < self.block_count
        &&& n <= self.delta_table.sizes()[b as int]
        &&& n <= self.file_size
        &&& e->merge matches Some((right, _)) ==> {
            &&& right > 0
            &&& right + 1 == self.block_count
            &&& b == right || b + 1 == right
        }
    }

    /// Redoing the last edit that was undone is within the limits of the machine.
    pub open spec fn redo_fits(&self) -> bool {
        let c = self.cache@;
        let sizes = self.delta_table.sizes();
        &&& self.edit_epoch < u64::MAX
        &&& self.block_count + 2 < usize::MAX
        &&& self.redo_stack@.len() > 0 ==> match self.redo_stack@.last() {
            UndoEntry::InsertBytes { block_id: b, bytes, cursor_before, .. } => {
                self.insert_undone(self.redo_stack@.last()) ==> {
                    &&& c.pins(b) < usize::MAX
                    &&& sizes[b as int] + bytes@.len() <= usize::MAX
                    &&& delta_table::total(sizes) + bytes@.len() <= i64::MAX
                    &&& self.file_size + bytes@.len() <= i64::MAX
                    &&& cursor_before + bytes@.len() <= u64::MAX
                    &&& c.has(b) ==> {
                        &&& c.blocks[b].bytes.len() + bytes@.len() <= usize::MAX
                        &&& delta_table::total(sizes) - sizes[b as int] + c.blocks[b].bytes.len()
                            + bytes@.len() <= i64::MAX
                    }
                }
            },
            UndoEntry::DeleteBytes { block_id: b, inner_pos, bytes, .. } => {
                self.delete_undone(self.redo_stack@.last()) ==> {
                    &&& c.pins(b) < usize::MAX
                    &&& inner_pos + bytes@.len() <= usize::MAX
                }
            },
        }
    }
}

/// What comes of redoing the insertion `e`, the last edit that was undone. Where
/// it cannot be redone, it stays that edit.
pub open spec fn redo_insert_outcome(
    before: Editor,
    unreadable: Option<BlockId>,
    e: UndoEntry,
    step: Step<Result<(), EditError>>,
    after: Editor,
) -> bool {
    let c = before.cache@;
    let b = e->InsertBytes_block_id;
    let inner = e->InsertBytes_inner_pos;
    let bytes = e->InsertBytes_bytes@;
    let n = bytes.len();
    let sizes = before.delta_table.sizes();
    let grown = sizes.update(b as int, (sizes[b as int] + n) as i64);
    let originals = before.delta_table.originals();
    let filled = c.touched(b).edited(
        b,
        block::spliced_in(c.blocks[b].bytes, inner as int, bytes),
    );
    let len = c.blocks[b].bytes.len() + n;
    if !before.insert_undone(e) {
        refused(step, stale_message()) && after == before
    } else if !c.has(b) {
        &&& after == (Editor { cache: after.cache, ..before })
        &&& after.cache@ == c.touched(b)
        &&& if unreadable == Some(b) {
            refused(step, cache::pin_message(b))
        } else {
            step == Step::<Result<(), EditError>>::NeedBlock(b)
        }
    } else if inner > c.blocks[b].bytes.len() || (e->split matches Some((_, at)) && at > len) {
        &&& after == (Editor { cache: after.cache, ..before })
        &&& after.cache@ == c.touched(b)
        &&& refused(step, stale_message())
    } else {
        &&& step == Step::Done(Ok::<(), EditError>(()))
        &&& after == (Editor {
            cache: after.cache,
            delta_table: after.delta_table,
            block_count: after.block_count,
            undo_stack: after.undo_stack,
            redo_stack: after.redo_stack,
            file_size: (before.file_size + n) as u64,
            cursor_byte: min(e->InsertBytes_cursor_before + n, before.file_size + n) as u64,
            edit_epoch: (before.edit_epoch + 1) as u64,
            ..before
        })
        &&& match e->split {
            Some((_, at)) => {
                &&& after.cache@ == filled.split(b, at as int)
                &&& after.block_count == before.block_count + 1
                &&& after.delta_table.sizes() == grown.update(b as int, at as i64).insert(
                    b + 1,
                    (len - at) as i64,
                )
                &&& after.delta_table.originals() == originals.insert(b + 1, 0i64)
            },
            None => {
                &&& after.cache@ == filled
                &&& after.block_count == before.block_count
                &&& after.delta_table.sizes() == grown
                &&& after.delta_table.originals() == originals
            },
        }
        &&& after.undo_stack@ == before.undo_stack@.push(e)
        &&& after.redo_stack@ == before.redo_stack@.drop_last()
    }
}

/// The cache once the blocks were asked for that redoing the deletion `e` needs.
pub open spec fn asked_again(c: CacheModel, e: UndoEntry) -> CacheModel {
    let b = e->DeleteBytes_block_id;
    match other_of(b, e->merge) {
        Some(o) => c.touched(b).touched(o),
        None => c.touched(b),
    }
}

/// `after` is `before` with the deletion `e`, the last edit that was undone,
/// made again.
pub open spec fn deleted_again(before: Editor, e: UndoEntry, after: Editor) -> bool {
    let b = e->DeleteBytes_block_id;
    let inner = e->DeleteBytes_inner_pos;
    let n = e->DeleteBytes_bytes@.len();
    let sizes = before.delta_table.sizes();
    let shrunk = sizes.update(b as int, (sizes[b as int] - n) as i64);
    let originals = before.delta_table.originals();
    let cut = asked_again(before.cache@, e).edited(
        b,
        without_run(before.cache@.blocks[b].bytes, inner as int, n as int),
    );
    let merge = merge_again(cut, shrunk, e->merge);
    &&& after == (Editor {
        cache: after.cache,
        delta_table: after.delta_table,
        block_count: after.block_count,
        undo_stack: after.undo_stack,
        redo_stack: after.redo_stack,
        file_size: (before.file_size - n) as u64,
        cursor_byte: min(e->DeleteBytes_cursor_before as int, before.file_size - n) as u64,
        edit_epoch: (before.edit_epoch + 1) as u64,
        ..before
    })
    &&& match merge {
        Some((right, _)) => {
            &&& after.cache@ == fused(cut, (right - 1) as u64)
            &&& after.block_count == before.block_count - 1
            &&& after.delta_table.sizes() == delta_table::merged(shrunk, right - 1)
            &&& after.delta_table.originals() == delta_table::merged(originals, right - 1)
        },
        None => {
            &&& after.cache@ == cut
            &&& after.block_count == before.block_count
            &&& after.delta_table.sizes() == shrunk
            &&& after.delta_table.originals() == originals
        },
    }
    &&& exists|f: UndoEntry|
        {
            &&& #[trigger] f.is_delete(
                b,
                inner,
                e->DeleteBytes_bytes@,
                e->DeleteBytes_cursor_before,
                merge,
            )
            &&& after.undo_stack@ == before.undo_stack@.push(f)
        }
    &&& after.redo_stack@ == before.redo_stack@.drop_last()
}

/// What comes of redoing the deletion `e`, the last edit that was undone. Where
/// it cannot be redone, it stays that edit.
pub open spec fn redo_delete_outcome(
    before: Editor,
    unreadable: Option<BlockId>,
    e: UndoEntry,
    step: Step<Result<(), EditError>>,
    after: Editor,
) -> bool {
    let c = before.cache@;
    let b = e->DeleteBytes_block_id;
    let inner = e->DeleteBytes_inner_pos;
    let n = e->DeleteBytes_bytes@.len();
    let other = other_of(b, e->merge);
    if !before.delete_undone(e) {
        refused(step, stale_message()) && after == before
    } else if !c.has(b) {
        &&& after == (Editor { cache: after.cache, ..before })
        &&& after.cache@ == c.touched(b)
        &&& if unreadable == Some(b) {
            refused(step, cache::pin_message(b))
        } else {
            step == Step::<Result<(), EditError>>::NeedBlock(b)
        }
    } else if other is Some && !c.has(other->0) {
        &&& after == (Editor { cache: after.cache, ..before })
        &&& after.cache@ == asked_again(c, e)
        &&& if unreadable == other {
            refused(step, load_message(other->0))
        } else {
            step == Step::<Result<(), EditError>>::NeedBlock(other->0)
        }
    } else if n > 0 && inner + n > c.blocks[b].bytes.len() {
        &&& after == (Editor { cache: after.cache, ..before })
        &&& after.cache@ == asked_again(c, e)
        &&& refused(step, stale_message())
    } else {
        step == Step::Done(Ok::<(), EditError>(())) && deleted_again(before, e, after)
    }
}

/// The join of the blocks that a deletion made join before, if it is due.
pub open spec fn merge_again(
    c: CacheModel,
    sizes: Seq<i64>,
    merge: Option<(BlockId, usize)>,
) -> Option<(BlockId, usize)> {
    match merge {
        Some((right, _)) => merge_of(c, sizes, (right - 1) as u64),
        None => None,
    }
}

/// The other block of the two that the deletion in block `b` made join.
pub open spec fn other_of(b: BlockId, merge: Option<(BlockId, usize)>) -> Option<BlockId> {
    match merge {
        Some((right, _)) => if b == right {
            Some((right - 1) as u64)
        } else {
            Some(right)
        },
        None => None,
    }
}

/// What comes of redoing the last edit that was undone.
pub open spec fn redo_outcome(
    before: Editor,
    unreadable: Option<BlockId>,
    step: Step<Result<(), EditError>>,
    after: Editor,
) -> bool {
    if before.read_only {
        refused(step, read_only_message()) && after == before
    } else if before.cache@.wal is None {
        step is NeedWal && after == before
    } else if before.redo_stack@.len() == 0 {
        step == Step::Done(Err::<(), EditError>(EditError::NothingToRedo)) && after == before
    } else {
        let e = before.redo_stack@.last();
        match e {
            UndoEntry::InsertBytes { .. } => redo_insert_outcome(before, unreadable, e, step, after),
            UndoEntry::DeleteBytes { .. } => redo_delete_outcome(before, unreadable, e, step, after),
        }
    }
}

impl Editor {
    /// Redoes the insertion that was undone last.
    fn redo_insert(&mut self, unreadable: Option<BlockId>) -> (step: Step<Result<(), EditError>>)
        requires
            old(self).wf(),
            old(self).redo_fits(),
            old(self).redo_stack@.len() > 0,
            old(self).redo_stack@.last() is InsertBytes,
        ensures
            final(self).wf(),
            redo_insert_outcome(
                *old(self),
                unreadable,
                old(self).redo_stack@.last(),
                step,
                *final(self),
            ),
    {
        let depth: usize = self.redo_stack.len();
        let (block_id, inner_pos, n, split): (
            BlockId,
            usize,
            usize,
            Option<(BlockId, usize)>,
        ) = match &self.redo_stack[depth - 1] {
            UndoEntry::InsertBytes { block_id, inner_pos, bytes, split, .. } => (
                *block_id,
                *inner_pos,
                bytes.len(),
                *split,
            ),
            UndoEntry::DeleteBytes { .. } => {
                return Self::refuse_stale();
            },
        };
        if block_id >= self.block_count {
            return Self::refuse_stale();
        }
        if let Some((right, _)) = split {
            if right != self.block_count || block_id != self.block_count - 1 {
                return Self::refuse_stale();
            }
        }
        assert(self.insert_undone(old(self).redo_stack@.last()));
        if !self.cache.touch(block_id) {
            return Self::need_or_refuse(unreadable, block_id);
        }
        let len: usize = match self.cache.block_len(block_id) {
            Some(len) => len,
            None => 0,
        };
        if inner_pos > len {
            return Self::refuse_stale();
        }
        if let Some((_, at)) = split {
            if at > len + n {
                return Self::refuse_stale();
            }
        }
        let (bytes, cursor_before): (Vec<u8>, u64) = match self.redo_stack.pop() {
            Some(UndoEntry::InsertBytes { bytes, cursor_before, .. }) => (bytes, cursor_before),
            _ => {
                return Self::refuse_stale();
            },
        };
        assert(self.redo_stack@ =~= old(self).redo_stack@.drop_last());
        let ghost sizes = self.delta_table.sizes();
        if self.cache.insert_in_block(block_id, inner_pos, bytes.as_slice()).is_err() {
            return Self::refuse_stale();
        }
        proof {
            lemma_size_in_total(sizes, block_id as int);
        }
        self.resize_block(block_id, n as i64);
        self.file_size = self.file_size + n as u64;
        let end: u64 = cursor_before + n as u64;
        self.cursor_byte = if end < self.file_size { end } else { self.file_size };
        if let Some((_, at)) = split {
            proof {
                delta_table::lemma_prefix_update(
                    sizes,
                    block_id as int,
                    (sizes[block_id as int] + n) as i64,
                    sizes.len() as int,
                );
            }
            match self.cache.split_block(block_id, at) {
                Ok(right_len) => {
                    self.record_split(block_id, at, right_len);
                },
                Err(_) => {
                    return Self::refuse_stale();
                },
            }
        }
        self.undo_stack.push(
            UndoEntry::InsertBytes { block_id, inner_pos, bytes, cursor_before, split },
        );
        self.edit_epoch = self.edit_epoch + 1;
        Step::Done(Ok(()))
    }

    /// Redoes the deletion that was undone last.
    fn redo_delete(&mut self, unreadable: Option<BlockId>) -> (step: Step<Result<(), EditError>>)
        requires
            old(self).wf(),
            old(self).redo_fits(),
            old(self).redo_stack@.len() > 0,
            old(self).redo_stack@.last() is DeleteBytes,
        ensures
            final(self).wf(),
            redo_delete_outcome(
                *old(self),
                unreadable,
                old(self).redo_stack@.last(),
                step,
                *final(self),
            ),
    {
        let depth: usize = self.redo_stack.len();
        let (block_id, inner_pos, n, merge): (
            BlockId,
            usize,
            usize,
            Option<(BlockId, usize)>,
        ) = match &self.redo_stack[depth - 1] {
            UndoEntry::DeleteBytes { block_id, inner_pos, bytes, merge, .. } => (
                *block_id,
                *inner_pos,
                bytes.len(),
                *merge,
            ),
            UndoEntry::InsertBytes { .. } => {
                return Self::refuse_stale();
            },
        };
        if block_id >= self.block_count || n as u64 > self.delta_table.block_size(block_id) as u64
            || n as u64 > self.file_size {
            return Self::refuse_stale();
        }
        let other: Option<BlockId> = match merge {
            Some((right, _)) => {
                if right == 0 || right != self.block_count - 1 || (block_id != right && block_id
                    != right - 1) {
                    return Self::refuse_stale();
                }
                Some(if block_id == right { right - 1 } else { right })
            },
            None => None,
        };
        assert(self.delete_undone(old(self).redo_stack@.last()));
        if !self.cache.touch(block_id) {
            return Self::need_or_refuse(unreadable, block_id);
        }
        if let Some(o) = other {
            if !self.cache.touch(o) {
                if gave_up(unreadable, o) {
                    return Self::refuse_unreadable(o);
                }
                return Step::NeedBlock(o);
            }
        }
        let len: usize = match self.cache.block_len(block_id) {
            Some(len) => len,
            None => 0,
        };
        if n > 0 && inner_pos + n > len {
            return Self::refuse_stale();
        }
        let (bytes, cursor_before): (Vec<u8>, u64) = match self.redo_stack.pop() {
            Some(UndoEntry::DeleteBytes { bytes, cursor_before, .. }) => (bytes, cursor_before),
            _ => {
                return Self::refuse_stale();
            },
        };
        assert(self.redo_stack@ =~= old(self).redo_stack@.drop_last());
        let ghost sizes = self.delta_table.sizes();
        if self.cache.delete_in_block(block_id, inner_pos, n).is_err() {
            return Self::refuse_stale();
        }
        proof {
            self.delta_table.lemma_wf();
            lemma_size_in_total(sizes, block_id as int);
            delta_table::lemma_run_fits(sizes, 0, sizes.len() as int);
        }
        self.resize_block(block_id, -(n as i64));
        self.file_size = self.file_size - n as u64;
        self.cursor_byte = if cursor_before < self.file_size {
            cursor_before
        } else {
            self.file_size
        };
        let ghost cut = self.cache@;
        let ghost shrunk = self.delta_table.sizes();
        let again = match merge {
            Some((right, _)) => self.maybe_merge_blocks(right - 1),
            None => None,
        };
        let entry = UndoEntry::DeleteBytes {
            block_id,
            inner_pos,
            bytes,
            cursor_before,
            merge: again,
        };
        assert(entry.is_delete(block_id, inner_pos, bytes@, cursor_before, again));
        assert(again == merge_again(cut, shrunk, merge));
        self.undo_stack.push(entry);
        self.edit_epoch = self.edit_epoch + 1;
        assert(deleted_again(*old(self), old(self).redo_stack@.last(), *self));
        Step::Done(Ok(()))
    }

    /// Redoes the last edit that was undone.
    pub fn redo(&mut self, unreadable: Option<BlockId>) -> (step: Step<Result<(), EditError>>)
        requires
            old(self).wf(),
            !old(self).read_only ==> old(self).redo_fits(),
        ensures
            final(self).wf(),
            redo_outcome(*old(self), unreadable, step, *final(self)),
    {
        if self.read_only {
            return Self::refuse_read_only();
        }
        if self.cache.wal().is_none() {
            return Step::NeedWal;
        }
        let depth: usize = self.redo_stack.len();
        if depth == 0 {
            return Step::Done(Err(EditError::NothingToRedo));
        }
        let insertion = match &self.redo_stack[depth - 1] {
            UndoEntry::InsertBytes { .. } => true,
            UndoEntry::DeleteBytes { .. } => false,
        };
        if insertion {
            self.redo_insert(unreadable)
        } else {
            self.redo_delete(unreadable)
        }
    }
}

/// Writing the document out, block by block.
pub struct SaveJob {
    next: BlockId,
    written: u64,
    out: Ghost<Seq<u8>>,
}

/// What comes next when the document is written out.
pub enum SaveStep {
    /// These bytes are to be written.
    Write(Vec<u8>),
    /// The block is not in the cache: its bytes are to be read, written and
    /// reported.
    NeedBlock(BlockId),
    /// Everything is written.
    Finished,
}

impl SaveJob {
    /// The block to be written next.
    pub closed spec fn next_block(&self) -> BlockId {
        self.next
    }

    /// What was written.
    pub closed spec fn output(&self) -> Seq<u8> {
        self.out@
    }

    pub closed spec fn wf(&self) -> bool {
        &&& self.written == self.out@.len()
        &&& self.next == 0 ==> self.out@.len() == 0
    }

    /// What was written are the blocks of `ed` up to the next.
    pub open spec fn follows(&self, ed: Editor, base: Seq<u8>) -> bool {
        &&& self.next_block() <= ed.block_count
        &&& self.output() == content::joined(
            ed.blocks(base).subrange(0, self.next_block() as int),
        )
    }

    /// The block to be written next.
    pub fn next(&self) -> (id: BlockId)
        ensures
            id == self.next_block(),
    {
        self.next
    }

    /// How many bytes were written.
    pub fn written(&self) -> (n: u64)
        requires
            self.wf(),
        ensures
            n == self.output().len(),
    {
        self.written
    }

    /// Whether `len` more bytes can be counted.
    pub fn accepts(&self, len: usize) -> (b: bool)
        requires
            self.wf(),
        ensures
            b == (self.output().len() + len <= u64::MAX),
    {
        len as u64 <= u64::MAX - self.written
    }
}

impl Editor {
    /// Begins to write the document out.
    pub fn save_as(&self) -> (job: SaveJob)
        ensures
            job.wf(),
            job.next_block() == 0,
            job.output() == Seq::<u8>::empty(),
            forall|base: Seq<u8>| #[trigger] job.follows(*self, base),
    {
        let job = SaveJob { next: 0, written: 0, out: Ghost(Seq::empty()) };
        proof {
            assert forall|base: Seq<u8>| #[trigger] job.follows(*self, base) by {
                assert(self.blocks(base).subrange(0, 0) =~= Seq::<Seq<u8>>::empty());
            }
        }
        job
    }

    /// Within the limits of the machine for the next block to be counted, where
    /// it is in the cache.
    pub open spec fn writable(&self, job: SaveJob) -> bool {
        let id = job.next_block();
        self.cache@.has(id) ==> job.output().len() + self.cache@.blocks[id].bytes.len()
            <= u64::MAX
    }

    /// Writes the next block out if it is in the cache. Its edits stay edits:
    /// only a save that takes the place of the file stores them.
    pub fn save_next(&mut self, job: &mut SaveJob) -> (step: SaveStep)
        requires
            old(self).wf(),
            old(job).wf(),
            old(self).writable(*old(job)),
        ensures
            final(self).wf(),
            final(job).wf(),
            *final(self) == (Editor { cache: final(self).cache, ..*old(self) }),
            ({
                let id = old(job).next_block();
                let c = old(self).cache@;
                if id >= old(self).block_count {
                    &&& step is Finished
                    &&& final(self).cache@ == c
                    &&& *final(job) == *old(job)
                } else if c.has(id) {
                    &&& step matches SaveStep::Write(bytes) && bytes@ == c.blocks[id].bytes
                    &&& final(self).cache@ == c.touched(id)
                    &&& final(job).next_block() == id + 1
                    &&& final(job).output() == old(job).output() + c.blocks[id].bytes
                } else {
                    &&& step == SaveStep::NeedBlock(id)
                    &&& final(self).cache@ == c.touched(id)
                    &&& *final(job) == *old(job)
                }
            }),
            forall|base: Seq<u8>|
                old(job).follows(*old(self), base) ==> #[trigger] final(job).follows(
                    *final(self),
                    base,
                ),
            forall|base: Seq<u8>| #[trigger] final(self).blocks(base) == old(self).blocks(base),
    {
        let id: BlockId = job.next;
        if id >= self.block_count {
            return SaveStep::Finished;
        }
        let bytes = match self.cache.try_get(id) {
            Some(snap) => Some(snap.contiguous),
            None => None,
        };
        proof {
            assert forall|base: Seq<u8>| #[trigger] self.blocks(base) == old(self).blocks(
                base,
            ) by {
                assert(self.blocks(base) =~= old(self).blocks(base));
            }
        }
        match bytes {
            Some(bytes) => {
                job.written = job.written + bytes.len() as u64;
                job.next = id + 1;
                job.out = Ghost(job.out@ + bytes@);
                proof {
                    assert forall|base: Seq<u8>|
                        old(job).follows(*old(self), base) implies #[trigger] job.follows(
                        *self,
                        base,
                    ) by {
                        assert(self.blocks(base) == old(self).blocks(base));
                        lemma_joined_next(self.blocks(base), id as int);
                    }
                }
                SaveStep::Write(bytes)
            },
            None => {
                proof {
                    assert forall|base: Seq<u8>|
                        old(job).follows(*old(self), base) implies #[trigger] job.follows(
                        *self,
                        base,
                    ) by {
                        assert(self.blocks(base) == old(self).blocks(base));
                    }
                }
                SaveStep::NeedBlock(id)
            },
        }
    }

    /// Notes that the next block, which was not in the cache, was written out
    /// with these bytes.
    pub fn save_given(&self, job: &mut SaveJob, bytes: &[u8])
        requires
            old(job).wf(),
            old(job).next_block() < self.block_count,
            old(job).output().len() + bytes@.len() <= u64::MAX,
        ensures
            final(job).wf(),
            final(job).next_block() == old(job).next_block() + 1,
            final(job).output() == old(job).output() + bytes@,
            forall|base: Seq<u8>|
                old(job).follows(*self, base) && bytes@ == self.blocks(base)[old(
                    job,
                ).next_block() as int] ==> #[trigger] final(job).follows(*self, base),
    {
        let ghost id = job.next;
        job.written = job.written + bytes.len() as u64;
        job.next = job.next + 1;
        job.out = Ghost(job.out@ + bytes@);
        proof {
            assert forall|base: Seq<u8>|
                old(job).follows(*self, base) && bytes@ == self.blocks(
                    base,
                )[id as int] implies #[trigger] job.follows(*self, base) by {
                lemma_joined_next(self.blocks(base), id as int);
            }
        }
    }

    /// Within the limits of the machine for a document of `size` bytes to be laid
    /// out in blocks anew.
    pub open spec fn layable(&self, size: int) -> bool {
        &&& 0 < self.config.block_size <= i64::MAX
        &&& size <= i64::MAX
        &&& io_worker::block_count_of(size as nat, self.block_size()) <= isize::MAX
        &&& self.edit_epoch < u64::MAX
    }

    /// Notes that the document was written out. Where it took the place of the
    /// file it was read from, it is laid out in blocks anew, as that file now is:
    /// the log and what was held in memory are no longer needed, and the edits
    /// of the old blocks can no longer be undone.
    pub fn finish_save(&mut self, job: SaveJob, fold_into_self: bool)
        requires
            old(self).wf(),
            job.wf(),
            job.next_block() == old(self).block_count,
            fold_into_self ==> old(self).layable(job.output().len() as int),
        ensures
            final(self).wf(),
            job.output().len() <= u64::MAX,
            !fold_into_self ==> *final(self) == (Editor {
                file_size: job.output().len() as u64,
                original_file_size: job.output().len() as u64,
                ..*old(self)
            }),
            fold_into_self ==> folded(*old(self), job.output().len(), *final(self)),
    {
        self.file_size = job.written;
        self.original_file_size = job.written;
        if fold_into_self {
            let count: u64 = io_worker::compute_block_count(job.written, self.config.block_size);
            proof {
                io_worker::lemma_block_count(job.written as nat, self.block_size());
                io_worker::lemma_blocks_total(job.written as nat, self.block_size());
            }
            self.delta_table = DeltaTable::new(count, self.config.block_size, job.written);
            self.block_count = count;
            self.cache.clear();
            self.undo_stack = Vec::new();
            self.redo_stack = Vec::new();
            self.edit_epoch = self.edit_epoch + 1;
        }
    }

    /// The blocks with edits, which thereby count as stored, to be appended to
    /// the log; and what is to be reported of that.
    pub fn save_incremental(&mut self) -> (r: (
        Vec<(BlockId, Vec<u8>)>,
        crate::message::SaveReport,
    ))
        requires
            old(self).wf(),
        ensures
            final(self).wf(),
            *final(self) == (Editor { cache: final(self).cache, ..*old(self) }),
            final(self).cache@ == io_worker::all_cleaned(old(self).cache@),
            io_worker::edits_of(old(self).cache@, r.0@),
            r.1.written_bytes == (if io_worker::entries_len(r.0@) <= u64::MAX {
                io_worker::entries_len(r.0@) as int
            } else {
                u64::MAX as int
            }),
            r.1.dirty_blocks_written == r.0@.len(),
            r.1.clean_blocks_copied == 0,
            r.1.duration_ms == 0,
    {
        io_worker::commit_save(&mut self.cache)
    }

    /// Whether the log holds edits that are not in the file.
    pub fn wal_pending(&self) -> (b: bool)
        requires
            self.wf(),
        ensures
            b == (self.cache@.wal is Some && !self.cache@.wal->0@.dom().is_empty()),
    {
        match self.cache.wal() {
            Some(w) => w.has_entries(),
            None => false,
        }
    }

    /// Whether the log is there, or has to be opened first.
    pub fn ensure_wal(&self) -> (step: Step<()>)
        requires
            self.wf(),
        ensures
            step == (if self.cache@.wal is Some {
                Step::Done(())
            } else {
                Step::NeedWal
            }),
    {
        if self.cache.wal().is_some() {
            Step::Done(())
        } else {
            Step::NeedWal
        }
    }

    /// Takes the log away.
    pub fn dispose_wal(&mut self)
        requires
            old(self).wf(),
        ensures
            final(self).wf(),
            *final(self) == (Editor { cache: final(self).cache, ..*old(self) }),
            final(self).cache@ == (CacheModel { wal: None, ..old(self).cache@ }),
    {
        self.cache.detach_wal();
    }

    /// A search for `query` that begins at the cursor.
    pub open spec fn search_begun(
        &self,
        query: Seq<u8>,
        direction: Direction,
        limit: usize,
    ) -> SearchModel {
        let sizes = self.delta_table.sizes();
        let b = if self.block_count == 0 {
            0
        } else {
            delta_table::block_at(sizes, self.cursor_byte as int)
        };
        SearchModel {
            query,
            start_byte: self.cursor_byte,
            block_count: self.block_count,
            direction,
            limit,
            next: b as u64,
            peek: direction == Direction::Backward && query.len() > 1 && b + 1 < self.block_count,
            over: query.len() == 0 || limit == 0 || self.block_count == 0 || (direction
                == Direction::Backward && self.cursor_byte == 0),
            matches: Seq::empty(),
            scanned: 0,
            has_more: false,
            overlap: Seq::empty(),
            offset: delta_table::prefix(sizes, b) as u64,
            first: true,
        }
    }

    /// Begins to search for `query` from the cursor on, and remembers it to be
    /// searched for again.
    pub fn search_literal(&mut self, query: &[u8], direction: Direction, limit: usize) -> (job:
        SearchJob)
        requires
            old(self).wf(),
        ensures
            final(self).wf(),
            *final(self) == (Editor { last_search: final(self).last_search, ..*old(self) }),
            query@.len() == 0 ==> final(self).last_search == old(self).last_search,
            query@.len() > 0 ==> final(self).last_search is Some && final(self).last_search->0@
                == query@,
            job@.wf(),
            job@ == old(self).search_begun(query@, direction, limit),
    {
        if query.len() > 0 {
            self.last_search = Some(vstd::slice::slice_to_vec(query));
        }
        let ghost sizes = self.delta_table.sizes();
        let (start_block, _) = self.delta_table.locate_offset(self.cursor_byte);
        let start_block_offset: u64 = self.delta_table.block_start_offset(
            start_block,
            self.config.block_size,
        );
        proof {
            if self.block_count > 0 {
                delta_table::lemma_prefix_monotone(sizes, 0, start_block as int);
            } else {
                assert(delta_table::prefix(sizes, 0) == 0);
            }
        }
        SearchJob::new(
            vstd::slice::slice_to_vec(query),
            self.cursor_byte,
            start_block,
            start_block_offset,
            self.block_count,
            direction,
            limit,
        )
    }
}

/// `after` is `before` laid out anew over a file of `size` bytes.
pub open spec fn folded(before: Editor, size: nat, after: Editor) -> bool {
    &&& after == (Editor {
        cache: after.cache,
        delta_table: after.delta_table,
        block_count: io_worker::block_count_of(size, before.block_size()) as u64,
        undo_stack: after.undo_stack,
        redo_stack: after.redo_stack,
        file_size: size as u64,
        original_file_size: size as u64,
        edit_epoch: (before.edit_epoch + 1) as u64,
        ..before
    })
    &&& after.cache@ == before.cache@.emptied()
    &&& after.delta_table.sizes() == delta_table::initial_sizes(
        after.block_count as nat,
        before.config.block_size as int,
        size as int,
    )
    &&& after.delta_table.originals() == after.delta_table.sizes()
    &&& after.undo_stack@ == Seq::<UndoEntry>::empty()
    &&& after.redo_stack@ == Seq::<UndoEntry>::empty()
}

proof fn lemma_joined_next(blocks: Seq<Seq<u8>>, i: int)
    requires
        0 <= i < blocks.len(),
    ensures
        content::joined(blocks.subrange(0, i + 1)) == content::joined(blocks.subrange(0, i))
            + blocks[i],
{
    assert(blocks.subrange(0, i + 1).drop_last() =~= blocks.subrange(0, i));
}

/// When the document is written out, what is written is what it holds.
pub proof fn law_saved_is_content(ed: Editor, job: SaveJob, base: Seq<u8>)
    requires
        job.follows(ed, base),
        job.next_block() == ed.block_count,
    ensures
        job.output() == ed.content(base),
{
    assert(ed.blocks(base).subrange(0, ed.block_count as int) =~= ed.blocks(base));
}

/// Saving twice writes the same bytes, whatever blocks were asked for and
/// wherever the cursor has moved in between.
pub proof fn law_saving_twice_writes_the_same(
    ed: Editor,
    first: SaveJob,
    later: Editor,
    second: SaveJob,
    base: Seq<u8>,
)
    requires
        first.follows(ed, base),
        first.next_block() == ed.block_count,
        later == (Editor {
            cursor_byte: later.cursor_byte,
            cache: later.cache,
            file_size: later.file_size,
            original_file_size: later.original_file_size,
            ..ed
        }),
        ed.cache@.only_asked(later.cache@),
        second.follows(later, base),
        second.next_block() == later.block_count,
    ensures
        second.output() == first.output(),
{
    cache::lemma_asked_frame(ed.cache@, later.cache@);
    assert(later.blocks(base) =~= ed.blocks(base));
    law_saved_is_content(ed, first, base);
    law_saved_is_content(later, second, base);
}

} // verus!
