//! Whether an edit or a save is within the limits of the machine.

use crate::block::BlockId;
use crate::delta_table;
use crate::editor::{Editor, SaveJob, UndoEntry};
use crate::io_worker;
use vstd::prelude::*;

verus! {

impl Editor {
    /// How many bytes the blocks have together.
    fn total_size(&self) -> (n: u64)
        requires
            self.wf(),
        ensures
            n == delta_table::total(self.delta_table.sizes()),
    {
        proof {
            let sizes = self.delta_table.sizes();
            delta_table::lemma_prefix_monotone(sizes, 0, sizes.len() as int);
        }
        self.delta_table.block_start_offset(self.block_count, self.config.block_size)
    }

    /// The block that the cursor is in and where in it, in an empty document
    /// the first block.
    fn cursor_place(&self) -> (place: (BlockId, usize))
        requires
            self.wf(),
        ensures
            place == (self.cursor_block(), self.cursor_inner()),
            self.block_count > 0 ==> place.0 < self.block_count,
    {
        self.delta_table.locate_offset(self.cursor_byte)
    }

    /// Whether `n` bytes can be put in at the cursor.
    pub fn can_insert(&self, n: usize) -> (b: bool)
        requires
            self.wf(),
        ensures
            b == self.editable(n as int),
    {
        let (id, _) = self.cursor_place();
        let total: i128 = self.total_size() as i128;
        let more: i128 = n as i128;
        if self.edit_epoch == u64::MAX || self.file_size as i128 + more > i64::MAX as i128
            || self.cursor_byte as i128 + more > u64::MAX as i128 || self.block_count as i128 + 3
            >= usize::MAX as i128 || total + more > i64::MAX as i128 {
            return false;
        }
        if self.block_count > 0 && self.delta_table.block_size(id) as i128 + more
            > usize::MAX as i128 {
            return false;
        }
        if let Some(len) = self.cache.block_len(id) {
            if len as i128 + more > usize::MAX as i128 || total + len as i128 + more
                > i64::MAX as i128 {
                return false;
            }
        }
        self.cache.pin_count(id) < usize::MAX
    }

    /// Whether `n` bytes can be deleted from the cursor on.
    pub fn can_delete(&self, n: usize) -> (b: bool)
        requires
            self.wf(),
        ensures
            b == self.deletable(n as int),
    {
        let (id, inner) = self.cursor_place();
        let end: i128 = inner as i128 + n as i128;
        if self.edit_epoch == u64::MAX || self.cursor_byte as i128 + n as i128 > u64::MAX as i128
            || end > usize::MAX as i128 || self.cache.pin_count(id) == usize::MAX {
            return false;
        }
        if self.block_count > 0 {
            if let Some(len) = self.cache.block_len(id) {
                return end > len as i128 || n as i128 <= self.delta_table.block_size(id) as i128;
            }
        }
        true
    }

    /// How many bytes a block has, and how many it would have if a split were
    /// taken back.
    fn unsplit_size(&self, id: BlockId, split: bool) -> (n: i128)
        requires
            self.wf(),
            id < self.block_count,
            split ==> id + 1 < self.block_count,
        ensures
            n == self.delta_table.sizes()[id as int] + (if split {
                self.delta_table.sizes()[id + 1] as int
            } else {
                0
            }),
            n <= i64::MAX,
    {
        proof {
            let sizes = self.delta_table.sizes();
            self.delta_table.lemma_wf();
            if split {
                delta_table::lemma_run_fits(sizes, id as int, id + 2);
                assert(delta_table::prefix(sizes, id + 2) == delta_table::prefix(sizes, id + 1)
                    + sizes[id + 1]);
                assert(delta_table::prefix(sizes, id + 1) == delta_table::prefix(sizes, id as int)
                    + sizes[id as int]);
            }
        }
        let size: i128 = self.delta_table.block_size(id) as i128;
        if split {
            size + self.delta_table.block_size(id + 1) as i128
        } else {
            size
        }
    }

    /// Whether the last edit can be undone, if there is one.
    pub fn can_undo(&self) -> (b: bool)
        requires
            self.wf(),
        ensures
            b == self.undo_fits(),
    {
        if self.edit_epoch == u64::MAX {
            return false;
        }
        let last: usize = self.undo_stack.len();
        if last == 0 {
            return true;
        }
        match &self.undo_stack[last - 1] {
            UndoEntry::InsertBytes { block_id, inner_pos, bytes, split, .. } => {
                let id: BlockId = *block_id;
                let n: i128 = bytes.len() as i128;
                if id >= self.block_count {
                    return true;
                }
                if let Some((right, _)) = split {
                    let right: BlockId = *right;
                    if right != id + 1 || right != self.block_count - 1 {
                        return true;
                    }
                }
                let size: i128 = self.unsplit_size(id, split.is_some());
                assert(size == self.unsplit(id, *split).1[id as int]);
                if n > size || n > self.file_size as i128 {
                    return true;
                }
                assert(self.insert_made(self.undo_stack@.last()));
                if let Some((right, _)) = split {
                    if size > usize::MAX as i128 {
                        return false;
                    }
                    if let Some(a) = self.cache.block_len(id) {
                        if let Some(b) = self.cache.block_len(*right) {
                            if a as i128 + b as i128 > usize::MAX as i128 {
                                return false;
                            }
                        }
                    }
                }
                self.cache.pin_count(id) < usize::MAX && *inner_pos as i128 + n
                    <= usize::MAX as i128
            },
            UndoEntry::DeleteBytes { block_id, bytes, merge, .. } => {
                let id: BlockId = *block_id;
                match merge {
                    Some((right, _)) => {
                        let right: BlockId = *right;
                        if right != self.block_count || right == 0 || (id != right && id != right
                            - 1) {
                            return true;
                        }
                        self.block_count as i128 + 2 < usize::MAX as i128 && self.can_grow(
                            right - 1,
                            bytes.len(),
                            true,
                        ) && self.cache.pin_count(id) < usize::MAX
                    },
                    None => id >= self.block_count || self.can_grow(id, bytes.len(), false),
                }
            },
        }
    }

    /// Whether block `id` can grow by `n` bytes, and be split then.
    fn can_grow(&self, id: BlockId, n: usize, divide: bool) -> (b: bool)
        requires
            self.wf(),
        ensures
            b == {
                let c = self.cache@;
                let sizes = self.delta_table.sizes();
                &&& c.pins(id) < usize::MAX
                &&& id < self.block_count
                &&& sizes[id as int] + n <= usize::MAX
                &&& delta_table::total(sizes) + n <= i64::MAX
                &&& self.file_size + n <= i64::MAX
                &&& c.has(id) ==> {
                    &&& c.blocks[id].bytes.len() + n <= usize::MAX
                    &&& divide ==> delta_table::total(sizes) - sizes[id as int]
                        + c.blocks[id].bytes.len() + n <= i64::MAX
                }
            },
    {
        if self.cache.pin_count(id) == usize::MAX || id >= self.block_count {
            return false;
        }
        let size: i128 = self.delta_table.block_size(id) as i128;
        let total: i128 = self.total_size() as i128;
        let more: i128 = n as i128;
        if size + more > usize::MAX as i128 || total + more > i64::MAX as i128
            || self.file_size as i128 + more > i64::MAX as i128 {
            return false;
        }
        if let Some(len) = self.cache.block_len(id) {
            if len as i128 + more > usize::MAX as i128 {
                return false;
            }
            if divide && total - size + len as i128 + more > i64::MAX as i128 {
                return false;
            }
        }
        true
    }

    /// Whether the last edit that was undone can be redone, if there is one.
    pub fn can_redo(&self) -> (b: bool)
        requires
            self.wf(),
        ensures
            b == self.redo_fits(),
    {
        if self.edit_epoch == u64::MAX || self.block_count as i128 + 2 >= usize::MAX as i128 {
            return false;
        }
        let last: usize = self.redo_stack.len();
        if last == 0 {
            return true;
        }
        match &self.redo_stack[last - 1] {
            UndoEntry::InsertBytes { block_id, bytes, cursor_before, split, .. } => {
                let id: BlockId = *block_id;
                if id >= self.block_count {
                    return true;
                }
                if let Some((right, _)) = split {
                    if *right != self.block_count || id != self.block_count - 1 {
                        return true;
                    }
                }
                self.can_grow(id, bytes.len(), true) && *cursor_before as i128
                    + bytes.len() as i128 <= u64::MAX as i128
            },
            UndoEntry::DeleteBytes { block_id, inner_pos, bytes, merge, .. } => {
                let id: BlockId = *block_id;
                let n: i128 = bytes.len() as i128;
                if id >= self.block_count || n > self.delta_table.block_size(id) as i128 || n
                    > self.file_size as i128 {
                    return true;
                }
                if let Some((right, _)) = merge {
                    let right: BlockId = *right;
                    if right == 0 || right != self.block_count - 1 || (id != right && id != right
                        - 1) {
                        return true;
                    }
                }
                self.cache.pin_count(id) < usize::MAX && *inner_pos as i128 + n
                    <= usize::MAX as i128
            },
        }
    }

    /// Whether the next block can be written out.
    pub fn can_save_next(&self, job: &SaveJob) -> (b: bool)
        requires
            self.wf(),
            job.wf(),
        ensures
            b == self.writable(*job),
    {
        match self.cache.block_len(job.next()) {
            Some(len) => job.accepts(len),
            None => true,
        }
    }

    /// Whether the document can be laid out anew over what was written.
    pub fn can_fold(&self, job: &SaveJob) -> (b: bool)
        requires
            self.wf(),
            job.wf(),
        ensures
            b == self.layable(job.output().len() as int),
    {
        let size: u64 = job.written();
        0 < self.config.block_size && self.config.block_size as u64 <= i64::MAX as u64 && size
            <= i64::MAX as u64 && io_worker::compute_block_count(size, self.config.block_size)
            <= isize::MAX as u64 && self.edit_epoch < u64::MAX
    }
}

} // verus!
