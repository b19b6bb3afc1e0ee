//! One block of the file: raw bytes while it is only read, a gap buffer once
//! it is edited.

use crate::error::EditError;
use crate::text;
use std::ops::Range;
use vstd::prelude::*;
use vstd::slice::slice_subrange;

verus! {

/// The position of a block in the file, counted from zero.
pub type BlockId = u64;

/// Whether a block differs from what is stored, and how it is held.
#[derive(Copy, Clone, Debug, PartialEq, Eq, Structural)]
pub enum BlockState {
    /// As stored.
    Clean,
    /// Edited since it was last stored.
    Dirty,
    /// Pinned for an edit that is under way.
    InGapBuffer,
}

/// The two forms in which a block's bytes are held.
pub enum BlockData {
    /// One run of bytes.
    Raw(Vec<u8>),
    /// A gap buffer, ready for edits.
    Gap(GapBuffer),
}

impl BlockData {
    /// The bytes, in either form.
    pub open spec fn bytes(&self) -> Seq<u8> {
        match self {
            BlockData::Raw(v) => v@,
            BlockData::Gap(g) => g@,
        }
    }

    pub open spec fn wf(&self) -> bool {
        match self {
            BlockData::Raw(_) => true,
            BlockData::Gap(g) => g.wf(),
        }
    }

    /// The bytes as one run.
    pub fn to_contiguous(&self) -> (bytes: Vec<u8>)
        requires
            self.wf(),
        ensures
            bytes@ == self.bytes(),
    {
        match self {
            BlockData::Raw(v) => v.clone(),
            BlockData::Gap(g) => g.as_contiguous(),
        }
    }
}

/// What there is to know of a block, apart from its number.
#[verifier::ext_equal]
pub struct BlockModel {
    pub raw_len: nat,
    pub bytes: Seq<u8>,
    pub state: BlockState,
    /// Whether the bytes are held in a gap buffer.
    pub gap: bool,
}

impl BlockModel {
    /// A block as it was read, with no edits.
    pub open spec fn clean(bytes: Seq<u8>) -> BlockModel {
        BlockModel { raw_len: bytes.len(), bytes, state: BlockState::Clean, gap: false }
    }

    /// A block that was cut off from another one and is stored nowhere yet.
    pub open spec fn cut_off(bytes: Seq<u8>) -> BlockModel {
        BlockModel { state: BlockState::Dirty, ..BlockModel::clean(bytes) }
    }

    /// Whether the block holds edits that are not stored.
    pub open spec fn unsaved(self) -> bool {
        self.state is Dirty || self.state is InGapBuffer
    }
}

/// A block of the file.
pub struct Block {
    pub id: BlockId,
    /// How many bytes the block held when it was last stored or loaded.
    pub raw_len: usize,
    pub data: BlockData,
    pub state: BlockState,
}

impl Block {
    /// The bytes that the block holds now.
    pub open spec fn bytes(&self) -> Seq<u8> {
        self.data.bytes()
    }

    pub open spec fn wf(&self) -> bool {
        self.data.wf()
    }

    pub open spec fn model(&self) -> BlockModel {
        BlockModel {
            raw_len: self.raw_len as nat,
            bytes: self.bytes(),
            state: self.state,
            gap: self.data is Gap,
        }
    }

    /// A block that was cut off from another one and is stored nowhere yet.
    pub fn new_cut_off(id: BlockId, bytes: Vec<u8>) -> (block: Self)
        ensures
            block.wf(),
            block.id == id,
            block.model() == BlockModel::cut_off(bytes@),
    {
        let raw_len: usize = bytes.len();
        Self { id, raw_len, data: BlockData::Raw(bytes), state: BlockState::Dirty }
    }

    pub fn new_clean(id: BlockId, bytes: Vec<u8>) -> (block: Self)
        ensures
            block.wf(),
            block.id == id,
            block.raw_len == bytes.len(),
            block.data == BlockData::Raw(bytes),
            block.bytes() == bytes@,
            block.state == BlockState::Clean,
    {
        let raw_len: usize = bytes.len();
        Self { id, raw_len, data: BlockData::Raw(bytes), state: BlockState::Clean }
    }

    pub fn len(&self) -> (n: usize)
        requires
            self.wf(),
        ensures
            n == self.bytes().len(),
    {
        match &self.data {
            BlockData::Raw(v) => v.len(),
            BlockData::Gap(g) => g.len(),
        }
    }

    pub fn is_empty(&self) -> (b: bool)
        requires
            self.wf(),
        ensures
            b == (self.bytes().len() == 0),
    {
        self.len() == 0
    }

    /// Turns the block into a gap buffer, ready for edits, and hands the gap
    /// buffer out; a block that is one already stays as it is.
    pub fn to_gap(&mut self) -> (gap: &mut GapBuffer)
        requires
            old(self).wf(),
        ensures
            (*gap).wf(),
            (*gap)@ == old(self).bytes(),
            old(self).data is Gap ==> old(self).data == BlockData::Gap(*gap),
            final(self).id == old(self).id,
            final(self).raw_len == old(self).raw_len,
            final(self).state == old(self).state,
            final(self).data == BlockData::Gap(*final(gap)),
    {
        if let BlockData::Raw(_) = &self.data {
            let bytes = self.data.to_contiguous();
            self.data = BlockData::Gap(GapBuffer::new(bytes));
        }
        match &mut self.data {
            BlockData::Gap(g) => g,
            BlockData::Raw(_) => vstd::pervasive::unreached(),
        }
    }

    /// The block's bytes as one run, to be stored.
    pub fn into_contiguous_bytes(self) -> (bytes: Vec<u8>)
        requires
            self.wf(),
        ensures
            bytes@ == self.bytes(),
    {
        match self.data {
            BlockData::Raw(v) => v,
            BlockData::Gap(g) => g.as_contiguous(),
        }
    }
}

/// A run of bytes with an unused gap at the place of the last edit, so that
/// edits near one another move few bytes.
pub struct GapBuffer {
    buf: Vec<u8>,
    gap_start: usize,
    gap_end: usize,
    /// How many bytes the buffer was made with.
    pub original_len: usize,
}

impl View for GapBuffer {
    type V = Seq<u8>;

    /// The bytes before the gap, then those behind it.
    closed spec fn view(&self) -> Seq<u8> {
        self.buf@.subrange(0, self.gap_start as int) + self.buf@.subrange(
            self.gap_end as int,
            self.buf@.len() as int,
        )
    }
}

/// The message for an insertion at `pos` into `len` bytes.
pub open spec fn insert_message(pos: nat, len: nat) -> Seq<char> {
    "insert pos "@ + text::dec(pos) + " out of bounds (len "@ + text::dec(len) + ")"@
}

/// The message for deleting `start..end` out of `len` bytes.
pub open spec fn delete_message(start: nat, end: nat, len: nat) -> Seq<char> {
    "delete range out of bounds: "@ + text::dec(start) + ".."@ + text::dec(end) + " (len "@
        + text::dec(len) + ")"@
}

/// The message for reading `start..end` out of `len` bytes.
pub open spec fn slice_message(start: nat, end: nat, len: nat) -> Seq<char> {
    "slice "@ + text::dec(start) + ".."@ + text::dec(end) + " out of len "@ + text::dec(len)
}

/// The message for splitting `len` bytes at `mid`.
pub open spec fn split_message(mid: nat, len: nat) -> Seq<char> {
    "split_at "@ + text::dec(mid) + " > len "@ + text::dec(len)
}

/// `s` with `bytes` put in at `pos`.
pub open spec fn spliced_in<T>(s: Seq<T>, pos: int, bytes: Seq<T>) -> Seq<T> {
    s.subrange(0, pos) + bytes + s.subrange(pos, s.len() as int)
}

/// `s` without `start..end`.
pub open spec fn spliced_out<T>(s: Seq<T>, start: int, end: int) -> Seq<T> {
    s.subrange(0, start) + s.subrange(end, s.len() as int)
}

impl GapBuffer {
    /// How many bytes the buffer was made with.
    pub closed spec fn initial_len(&self) -> usize {
        self.original_len
    }

    pub closed spec fn wf(&self) -> bool {
        self.gap_start <= self.gap_end <= self.buf.len()
    }

    /// How many bytes the buffer was made with.
    pub fn original_len(&self) -> (n: usize)
        ensures
            n == self.initial_len(),
    {
        self.original_len
    }

    /// A buffer that holds `initial`.
    pub fn new(initial: Vec<u8>) -> (gb: Self)
        ensures
            gb.wf(),
            gb@ == initial@,
            gb.initial_len() == initial.len(),
    {
        let original_len: usize = initial.len();
        let spare: usize = if original_len > 8 { original_len } else { 16 - original_len };
        let mut buf = initial;
        let gap_start: usize = buf.len();
        let gap_end: usize = gap_start.saturating_add(spare);
        buf.resize(gap_end, 0);
        let gb = Self { buf, gap_start, gap_end, original_len };
        assert(gb@ =~= initial@);
        gb
    }

    pub fn len(&self) -> (n: usize)
        requires
            self.wf(),
        ensures
            n == self@.len(),
    {
        self.gap_start + (self.buf.len() - self.gap_end)
    }

    pub fn is_empty(&self) -> (b: bool)
        requires
            self.wf(),
        ensures
            b == (self@.len() == 0),
    {
        self.len() == 0
    }

    /// Moves the contents to a larger buffer whose gap has room for
    /// `need_additional` bytes.
    fn grow_gap(&mut self, need_additional: usize)
        requires
            old(self).wf(),
            old(self)@.len() + need_additional <= usize::MAX,
        ensures
            final(self).wf(),
            final(self)@ == old(self)@,
            final(self).gap_start == old(self).gap_start,
            final(self).gap_end - final(self).gap_start >= need_additional,
            final(self).initial_len() == old(self).initial_len(),
    {
        let wanted: usize = self.len() + need_additional;
        let spare: usize = if wanted / 2 > 16 { wanted / 2 } else { 16 };
        let total: usize = wanted.saturating_add(spare);
        let suffix_len: usize = self.buf.len() - self.gap_end;
        let gap_end: usize = total - suffix_len;
        let mut buf: Vec<u8> = Vec::with_capacity(total);
        buf.extend_from_slice(slice_subrange(self.buf.as_slice(), 0, self.gap_start));
        let ghost prefix = buf@;
        buf.resize(gap_end, 0);
        assert(buf@.subrange(0, prefix.len() as int) =~= prefix);
        let ghost padded = buf@;
        buf.extend_from_slice(slice_subrange(self.buf.as_slice(), self.gap_end, self.buf.len()));
        assert(buf@.subrange(0, prefix.len() as int) =~= padded.subrange(0, prefix.len() as int));
        self.buf = buf;
        self.gap_end = gap_end;
        assert(self@ =~= old(self)@);
    }

    /// Puts `bytes` in at `pos`.
    pub fn insert(&mut self, pos: usize, bytes: &[u8]) -> (r: Result<(), EditError>)
        requires
            old(self).wf(),
            old(self)@.len() + bytes@.len() <= usize::MAX,
        ensures
            final(self).wf(),
            final(self).initial_len() == old(self).initial_len(),
            r is Ok <==> pos <= old(self)@.len(),
            r is Ok ==> final(self)@ == spliced_in(old(self)@, pos as int, bytes@),
            r matches Err(e) ==> {
                &&& *final(self) == *old(self)
                &&& e matches EditError::GapBuffer(m) && m@ == insert_message(
                    pos as nat,
                    old(self)@.len(),
                )
            },
    {
        if pos > self.len() {
            let mut m = "insert pos ".to_string();
            text::push_dec(&mut m, pos as u64);
            m.append(" out of bounds (len ");
            text::push_dec(&mut m, self.len() as u64);
            m.append(")");
            return Err(EditError::GapBuffer(m));
        }
        self.move_gap_to(pos);
        if bytes.len() > self.gap_end - self.gap_start {
            self.grow_gap(bytes.len());
        }
        let mut i: usize = 0;
        let ghost before = self.buf@;
        let ghost gap_end = self.gap_end;
        while i < bytes.len()
            invariant
                self.gap_start == pos,
                self.gap_start + bytes.len() <= self.gap_end <= self.buf.len(),
                self.initial_len() == old(self).initial_len(),
                i <= bytes.len(),
                before.len() == self.buf@.len(),
                self.gap_end == gap_end,
                self.buf@ == before.subrange(0, pos as int) + bytes@.subrange(0, i as int)
                    + before.subrange(pos + i, before.len() as int),
            decreases bytes.len() - i,
        {
            let b: u8 = bytes[i];
            self.buf[pos + i] = b;
            i = i + 1;
            assert(self.buf@ =~= before.subrange(0, pos as int) + bytes@.subrange(0, i as int)
                + before.subrange(pos + i, before.len() as int));
        }
        self.gap_start = self.gap_start + bytes.len();
        assert(self@ =~= spliced_in(old(self)@, pos as int, bytes@));
        Ok(())
    }

    /// Takes `len` bytes out from `pos` on.
    pub fn delete(&mut self, pos: usize, len: usize) -> (r: Result<(), EditError>)
        requires
            old(self).wf(),
            pos + len <= usize::MAX,
        ensures
            final(self).wf(),
            final(self).initial_len() == old(self).initial_len(),
            r is Ok <==> len == 0 || pos + len <= old(self)@.len(),
            r is Ok && len == 0 ==> *final(self) == *old(self),
            r is Ok && len > 0 ==> final(self)@ == spliced_out(old(self)@, pos as int, pos + len),
            r matches Err(e) ==> {
                &&& *final(self) == *old(self)
                &&& e matches EditError::GapBuffer(m) && m@ == delete_message(
                    pos as nat,
                    (pos + len) as nat,
                    old(self)@.len(),
                )
            },
    {
        if len == 0 {
            return Ok(());
        }
        if pos + len > self.len() {
            let mut m = "delete range out of bounds: ".to_string();
            text::push_dec(&mut m, pos as u64);
            m.append("..");
            text::push_dec(&mut m, (pos + len) as u64);
            m.append(" (len ");
            text::push_dec(&mut m, self.len() as u64);
            m.append(")");
            return Err(EditError::GapBuffer(m));
        }
        self.move_gap_to(pos);
        self.gap_end = self.gap_end + len;
        assert(self@ =~= spliced_out(old(self)@, pos as int, pos + len));
        Ok(())
    }

    /// The bytes of `range`.
    pub fn slice(&self, range: Range<usize>) -> (r: Result<Vec<u8>, EditError>)
        requires
            self.wf(),
        ensures
            r is Ok <==> range.start <= range.end <= self@.len(),
            r matches Ok(v) ==> v@ == self@.subrange(range.start as int, range.end as int),
            r matches Err(e) ==> e matches EditError::GapBuffer(m) && m@ == slice_message(
                range.start as nat,
                range.end as nat,
                self@.len(),
            ),
    {
        let start: usize = range.start;
        let end: usize = range.end;
        if end > self.len() || start > end {
            let mut m = "slice ".to_string();
            text::push_dec(&mut m, start as u64);
            m.append("..");
            text::push_dec(&mut m, end as u64);
            m.append(" out of len ");
            text::push_dec(&mut m, self.len() as u64);
            return Err(EditError::GapBuffer(m));
        }
        let mut out: Vec<u8> = Vec::with_capacity(end - start);
        if start < self.gap_start {
            let stop: usize = if end < self.gap_start { end } else { self.gap_start };
            out.extend_from_slice(slice_subrange(self.buf.as_slice(), start, stop));
        }
        if end > self.gap_start {
            let skip: usize = if start > self.gap_start { start - self.gap_start } else { 0 };
            let from: usize = self.gap_end + skip;
            let to: usize = self.gap_end + (end - self.gap_start);
            out.extend_from_slice(slice_subrange(self.buf.as_slice(), from, to));
        }
        assert(out@ =~= self@.subrange(start as int, end as int));
        Ok(out)
    }

    /// All bytes as one run.
    pub fn as_contiguous(&self) -> (bytes: Vec<u8>)
        requires
            self.wf(),
        ensures
            bytes@ == self@,
    {
        let mut out: Vec<u8> = Vec::with_capacity(self.len());
        out.extend_from_slice(slice_subrange(self.buf.as_slice(), 0, self.gap_start));
        out.extend_from_slice(slice_subrange(self.buf.as_slice(), self.gap_end, self.buf.len()));
        assert(out@ =~= self@);
        out
    }

    /// Keeps the bytes before `mid` and hands out the rest as a buffer of its
    /// own.
    pub fn split_at(&mut self, mid: usize) -> (r: Result<Self, EditError>)
        requires
            old(self).wf(),
        ensures
            final(self).wf(),
            final(self).initial_len() == old(self).initial_len(),
            r is Ok <==> mid <= old(self)@.len(),
            r matches Ok(right) ==> {
                &&& right.wf()
                &&& final(self)@ == old(self)@.subrange(0, mid as int)
                &&& right@ == old(self)@.subrange(mid as int, old(self)@.len() as int)
                &&& right.initial_len() == right@.len()
            },
            r matches Err(e) ==> {
                &&& *final(self) == *old(self)
                &&& e matches EditError::GapBuffer(m) && m@ == split_message(
                    mid as nat,
                    old(self)@.len(),
                )
            },
    {
        let len: usize = self.len();
        if mid > len {
            let mut m = "split_at ".to_string();
            text::push_dec(&mut m, mid as u64);
            m.append(" > len ");
            text::push_dec(&mut m, len as u64);
            return Err(EditError::GapBuffer(m));
        }
        let right = match self.slice(mid..len) {
            Ok(v) => v,
            Err(e) => {
                return Err(e);
            },
        };
        match self.delete(mid, len - mid) {
            Ok(_) => {},
            Err(e) => {
                return Err(e);
            },
        }
        assert(self@ =~= old(self)@.subrange(0, mid as int));
        Ok(Self::new(right))
    }

    /// Moves the gap so that it begins at `pos`.
    fn move_gap_to(&mut self, pos: usize)
        requires
            old(self).wf(),
            pos <= old(self)@.len(),
        ensures
            final(self).wf(),
            final(self)@ == old(self)@,
            final(self).gap_start == pos,
            final(self).initial_len() == old(self).initial_len(),
    {
        while self.gap_start > pos
            invariant
                self.wf(),
                self@ == old(self)@,
                pos <= self@.len(),
                self.initial_len() == old(self).initial_len(),
            decreases self.gap_start,
        {
            let ghost before = *self;
            let b: u8 = self.buf[self.gap_start - 1];
            self.gap_start = self.gap_start - 1;
            self.gap_end = self.gap_end - 1;
            let i: usize = self.gap_end;
            self.buf[i] = b;
            assert(self@ =~= before@);
        }
        while self.gap_start < pos
            invariant
                self.wf(),
                self@ == old(self)@,
                self.gap_start <= pos <= self@.len(),
                self.initial_len() == old(self).initial_len(),
            decreases pos - self.gap_start,
        {
            let ghost before = *self;
            let b: u8 = self.buf[self.gap_end];
            let i: usize = self.gap_start;
            self.buf[i] = b;
            self.gap_start = self.gap_start + 1;
            self.gap_end = self.gap_end + 1;
            assert(self@ =~= before@);
        }
    }
}

/// Deleting what was just inserted restores the bytes.
pub proof fn law_delete_undoes_insert<T>(s: Seq<T>, pos: int, bytes: Seq<T>)
    requires
        0 <= pos <= s.len(),
    ensures
        spliced_out(spliced_in(s, pos, bytes), pos, pos + bytes.len()) == s,
{
    assert(spliced_out(spliced_in(s, pos, bytes), pos, pos + bytes.len()) =~= s);
}

/// Inserting what was just deleted restores the bytes.
pub proof fn law_insert_undoes_delete<T>(s: Seq<T>, start: int, end: int)
    requires
        0 <= start <= end <= s.len(),
    ensures
        spliced_in(spliced_out(s, start, end), start, s.subrange(start, end)) == s,
{
    assert(spliced_in(spliced_out(s, start, end), start, s.subrange(start, end)) =~= s);
}

} // verus!
