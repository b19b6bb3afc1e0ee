//! The write-ahead log: edited blocks are appended to a file beside the
//! edited one, which itself keeps its bytes until the edits are folded in.
//!
//! The log file is a run of records. A record is the block's number and the
//! length of its bytes, four bytes each with the least significant first, and
//! then the bytes. The last record of a block is the one that counts. A record
//! that is cut short at the end of the file, by a crash while it was written,
//! does not count.
//!
//! [`Wal`] is the index over such a file: it says where each block's bytes
//! stand and what has to be written where. Reading and writing the file is up
//! to the caller.

use crate::block::BlockId;
use std::collections::HashMap;
use vstd::prelude::*;
use vstd::slice::{slice_subrange, slice_to_vec};

verus! {

broadcast use vstd::std_specs::hash::group_hash_axioms;

/// The number in the four bytes of `s` from `at` on, least significant first.
pub open spec fn le32(s: Seq<u8>, at: int) -> nat {
    (s[at] + 0x100 * s[at + 1] + 0x1_0000 * s[at + 2] + 0x100_0000 * s[at + 3]) as nat
}

/// The four bytes of `x`, least significant first.
pub open spec fn le32_bytes(x: nat) -> Seq<u8> {
    seq![
        (x % 0x100) as u8,
        (x / 0x100 % 0x100) as u8,
        (x / 0x1_0000 % 0x100) as u8,
        (x / 0x100_0000 % 0x100) as u8,
    ]
}

/// The record of one block. Only the low 32 bits of the block's number are
/// kept.
pub open spec fn record(id: BlockId, bytes: Seq<u8>) -> Seq<u8> {
    le32_bytes(id as nat % 0x1_0000_0000) + le32_bytes(bytes.len()) + bytes
}

/// The records of several blocks, one behind the other.
pub open spec fn records(entries: Seq<(BlockId, Vec<u8>)>) -> Seq<u8>
    decreases entries.len(),
{
    if entries.len() == 0 {
        Seq::empty()
    } else {
        records(entries.drop_last()) + record(entries.last().0, entries.last().1@)
    }
}

/// Whether a whole record starts at `at` in the log file `image`.
pub open spec fn record_at(image: Seq<u8>, at: int) -> bool {
    &&& 0 <= at
    &&& at + 8 <= image.len()
    &&& at + 8 + le32(image, at + 4) <= image.len()
}

/// Where the record at `at` ends.
pub open spec fn record_end(image: Seq<u8>, at: int) -> int {
    at + 8 + le32(image, at + 4)
}

/// Where the whole records from `at` on end.
pub open spec fn log_end(image: Seq<u8>, at: int) -> int
    decreases image.len() - at,
{
    if record_at(image, at) {
        log_end(image, record_end(image, at))
    } else {
        at
    }
}

/// Each block's bytes as of the whole records from `at` on, on top of `m`.
pub open spec fn replay(image: Seq<u8>, at: int, m: Map<BlockId, Seq<u8>>) -> Map<
    BlockId,
    Seq<u8>,
>
    decreases image.len() - at,
{
    if record_at(image, at) {
        replay(
            image,
            record_end(image, at),
            m.insert(
                le32(image, at) as u64,
                image.subrange(at + 8, record_end(image, at)),
            ),
        )
    } else {
        m
    }
}

/// `m` with each entry put in, the later over the earlier.
pub open spec fn with_entries(
    m: Map<BlockId, Seq<u8>>,
    entries: Seq<(BlockId, Vec<u8>)>,
) -> Map<BlockId, Seq<u8>>
    decreases entries.len(),
{
    if entries.len() == 0 {
        m
    } else {
        with_entries(m, entries.drop_last()).insert(entries.last().0, entries.last().1@)
    }
}

/// Where a block's bytes stand in the log file.
#[derive(Copy, Clone, Debug, PartialEq, Eq, Structural)]
pub struct WalEntry {
    pub offset: u64,
    pub len: u32,
}

/// The index over a log file.
pub struct Wal {
    index: HashMap<BlockId, WalEntry>,
    end: u64,
    contents: Ghost<Map<BlockId, Seq<u8>>>,
}

impl View for Wal {
    type V = Map<BlockId, Seq<u8>>;

    /// The bytes that the log holds for each block.
    closed spec fn view(&self) -> Map<BlockId, Seq<u8>> {
        self.contents@
    }
}

impl Wal {
    pub closed spec fn wf(&self) -> bool {
        &&& self.index@.dom() == self.contents@.dom()
        &&& forall|id: BlockId| #[trigger]
            self.contents@.dom().contains(id) ==> {
                &&& self.index@[id].len == self.contents@[id].len()
                &&& self.index@[id].offset + self.index@[id].len <= self.end
            }
    }

    /// Where the next record belongs.
    pub closed spec fn end_offset(&self) -> u64 {
        self.end
    }

    /// Where the bytes of `id` stand.
    pub closed spec fn extent(&self, id: BlockId) -> WalEntry {
        self.index@[id]
    }

    /// The log file `image` holds every indexed block's bytes at its place.
    pub open spec fn describes(&self, image: Seq<u8>) -> bool {
        &&& self.end_offset() <= image.len()
        &&& forall|id: BlockId| #[trigger]
            self@.dom().contains(id) ==> {
                let e = self.extent(id);
                &&& e.offset + e.len <= self.end_offset()
                &&& image.subrange(e.offset as int, e.offset + e.len) == self@[id]
            }
    }

    /// Opening the log file `image` again gives this log back: the whole records
    /// of it end where the log does and give each block the bytes it has here.
    pub open spec fn replays(&self, image: Seq<u8>) -> bool {
        let end = self.end_offset() as int;
        &&& end <= image.len()
        &&& log_end(image.take(end), 0) == end
        &&& replay(image.take(end), 0, Map::empty()) == self@
    }

    /// An index over no records.
    pub fn new() -> (wal: Self)
        ensures
            wal.wf(),
            wal@ == Map::<BlockId, Seq<u8>>::empty(),
            wal.end_offset() == 0,
            wal.describes(Seq::empty()),
            wal.replays(Seq::empty()),
    {
        let wal = Self {
            index: HashMap::new(),
            end: 0,
            contents: Ghost(Map::empty()),
        };
        assert(wal.index@.dom() =~= wal.contents@.dom());
        wal
    }

    /// Opens the log whose file holds `image`, or whose file does not exist.
    ///
    /// With `create` a missing file is one to be created, and the log is
    /// empty. Without it there is no log then.
    pub fn open(image: Option<&[u8]>, create: bool) -> (wal: Option<Self>)
        ensures
            wal is None <==> image is None && !create,
            image is None && create ==> {
                &&& wal->0.wf()
                &&& wal->0@ == Map::<BlockId, Seq<u8>>::empty()
                &&& wal->0.end_offset() == 0
                &&& wal->0.describes(Seq::empty())
                &&& wal->0.replays(Seq::empty())
            },
            image matches Some(bytes) ==> {
                &&& wal->0.wf()
                &&& wal->0@ == replay(bytes@, 0, Map::empty())
                &&& wal->0.end_offset() == log_end(bytes@, 0)
                &&& wal->0.describes(bytes@)
                &&& wal->0.replays(bytes@)
            },
    {
        proof {
            if image is Some {
                lemma_replay_whole(image->0@, 0, Map::empty());
            }
        }
        match image {
            Some(bytes) => Some(Self::replayed(bytes)),
            None => {
                if create {
                    Some(Self::new())
                } else {
                    None
                }
            },
        }
    }

    fn replayed(image: &[u8]) -> (wal: Self)
        ensures
            wal.wf(),
            wal@ == replay(image@, 0, Map::empty()),
            wal.end_offset() == log_end(image@, 0),
            wal.describes(image@),
    {
        let mut wal = Self::new();
        let mut at: usize = 0;
        while image.len() - at >= 8
            invariant
                wal.wf(),
                wal.end == at <= image@.len(),
                wal.describes(image@),
                replay(image@, 0, Map::empty()) == replay(image@, at as int, wal@),
                log_end(image@, 0) == log_end(image@, at as int),
            decreases image@.len() - at,
        {
            let id: u32 = read_le32(image, at);
            let len: u32 = read_le32(image, at + 4);
            if len as usize > image.len() - at - 8 {
                return wal;
            }
            let ghost before = wal;
            let ghost bytes = image@.subrange(at + 8, at + 8 + len);
            wal.index.insert(id as u64, WalEntry { offset: at as u64 + 8, len });
            wal.contents = Ghost(wal.contents@.insert(id as u64, bytes));
            at = at + 8 + len as usize;
            wal.end = at as u64;
            assert(wal.index@.dom() =~= wal.contents@.dom());
            assert forall|i: BlockId| #[trigger] wal@.dom().contains(i) implies {
                let e = wal.extent(i);
                &&& e.offset + e.len <= wal.end_offset()
                &&& image@.subrange(e.offset as int, e.offset + e.len) == wal@[i]
            } by {
                if i != id as u64 {
                    assert(before@.dom().contains(i));
                }
            }
        }
        wal
    }

    /// The record of one block, to be written at the end of the log.
    pub fn record(id: BlockId, bytes: &[u8]) -> (out: Vec<u8>)
        requires
            bytes@.len() <= u32::MAX,
        ensures
            out@ == record(id, bytes@),
    {
        let mut out: Vec<u8> = Vec::with_capacity(8);
        push_le32(&mut out, (id % 0x1_0000_0000) as u32);
        push_le32(&mut out, bytes.len() as u32);
        out.extend_from_slice(bytes);
        assert(out@ =~= record(id, bytes@));
        out
    }

    /// Appends blocks to the log. The file is to be cut where the log ended, so
    /// that nothing of a record that was cut short stays, and what comes back is
    /// to be written there.
    pub fn append_many(&mut self, entries: &Vec<(BlockId, Vec<u8>)>) -> (out: Vec<u8>)
        requires
            old(self).wf(),
            forall|i: int| 0 <= i < entries@.len() ==> #[trigger] entries@[i].1@.len() <= u32::MAX,
            old(self).end_offset() + records(entries@).len() <= u64::MAX,
        ensures
            final(self).wf(),
            final(self)@ == with_entries(old(self)@, entries@),
            final(self).end_offset() == old(self).end_offset() + records(entries@).len(),
            out@ == records(entries@),
            forall|image: Seq<u8>|
                old(self).describes(image) ==> #[trigger] final(self).describes(
                    image.take(old(self).end_offset() as int) + out@,
                ),
            (forall|i: int| 0 <= i < entries@.len() ==> #[trigger] entries@[i].0 <= u32::MAX) ==> (
            forall|image: Seq<u8>|
                old(self).replays(image) ==> #[trigger] final(self).replays(
                    image.take(old(self).end_offset() as int) + out@,
                )),
    {
        let mut out: Vec<u8> = Vec::new();
        let mut i: usize = 0;
        let ghost cut = self.end as int;
        let ghost small = forall|i: int| 0 <= i < entries@.len() ==> #[trigger] entries@[i].0
            <= u32::MAX;
        proof {
            assert(entries@.subrange(0, 0) =~= Seq::empty());
            assert forall|image: Seq<u8>| self.describes(image) implies #[trigger] self.describes(
                image.take(cut) + out@,
            ) by {
                lemma_describes_cut(*self, image);
                assert(image.take(cut) + out@ =~= image.take(cut));
            }
            assert forall|image: Seq<u8>| self.replays(image) implies #[trigger] self.replays(
                image.take(cut) + out@,
            ) by {
                assert(image.take(cut) + out@ =~= image.take(cut));
                assert(image.take(cut).take(cut) =~= image.take(cut));
            }
            assert(entries@.subrange(0, entries@.len() as int) =~= entries@);
        }
        while i < entries.len()
            invariant
                i <= entries@.len(),
                self.wf(),
                forall|k: int|
                    0 <= k < entries@.len() ==> #[trigger] entries@[k].1@.len() <= u32::MAX,
                old(self).end_offset() + records(entries@).len() <= u64::MAX,
                self@ == with_entries(old(self)@, entries@.subrange(0, i as int)),
                out@ == records(entries@.subrange(0, i as int)),
                self.end_offset() == old(self).end_offset() + out@.len(),
                entries@.subrange(0, entries@.len() as int) =~= entries@,
                cut == old(self).end_offset(),
                small == (forall|i: int|
                    0 <= i < entries@.len() ==> #[trigger] entries@[i].0 <= u32::MAX),
                forall|image: Seq<u8>|
                    old(self).describes(image) ==> #[trigger] self.describes(
                        image.take(cut) + out@,
                    ),
                small ==> forall|image: Seq<u8>|
                    old(self).replays(image) ==> #[trigger] self.replays(image.take(cut) + out@),
            decreases entries@.len() - i,
        {
            let ghost done = entries@.subrange(0, i as int);
            let ghost more = entries@.subrange(0, i + 1);
            proof {
                assert(more.drop_last() =~= done);
                lemma_records_monotone(entries@, i + 1);
                assert(records(more).len() == records(done).len() + record(
                    more.last().0,
                    more.last().1@,
                ).len());
            }
            let ghost before = *self;
            let ghost out_before = out@;
            let mut rec = self.append_one(entries[i].0, entries[i].1.as_slice());
            proof {
                let end = before.end_offset() as int;
                assert forall|image: Seq<u8>|
                    old(self).describes(image) implies #[trigger] self.describes(
                    image.take(cut) + (out@ + rec@),
                ) by {
                    let longer = image.take(cut) + out@;
                    assert(before.describes(longer));
                    assert(longer.take(end) =~= longer);
                    assert(self.describes(longer.take(end) + rec@));
                    assert(longer + rec@ =~= image.take(cut) + (out@ + rec@));
                }
                if small {
                    assert forall|image: Seq<u8>|
                        old(self).replays(image) implies #[trigger] self.replays(
                        image.take(cut) + (out@ + rec@),
                    ) by {
                        let longer = image.take(cut) + out@;
                        assert(before.replays(longer));
                        assert(longer.take(end) =~= longer);
                        assert(self.replays(longer.take(end) + rec@));
                        assert(longer + rec@ =~= image.take(cut) + (out@ + rec@));
                    }
                }
            }
            out.append(&mut rec);
            i = i + 1;
        }
        out
    }

    /// Appends one block to the log. The file is to be cut where the log ended,
    /// so that nothing of a record that was cut short stays, and what comes back
    /// is to be written there.
    pub fn append_one(&mut self, id: BlockId, bytes: &[u8]) -> (out: Vec<u8>)
        requires
            old(self).wf(),
            bytes@.len() <= u32::MAX,
            old(self).end_offset() + 8 + bytes@.len() <= u64::MAX,
        ensures
            final(self).wf(),
            final(self)@ == old(self)@.insert(id, bytes@),
            final(self).end_offset() == old(self).end_offset() + 8 + bytes@.len(),
            out@ == record(id, bytes@),
            forall|image: Seq<u8>|
                old(self).describes(image) ==> #[trigger] final(self).describes(
                    image.take(old(self).end_offset() as int) + out@,
                ),
            id <= u32::MAX ==> forall|image: Seq<u8>|
                old(self).replays(image) ==> #[trigger] final(self).replays(
                    image.take(old(self).end_offset() as int) + out@,
                ),
            id <= u32::MAX ==> forall|image: Seq<u8>| #[trigger]
                old(self).replays(image) ==> replay(
                    image.take(old(self).end_offset() as int) + out@,
                    0,
                    Map::empty(),
                ) == old(self)@.insert(id, bytes@),
    {
        let out = Self::record(id, bytes);
        let offset: u64 = self.end + 8;
        let len: u32 = bytes.len() as u32;
        self.index.insert(id, WalEntry { offset, len });
        self.contents = Ghost(self.contents@.insert(id, bytes@));
        self.end = offset + bytes.len() as u64;
        assert(self.index@.dom() =~= self.contents@.dom());
        proof {
            let cut = old(self).end as int;
            assert forall|image: Seq<u8>|
                old(self).describes(image) implies #[trigger] self.describes(
                image.take(cut) + out@,
            ) by {
                let longer = image.take(cut) + out@;
                assert forall|i: BlockId| #[trigger] self@.dom().contains(i) implies {
                    let e = self.extent(i);
                    &&& e.offset + e.len <= self.end_offset()
                    &&& longer.subrange(e.offset as int, e.offset + e.len) == self@[i]
                } by {
                    let e = self.extent(i);
                    if i == id {
                        assert(longer.subrange(e.offset as int, e.offset + e.len) =~= bytes@);
                    } else {
                        assert(old(self)@.dom().contains(i));
                        assert(longer.subrange(e.offset as int, e.offset + e.len)
                            =~= image.subrange(e.offset as int, e.offset + e.len));
                    }
                }
            }
            if id <= u32::MAX {
                assert forall|image: Seq<u8>|
                    old(self).replays(image) implies #[trigger] self.replays(
                    image.take(cut) + out@,
                ) by {
                    let longer = image.take(cut) + out@;
                    law_replay_after_append(image.take(cut), id, bytes@);
                    assert(longer.take(self.end as int) =~= longer);
                }
                assert forall|image: Seq<u8>| #[trigger]
                    old(self).replays(image) implies replay(
                    image.take(cut) + out@,
                    0,
                    Map::empty(),
                ) == old(self)@.insert(id, bytes@) by {
                    law_replay_after_append(image.take(cut), id, bytes@);
                }
            }
        }
        out
    }

    /// Where the file holds the latest bytes of block `id`, if it does.
    pub fn get(&self, id: BlockId) -> (entry: Option<WalEntry>)
        requires
            self.wf(),
        ensures
            entry == (if self@.dom().contains(id) {
                Some(self.extent(id))
            } else {
                None
            }),
            entry matches Some(e) ==> e.len == self@[id].len() && e.offset + e.len
                <= self.end_offset(),
    {
        match self.index.get(&id) {
            Some(e) => {
                assert(self.contents@.dom().contains(id));
                Some(*e)
            },
            None => None,
        }
    }

    /// The bytes of block `id`, read from the log file `image`.
    pub fn read(&self, id: BlockId, image: &[u8]) -> (bytes: Option<Vec<u8>>)
        requires
            self.wf(),
            self.describes(image@),
        ensures
            match bytes {
                Some(b) => self@.dom().contains(id) && b@ == self@[id],
                None => !self@.dom().contains(id),
            },
    {
        match self.get(id) {
            Some(e) => {
                assert(self@.dom().contains(id));
                assert(e.offset + e.len <= image.len());
                let from: usize = e.offset as usize;
                Some(slice_to_vec(slice_subrange(image, from, from + e.len as usize)))
            },
            None => None,
        }
    }

    /// Whether the log holds any block.
    pub fn has_entries(&self) -> (b: bool)
        requires
            self.wf(),
        ensures
            b == !self@.dom().is_empty(),
    {
        !self.is_empty()
    }

    /// How many blocks the log holds.
    pub fn len(&self) -> (n: usize)
        requires
            self.wf(),
        ensures
            n == self@.dom().len(),
    {
        self.index.len()
    }

    /// Whether the log holds no block.
    pub fn is_empty(&self) -> (b: bool)
        requires
            self.wf(),
        ensures
            b == self@.dom().is_empty(),
    {
        proof {
            if self.index@.dom().len() == 0 {
                assert(self.index@.dom() =~= Set::empty());
            }
        }
        self.index.len() == 0
    }

    /// Where the next record belongs.
    pub fn end(&self) -> (end: u64)
        ensures
            end == self.end_offset(),
    {
        self.end
    }

    /// Forgets every record; the file is to be emptied.
    pub fn reset(&mut self)
        ensures
            final(self).wf(),
            final(self)@ == Map::<BlockId, Seq<u8>>::empty(),
            final(self).end_offset() == 0,
    {
        *self = Self::new();
    }
}

fn read_le32(s: &[u8], at: usize) -> (x: u32)
    requires
        at + 4 <= s@.len(),
    ensures
        x == le32(s@, at as int),
{
    s[at] as u32 + 0x100 * (s[at + 1] as u32) + 0x1_0000 * (s[at + 2] as u32) + 0x100_0000 * (s[at
        + 3] as u32)
}

fn push_le32(out: &mut Vec<u8>, x: u32)
    ensures
        final(out)@ == old(out)@ + le32_bytes(x as nat),
{
    out.push((x % 0x100) as u8);
    out.push((x / 0x100 % 0x100) as u8);
    out.push((x / 0x1_0000 % 0x100) as u8);
    out.push((x / 0x100_0000 % 0x100) as u8);
    assert(out@ =~= old(out)@ + le32_bytes(x as nat));
}

proof fn lemma_records_monotone(entries: Seq<(BlockId, Vec<u8>)>, k: int)
    requires
        0 <= k <= entries.len(),
    ensures
        records(entries.subrange(0, k)).len() <= records(entries).len(),
    decreases entries.len() - k,
{
    if k < entries.len() {
        lemma_records_monotone(entries, k + 1);
        assert(entries.subrange(0, k + 1).drop_last() =~= entries.subrange(0, k));
    } else {
        assert(entries.subrange(0, k) =~= entries);
    }
}

/// The whole records of `image` are read the same way with more bytes behind
/// them.
proof fn lemma_replay_extends(
    image: Seq<u8>,
    tail: Seq<u8>,
    at: int,
    m: Map<BlockId, Seq<u8>>,
)
    requires
        0 <= at <= image.len(),
        log_end(image, at) == image.len(),
    ensures
        replay(image + tail, at, m) == replay(
            image + tail,
            image.len() as int,
            replay(image, at, m),
        ),
        log_end(image + tail, at) == log_end(image + tail, image.len() as int),
    decreases image.len() - at,
{
    let longer = image + tail;
    if record_at(image, at) {
        let end = record_end(image, at);
        assert(le32(longer, at + 4) == le32(image, at + 4));
        assert(le32(longer, at) == le32(image, at));
        assert(record_at(longer, at));
        assert(longer.subrange(at + 8, end) =~= image.subrange(at + 8, end));
        lemma_replay_extends(
            image,
            tail,
            end,
            m.insert(le32(image, at) as u64, image.subrange(at + 8, end)),
        );
    }
}

/// The records of a log file are read the same way without what is behind the
/// last whole one.
proof fn lemma_replay_whole(image: Seq<u8>, at: int, m: Map<BlockId, Seq<u8>>)
    requires
        0 <= at <= image.len(),
    ensures
        at <= log_end(image, at) <= image.len(),
        log_end(image.take(log_end(image, at)), at) == log_end(image, at),
        replay(image.take(log_end(image, at)), at, m) == replay(image, at, m),
    decreases image.len() - at,
{
    let end = log_end(image, at);
    if record_at(image, at) {
        let next = record_end(image, at);
        let bytes = image.subrange(at + 8, next);
        lemma_replay_whole(image, next, m.insert(le32(image, at) as u64, bytes));
        let whole = image.take(end);
        assert(le32(whole, at + 4) == le32(image, at + 4));
        assert(le32(whole, at) == le32(image, at));
        assert(record_at(whole, at));
        assert(whole.subrange(at + 8, next) =~= bytes);
    } else {
        assert(!record_at(image.take(end), at));
    }
}

/// What is behind the end of the log does not matter.
proof fn lemma_describes_cut(wal: Wal, image: Seq<u8>)
    requires
        wal.describes(image),
    ensures
        wal.describes(image.take(wal.end_offset() as int)),
{
    let cut = image.take(wal.end_offset() as int);
    assert forall|id: BlockId| #[trigger] wal@.dom().contains(id) implies {
        let e = wal.extent(id);
        &&& e.offset + e.len <= wal.end_offset()
        &&& cut.subrange(e.offset as int, e.offset + e.len) == wal@[id]
    } by {
        let e = wal.extent(id);
        assert(cut.subrange(e.offset as int, e.offset + e.len) =~= image.subrange(
            e.offset as int,
            e.offset + e.len,
        ));
    }
}

proof fn lemma_le32_round_trip(x: nat)
    requires
        x <= u32::MAX,
    ensures
        le32(le32_bytes(x), 0) == x,
{
}

/// A read gives back what a write wrote: when the log file is opened again, a
/// block that was appended last reads as it was appended, and every other
/// block as before.
#[verifier::rlimit(40)]
#[verifier::spinoff_prover]
pub proof fn law_replay_after_append(image: Seq<u8>, id: BlockId, bytes: Seq<u8>)
    requires
        log_end(image, 0) == image.len(),
        id <= u32::MAX,
        bytes.len() <= u32::MAX,
    ensures
        replay(image + record(id, bytes), 0, Map::empty()) == replay(
            image,
            0,
            Map::empty(),
        ).insert(id, bytes),
        log_end(image + record(id, bytes), 0) == (image + record(id, bytes)).len(),
{
    let rec = record(id, bytes);
    let longer = image + rec;
    let at = image.len() as int;
    let m = replay(image, 0, Map::empty());
    lemma_replay_extends(image, rec, 0, Map::empty());
    lemma_le32_round_trip(id as nat);
    lemma_le32_round_trip(bytes.len());
    assert(le32(longer, at) == le32(le32_bytes(id as nat), 0));
    assert(le32(longer, at + 4) == le32(le32_bytes(bytes.len()), 0));
    assert(record_at(longer, at));
    assert(longer.subrange(at + 8, record_end(longer, at)) =~= bytes);
    assert(!record_at(longer, longer.len() as int));
    assert(replay(longer, at, m) == replay(longer, longer.len() as int, m.insert(id, bytes)));
    assert(log_end(longer, at) == log_end(longer, longer.len() as int));
}

/// A record that was cut short while it was written does not count, and the
/// records before it do.
pub proof fn law_partial_tail_ignored(
    image: Seq<u8>,
    id: BlockId,
    bytes: Seq<u8>,
    tail: Seq<u8>,
)
    requires
        log_end(image, 0) == image.len(),
        bytes.len() <= u32::MAX,
        tail.len() < record(id, bytes).len(),
        tail == record(id, bytes).subrange(0, tail.len() as int),
    ensures
        replay(image + tail, 0, Map::empty()) == replay(image, 0, Map::empty()),
        log_end(image + tail, 0) == image.len(),
{
    let longer = image + tail;
    let at = image.len() as int;
    lemma_replay_extends(image, tail, 0, Map::empty());
    if tail.len() >= 8 {
        lemma_le32_round_trip(bytes.len());
        let rec = record(id, bytes);
        assert(rec[4] == le32_bytes(bytes.len())[0]);
        assert(rec[5] == le32_bytes(bytes.len())[1]);
        assert(rec[6] == le32_bytes(bytes.len())[2]);
        assert(rec[7] == le32_bytes(bytes.len())[3]);
        assert(le32(longer, at + 4) == le32(rec, 4));
    }
    assert(!record_at(longer, at));
}

/// A record that was cut short is ignored for good: whatever the log file holds
/// behind its whole records, once it was cut there and a block was appended, it
/// gives back what it gave before and that block.
pub proof fn law_partial_tail_is_gone(image: Seq<u8>, id: BlockId, bytes: Seq<u8>)
    requires
        id <= u32::MAX,
        bytes.len() <= u32::MAX,
    ensures
        replay(image.take(log_end(image, 0)) + record(id, bytes), 0, Map::empty()) == replay(
            image,
            0,
            Map::empty(),
        ).insert(id, bytes),
        log_end(image.take(log_end(image, 0)) + record(id, bytes), 0) == log_end(image, 0)
            + record(id, bytes).len(),
{
    lemma_replay_whole(image, 0, Map::empty());
    law_replay_after_append(image.take(log_end(image, 0)), id, bytes);
}

/// Of several records of one block the last one counts, whatever was appended
/// for other blocks.
pub proof fn law_latest_wins(
    m: Map<BlockId, Seq<u8>>,
    entries: Seq<(BlockId, Vec<u8>)>,
    k: int,
)
    requires
        0 <= k < entries.len(),
        forall|j: int| k < j < entries.len() ==> entries[j].0 != entries[k].0,
    ensures
        with_entries(m, entries).dom().contains(entries[k].0),
        with_entries(m, entries)[entries[k].0] == entries[k].1@,
    decreases entries.len(),
{
    if k < entries.len() - 1 {
        assert(entries.drop_last()[k] == entries[k]);
        law_latest_wins(m, entries.drop_last(), k);
    }
}

/// A record is the number of the block, in four bytes with the least significant one
/// first, the number of its bytes in the same way, and then the bytes.
pub proof fn law_record_layout(id: BlockId, bytes: Seq<u8>)
    requires
        id <= u32::MAX,
        bytes.len() <= u32::MAX,
    ensures
        ({
            let r = record(id, bytes);
            &&& r.len() == 8 + bytes.len()
            &&& r[0] + 0x100 * r[1] + 0x1_0000 * r[2] + 0x100_0000 * r[3] == id
            &&& r[4] + 0x100 * r[5] + 0x1_0000 * r[6] + 0x100_0000 * r[7] == bytes.len()
            &&& r.skip(8) == bytes
        }),
{
    lemma_le32_round_trip(id as nat);
    lemma_le32_round_trip(bytes.len());
    let a = le32_bytes(id as nat % 0x1_0000_0000);
    let b = le32_bytes(bytes.len());
    let r = record(id, bytes);
    assert(r[0] == a[0] && r[1] == a[1] && r[2] == a[2] && r[3] == a[3]);
    assert(r[4] == b[0] && r[5] == b[1] && r[6] == b[2] && r[7] == b[3]);
    assert(r.skip(8) =~= bytes);
}

/// The records of several blocks are those of each, one behind the other.
pub proof fn law_records_follow_one_another(entries: Seq<(BlockId, Vec<u8>)>, id: BlockId, bytes: Vec<u8>)
    ensures
        records(Seq::empty()) == Seq::<u8>::empty(),
        records(entries.push((id, bytes))) == records(entries) + record(id, bytes@),
{
    assert(entries.push((id, bytes)).drop_last() =~= entries);
}

} // verus!
