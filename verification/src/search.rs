//! Searching the document for a run of bytes, block by block.
//!
//! A match may start in one block and end in the next: the end of the block
//! scanned before (the start of it, when searching backward) is scanned again
//! together with each block. A search says which block it wants next and is
//! given that block's bytes.

use crate::block::BlockId;
use crate::message::{Direction, SearchResult};
use memchr::memmem;
use vstd::prelude::*;
use vstd::slice::{slice_subrange, slice_to_vec};

verus! {

/// `needle` stands in `haystack` at `at`.
pub open spec fn occurs(haystack: Seq<u8>, needle: Seq<u8>, at: int) -> bool {
    &&& 0 <= at
    &&& at + needle.len() <= haystack.len()
    &&& haystack.subrange(at, at + needle.len()) == needle
}

/// Where `needle` stands in `haystack` from `from` on, each as early as it
/// can be without overlapping the one before.
pub open spec fn occurrences(haystack: Seq<u8>, needle: Seq<u8>, from: int) -> Seq<usize>
    decreases haystack.len() - from,
{
    if needle.len() == 0 || from + needle.len() > haystack.len() {
        Seq::empty()
    } else if occurs(haystack, needle, from) {
        seq![from as usize] + occurrences(haystack, needle, from + needle.len())
    } else {
        occurrences(haystack, needle, from + 1)
    }
}

/// Collects `memchr::memmem::find_iter`: the occurrences of `needle` in
/// `haystack` from left to right, each search going on where the match before
/// ended.
#[verifier::external_body]
fn find_all(haystack: &[u8], needle: &[u8]) -> (found: Vec<usize>)
    requires
        needle@.len() > 0,
    ensures
        found@ == occurrences(haystack@, needle@, 0),
{
    memmem::find_iter(haystack, needle).collect()
}

/// The places `hits`, moved by `shift`, that are not before `start`.
pub open spec fn from_start(hits: Seq<usize>, shift: int, start: int) -> Seq<u64>
    decreases hits.len(),
{
    if hits.len() == 0 {
        Seq::empty()
    } else {
        let rest = from_start(hits.drop_last(), shift, start);
        let place = shift + hits.last();
        if place >= start {
            rest.push(place as u64)
        } else {
            rest
        }
    }
}

/// The places `hits` below `len`, moved by `shift`, that are before `start`,
/// the last first.
pub open spec fn before_start(hits: Seq<usize>, len: int, shift: int, start: int) -> Seq<u64>
    decreases hits.len(),
{
    if hits.len() == 0 {
        Seq::empty()
    } else {
        let rest = before_start(hits.drop_last(), len, shift, start);
        if hits.last() < len && shift + hits.last() < start {
            seq![(shift + hits.last()) as u64] + rest
        } else {
            rest
        }
    }
}

/// At most the last `n` bytes of `s`.
pub open spec fn tail(s: Seq<u8>, n: int) -> Seq<u8> {
    if s.len() >= n {
        s.subrange(s.len() - n, s.len() as int)
    } else {
        s
    }
}

/// At most the first `n` bytes of `s`.
pub open spec fn head(s: Seq<u8>, n: int) -> Seq<u8> {
    if s.len() >= n {
        s.subrange(0, n)
    } else {
        s
    }
}

/// At most the first `n` places of `s`.
pub open spec fn first_places(s: Seq<u64>, n: int) -> Seq<u64> {
    if s.len() >= n {
        s.subrange(0, n)
    } else {
        s
    }
}

/// How far a search has got.
#[verifier::ext_equal]
pub struct SearchModel {
    pub query: Seq<u8>,
    pub start_byte: u64,
    pub block_count: u64,
    pub direction: Direction,
    pub limit: usize,
    /// The block to scan next, unless the search is over.
    pub next: BlockId,
    /// Backward, the start of the block behind the first one is wanted before
    /// that one is scanned.
    pub peek: bool,
    pub over: bool,
    pub matches: Seq<u64>,
    pub scanned: usize,
    pub has_more: bool,
    /// What is scanned again of the block before.
    pub overlap: Seq<u8>,
    /// Forward, where the next block starts; backward, where it ends, which is
    /// known once the first block was scanned.
    pub offset: u64,
    pub first: bool,
}

impl SearchModel {
    /// After the next block, which holds `content`, was scanned forward.
    pub open spec fn forward(self, content: Seq<u8>) -> SearchModel {
        let hits = occurrences(self.overlap + content, self.query, 0);
        let found = self.matches + from_start(
            hits,
            self.offset - self.overlap.len(),
            self.start_byte as int,
        );
        let scanned = (self.scanned + 1) as usize;
        if found.len() >= self.limit {
            SearchModel {
                matches: first_places(found, self.limit as int),
                scanned,
                has_more: true,
                over: true,
                ..self
            }
        } else {
            SearchModel {
                matches: found,
                scanned,
                overlap: tail(content, self.query.len() - 1),
                offset: (self.offset + content.len()) as u64,
                next: (self.next + 1) as u64,
                over: self.next + 1 >= self.block_count,
                ..self
            }
        }
    }

    /// Where the next block, which holds `content`, starts when searching
    /// backward.
    pub open spec fn backward_start(self, content: Seq<u8>) -> int {
        if self.first {
            self.offset as int
        } else {
            self.offset - content.len()
        }
    }

    /// After the next block, which holds `content`, was scanned backward.
    pub open spec fn backward(self, content: Seq<u8>) -> SearchModel {
        let start = self.backward_start(content);
        let hits = occurrences(content + self.overlap, self.query, 0);
        let found = self.matches + before_start(
            hits,
            content.len() as int,
            start,
            self.start_byte as int,
        );
        let scanned = (self.scanned + 1) as usize;
        if found.len() >= self.limit {
            SearchModel {
                matches: first_places(found, self.limit as int),
                scanned,
                has_more: true,
                over: true,
                first: false,
                ..self
            }
        } else {
            SearchModel {
                matches: found,
                scanned,
                overlap: head(content, self.query.len() - 1),
                offset: start as u64,
                first: false,
                next: if self.next == 0 {
                    0
                } else {
                    (self.next - 1) as u64
                },
                over: self.next == 0,
                ..self
            }
        }
    }

    /// The block that is wanted, unless the search is over.
    pub open spec fn wants(self) -> BlockId {
        if self.peek {
            (self.next + 1) as u64
        } else {
            self.next
        }
    }

    /// After the start of the block behind the first one, which holds `content`,
    /// was taken.
    pub open spec fn peeked(self, content: Seq<u8>) -> SearchModel {
        SearchModel { overlap: head(content, self.query.len() - 1), peek: false, ..self }
    }

    /// After the block that was wanted, which holds `content`, was taken or
    /// scanned.
    pub open spec fn scan(self, content: Seq<u8>) -> SearchModel {
        if self.peek {
            self.peeked(content)
        } else {
            match self.direction {
                Direction::Forward => self.forward(content),
                Direction::Backward => self.backward(content),
            }
        }
    }

    /// A block of `len` bytes can come next: offsets stay in range.
    pub open spec fn accepts(self, len: int) -> bool {
        &&& !self.over
        &&& !self.peek ==> {
            &&& self.scanned < usize::MAX
            &&& self.overlap.len() + len <= usize::MAX
            &&& self.offset + self.overlap.len() + len <= i64::MAX
            &&& self.direction == Direction::Backward && !self.first ==> len <= self.offset
        }
    }

    pub open spec fn wf(self) -> bool {
        !self.over ==> {
            &&& self.query.len() > 0
            &&& self.limit > 0
            &&& self.matches.len() < self.limit
            &&& self.next < self.block_count
            &&& self.direction == Direction::Forward ==> self.overlap.len() <= self.offset
            &&& self.peek ==> self.direction == Direction::Backward && self.next + 1
                < self.block_count
        }
    }
}

/// A search under way.
pub struct SearchJob {
    query: Vec<u8>,
    start_byte: u64,
    block_count: u64,
    direction: Direction,
    limit: usize,
    next: BlockId,
    peek: bool,
    over: bool,
    matches: Vec<u64>,
    scanned: usize,
    has_more: bool,
    overlap: Vec<u8>,
    offset: u64,
    first: bool,
}

impl View for SearchJob {
    type V = SearchModel;

    closed spec fn view(&self) -> SearchModel {
        SearchModel {
            query: self.query@,
            start_byte: self.start_byte,
            block_count: self.block_count,
            direction: self.direction,
            limit: self.limit,
            next: self.next,
            peek: self.peek,
            over: self.over,
            matches: self.matches@,
            scanned: self.scanned,
            has_more: self.has_more,
            overlap: self.overlap@,
            offset: self.offset,
            first: self.first,
        }
    }
}

impl SearchJob {
    /// A search for `query` that begins at `start_byte`, in block `start_block`
    /// of `block_count`, which starts at `start_block_offset`. It ends with
    /// `limit` matches.
    pub fn new(
        query: Vec<u8>,
        start_byte: u64,
        start_block: BlockId,
        start_block_offset: u64,
        block_count: u64,
        direction: Direction,
        limit: usize,
    ) -> (job: Self)
        ensures
            job@.wf(),
            job@ == (SearchModel {
                query: query@,
                start_byte,
                block_count,
                direction,
                limit,
                next: if start_block < block_count || block_count == 0 {
                    start_block
                } else {
                    (block_count - 1) as u64
                },
                peek: direction == Direction::Backward && query@.len() > 1 && start_block + 1
                    < block_count,
                over: query@.len() == 0 || limit == 0 || block_count == 0 || (direction
                    == Direction::Backward && start_byte == 0),
                matches: Seq::empty(),
                scanned: 0,
                has_more: false,
                overlap: Seq::empty(),
                offset: start_block_offset,
                first: true,
            }),
    {
        let next: BlockId = if start_block < block_count || block_count == 0 {
            start_block
        } else {
            block_count - 1
        };
        let (backward, at_start) = match direction {
            Direction::Forward => (false, false),
            Direction::Backward => (true, start_byte == 0),
        };
        let peek = backward && query.len() > 1 && block_count > 0 && start_block < block_count
            - 1;
        let over = query.len() == 0 || limit == 0 || block_count == 0 || at_start;
        Self {
            query,
            start_byte,
            block_count,
            direction,
            limit,
            next,
            peek,
            over,
            matches: Vec::new(),
            scanned: 0,
            has_more: false,
            overlap: Vec::new(),
            offset: start_block_offset,
            first: true,
        }
    }

    /// The block that the search wants next, if it is not over.
    pub fn wanted(&self) -> (id: Option<BlockId>)
        requires
            self@.wf(),
        ensures
            id == (if self@.over {
                None
            } else {
                Some(self@.wants())
            }),
    {
        if self.over {
            None
        } else if self.peek {
            Some(self.next + 1)
        } else {
            Some(self.next)
        }
    }

    /// Whether a block of `len` bytes can come next.
    pub fn accepts(&self, len: usize) -> (b: bool)
        ensures
            b == self@.accepts(len as int),
    {
        let backward = match self.direction {
            Direction::Forward => false,
            Direction::Backward => true,
        };
        if self.peek {
            return !self.over;
        }
        let again: usize = self.overlap.len();
        if self.over || self.scanned == usize::MAX || again > usize::MAX - len {
            return false;
        }
        let more: u64 = (again + len) as u64;
        if self.offset > 0x7fff_ffff_ffff_ffff || more > 0x7fff_ffff_ffff_ffff - self.offset {
            return false;
        }
        !(backward && !self.first) || len as u64 <= self.offset
    }

    /// Takes the block that was wanted, which holds `content`, and scans it or
    /// keeps its start.
    pub fn scan(&mut self, content: &[u8])
        requires
            old(self)@.wf(),
            old(self)@.accepts(content@.len() as int),
        ensures
            final(self)@.wf(),
            final(self)@ == old(self)@.scan(content@),
    {
        if self.peek {
            let keep: usize = self.query.len() - 1;
            let to: usize = if content.len() >= keep { keep } else { content.len() };
            let kept = slice_to_vec(slice_subrange(content, 0, to));
            assert(kept@ =~= head(content@, self.query@.len() - 1));
            self.overlap = kept;
            self.peek = false;
            assert(self@ =~= old(self)@.peeked(content@));
            return ;
        }
        match self.direction {
            Direction::Forward => self.scan_forward(content),
            Direction::Backward => self.scan_backward(content),
        }
    }

    fn scan_forward(&mut self, content: &[u8])
        requires
            old(self)@.wf(),
            old(self)@.accepts(content@.len() as int),
            old(self)@.direction == Direction::Forward,
            !old(self)@.peek,
        ensures
            final(self)@.wf(),
            final(self)@ == old(self)@.forward(content@),
    {
        let again: usize = self.overlap.len();
        let mut buf: Vec<u8> = Vec::with_capacity(again + content.len());
        buf.extend_from_slice(self.overlap.as_slice());
        buf.extend_from_slice(content);
        assert(buf@ =~= self.overlap@ + content@);
        let hits = find_all(buf.as_slice(), self.query.as_slice());
        let ghost all = from_start(
            hits@,
            self.offset - self.overlap@.len(),
            self.start_byte as int,
        );
        proof {
            assert(self@.overlap.len() <= self@.offset);
            assert(buf@.len() <= usize::MAX) by {
                assert(buf.len() <= usize::MAX);
            }
            lemma_occurrences(buf@, self.query@, 0);
        }
        let mut found = places_from(
            &hits,
            self.offset - again as u64,
            self.start_byte,
            self.limit - self.matches.len(),
            Ghost(buf@.len() as int),
        );
        let ghost before = self.matches@;
        self.matches.append(&mut found);
        assert(self.matches@ =~= first_places(before + all, self.limit as int));
        self.scanned = self.scanned + 1;
        if self.matches.len() >= self.limit {
            self.has_more = true;
            self.over = true;
        } else {
            assert(self.matches@ =~= before + all);
            let keep: usize = self.query.len() - 1;
            let from: usize = if content.len() >= keep { content.len() - keep } else { 0 };
            let kept = slice_to_vec(slice_subrange(content, from, content.len()));
            assert(kept@ =~= tail(content@, self.query@.len() - 1));
            self.overlap = kept;
            self.offset = self.offset + content.len() as u64;
            self.next = self.next + 1;
            self.over = self.next >= self.block_count;
        }
        assert(self@ =~= old(self)@.forward(content@));
    }

    fn scan_backward(&mut self, content: &[u8])
        requires
            old(self)@.wf(),
            old(self)@.accepts(content@.len() as int),
            old(self)@.direction == Direction::Backward,
            !old(self)@.peek,
        ensures
            final(self)@.wf(),
            final(self)@ == old(self)@.backward(content@),
    {
        let len: usize = content.len();
        let start: u64 = if self.first { self.offset } else { self.offset - len as u64 };
        let mut buf: Vec<u8> = Vec::with_capacity(len + self.overlap.len());
        buf.extend_from_slice(content);
        buf.extend_from_slice(self.overlap.as_slice());
        assert(buf@ =~= content@ + self.overlap@);
        let hits = find_all(buf.as_slice(), self.query.as_slice());
        let ghost all = before_start(hits@, len as int, start as int, self.start_byte as int);
        let mut found = places_before(
            &hits,
            len,
            start,
            self.start_byte,
            self.limit - self.matches.len(),
        );
        let ghost before = self.matches@;
        self.matches.append(&mut found);
        assert(self.matches@ =~= first_places(before + all, self.limit as int));
        self.scanned = self.scanned + 1;
        self.first = false;
        if self.matches.len() >= self.limit {
            self.has_more = true;
            self.over = true;
        } else {
            assert(self.matches@ =~= before + all);
            let keep: usize = self.query.len() - 1;
            let to: usize = if len >= keep { keep } else { len };
            let kept = slice_to_vec(slice_subrange(content, 0, to));
            assert(kept@ =~= head(content@, self.query@.len() - 1));
            self.overlap = kept;
            self.offset = start;
            if self.next == 0 {
                self.over = true;
            } else {
                self.next = self.next - 1;
            }
        }
        assert(self@ =~= old(self)@.backward(content@));
    }

    /// What the search found.
    pub fn result(self) -> (r: SearchResult)
        ensures
            r.matches@ == self@.matches,
            r.scanned_blocks == self@.scanned,
            r.has_more_behind == self@.has_more,
    {
        SearchResult {
            matches: self.matches,
            scanned_blocks: self.scanned,
            has_more_behind: self.has_more,
        }
    }
}

/// The places `hits`, moved by `shift`, that are not before `start`: at most
/// `room` of them.
fn places_from(
    hits: &Vec<usize>,
    shift: u64,
    start: u64,
    room: usize,
    Ghost(bound): Ghost<int>,
) -> (found: Vec<u64>)
    requires
        forall|k: int| 0 <= k < hits@.len() ==> #[trigger] hits@[k] <= bound,
        shift + bound <= u64::MAX,
    ensures
        found@ == first_places(from_start(hits@, shift as int, start as int), room as int),
{
    let mut found: Vec<u64> = Vec::new();
    let mut i: usize = 0;
    while i < hits.len() && found.len() < room
        invariant
            i <= hits@.len(),
            found@ == from_start(hits@.subrange(0, i as int), shift as int, start as int),
            found@.len() <= room,
            forall|k: int| 0 <= k < hits@.len() ==> #[trigger] hits@[k] <= bound,
            shift + bound <= u64::MAX,
        decreases hits@.len() - i,
    {
        assert(hits@.subrange(0, i + 1).drop_last() =~= hits@.subrange(0, i as int));
        let place: u64 = shift + hits[i] as u64;
        if place >= start {
            found.push(place);
        }
        i = i + 1;
    }
    proof {
        lemma_from_start_prefix(hits@, i as int, shift as int, start as int);
        assert(hits@.subrange(0, hits@.len() as int) =~= hits@);
        let all = from_start(hits@, shift as int, start as int);
        assert(found@ =~= first_places(all, room as int));
    }
    found
}

/// The places `hits` below `len`, moved by `shift`, that are before `start`,
/// the last first: at most `room` of them.
fn places_before(hits: &Vec<usize>, len: usize, shift: u64, start: u64, room: usize) -> (found: Vec<
    u64,
>)
    requires
        shift + len <= u64::MAX,
    ensures
        found@ == first_places(
            before_start(hits@, len as int, shift as int, start as int),
            room as int,
        ),
{
    let mut found: Vec<u64> = Vec::new();
    let mut i: usize = hits.len();
    let ghost all = before_start(hits@, len as int, shift as int, start as int);
    proof {
        assert(hits@.subrange(0, hits@.len() as int) =~= hits@);
        assert(Seq::<u64>::empty() + all =~= all);
    }
    while i > 0 && found.len() < room
        invariant
            i <= hits@.len(),
            found@ + before_start(
                hits@.subrange(0, i as int),
                len as int,
                shift as int,
                start as int,
            ) == all,
            found@.len() <= room,
            shift + len <= u64::MAX,
        decreases i,
    {
        i = i - 1;
        let ghost rest = before_start(
            hits@.subrange(0, i as int),
            len as int,
            shift as int,
            start as int,
        );
        assert(hits@.subrange(0, i + 1).drop_last() =~= hits@.subrange(0, i as int));
        let hit: usize = hits[i];
        if hit < len && shift + (hit as u64) < start {
            let place: u64 = shift + hit as u64;
            let ghost had = found@;
            found.push(place);
            assert(had + (seq![place] + rest) =~= found@ + rest);
        }
    }
    proof {
        if i == 0 {
            assert(hits@.subrange(0, 0) =~= Seq::empty());
            assert(found@ =~= all);
        }
        assert(found@ =~= first_places(all, room as int));
    }
    found
}

/// The first places of the first hits are the first of all places.
proof fn lemma_from_start_prefix(hits: Seq<usize>, k: int, shift: int, start: int)
    requires
        0 <= k <= hits.len(),
    ensures
        ({
            let part = from_start(hits.subrange(0, k), shift, start);
            let all = from_start(hits, shift, start);
            &&& part.len() <= all.len()
            &&& all.subrange(0, part.len() as int) == part
        }),
    decreases hits.len() - k,
{
    let part = from_start(hits.subrange(0, k), shift, start);
    if k < hits.len() {
        lemma_from_start_prefix(hits, k + 1, shift, start);
        let more = from_start(hits.subrange(0, k + 1), shift, start);
        assert(hits.subrange(0, k + 1).drop_last() =~= hits.subrange(0, k));
        let all = from_start(hits, shift, start);
        assert(all.subrange(0, part.len() as int) =~= more.subrange(0, part.len() as int));
        assert(more.subrange(0, part.len() as int) =~= part);
    } else {
        assert(hits.subrange(0, k) =~= hits);
        assert(part.subrange(0, part.len() as int) =~= part);
    }
}

/// Each hit is an occurrence, they do not overlap, and no occurrence is clear
/// of all hits.
pub proof fn lemma_occurrences(haystack: Seq<u8>, needle: Seq<u8>, from: int)
    requires
        needle.len() > 0,
        0 <= from,
        haystack.len() <= usize::MAX,
    ensures
        ({
            let hits = occurrences(haystack, needle, from);
            &&& forall|k: int|
                0 <= k < hits.len() ==> from <= #[trigger] hits[k] && occurs(
                    haystack,
                    needle,
                    hits[k] as int,
                )
            &&& forall|k: int| 0 <= k < hits.len() ==> #[trigger] hits[k] <= haystack.len()
            &&& forall|i: int, j: int|
                0 <= i < j < hits.len() ==> #[trigger] hits[i] + needle.len()
                    <= #[trigger] hits[j]
            &&& forall|p: int|
                from <= p && #[trigger] occurs(haystack, needle, p) ==> exists|k: int|
                    0 <= k < hits.len() && #[trigger] hits[k] <= p < hits[k] + needle.len()
        }),
    decreases haystack.len() - from,
{
    let hits = occurrences(haystack, needle, from);
    if from + needle.len() > haystack.len() {
    } else if occurs(haystack, needle, from) {
        let rest = occurrences(haystack, needle, from + needle.len());
        lemma_occurrences(haystack, needle, from + needle.len());
        assert(hits =~= seq![from as usize] + rest);
        assert forall|k: int| 0 <= k < hits.len() implies from <= #[trigger] hits[k] && occurs(
            haystack,
            needle,
            hits[k] as int,
        ) by {
            if k > 0 {
                assert(hits[k] == rest[k - 1]);
            }
        }
        assert forall|i: int, j: int| 0 <= i < j < hits.len() implies #[trigger] hits[i]
            + needle.len() <= #[trigger] hits[j] by {
            assert(hits[j] == rest[j - 1]);
            if i > 0 {
                assert(hits[i] == rest[i - 1]);
            }
        }
        assert forall|p: int| from <= p && #[trigger] occurs(haystack, needle, p) implies exists|
            k: int,
        | 0 <= k < hits.len() && #[trigger] hits[k] <= p < hits[k] + needle.len() by {
            if p < from + needle.len() {
                assert(hits[0] == from);
            } else {
                let k = choose|k: int|
                    0 <= k < rest.len() && #[trigger] rest[k] <= p < rest[k] + needle.len();
                assert(hits[k + 1] == rest[k]);
            }
        }
    } else {
        lemma_occurrences(haystack, needle, from + 1);
        let rest = occurrences(haystack, needle, from + 1);
        assert(hits == rest);
        assert forall|p: int| from <= p && #[trigger] occurs(haystack, needle, p) implies exists|
            k: int,
        | 0 <= k < hits.len() && #[trigger] hits[k] <= p < hits[k] + needle.len() by {
            assert(p != from);
        }
    }
}

/// What is in a stretch of the document.
proof fn lemma_occurs_in_stretch(
    doc: Seq<u8>,
    needle: Seq<u8>,
    from: int,
    to: int,
    at: int,
)
    requires
        0 <= from <= to <= doc.len(),
    ensures
        occurs(doc.subrange(from, to), needle, at) <==> {
            &&& 0 <= at
            &&& from + at + needle.len() <= to
            &&& occurs(doc, needle, from + at)
        },
{
    if 0 <= at && from + at + needle.len() <= to {
        assert(doc.subrange(from, to).subrange(at, at + needle.len()) =~= doc.subrange(
            from + at,
            from + at + needle.len(),
        ));
    }
}

proof fn lemma_from_start(hits: Seq<usize>, shift: int, start: int)
    requires
        forall|i: int, j: int| 0 <= i < j < hits.len() ==> hits[i] < hits[j],
        forall|i: int| 0 <= i < hits.len() ==> 0 <= shift + #[trigger] hits[i] <= u64::MAX,
    ensures
        ({
            let places = from_start(hits, shift, start);
            &&& forall|k: int|
                0 <= k < places.len() ==> start <= #[trigger] places[k] && exists|i: int|
                    0 <= i < hits.len() && places[k] == shift + #[trigger] hits[i]
            &&& forall|i: int, j: int| 0 <= i < j < places.len() ==> places[i] < places[j]
            &&& forall|i: int|
                0 <= i < hits.len() && shift + #[trigger] hits[i] >= start ==> places.contains(
                    (shift + hits[i]) as u64,
                )
        }),
    decreases hits.len(),
{
    if hits.len() > 0 {
        let rest = hits.drop_last();
        lemma_from_start(rest, shift, start);
        let old_places = from_start(rest, shift, start);
        let places = from_start(hits, shift, start);
        let n = hits.len() - 1;
        assert forall|k: int| 0 <= k < places.len() implies start <= #[trigger] places[k] && exists|
            i: int,
        | 0 <= i < hits.len() && places[k] == shift + #[trigger] hits[i] by {
            if k < old_places.len() {
                assert(places[k] == old_places[k]);
                let i = choose|i: int|
                    0 <= i < rest.len() && old_places[k] == shift + #[trigger] rest[i];
                assert(rest[i] == hits[i]);
            } else {
                assert(places[k] == shift + hits[n]);
            }
        }
        assert forall|i: int, j: int| 0 <= i < j < places.len() implies places[i] < places[j] by {
            if j == old_places.len() {
                assert(places[i] == old_places[i]);
                let k = choose|k: int|
                    0 <= k < rest.len() && old_places[i] == shift + #[trigger] rest[k];
                assert(rest[k] == hits[k]);
                assert(hits[k] < hits[n]);
            }
        }
        assert forall|i: int| 0 <= i < hits.len() && shift + #[trigger] hits[i]
            >= start implies places.contains((shift + hits[i]) as u64) by {
            if i < n {
                assert(rest[i] == hits[i]);
                let k = choose|k: int|
                    0 <= k < old_places.len() && old_places[k] == (shift + rest[i]) as u64;
                assert(places[k] == old_places[k]);
            } else {
                assert(places[old_places.len() as int] == shift + hits[n]);
            }
        }
    }
}

proof fn lemma_before_start(hits: Seq<usize>, len: int, shift: int, start: int)
    requires
        0 <= shift,
        shift + len <= u64::MAX,
        forall|i: int, j: int| 0 <= i < j < hits.len() ==> hits[i] < hits[j],
    ensures
        ({
            let places = before_start(hits, len, shift, start);
            &&& forall|k: int|
                0 <= k < places.len() ==> #[trigger] places[k] < start && exists|i: int|
                    0 <= i < hits.len() && #[trigger] hits[i] < len && places[k] == shift + hits[i]
            &&& forall|i: int, j: int| 0 <= i < j < places.len() ==> places[i] > places[j]
            &&& forall|i: int|
                0 <= i < hits.len() && #[trigger] hits[i] < len && shift + hits[i] < start
                    ==> places.contains((shift + hits[i]) as u64)
        }),
    decreases hits.len(),
{
    if hits.len() > 0 {
        let rest = hits.drop_last();
        lemma_before_start(rest, len, shift, start);
        let old_places = before_start(rest, len, shift, start);
        let places = before_start(hits, len, shift, start);
        let n = hits.len() - 1;
        let fresh = places.len() - old_places.len();
        assert(0 <= fresh <= 1);
        assert forall|k: int| 0 <= k < places.len() implies #[trigger] places[k] < start && exists|
            i: int,
        |
            0 <= i < hits.len() && #[trigger] hits[i] < len && places[k] == shift + hits[i] by {
            if k >= fresh {
                assert(places[k] == old_places[k - fresh]);
                let i = choose|i: int|
                    0 <= i < rest.len() && #[trigger] rest[i] < len && old_places[k - fresh]
                        == shift + rest[i];
                assert(rest[i] == hits[i]);
            } else {
                assert(places[k] == shift + hits[n]);
            }
        }
        assert forall|i: int, j: int| 0 <= i < j < places.len() implies places[i] > places[j] by {
            assert(places[j] == old_places[j - fresh]);
            if i < fresh {
                let k = choose|k: int|
                    0 <= k < rest.len() && #[trigger] rest[k] < len && old_places[j - fresh]
                        == shift + rest[k];
                assert(rest[k] == hits[k]);
                assert(hits[k] < hits[n]);
            } else {
                assert(places[i] == old_places[i - fresh]);
            }
        }
        assert forall|i: int|
            0 <= i < hits.len() && #[trigger] hits[i] < len && shift + hits[i]
                < start implies places.contains((shift + hits[i]) as u64) by {
            if i < n {
                assert(rest[i] == hits[i]);
                let k = choose|k: int|
                    0 <= k < old_places.len() && old_places[k] == (shift + rest[i]) as u64;
                assert(places[k + fresh] == old_places[k]);
            } else {
                assert(places[0] == shift + hits[n]);
            }
        }
    }
}

/// `m` is a match on which one at `p` may have been dropped: it covers `p`, and
/// it was reported unless it lies before the start of the search.
pub open spec fn covers(s: SearchModel, doc: Seq<u8>, m: int, p: int) -> bool {
    &&& m <= p < m + s.query.len()
    &&& occurs(doc, s.query, m)
    &&& s.matches.contains(m as u64) || m < s.start_byte
}

/// A forward search of `doc` has got as far as its offset: what it scans
/// again are the bytes before, and its matches are occurrences before the
/// offset and not before the start, in order.
pub open spec fn forward_on_track(s: SearchModel, doc: Seq<u8>) -> bool {
    &&& s.overlap.len() <= s.offset <= doc.len()
    &&& s.overlap.len() < s.query.len()
    &&& doc.subrange(s.offset - s.overlap.len(), s.offset as int) == s.overlap
    &&& forall|k: int|
        0 <= k < s.matches.len() ==> {
            &&& s.start_byte <= #[trigger] s.matches[k]
            &&& s.matches[k] + s.query.len() <= s.offset
            &&& occurs(doc, s.query, s.matches[k] as int)
        }
    &&& forall|i: int, j: int| 0 <= i < j < s.matches.len() ==> s.matches[i] < s.matches[j]
}

/// A forward search reports only occurrences of what is searched for that are
/// not before its start, each once and in order. And it misses none that ends
/// in the block it scans and begins there or in what it scans again of the
/// block before, across the border between them too: such an occurrence is
/// reported, or one that overlaps it from the left is, or lies before the start
/// of the search. It may stop early only with as many matches as were asked
/// for, and then misses none before the last of them.
#[verifier::rlimit(30)]
pub proof fn law_forward_scan(s: SearchModel, content: Seq<u8>, doc: Seq<u8>)
    requires
        s.wf(),
        s.direction == Direction::Forward,
        !s.peek,
        s.accepts(content.len() as int),
        doc.len() <= i64::MAX,
        forward_on_track(s, doc),
        s.offset + content.len() <= doc.len(),
        doc.subrange(s.offset as int, s.offset + content.len()) == content,
    ensures
        ({
            let t = s.scan(content);
            &&& forall|k: int|
                0 <= k < t.matches.len() ==> {
                    &&& s.start_byte <= #[trigger] t.matches[k]
                    &&& t.matches[k] + s.query.len() <= s.offset + content.len()
                    &&& occurs(doc, s.query, t.matches[k] as int)
                }
            &&& forall|i: int, j: int| 0 <= i < j < t.matches.len() ==> t.matches[i] < t.matches[j]
            &&& t.has_more && !s.has_more ==> t.matches.len() == s.limit
            &&& t.matches.len() < s.limit ==> forward_on_track(t, doc)
            &&& forall|p: int|
                s.offset - s.overlap.len() <= p && p + s.query.len() <= s.offset + content.len()
                    && p >= s.start_byte && (t.matches.len() < s.limit || p <= t.matches.last())
                    && #[trigger] occurs(doc, s.query, p) ==> exists|m: int| covers(t, doc, m, p)
        }),
{
    let t = s.scan(content);
    let q = s.query;
    let from = s.offset - s.overlap.len();
    let to = s.offset + content.len();
    let buf = s.overlap + content;
    assert(buf =~= doc.subrange(from, to));
    let hits = occurrences(buf, q, 0);
    lemma_occurrences(buf, q, 0);
    assert forall|k: int| 0 <= k < hits.len() implies occurs(
        doc,
        q,
        from + #[trigger] hits[k],
    ) && from + hits[k] + q.len() <= to && from + hits[k] + q.len() > s.offset by {
        lemma_occurs_in_stretch(doc, q, from, to, hits[k] as int);
    }
    lemma_from_start(hits, from, s.start_byte as int);
    let found = from_start(hits, from, s.start_byte as int);
    let all = s.matches + found;
    assert forall|k: int| 0 <= k < all.len() implies {
        &&& s.start_byte <= #[trigger] all[k]
        &&& all[k] + q.len() <= to
        &&& occurs(doc, q, all[k] as int)
    } by {
        if k < s.matches.len() {
            assert(all[k] == s.matches[k]);
        } else {
            let f = k - s.matches.len();
            assert(all[k] == found[f]);
            let i = choose|i: int|
                0 <= i < hits.len() && found[f] == from + #[trigger] hits[i];
            assert(occurs(doc, q, from + hits[i]));
        }
    }
    assert forall|i: int, j: int| 0 <= i < j < all.len() implies all[i] < all[j] by {
        if j >= s.matches.len() {
            let f = j - s.matches.len();
            let k = choose|k: int|
                0 <= k < hits.len() && found[f] == from + #[trigger] hits[k];
            assert(from + hits[k] + q.len() > s.offset);
            if i < s.matches.len() {
                assert(all[i] == s.matches[i]);
            }
        }
    }
    assert forall|k: int| 0 <= k < t.matches.len() implies #[trigger] t.matches[k] == all[k] by {}
    if t.matches.len() < s.limit {
        assert(t.matches == all);
        assert(doc.subrange(t.offset - t.overlap.len(), t.offset as int) =~= t.overlap);
    }
    assert forall|p: int|
        from <= p && p + q.len() <= to && p >= s.start_byte && (t.matches.len() < s.limit || p
            <= t.matches.last()) && #[trigger] occurs(doc, q, p) implies exists|m: int|
        covers(t, doc, m, p) by {
        lemma_occurs_in_stretch(doc, q, from, to, p - from);
        assert(occurs(buf, q, p - from));
        let k = choose|k: int|
            0 <= k < hits.len() && #[trigger] hits[k] <= p - from < hits[k] + q.len();
        let m = from + hits[k];
        if m >= s.start_byte {
            let f = choose|f: int| 0 <= f < found.len() && found[f] == m as u64;
            let at = s.matches.len() + f;
            assert(all[at] == m);
            if at >= t.matches.len() {
                assert(t.matches.last() == all[t.matches.len() - 1]);
                assert(all[t.matches.len() - 1] < all[at]);
            }
            assert(t.matches[at] == m);
        }
        assert(covers(t, doc, m, p));
    }
}

/// Of two hits, the earlier ends before the later starts.
proof fn lemma_apart(hits: Seq<usize>, len: int, k: int, i: int)
    requires
        forall|i: int, j: int|
            0 <= i < j < hits.len() ==> #[trigger] hits[i] + len <= #[trigger] hits[j],
        0 <= k < hits.len(),
        0 <= i < hits.len(),
        hits[k] < hits[i],
        len > 0,
    ensures
        hits[k] + len <= hits[i],
{
}

/// A backward search of `doc` has got as far as its offset: what it scans
/// again are the bytes behind, and its matches are occurrences from the offset
/// on and before the start, the last first.
pub open spec fn backward_on_track(s: SearchModel, doc: Seq<u8>) -> bool {
    &&& s.first ==> s.matches.len() == 0
    &&& !s.first ==> {
        &&& s.offset + s.overlap.len() <= doc.len()
        &&& doc.subrange(s.offset as int, s.offset + s.overlap.len()) == s.overlap
    }
    &&& forall|k: int|
        0 <= k < s.matches.len() ==> {
            &&& s.offset <= #[trigger] s.matches[k] < s.start_byte
            &&& occurs(doc, s.query, s.matches[k] as int)
        }
    &&& forall|i: int, j: int| 0 <= i < j < s.matches.len() ==> s.matches[i] > s.matches[j]
}

/// A backward search reports only occurrences of what is searched for that
/// begin before its start, each once and from the end. And it misses none that
/// begins in the block it scans and ends there or in what it scans again of
/// the block behind, across the border between them too: such an occurrence is
/// reported, or one that overlaps it from the left is. It may stop early only
/// with as many matches as were asked for, and then misses none behind the last
/// of them.
#[verifier::rlimit(30)]
pub proof fn law_backward_scan(s: SearchModel, content: Seq<u8>, doc: Seq<u8>)
    requires
        s.wf(),
        s.direction == Direction::Backward,
        !s.peek,
        s.accepts(content.len() as int),
        doc.len() <= i64::MAX,
        backward_on_track(s, doc),
        s.backward_start(content) + content.len() + s.overlap.len() <= doc.len(),
        doc.subrange(
            s.backward_start(content) + content.len(),
            s.backward_start(content) + content.len() + s.overlap.len(),
        ) == s.overlap,
        doc.subrange(
            s.backward_start(content),
            s.backward_start(content) + content.len(),
        ) == content,
    ensures
        ({
            let t = s.scan(content);
            let start = s.backward_start(content);
            &&& forall|k: int|
                0 <= k < t.matches.len() ==> {
                    &&& start <= #[trigger] t.matches[k] < s.start_byte
                    &&& occurs(doc, s.query, t.matches[k] as int)
                }
            &&& forall|i: int, j: int| 0 <= i < j < t.matches.len() ==> t.matches[i] > t.matches[j]
            &&& t.has_more && !s.has_more ==> t.matches.len() == s.limit
            &&& t.matches.len() < s.limit ==> backward_on_track(t, doc)
            &&& forall|p: int|
                start <= p < start + content.len() && p + s.query.len() <= start + content.len()
                    + s.overlap.len() && p < s.start_byte && (t.matches.len() < s.limit || p
                    >= t.matches.last()) && #[trigger] occurs(doc, s.query, p)
                    ==> exists|m: int| m <= p < m + s.query.len() && #[trigger] occurs(
                    doc,
                    s.query,
                    m,
                ) && t.matches.contains(m as u64)
        }),
{
    let t = s.scan(content);
    let q = s.query;
    let start = s.backward_start(content);
    let len = content.len() as int;
    let end = start + len;
    let to = end + s.overlap.len();
    let buf = content + s.overlap;
    assert(buf =~= doc.subrange(start, to));
    let hits = occurrences(buf, q, 0);
    lemma_occurrences(buf, q, 0);
    assert forall|k: int| 0 <= k < hits.len() implies occurs(
        doc,
        q,
        start + #[trigger] hits[k],
    ) by {
        lemma_occurs_in_stretch(doc, q, start, to, hits[k] as int);
    }
    lemma_before_start(hits, len, start, s.start_byte as int);
    let found = before_start(hits, len, start, s.start_byte as int);
    let all = s.matches + found;
    assert forall|k: int| 0 <= k < all.len() implies {
        &&& start <= #[trigger] all[k] < s.start_byte
        &&& occurs(doc, q, all[k] as int)
    } by {
        if k < s.matches.len() {
            assert(all[k] == s.matches[k]);
        } else {
            let f = k - s.matches.len();
            assert(all[k] == found[f]);
            let i = choose|i: int|
                0 <= i < hits.len() && #[trigger] hits[i] < len && found[f] == start + hits[i];
            assert(occurs(doc, q, start + hits[i]));
        }
    }
    assert forall|i: int, j: int| 0 <= i < j < all.len() implies all[i] > all[j] by {
        if j >= s.matches.len() {
            let f = j - s.matches.len();
            let k = choose|k: int|
                0 <= k < hits.len() && #[trigger] hits[k] < len && found[f] == start + hits[k];
            if i < s.matches.len() {
                assert(all[i] == s.matches[i]);
                assert(s.offset <= s.matches[i]);
            }
        }
    }
    assert forall|k: int| 0 <= k < t.matches.len() implies #[trigger] t.matches[k] == all[k] by {}
    if t.matches.len() < s.limit {
        assert(t.matches == all);
        assert(doc.subrange(t.offset as int, t.offset + t.overlap.len()) =~= t.overlap);
    }
    assert forall|p: int|
        start <= p < end && p + q.len() <= to && p < s.start_byte && (t.matches.len() < s.limit || p
            >= t.matches.last()) && #[trigger] occurs(doc, q, p) implies exists|m: int|
        m <= p < m + q.len() && #[trigger] occurs(doc, q, m) && t.matches.contains(m as u64) by {
        lemma_backward_finds(s, content, doc, p);
    }
}

/// A backward search reports an occurrence at `p` in the block it scans, or one
/// that overlaps it from the left.
proof fn lemma_backward_finds(s: SearchModel, content: Seq<u8>, doc: Seq<u8>, p: int)
    requires
        s.wf(),
        s.direction == Direction::Backward,
        !s.peek,
        s.accepts(content.len() as int),
        doc.len() <= i64::MAX,
        s.backward_start(content) + content.len() + s.overlap.len() <= doc.len(),
        doc.subrange(
            s.backward_start(content) + content.len(),
            s.backward_start(content) + content.len() + s.overlap.len(),
        ) == s.overlap,
        doc.subrange(
            s.backward_start(content),
            s.backward_start(content) + content.len(),
        ) == content,
        ({
            let t = s.scan(content);
            let start = s.backward_start(content);
            &&& start <= p < start + content.len()
            &&& p + s.query.len() <= start + content.len() + s.overlap.len()
            &&& p < s.start_byte
            &&& t.matches.len() < s.limit || p >= t.matches.last()
        }),
        occurs(doc, s.query, p),
    ensures
        exists|m: int|
            m <= p < m + s.query.len() && #[trigger] occurs(doc, s.query, m) && s.scan(
                content,
            ).matches.contains(m as u64),
{
    let t = s.scan(content);
    let q = s.query;
    let start = s.backward_start(content);
    let len = content.len() as int;
    let to = start + len + s.overlap.len();
    let buf = content + s.overlap;
    assert(buf =~= doc.subrange(start, to));
    let hits = occurrences(buf, q, 0);
    lemma_occurrences(buf, q, 0);
    lemma_occurs_in_stretch(doc, q, start, to, p - start);
    let k = choose|k: int|
        0 <= k < hits.len() && #[trigger] hits[k] <= p - start < hits[k] + q.len();
    lemma_occurs_in_stretch(doc, q, start, to, hits[k] as int);
    lemma_kept_behind(
        hits,
        q.len() as int,
        len,
        start,
        s.start_byte as int,
        s.matches,
        s.limit as int,
        k,
        p,
    );
    assert(occurs(doc, q, start + hits[k]) && t.matches.contains((start + hits[k]) as u64));
}

/// Where only the first `limit` places are kept, the hit that covers `p` is
/// among them unless the last one kept is behind `p`.
proof fn lemma_kept_behind(
    hits: Seq<usize>,
    n: int,
    len: int,
    shift: int,
    start: int,
    before: Seq<u64>,
    limit: int,
    k: int,
    p: int,
)
    requires
        forall|i: int, j: int|
            0 <= i < j < hits.len() ==> #[trigger] hits[i] + n <= #[trigger] hits[j],
        n > 0,
        0 <= shift,
        shift + len <= u64::MAX,
        0 <= k < hits.len(),
        hits[k] < len,
        hits[k] <= p - shift < hits[k] + n,
        p < start,
        before.len() < limit,
        ({
            let kept = first_places(before + before_start(hits, len, shift, start), limit);
            kept.len() < limit || p >= kept.last()
        }),
    ensures
        first_places(before + before_start(hits, len, shift, start), limit).contains(
            (shift + hits[k]) as u64,
        ),
{
    lemma_before_start(hits, len, shift, start);
    let found = before_start(hits, len, shift, start);
    let all = before + found;
    let kept = first_places(all, limit);
    let m = shift + hits[k];
    assert(found.contains(m as u64));
    let f = choose|f: int| 0 <= f < found.len() && found[f] == m as u64;
    let at = before.len() + f;
    assert(all[at] == m);
    if at >= kept.len() {
        let g = limit - 1 - before.len();
        assert(kept.last() == found[g]);
        assert(found[g] > found[f]);
        let i = choose|i: int|
            0 <= i < hits.len() && #[trigger] hits[i] < len && found[g] == shift + hits[i];
        lemma_apart(hits, n, k, i);
    }
    assert(kept[at] == m);
}

} // verus!
