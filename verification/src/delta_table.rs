//! The sizes of the blocks as they are now, with fast prefix sums, so that a
//! byte offset can be turned into a block and back while blocks grow and
//! shrink.

use crate::block::BlockId;
use vstd::prelude::*;

verus! {

/// The sum of the first `k` values of `s`.
pub open spec fn prefix(s: Seq<i64>, k: int) -> int
    decreases k,
{
    if k <= 0 {
        0
    } else {
        prefix(s, k - 1) + s[k - 1]
    }
}

/// The sum of all values of `s`.
pub open spec fn total(s: Seq<i64>) -> int {
    prefix(s, s.len() as int)
}

/// The absolute value of `x`.
pub open spec fn magnitude(x: int) -> int {
    if x < 0 {
        -x
    } else {
        x
    }
}

/// The sum of the absolute values of the first `k` values of `s`.
pub open spec fn prefix_magnitude(s: Seq<i64>, k: int) -> int
    decreases k,
{
    if k <= 0 {
        0
    } else {
        prefix_magnitude(s, k - 1) + magnitude(s[k - 1] as int)
    }
}

/// No sum over a run of `s` leaves the range of `i64`, whatever the signs.
pub open spec fn summable(s: Seq<i64>) -> bool {
    prefix_magnitude(s, s.len() as int) <= i64::MAX
}

pub proof fn lemma_prefix_agrees(s: Seq<i64>, t: Seq<i64>, k: int)
    requires
        k <= s.len(),
        k <= t.len(),
        forall|i: int| 0 <= i < k ==> s[i] == t[i],
    ensures
        prefix(s, k) == prefix(t, k),
        prefix_magnitude(s, k) == prefix_magnitude(t, k),
    decreases k,
{
    if k > 0 {
        lemma_prefix_agrees(s, t, k - 1);
    }
}

pub proof fn lemma_prefix_update(s: Seq<i64>, i: int, v: i64, k: int)
    requires
        0 <= i < s.len(),
        k <= s.len(),
    ensures
        prefix(s.update(i, v), k) == prefix(s, k) + (if i < k {
            v - s[i]
        } else {
            0
        }),
    decreases k,
{
    if k > 0 {
        lemma_prefix_update(s, i, v, k - 1);
    }
}

/// The sum over a run is no larger than the absolute values over it.
pub proof fn lemma_run_bound(s: Seq<i64>, i: int, j: int)
    requires
        0 <= i <= j <= s.len(),
    ensures
        magnitude(prefix(s, j) - prefix(s, i)) <= prefix_magnitude(s, j) - prefix_magnitude(s, i),
        0 <= prefix_magnitude(s, i) <= prefix_magnitude(s, j),
    decreases j,
{
    if i < j {
        lemma_run_bound(s, i, j - 1);
    } else if j > 0 {
        lemma_run_bound(s, i - 1, j - 1);
    }
}

/// Every sum over a run of summable values fits in `i64`.
pub proof fn lemma_run_fits(s: Seq<i64>, i: int, j: int)
    requires
        summable(s),
        0 <= i <= j <= s.len(),
    ensures
        i64::MIN < prefix(s, j) - prefix(s, i) <= i64::MAX,
{
    lemma_run_bound(s, i, j);
    lemma_run_bound(s, j, s.len() as int);
    lemma_run_bound(s, 0, i);
}

pub proof fn lemma_magnitude_monotone(s: Seq<i64>, t: Seq<i64>, k: int)
    requires
        k <= s.len(),
        k <= t.len(),
        forall|i: int|
            0 <= i < k ==> magnitude(#[trigger] s[i] as int) <= magnitude(t[i] as int),
    ensures
        prefix_magnitude(s, k) <= prefix_magnitude(t, k),
    decreases k,
{
    if k > 0 {
        lemma_magnitude_monotone(s, t, k - 1);
    }
}

/// With no negative value, the absolute values add up to the sum.
pub proof fn lemma_magnitude_of_nonnegative(s: Seq<i64>, k: int)
    requires
        k <= s.len(),
        forall|i: int| 0 <= i < s.len() ==> s[i] >= 0,
    ensures
        prefix_magnitude(s, k) == prefix(s, k),
    decreases k,
{
    if k > 0 {
        lemma_magnitude_of_nonnegative(s, k - 1);
    }
}

/// With no negative value, prefix sums only grow.
pub proof fn lemma_prefix_monotone(s: Seq<i64>, i: int, j: int)
    requires
        0 <= i <= j <= s.len(),
        forall|k: int| 0 <= k < s.len() ==> s[k] >= 0,
    ensures
        0 <= prefix(s, i) <= prefix(s, j),
    decreases j,
{
    if i < j {
        lemma_prefix_monotone(s, i, j - 1);
    } else if j > 0 {
        lemma_prefix_monotone(s, i - 1, j - 1);
    }
}

/// The prefix sums of `s` with `v` inserted at `i`.
pub proof fn lemma_prefix_insert(s: Seq<i64>, i: int, v: i64, k: int)
    requires
        0 <= i <= s.len(),
        k <= s.len() + 1,
    ensures
        prefix(s.insert(i, v), k) == (if k <= i {
            prefix(s, k)
        } else {
            prefix(s, k - 1) + v
        }),
        prefix_magnitude(s.insert(i, v), k) == (if k <= i {
            prefix_magnitude(s, k)
        } else {
            prefix_magnitude(s, k - 1) + magnitude(v as int)
        }),
    decreases k,
{
    if k > 0 {
        lemma_prefix_insert(s, i, v, k - 1);
    }
}

/// The prefix sums of `s` without its value at `i`.
pub proof fn lemma_prefix_remove(s: Seq<i64>, i: int, k: int)
    requires
        0 <= i < s.len(),
        k < s.len(),
    ensures
        prefix(s.remove(i), k) == (if k <= i {
            prefix(s, k)
        } else {
            prefix(s, k + 1) - s[i]
        }),
        prefix_magnitude(s.remove(i), k) == (if k <= i {
            prefix_magnitude(s, k)
        } else {
            prefix_magnitude(s, k + 1) - magnitude(s[i] as int)
        }),
    decreases k,
{
    if k > 0 {
        lemma_prefix_remove(s, i, k - 1);
        assert(prefix(s, k + 1) == prefix(s, k) + s[k]);
        assert(prefix_magnitude(s, k + 1) == prefix_magnitude(s, k) + magnitude(s[k] as int));
    }
}

/// `i` without its lowest set bit.
spec fn below(i: usize) -> usize {
    i & (i - 1) as usize
}

/// The node after `i` that covers every value that `i` covers, less one.
spec fn above(i: usize) -> usize {
    i | (i - 1) as usize
}

proof fn lemma_below(i: usize)
    requires
        i > 0,
    ensures
        below(i) < i,
{
    assert(i > 0 ==> (i & (i - 1) as usize) < i) by (bit_vector);
}

proof fn lemma_above(i: usize, n: usize)
    requires
        i > 0,
        above(i) < n,
    ensures
        i <= above(i),
        below((above(i) + 1) as usize) <= below(i),
        forall|j: usize| i < j <= above(i) ==> #[trigger] below(j) >= i,
{
    assert(i > 0 ==> i <= (i | (i - 1) as usize)) by (bit_vector);
    let a = i | (i - 1) as usize;
    assert(i > 0 && a == (i | (i - 1) as usize) && a < n ==> ((a + 1) as usize & a) <= (i & (i
        - 1) as usize)) by (bit_vector);
    assert forall|j: usize| i < j <= above(i) implies #[trigger] below(j) >= i by {
        lemma_between(i, j);
    }
}

proof fn lemma_between(i: usize, j: usize)
    requires
        0 < i < j <= above(i),
    ensures
        below(j) >= i,
{
    assert(0 < i && i < j && j <= (i | (i - 1) as usize) ==> (j & (j - 1) as usize) >= i)
        by (bit_vector);
}

/// A Fenwick tree: node `i` holds the sum of the values after `below(i)` up to
/// the `i`th.
struct FenwickTree {
    tree: Vec<i64>,
    vals: Ghost<Seq<i64>>,
}

impl View for FenwickTree {
    type V = Seq<i64>;

    closed spec fn view(&self) -> Seq<i64> {
        self.vals@
    }
}

impl FenwickTree {
    spec fn wf(&self) -> bool {
        &&& self.tree.len() == self@.len() + 1
        &&& summable(self@)
        &&& forall|i: usize|
            0 < i <= self@.len() ==> #[trigger] self.tree@[i as int] == prefix(self@, i as int)
                - prefix(self@, below(i) as int)
    }

    fn new(n: usize) -> (t: Self)
        requires
            n < usize::MAX,
        ensures
            t.wf(),
            t@.len() == n,
            forall|i: int| 0 <= i < n ==> t@[i] == 0,
    {
        let ghost zeros = Seq::new(n as nat, |i: int| 0i64);
        let t = Self { tree: vec![0i64; n + 1], vals: Ghost(zeros) };
        proof {
            lemma_zeros(zeros, n as int);
            assert forall|i: usize| 0 < i <= n implies #[trigger] t.tree@[i as int] == prefix(
                zeros,
                i as int,
            ) - prefix(zeros, below(i) as int) by {
                lemma_below(i);
                lemma_zeros(zeros, i as int);
                lemma_zeros(zeros, below(i) as int);
            }
        }
        t
    }

    fn len(&self) -> (n: usize)
        requires
            self.wf(),
        ensures
            n == self@.len(),
    {
        self.tree.len() - 1
    }

    /// Adds `delta` to the value at `idx`.
    fn add(&mut self, idx: usize, delta: i64)
        requires
            old(self).wf(),
            idx < old(self)@.len(),
            i64::MIN <= old(self)@[idx as int] + delta <= i64::MAX,
            summable(old(self)@.update(idx as int, (old(self)@[idx as int] + delta) as i64)),
        ensures
            final(self).wf(),
            final(self)@ == old(self)@.update(
                idx as int,
                (old(self)@[idx as int] + delta) as i64,
            ),
    {
        let ghost olds = self@;
        let ghost news = olds.update(idx as int, (olds[idx as int] + delta) as i64);
        let n: usize = self.tree.len() - 1;
        let first: usize = idx + 1;
        let mut node: usize = first;
        proof {
            lemma_below(first);
            assert forall|i: usize| 0 < i < first implies prefix(news, i as int) - prefix(
                news,
                below(i) as int,
            ) == prefix(olds, i as int) - prefix(olds, below(i) as int) by {
                lemma_below(i);
                lemma_prefix_agrees(news, olds, i as int);
                lemma_prefix_agrees(news, olds, below(i) as int);
            }
        }
        loop
            invariant_except_break
                self.vals@ == olds,
                self.tree.len() == olds.len() + 1,
                n == olds.len(),
                summable(news),
                idx < n,
                first == idx + 1,
                first <= node <= n,
                below(node) < first,
                news == olds.update(idx as int, (olds[idx as int] + delta) as i64),
                i64::MIN <= olds[idx as int] + delta <= i64::MAX,
                forall|i: usize|
                    0 < i < node ==> #[trigger] self.tree@[i as int] == prefix(news, i as int)
                        - prefix(news, below(i) as int),
                forall|i: usize|
                    node <= i <= n ==> #[trigger] self.tree@[i as int] == prefix(olds, i as int)
                        - prefix(olds, below(i) as int),
            ensures
                self.vals@ == olds,
                self.tree.len() == olds.len() + 1,
                forall|i: usize|
                    0 < i <= n ==> #[trigger] self.tree@[i as int] == prefix(news, i as int)
                        - prefix(news, below(i) as int),
            decreases n - node,
        {
            let ghost before = self.tree@;
            proof {
                assert(self.tree@[node as int] == prefix(olds, node as int) - prefix(
                    olds,
                    below(node) as int,
                ));
                lemma_prefix_update(
                    olds,
                    idx as int,
                    (olds[idx as int] + delta) as i64,
                    node as int,
                );
                lemma_prefix_update(
                    olds,
                    idx as int,
                    (olds[idx as int] + delta) as i64,
                    below(node) as int,
                );
                lemma_run_fits(news, below(node) as int, node as int);
            }
            let sum: i64 = self.tree[node] + delta;
            self.tree[node] = sum;
            let last: usize = node | (node - 1);
            proof {
                assert(last == above(node));
                assert forall|i: usize| node < i <= last && i <= n implies prefix(
                    olds,
                    i as int,
                ) - prefix(olds, below(i) as int) == prefix(news, i as int) - prefix(
                    news,
                    below(i) as int,
                ) by {
                    lemma_between(node, i);
                    lemma_below(i);
                    lemma_prefix_update(
                        olds,
                        idx as int,
                        (olds[idx as int] + delta) as i64,
                        i as int,
                    );
                    lemma_prefix_update(
                        olds,
                        idx as int,
                        (olds[idx as int] + delta) as i64,
                        below(i) as int,
                    );
                }
            }
            if last >= n {
                break ;
            }
            proof {
                lemma_above(node, n);
            }
            node = last + 1;
        }
        self.vals = Ghost(news);
    }

    /// The sum of the first `idx` values; of all of them where there are fewer.
    fn prefix_sum(&self, idx: usize) -> (s: i64)
        requires
            self.wf(),
        ensures
            s == prefix(
                self@,
                if idx < self@.len() {
                    idx as int
                } else {
                    self@.len() as int
                },
            ),
    {
        let n: usize = self.len();
        let idx: usize = if idx < n { idx } else { n };
        let mut s: i64 = 0;
        let mut i: usize = idx;
        while i > 0
            invariant
                self.wf(),
                i <= idx <= self@.len(),
                s == prefix(self@, idx as int) - prefix(self@, i as int),
            decreases i,
        {
            proof {
                lemma_below(i);
                lemma_run_fits(self@, below(i) as int, idx as int);
            }
            s = s + self.tree[i];
            i = i & (i - 1);
        }
        s
    }

    /// The value at `idx`.
    fn get(&self, idx: usize) -> (v: i64)
        requires
            self.wf(),
            idx < self@.len(),
        ensures
            v == self@[idx as int],
    {
        self.prefix_sum(idx + 1) - self.prefix_sum(idx)
    }

    /// All values, in order.
    fn to_vec(&self) -> (v: Vec<i64>)
        requires
            self.wf(),
        ensures
            v@ == self@,
    {
        let n: usize = self.len();
        let mut v: Vec<i64> = Vec::with_capacity(n);
        let mut i: usize = 0;
        while i < n
            invariant
                self.wf(),
                i <= n == self@.len(),
                v@ == self@.subrange(0, i as int),
            decreases n - i,
        {
            v.push(self.get(i));
            i = i + 1;
            assert(v@ =~= self@.subrange(0, i as int));
        }
        assert(v@ =~= self@);
        v
    }

    /// Puts `val` in at `idx`.
    fn insert(&mut self, idx: usize, val: i64)
        requires
            old(self).wf(),
            idx <= old(self)@.len(),
            old(self)@.len() + 1 < usize::MAX,
            summable(old(self)@.insert(idx as int, val)),
        ensures
            final(self).wf(),
            final(self)@ == old(self)@.insert(idx as int, val),
    {
        let mut v = self.to_vec();
        v.insert(idx, val);
        *self = Self::from_vec(&v);
    }

    /// Takes the value at `idx` out.
    fn remove(&mut self, idx: usize) -> (removed: i64)
        requires
            old(self).wf(),
            idx < old(self)@.len(),
        ensures
            final(self).wf(),
            final(self)@ == old(self)@.remove(idx as int),
            removed == old(self)@[idx as int],
    {
        let mut v = self.to_vec();
        let removed: i64 = v.remove(idx);
        proof {
            lemma_prefix_remove(old(self)@, idx as int, old(self)@.len() - 1);
        }
        *self = Self::from_vec(&v);
        removed
    }

    /// A tree over the values `v`.
    fn from_vec(v: &Vec<i64>) -> (t: Self)
        requires
            summable(v@),
            v@.len() < usize::MAX,
        ensures
            t.wf(),
            t@ == v@,
    {
        let mut t = Self::new(v.len());
        let mut i: usize = 0;
        while i < v.len()
            invariant
                t.wf(),
                summable(v@),
                i <= v.len() == t@.len(),
                forall|k: int| 0 <= k < i ==> t@[k] == v@[k],
                forall|k: int| i <= k < v.len() ==> t@[k] == 0,
            decreases v.len() - i,
        {
            let x: i64 = v[i];
            proof {
                lemma_magnitude_monotone(
                    t@.update(i as int, (t@[i as int] + x) as i64),
                    v@,
                    v@.len() as int,
                );
            }
            t.add(i, x);
            i = i + 1;
        }
        assert(t@ =~= v@);
        t
    }
}

proof fn lemma_zeros(s: Seq<i64>, k: int)
    requires
        k <= s.len(),
        forall|i: int| 0 <= i < s.len() ==> s[i] == 0,
    ensures
        prefix(s, k) == 0,
        prefix_magnitude(s, k) == 0,
    decreases k,
{
    if k > 0 {
        lemma_zeros(s, k - 1);
    }
}

/// The sizes with which a file of `file_size` bytes in `count` blocks starts:
/// every block is full but the last, which holds what is left where that is
/// between nothing and a full block.
pub open spec fn initial_sizes(count: nat, block_size: int, file_size: int) -> Seq<i64> {
    Seq::new(
        count,
        |i: int|
            {
                let rest = file_size - (count - 1) * block_size;
                if i == count - 1 && 0 < rest < block_size {
                    rest as i64
                } else {
                    block_size as i64
                }
            },
    )
}

/// All blocks but the last have the block size, and the last has it too or what
/// is left of the file.
pub proof fn lemma_initial_total(count: nat, block_size: int, file_size: int)
    requires
        0 <= block_size <= i64::MAX,
    ensures
        ({
            let all = total(initial_sizes(count, block_size, file_size));
            let rest = file_size - (count - 1) * block_size;
            &&& count == 0 ==> all == 0
            &&& count > 0 ==> all == (count - 1) * block_size + (if 0 < rest < block_size {
                rest
            } else {
                block_size
            })
            &&& count > 0 ==> 0 <= (count - 1) * block_size
        }),
{
    let sizes = initial_sizes(count, block_size, file_size);
    if count > 0 {
        lemma_initial_prefix(count, block_size, file_size, count - 1);
        assert(total(sizes) == prefix(sizes, count - 1) + sizes[count - 1]);
        assert(0 <= (count - 1) * block_size) by (nonlinear_arith)
            requires
                count > 0,
                block_size >= 0,
        ;
    }
}

proof fn lemma_initial_prefix(count: nat, block_size: int, file_size: int, k: int)
    requires
        0 <= block_size <= i64::MAX,
        0 <= k < count,
    ensures
        prefix(initial_sizes(count, block_size, file_size), k) == k * block_size,
    decreases k,
{
    if k > 0 {
        lemma_initial_prefix(count, block_size, file_size, k - 1);
        assert(k * block_size == (k - 1) * block_size + block_size) by (nonlinear_arith);
    } else {
        assert(0 * block_size == 0) by (nonlinear_arith);
    }
}

/// `sizes` after the block behind `target` was joined to it.
pub open spec fn merged(sizes: Seq<i64>, target: int) -> Seq<i64> {
    sizes.remove(target + 1).update(target, (sizes[target] + sizes[target + 1]) as i64)
}

/// The last of the blocks up to `k` that starts at or before `offset`.
pub open spec fn last_start(sizes: Seq<i64>, offset: int, k: int) -> int
    decreases k,
{
    if k <= 0 {
        0
    } else if prefix(sizes, k) <= offset {
        k
    } else {
        last_start(sizes, offset, k - 1)
    }
}

/// The block that holds the byte at `offset`: the last one that starts at or
/// before it.
pub open spec fn block_at(sizes: Seq<i64>, offset: int) -> int {
    last_start(sizes, offset, sizes.len() - 1)
}

/// Where in its block the byte at `offset` is; the end of the block where the
/// block is shorter.
pub open spec fn inner_at(sizes: Seq<i64>, offset: int) -> int {
    let b = block_at(sizes, offset);
    if offset - prefix(sizes, b) < sizes[b] {
        offset - prefix(sizes, b)
    } else {
        sizes[b] as int
    }
}

proof fn lemma_located(sizes: Seq<i64>, offset: int, b: int, k: int)
    requires
        located(sizes, offset, b),
        b <= k < sizes.len(),
    ensures
        last_start(sizes, offset, k) == b,
    decreases k,
{
    if b < k {
        assert(offset < prefix(sizes, k));
        lemma_located(sizes, offset, b, k - 1);
    }
}

/// Block `b` is the last one that starts at or before `offset`.
pub open spec fn located(sizes: Seq<i64>, offset: int, b: int) -> bool {
    &&& 0 <= b < sizes.len()
    &&& b > 0 ==> prefix(sizes, b) <= offset
    &&& forall|c: int| b < c < sizes.len() ==> offset < #[trigger] prefix(sizes, c)
}

/// The block that holds the byte at `offset` is the last one that starts at or
/// before it.
pub proof fn lemma_block_at(sizes: Seq<i64>, offset: int, k: int)
    requires
        0 <= k < sizes.len(),
        offset >= 0,
        forall|c: int| k < c < sizes.len() ==> offset < #[trigger] prefix(sizes, c),
    ensures
        located(sizes, offset, last_start(sizes, offset, k)),
    decreases k,
{
    if k > 0 && prefix(sizes, k) > offset {
        lemma_block_at(sizes, offset, k - 1);
    }
}

/// The current and the original size of every block.
pub struct DeltaTable {
    tree: FenwickTree,
    block_count: u64,
    original_sizes: Vec<i64>,
}

impl DeltaTable {
    /// How many bytes each block holds now.
    pub closed spec fn sizes(&self) -> Seq<i64> {
        self.tree@
    }

    /// How many bytes each block held at first.
    pub closed spec fn originals(&self) -> Seq<i64> {
        self.original_sizes@
    }

    pub closed spec fn wf(&self) -> bool {
        &&& self.tree.wf()
        &&& self.block_count == self.tree@.len()
        &&& self.original_sizes@.len() == self.tree@.len()
        &&& summable(self.original_sizes@)
    }

    /// What every well-formed table satisfies.
    pub proof fn lemma_wf(&self)
        requires
            self.wf(),
        ensures
            self.sizes().len() == self.originals().len(),
            self.sizes().len() < usize::MAX,
            summable(self.sizes()),
            summable(self.originals()),
    {
        assert(self.tree.tree.len() == self.tree@.len() + 1);
    }

    /// How much longer the blocks are together than at first.
    pub open spec fn growth(&self) -> int {
        total(self.sizes()) - total(self.originals())
    }

    /// Every block's size is a number of bytes that memory can hold.
    pub open spec fn addressable(&self) -> bool {
        forall|i: int| 0 <= i < self.sizes().len() ==> 0 <= #[trigger] self.sizes()[i] <= usize::MAX
    }

    pub fn new(initial_block_count: u64, block_size: usize, file_size: u64) -> (table: Self)
        requires
            initial_block_count <= isize::MAX,
            block_size <= i64::MAX,
            file_size <= i64::MAX,
            total(
                initial_sizes(initial_block_count as nat, block_size as int, file_size as int),
            ) <= i64::MAX,
        ensures
            table.wf(),
            table.sizes() == initial_sizes(
                initial_block_count as nat,
                block_size as int,
                file_size as int,
            ),
            table.originals() == table.sizes(),
            table.addressable(),
    {
        let n: usize = initial_block_count as usize;
        let bs: i64 = block_size as i64;
        let mut sizes: Vec<i64> = vec![bs; n];
        let ghost model = initial_sizes(
            initial_block_count as nat,
            block_size as int,
            file_size as int,
        );
        proof {
            lemma_initial_total(
                initial_block_count as nat,
                block_size as int,
                file_size as int,
            );
        }
        if n > 0 {
            let rest: i64 = file_size as i64 - (n as i64 - 1) * bs;
            if rest > 0 && rest < bs {
                sizes[n - 1] = rest;
            }
        }
        assert(sizes@ =~= model);
        Self::from_sizes(sizes)
    }

    /// A table over blocks that have these sizes at first.
    pub fn from_sizes(sizes: Vec<i64>) -> (table: Self)
        requires
            sizes@.len() < usize::MAX,
            forall|i: int| 0 <= i < sizes@.len() ==> 0 <= #[trigger] sizes@[i] <= usize::MAX,
            total(sizes@) <= i64::MAX,
        ensures
            table.wf(),
            table.sizes() == sizes@,
            table.originals() == sizes@,
            table.addressable(),
    {
        let n: usize = sizes.len();
        proof {
            lemma_magnitude_of_nonnegative(sizes@, n as int);
        }
        let tree = FenwickTree::from_vec(&sizes);
        Self { tree, block_count: n as u64, original_sizes: sizes }
    }

    /// Notes that block `block_id` now differs by `delta` bytes from its
    /// original size.
    pub fn record_delta(&mut self, block_id: BlockId, delta: i64)
        requires
            old(self).wf(),
            block_id < old(self).sizes().len(),
            i64::MIN <= old(self).originals()[block_id as int] + delta <= i64::MAX,
            i64::MIN <= old(self).originals()[block_id as int] + delta - old(
                self,
            ).sizes()[block_id as int] <= i64::MAX,
            summable(
                old(self).sizes().update(
                    block_id as int,
                    (old(self).originals()[block_id as int] + delta) as i64,
                ),
            ),
        ensures
            final(self).wf(),
            final(self).originals() == old(self).originals(),
            final(self).sizes() == old(self).sizes().update(
                block_id as int,
                (old(self).originals()[block_id as int] + delta) as i64,
            ),
    {
        proof {
            self.lemma_wf();
        }
        let i: usize = block_id as usize;
        let new_size: i64 = self.original_sizes[i] + delta;
        let old_size: i64 = self.tree.get(i);
        let diff: i64 = new_size - old_size;
        if diff != 0 {
            self.tree.add(i, diff);
        }
        assert(self.sizes() =~= old(self).sizes().update(block_id as int, new_size));
    }

    /// Puts a new block of `initial_delta` bytes in behind block `after`.
    pub fn insert_block_after(&mut self, after: BlockId, initial_delta: i64)
        requires
            old(self).wf(),
            after < old(self).sizes().len(),
            old(self).sizes().len() + 2 < usize::MAX,
            summable(old(self).sizes().insert(after + 1, initial_delta)),
            summable(old(self).originals().insert(after + 1, initial_delta)),
        ensures
            final(self).wf(),
            final(self).sizes() == old(self).sizes().insert(after + 1, initial_delta),
            final(self).originals() == old(self).originals().insert(after + 1, initial_delta),
    {
        let at: usize = after as usize + 1;
        self.tree.insert(at, initial_delta);
        self.original_sizes.insert(at, initial_delta);
        self.block_count = self.block_count + 1;
    }

    /// Joins block `removed` to the block `target` right before it.
    pub fn merge_block(&mut self, target: BlockId, removed: BlockId)
        requires
            old(self).wf(),
            removed == target + 1,
            removed < old(self).sizes().len(),
        ensures
            final(self).wf(),
            final(self).sizes() == merged(old(self).sizes(), target as int),
            final(self).originals() == merged(old(self).originals(), target as int),
    {
        proof {
            self.lemma_wf();
            lemma_merged(self.sizes(), target as int, self.sizes().len() - 1);
            lemma_merged(self.originals(), target as int, self.sizes().len() - 1);
            lemma_run_fits(self.sizes(), target as int, target + 2);
            lemma_run_fits(self.originals(), target as int, target + 2);
            reveal_with_fuel(prefix, 3);
        }
        let t: usize = target as usize;
        let r: usize = removed as usize;
        let removed_size: i64 = self.tree.remove(r);
        let merged_orig: i64 = self.original_sizes[t] + self.original_sizes[r];
        self.original_sizes.remove(r);
        self.original_sizes[t] = merged_orig;
        self.tree.add(t, removed_size);
        self.block_count = self.block_count - 1;
    }

    /// The offset at which block `block_id` starts; the end of the file for a
    /// block behind the last.
    pub fn block_start_offset(&self, block_id: BlockId, _block_size: usize) -> (offset: u64)
        requires
            self.wf(),
        ensures
            offset == ({
                let sum = prefix(
                    self.sizes(),
                    if block_id < self.sizes().len() {
                        block_id as int
                    } else {
                        self.sizes().len() as int
                    },
                );
                if sum > 0 {
                    sum
                } else {
                    0
                }
            }),
    {
        let n: usize = self.tree.len();
        let i: usize = if block_id < n as u64 { block_id as usize } else { n };
        let sum: i64 = self.tree.prefix_sum(i);
        if sum > 0 {
            sum as u64
        } else {
            0
        }
    }

    /// By how many bytes all blocks together differ from their original sizes.
    pub fn total_delta(&self) -> (delta: i64)
        requires
            self.wf(),
            i64::MIN <= total(self.sizes()) - total(self.originals()) <= i64::MAX,
        ensures
            delta == self.growth(),
    {
        let n: usize = self.tree.len();
        let now: i64 = self.tree.prefix_sum(n);
        let mut original: i64 = 0;
        let mut i: usize = 0;
        while i < n
            invariant
                self.wf(),
                i <= n == self.original_sizes@.len(),
                original == prefix(self.originals(), i as int),
            decreases n - i,
        {
            proof {
                lemma_run_fits(self.originals(), 0, i + 1);
            }
            original = original + self.original_sizes[i];
            i = i + 1;
        }
        now - original
    }

    /// By how many bytes block `id` differs from its original size.
    pub fn block_delta(&self, id: BlockId) -> (delta: i64)
        requires
            self.wf(),
            id < self.sizes().len(),
            i64::MIN <= self.sizes()[id as int] - self.originals()[id as int] <= i64::MAX,
        ensures
            delta == self.sizes()[id as int] - self.originals()[id as int],
    {
        proof {
            self.lemma_wf();
        }
        self.tree.get(id as usize) - self.original_sizes[id as usize]
    }

    /// How many bytes block `id` holds now.
    pub fn block_size(&self, id: BlockId) -> (size: i64)
        requires
            self.wf(),
            id < self.sizes().len(),
        ensures
            size == self.sizes()[id as int],
    {
        proof {
            self.lemma_wf();
        }
        self.tree.get(id as usize)
    }

    pub fn block_count(&self) -> (n: u64)
        requires
            self.wf(),
        ensures
            n == self.sizes().len(),
    {
        self.block_count
    }

    /// The block that holds the byte at `offset`, and where in it the byte is.
    /// An offset behind the end belongs to the end of the last block.
    pub fn locate_offset(&self, offset: u64) -> (place: (BlockId, usize))
        requires
            self.wf(),
            self.addressable(),
        ensures
            self.sizes().len() == 0 ==> place == (0u64, 0usize),
            self.sizes().len() > 0 ==> {
                &&& located(self.sizes(), offset as int, place.0 as int)
                &&& place.0 == block_at(self.sizes(), offset as int)
                &&& place.1 == inner_at(self.sizes(), offset as int)
            },
    {
        let n: usize = self.tree.len();
        if n == 0 {
            return (0, 0);
        }
        let mut lo: usize = 0;
        let mut hi: usize = n;
        while hi - lo > 1
            invariant
                self.wf(),
                self.addressable(),
                lo < hi <= n == self.sizes().len(),
                prefix(self.sizes(), lo as int) <= offset,
                forall|c: int| hi <= c < n ==> offset < #[trigger] prefix(self.sizes(), c),
            decreases hi - lo,
        {
            let mid: usize = lo + (hi - lo) / 2;
            let sum: i64 = self.tree.prefix_sum(mid);
            proof {
                lemma_prefix_monotone(self.sizes(), 0, mid as int);
            }
            if sum as u64 <= offset {
                lo = mid;
            } else {
                proof {
                    assert forall|c: int| mid <= c < n implies offset < #[trigger] prefix(
                        self.sizes(),
                        c,
                    ) by {
                        lemma_prefix_monotone(self.sizes(), mid as int, c);
                    }
                }
                hi = mid;
            }
        }
        proof {
            lemma_prefix_monotone(self.sizes(), 0, lo as int);
            assert(0 <= self.sizes()[lo as int] <= usize::MAX);
            lemma_located(self.sizes(), offset as int, lo as int, n - 1);
        }
        let start: u64 = self.tree.prefix_sum(lo) as u64;
        let size: u64 = self.tree.get(lo) as u64;
        let inner: u64 = if offset - start < size { offset - start } else { size };
        (lo as u64, inner as usize)
    }
}

/// Joining two blocks moves no other block and keeps the total.
pub proof fn lemma_merged(s: Seq<i64>, target: int, k: int)
    requires
        summable(s),
        0 <= target,
        target + 1 < s.len(),
        0 <= k < s.len(),
    ensures
        prefix(merged(s, target), k) == prefix(
            s,
            if k <= target {
                k
            } else {
                k + 1
            },
        ),
        summable(merged(s, target)),
        i64::MIN <= s[target] + s[target + 1] <= i64::MAX,
{
    lemma_run_fits(s, target, target + 2);
    assert(prefix(s, target + 1) == prefix(s, target) + s[target]);
    assert(prefix(s, target + 2) == prefix(s, target + 1) + s[target + 1]);
    lemma_prefix_remove(s, target + 1, k);
    lemma_prefix_update(s.remove(target + 1), target, (s[target] + s[target + 1]) as i64, k);
    let split = s.remove(target + 1);
    let m = merged(s, target);
    lemma_merged_magnitude(s, target, s.len() - 1);
}

proof fn lemma_merged_magnitude(s: Seq<i64>, target: int, k: int)
    requires
        0 <= target,
        target + 1 < s.len(),
        0 <= k < s.len(),
        i64::MIN <= s[target] + s[target + 1] <= i64::MAX,
    ensures
        k <= target ==> prefix_magnitude(merged(s, target), k) == prefix_magnitude(s, k),
        k > target ==> prefix_magnitude(merged(s, target), k) <= prefix_magnitude(s, k + 1),
    decreases k,
{
    if k > 0 {
        lemma_merged_magnitude(s, target, k - 1);
        assert(prefix_magnitude(s, k + 1) == prefix_magnitude(s, k) + magnitude(s[k] as int));
    }
}

/// Joining neighbours keeps the size of the whole and where every other block
/// starts.
pub proof fn law_merge_keeps_offsets(s: Seq<i64>, target: int, k: int)
    requires
        summable(s),
        0 <= target,
        target + 1 < s.len(),
        0 <= k < s.len(),
    ensures
        total(merged(s, target)) == total(s),
        k <= target ==> prefix(merged(s, target), k) == prefix(s, k),
        k > target ==> prefix(merged(s, target), k) == prefix(s, k + 1),
{
    lemma_merged(s, target, k);
    lemma_merged(s, target, s.len() - 1);
}

/// A change in the size of one block moves every block behind it by that
/// much and no other block.
pub proof fn law_growth_propagates(s: Seq<i64>, i: int, size: i64, k: int)
    requires
        0 <= i < s.len(),
        0 <= k <= s.len(),
    ensures
        k <= i ==> prefix(s.update(i, size), k) == prefix(s, k),
        k > i ==> prefix(s.update(i, size), k) == prefix(s, k) + (size - s[i]),
{
    lemma_prefix_update(s, i, size, k);
}

/// A block is found again at the offset where it starts, and every byte of
/// it as many bytes further on.
pub proof fn law_locate_inverts_start(s: Seq<i64>, b: int, inner: int, found: int)
    requires
        forall|i: int| 0 <= i < s.len() ==> s[i] >= 0,
        0 <= b < s.len(),
        0 <= inner < s[b],
        located(s, prefix(s, b) + inner, found),
    ensures
        found == b,
{
    assert(prefix(s, b + 1) == prefix(s, b) + s[b]);
    if found > b {
        lemma_prefix_monotone(s, b + 1, found);
    }
}

/// Where block `k` starts in a table of these sizes, as `block_start_offset` says:
/// behind the last block for every number that is too large.
pub open spec fn start(table: DeltaTable, k: int) -> int {
    let n = table.sizes().len() as int;
    prefix(
        table.sizes(),
        if k < n {
            k
        } else {
            n
        },
    )
}

/// The blocks lie one behind the other: the first starts at the start, each one
/// where the one before it ends, and what is behind the last one starts at the
/// end, as far as the blocks were long at first and have grown since.
pub proof fn law_blocks_follow_one_another(table: DeltaTable, i: int, k: int)
    requires
        table.wf(),
        table.addressable(),
        0 <= i < table.sizes().len(),
        k >= table.sizes().len(),
    ensures
        start(table, 0) == 0,
        start(table, i + 1) == start(table, i) + table.sizes()[i],
        0 <= start(table, i) <= start(table, i + 1),
        start(table, k) == start(table, table.sizes().len() as int),
        start(table, table.sizes().len() as int) == total(table.originals()) + table.growth(),
{
    lemma_prefix_monotone(table.sizes(), i, i + 1);
}

} // verus!
