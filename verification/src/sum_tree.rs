//! A fixed-capacity binary indexed tree over priorities.
//!
//! The tree has `capacity` leaves (a power of two) holding fixed-point
//! priorities; every internal node holds the sum of its two children, so
//! the root holds the total priority mass. Logical slot `i` is stored at
//! position `i + capacity`. `update` and `sample` walk one root-to-leaf
//! path, so both are logarithmic in the capacity.

use vstd::prelude::*;

verus! {

/// Largest value a leaf may hold: together with the capacity bound this
/// keeps every node sum below `u64::MAX`.
pub const LEAF_LIMIT: u64 = 0x1_0000_0000;

/// Largest supported capacity.
pub const CAPACITY_LIMIT: usize = 0x4000_0000;

/// `n` is a power of two.
pub open spec fn is_pow_2(n: int) -> bool
    decreases n,
{
    if n <= 0 {
        false
    } else if n == 1 {
        true
    } else {
        n % 2 == 0 && is_pow_2(n / 2)
    }
}

/// Sum of `q[lo..hi]`.
pub open spec fn range_sum(q: Seq<u64>, lo: int, hi: int) -> int
    decreases hi - lo,
{
    if lo >= hi {
        0
    } else {
        q[lo] + range_sum(q, lo + 1, hi)
    }
}

/// Sum of the first `k` leaves.
pub open spec fn prefix_sum(q: Seq<u64>, k: int) -> int {
    range_sum(q, 0, k)
}

/// Sum of the leaves below node `i`, reading leaf values from the raw
/// storage sequence `s` of a tree with `cap` leaves.
pub open spec fn node_val(s: Seq<u64>, cap: int, i: int) -> int
    decreases 2 * cap - i,
    when 1 <= i && i < 2 * cap && 1 <= cap
{
    if i >= cap {
        s[i] as int
    } else {
        node_val(s, cap, 2 * i) + node_val(s, cap, 2 * i + 1)
    }
}

/// Index of the first leaf below node `i`.
pub open spec fn node_lo(cap: int, i: int) -> int
    decreases 2 * cap - i,
    when 1 <= i && i < 2 * cap && 1 <= cap
{
    if i >= cap {
        i - cap
    } else {
        node_lo(cap, 2 * i)
    }
}

/// One past the index of the last leaf below node `i`.
pub open spec fn node_hi(cap: int, i: int) -> int
    decreases 2 * cap - i,
    when 1 <= i && i < 2 * cap && 1 <= cap
{
    if i >= cap {
        i - cap + 1
    } else {
        node_hi(cap, 2 * i + 1)
    }
}

/// `node` lies in the subtree rooted at `anc`.
pub open spec fn in_subtree(anc: int, node: int) -> bool
    decreases node,
    when 1 <= anc && 1 <= node
{
    node == anc || (node > anc && in_subtree(anc, node / 2))
}

/// Splitting a range sum at any midpoint.
pub proof fn lemma_range_sum_split(q: Seq<u64>, lo: int, mid: int, hi: int)
    requires
        lo <= mid <= hi,
    ensures
        range_sum(q, lo, hi) == range_sum(q, lo, mid) + range_sum(q, mid, hi),
    decreases mid - lo,
{
    if lo < mid {
        lemma_range_sum_split(q, lo + 1, mid, hi);
    }
}

/// A range sum of values bounded by `b` is at most `b` per element.
pub proof fn lemma_range_sum_upper(q: Seq<u64>, lo: int, hi: int, b: u64)
    requires
        0 <= lo <= hi <= q.len(),
        forall|m: int| lo <= m < hi ==> (#[trigger] q[m]) <= b,
    ensures
        range_sum(q, lo, hi) <= (hi - lo) * (b as int),
    decreases hi - lo,
{
    if lo < hi {
        lemma_range_sum_upper(q, lo + 1, hi, b);
        assert((hi - lo) * (b as int) == b as int + (hi - lo - 1) * (b as int)) by (nonlinear_arith);
    } else {
        assert((hi - lo) * (b as int) == 0) by (nonlinear_arith)
            requires
                hi == lo,
        ;
    }
}

/// A range sum of values that are each at least `b` is at least `b` per
/// element.
pub proof fn lemma_range_sum_lower(q: Seq<u64>, lo: int, hi: int, b: u64)
    requires
        0 <= lo <= hi <= q.len(),
        forall|m: int| lo <= m < hi ==> (#[trigger] q[m]) >= b,
    ensures
        range_sum(q, lo, hi) >= (hi - lo) * (b as int),
    decreases hi - lo,
{
    if lo < hi {
        lemma_range_sum_lower(q, lo + 1, hi, b);
        assert((hi - lo) * (b as int) == b as int + (hi - lo - 1) * (b as int)) by (nonlinear_arith);
    } else {
        assert((hi - lo) * (b as int) == 0) by (nonlinear_arith)
            requires
                hi == lo,
        ;
    }
}

/// Doubling a smaller power of two cannot overshoot a larger one.
pub proof fn lemma_pow2_double_le(i: int, cap: int)
    requires
        is_pow_2(i),
        is_pow_2(cap),
        i < cap,
    ensures
        2 * i <= cap,
    decreases i,
{
    if i == 1 {
        assert(cap % 2 == 0);
    } else {
        assert(cap > i >= 2);
        lemma_pow2_double_le(i / 2, cap / 2);
    }
}

/// Consecutive same-depth nodes cover consecutive leaf ranges: where
/// `j + 1` is not a power of two (so `j` and `j + 1` sit at one depth),
/// the leaves below `j` end exactly where those below `j + 1` begin.
pub proof fn lemma_adjacent(cap: int, j: int)
    requires
        1 <= cap,
        is_pow_2(cap),
        1 <= j,
        j + 1 < 2 * cap,
        !is_pow_2(j + 1),
    ensures
        node_hi(cap, j) == node_lo(cap, j + 1),
    decreases 2 * cap - j,
{
    if j >= cap {
        assert(node_hi(cap, j) == j - cap + 1);
        assert(node_lo(cap, j + 1) == j + 1 - cap);
    } else {
        if j + 1 == cap {
            assert(false);
        }
        assert(j + 1 < cap);
        assert(!is_pow_2(2 * (j + 1))) by {
            if is_pow_2(2 * (j + 1)) {
                assert((2 * (j + 1)) % 2 == 0);
                assert((2 * (j + 1)) / 2 == j + 1);
            }
        }
        lemma_adjacent(cap, 2 * j + 1);
        assert(node_hi(cap, j) == node_hi(cap, 2 * j + 1));
        assert(node_lo(cap, j + 1) == node_lo(cap, 2 * (j + 1)));
    }
}

/// Nodes on the leftmost spine cover leaves starting at slot zero.
pub proof fn lemma_leftmost(cap: int, i: int)
    requires
        1 <= cap,
        is_pow_2(cap),
        is_pow_2(i),
        i <= cap,
    ensures
        node_lo(cap, i) == 0,
    decreases 2 * cap - i,
{
    if i < cap {
        lemma_pow2_double_le(i, cap);
        assert(is_pow_2(2 * i)) by {
            assert((2 * i) % 2 == 0);
            assert((2 * i) / 2 == i);
        }
        lemma_leftmost(cap, 2 * i);
    }
}

/// Nodes on the rightmost spine cover leaves ending at the capacity.
pub proof fn lemma_rightmost(cap: int, i: int)
    requires
        1 <= cap,
        is_pow_2(cap),
        is_pow_2(i + 1),
        1 <= i < 2 * cap,
    ensures
        node_hi(cap, i) == cap,
    decreases 2 * cap - i,
{
    if i >= cap {
        assert(is_pow_2(2 * cap)) by {
            assert((2 * cap) % 2 == 0);
            assert((2 * cap) / 2 == cap);
        }
        if i + 1 < 2 * cap {
            lemma_pow2_double_le(i + 1, 2 * cap);
            assert(false);
        }
        assert(i + 1 == 2 * cap);
    } else {
        assert(is_pow_2(2 * i + 2)) by {
            assert((2 * i + 2) % 2 == 0);
            assert((2 * i + 2) / 2 == i + 1);
        }
        lemma_rightmost(cap, 2 * i + 1);
    }
}

/// The geometry of a node: its leaf range is a nonempty subrange of the
/// leaves, and its value is the sum of that subrange.
pub proof fn lemma_node_range(s: Seq<u64>, cap: int, i: int)
    requires
        1 <= cap,
        is_pow_2(cap),
        s.len() == 2 * cap,
        1 <= i < 2 * cap,
    ensures
        0 <= node_lo(cap, i) < node_hi(cap, i) <= cap,
        node_val(s, cap, i) == range_sum(s.subrange(cap, 2 * cap), node_lo(cap, i), node_hi(cap, i)),
    decreases 2 * cap - i,
{
    let leaves = s.subrange(cap, 2 * cap);
    if i >= cap {
        assert(leaves[i - cap] == s[i]);
        assert(range_sum(leaves, i - cap, i - cap + 1) == s[i] + range_sum(
            leaves,
            i - cap + 1,
            i - cap + 1,
        ));
    } else {
        lemma_node_range(s, cap, 2 * i);
        lemma_node_range(s, cap, 2 * i + 1);
        assert(!is_pow_2(2 * i + 1)) by {
            assert((2 * i + 1) % 2 != 0);
        }
        lemma_adjacent(cap, 2 * i);
        lemma_range_sum_split(leaves, node_lo(cap, 2 * i), node_hi(cap, 2 * i), node_hi(cap, 2 * i + 1));
    }
}

/// Wherever the child-sum equations hold throughout the subtree of `i`,
/// the stored value at `i` is the sum of the leaves below it.
pub proof fn lemma_subtree_correct(s: Seq<u64>, cap: int, i: int)
    requires
        1 <= cap,
        s.len() == 2 * cap,
        1 <= i < 2 * cap,
        forall|k: int|
            1 <= k < cap && in_subtree(i, k) ==> (#[trigger] s[k]) as int == s[2 * k] + s[2 * k
                + 1],
    ensures
        s[i] as int == node_val(s, cap, i),
    decreases 2 * cap - i,
{
    if i < cap {
        assert(in_subtree(i, i));
        assert forall|k: int| 1 <= k < cap && in_subtree(2 * i, k) implies (#[trigger] s[k]) as int
            == s[2 * k] + s[2 * k + 1] by {
            lemma_subtree_up(2 * i, i, k);
        }
        assert forall|k: int|
            1 <= k < cap && in_subtree(2 * i + 1, k) implies (#[trigger] s[k]) as int == s[2 * k]
            + s[2 * k + 1] by {
            lemma_subtree_up(2 * i + 1, i, k);
        }
        lemma_subtree_correct(s, cap, 2 * i);
        lemma_subtree_correct(s, cap, 2 * i + 1);
    }
}

/// Membership in a child's subtree implies membership in the parent's.
pub proof fn lemma_subtree_up(child: int, parent: int, k: int)
    requires
        1 <= parent,
        child == 2 * parent || child == 2 * parent + 1,
        1 <= k,
        in_subtree(child, k),
    ensures
        in_subtree(parent, k),
    decreases k,
{
    if k == child {
        assert(k / 2 == parent);
        assert(in_subtree(parent, parent));
    } else {
        lemma_subtree_up(child, parent, k / 2);
    }
}

/// An ancestor's parent is still an ancestor.
pub proof fn lemma_ancestor_parent(anc: int, node: int)
    requires
        2 <= anc,
        1 <= node,
        in_subtree(anc, node),
    ensures
        in_subtree(anc / 2, node),
    decreases node,
{
    if node == anc {
        assert(in_subtree(anc / 2, anc / 2));
    } else {
        lemma_ancestor_parent(anc, node / 2);
    }
}

/// A fixed-capacity tree of fixed-point priorities in which every
/// internal node holds the sum of its children.
pub struct SumTree {
    capacity: usize,
    storage: Vec<u64>,
    last_index: usize,
}

impl View for SumTree {
    type V = Seq<u64>;

    /// The sequence of leaf values, indexed by logical slot.
    closed spec fn view(&self) -> Seq<u64> {
        self.storage@.subrange(self.capacity as int, 2 * self.capacity as int)
    }
}

impl SumTree {
    /// Number of leaves.
    pub closed spec fn capacity_spec(&self) -> int {
        self.capacity as int
    }

    /// Highest slot ever written.
    pub closed spec fn last_index_spec(&self) -> int {
        self.last_index as int
    }

    /// Total priority mass: the sum of all leaves.
    pub open spec fn total_spec(&self) -> int {
        range_sum(self@, 0, self.capacity_spec())
    }

    /// Structural well-formedness: power-of-two capacity, bounded leaves,
    /// correct child sums, and zeroes beyond the highest written slot.
    pub closed spec fn wf(&self) -> bool {
        &&& 1 <= self.capacity <= CAPACITY_LIMIT
        &&& is_pow_2(self.capacity as int)
        &&& self.storage@.len() == 2 * self.capacity
        &&& self.last_index < self.capacity
        &&& forall|m: int| 0 <= m < self.capacity ==> (#[trigger] self@[m]) <= LEAF_LIMIT
        &&& forall|m: int|
            self.last_index < m < self.capacity ==> (#[trigger] self@[m]) == 0
        &&& forall|k: int|
            1 <= k < self.capacity ==> (#[trigger] self.storage@[k]) as int == self.storage@[2 * k]
                + self.storage@[2 * k + 1]
    }

    /// Facts every well-formed tree provides to its callers: the leaf view
    /// has one entry per slot, the capacity is a bounded power of two, and
    /// leaves are bounded, with zeroes beyond the highest written slot.
    pub proof fn lemma_wf_facts(&self)
        requires
            self.wf(),
        ensures
            self@.len() == self.capacity_spec(),
            1 <= self.capacity_spec() <= CAPACITY_LIMIT as int,
            is_pow_2(self.capacity_spec()),
            0 <= self.last_index_spec() < self.capacity_spec(),
            forall|m: int|
                0 <= m < self.capacity_spec() ==> (#[trigger] self@[m]) <= LEAF_LIMIT,
            forall|m: int|
                self.last_index_spec() < m < self.capacity_spec() ==> (#[trigger] self@[m]) == 0,
    {
    }

    /// Every node value is bounded by the total leaf budget.
    proof fn lemma_node_bounded(&self, i: int)
        requires
            self.wf(),
            1 <= i < 2 * self.capacity,
        ensures
            0 <= node_val(self.storage@, self.capacity as int, i) <= (self.capacity as int) * (
            LEAF_LIMIT as int),
            self.storage@[i] as int == node_val(self.storage@, self.capacity as int, i),
    {
        let cap = self.capacity as int;
        lemma_node_range(self.storage@, cap, i);
        let lo = node_lo(cap, i);
        let hi = node_hi(cap, i);
        assert(self.storage@.subrange(cap, 2 * cap) == self@);
        lemma_range_sum_upper(self@, lo, hi, LEAF_LIMIT);
        lemma_range_sum_lower(self@, lo, hi, 0);
        assert((hi - lo) * (LEAF_LIMIT as int) <= cap * (LEAF_LIMIT as int)) by (nonlinear_arith)
            requires
                hi - lo <= cap,
                LEAF_LIMIT > 0,
        ;
        assert((hi - lo) * 0 == 0) by (nonlinear_arith);
        assert forall|k: int|
            1 <= k < cap && in_subtree(i, k) implies (#[trigger] self.storage@[k]) as int
            == self.storage@[2 * k] + self.storage@[2 * k + 1] by {}
        lemma_subtree_correct(self.storage@, cap, i);
    }

    /// Builds a tree of the given power-of-two capacity with every leaf
    /// zero.
    pub fn with_capacity(capacity: usize) -> (tree: SumTree)
        requires
            is_pow_2(capacity as int),
            capacity <= CAPACITY_LIMIT,
        ensures
            tree.wf(),
            tree.capacity_spec() == capacity,
            tree.last_index_spec() == 0,
            tree@.len() == capacity,
            forall|m: int| 0 <= m < capacity ==> (#[trigger] tree@[m]) == 0,
    {
        let mut storage: Vec<u64> = Vec::new();
        let mut n: usize = 0;
        while n < 2 * capacity
            invariant
                capacity <= CAPACITY_LIMIT,
                n == storage@.len(),
                n <= 2 * capacity,
                forall|m: int| 0 <= m < n ==> (#[trigger] storage@[m]) == 0,
            decreases 2 * capacity - n,
        {
            storage.push(0);
            n = n + 1;
        }
        SumTree { capacity, storage, last_index: 0 }
    }

    /// The total priority mass, read from the root in constant time.
    pub fn total(&self) -> (t: u64)
        requires
            self.wf(),
        ensures
            t as int == self.total_spec(),
            t as int <= self.capacity_spec() * (LEAF_LIMIT as int),
    {
        proof {
            self.lemma_node_bounded(1);
            let cap = self.capacity as int;
            lemma_node_range(self.storage@, cap, 1);
            assert(is_pow_2(2)) by {
                assert(is_pow_2(1));
            }
            lemma_leftmost(cap, 1);
            lemma_rightmost(cap, 1);
            assert(self.storage@.subrange(cap, 2 * cap) == self@);
        }
        self.storage[1]
    }

    /// Writes `value` into slot `index` and recomputes each ancestor as
    /// the sum of its children, walking up to the root.
    pub fn update(&mut self, index: usize, value: u64)
        requires
            old(self).wf(),
            index < old(self).capacity_spec(),
            value <= LEAF_LIMIT,
        ensures
            final(self).wf(),
            final(self)@ == old(self)@.update(index as int, value),
            final(self).capacity_spec() == old(self).capacity_spec(),
            final(self).last_index_spec() == if index as int > old(self).last_index_spec() {
                index as int
            } else {
                old(self).last_index_spec()
            },
    {
        let ghost cap = self.capacity as int;
        let leaf: usize = index + self.capacity;
        if index > self.last_index {
            self.last_index = index;
        }
        self.storage.set(leaf, value);
        proof {
            assert(self@ =~= old(self)@.update(index as int, value));
        }
        let ghost target = self@;
        let mut j: usize = leaf / 2;
        proof {
            if j >= 1 {
                assert(in_subtree(j as int, j as int));
                assert(in_subtree(j as int, leaf as int));
            }
        }
        while j >= 1
            invariant
                self.capacity == old(self).capacity,
                self.storage@.len() == 2 * cap,
                cap == self.capacity as int,
                1 <= cap <= CAPACITY_LIMIT,
                is_pow_2(cap),
                self.last_index < self.capacity,
                self.last_index as int == if index as int > old(self).last_index_spec() {
                    index as int
                } else {
                    old(self).last_index_spec()
                },
                j < cap,
                leaf == index + cap,
                index < cap,
                self@ == target,
                j >= 1 ==> in_subtree(j as int, leaf as int),
                forall|m: int| 0 <= m < cap ==> (#[trigger] self@[m]) <= LEAF_LIMIT,
                forall|m: int|
                    self.last_index < m < cap ==> (#[trigger] self@[m]) == 0,
                forall|k: int|
                    1 <= k < cap ==> ((#[trigger] self.storage@[k]) as int == self.storage@[2 * k]
                        + self.storage@[2 * k + 1] || (in_subtree(k, leaf as int) && k <= j)),
            decreases j,
        {
            proof {
                assert forall|k: int|
                    1 <= k < cap && in_subtree(2 * j as int, k) implies (
                #[trigger] self.storage@[k]) as int == self.storage@[2 * k] + self.storage@[2 * k
                    + 1] by {
                    if in_subtree(k, leaf as int) && k <= j {
                        lemma_subtree_low(2 * j as int, k);
                    }
                }
                assert forall|k: int|
                    1 <= k < cap && in_subtree(2 * j as int + 1, k) implies (
                #[trigger] self.storage@[k]) as int == self.storage@[2 * k] + self.storage@[2 * k
                    + 1] by {
                    if in_subtree(k, leaf as int) && k <= j {
                        lemma_subtree_low(2 * j as int + 1, k);
                    }
                }
                lemma_subtree_correct(self.storage@, cap, 2 * j as int);
                lemma_subtree_correct(self.storage@, cap, 2 * j as int + 1);
                lemma_node_range(self.storage@, cap, 2 * j as int);
                lemma_node_range(self.storage@, cap, 2 * j as int + 1);
                assert(self.storage@.subrange(cap, 2 * cap) =~= self@);
                lemma_range_sum_upper(self@, node_lo(cap, 2 * j as int), node_hi(cap, 2 * j as int), LEAF_LIMIT);
                lemma_range_sum_lower(self@, node_lo(cap, 2 * j as int), node_hi(cap, 2 * j as int), 0);
                lemma_range_sum_upper(
                    self@,
                    node_lo(cap, 2 * j as int + 1),
                    node_hi(cap, 2 * j as int + 1),
                    LEAF_LIMIT,
                );
                lemma_range_sum_lower(
                    self@,
                    node_lo(cap, 2 * j as int + 1),
                    node_hi(cap, 2 * j as int + 1),
                    0,
                );
                assert(!is_pow_2(2 * j as int + 1)) by {
                    assert((2 * j as int + 1) % 2 != 0);
                }
                lemma_adjacent(cap, 2 * j as int);
                assert(node_hi(cap, 2 * j as int + 1) - node_lo(cap, 2 * j as int) <= cap);
                let w1 = node_hi(cap, 2 * j as int) - node_lo(cap, 2 * j as int);
                let w2 = node_hi(cap, 2 * j as int + 1) - node_lo(cap, 2 * j as int + 1);
                assert(w1 * (LEAF_LIMIT as int) + w2 * (LEAF_LIMIT as int) == (w1 + w2) * (
                LEAF_LIMIT as int)) by (nonlinear_arith);
                assert((w1 + w2) * (LEAF_LIMIT as int) <= cap * (LEAF_LIMIT as int))
                    by (nonlinear_arith)
                    requires
                        w1 + w2 <= cap,
                        LEAF_LIMIT > 0,
                ;
                assert(cap * (LEAF_LIMIT as int) <= 0x4000_0000 * (LEAF_LIMIT as int))
                    by (nonlinear_arith)
                    requires
                        cap <= 0x4000_0000,
                        LEAF_LIMIT > 0,
                ;
                assert(w1 * (LEAF_LIMIT as int) >= 0) by (nonlinear_arith)
                    requires
                        w1 >= 0,
                        LEAF_LIMIT > 0,
                ;
                assert(w2 * (LEAF_LIMIT as int) >= 0) by (nonlinear_arith)
                    requires
                        w2 >= 0,
                        LEAF_LIMIT > 0,
                ;
            }
            let left = self.storage[2 * j];
            let right = self.storage[2 * j + 1];
            let ghost pre = self.storage@;
            self.storage.set(j, left + right);
            proof {
                assert(self@ =~= target);
                if j as int / 2 >= 1 {
                    lemma_ancestor_parent(j as int, leaf as int);
                }
                assert forall|k: int|
                    1 <= k < cap implies ((#[trigger] self.storage@[k]) as int == self.storage@[2
                    * k] + self.storage@[2 * k + 1] || (in_subtree(k, leaf as int) && k <= j as int
                    / 2)) by {
                    if k == j as int {
                        assert(self.storage@[k] == left + right);
                    } else if 2 * k == j as int || 2 * k + 1 == j as int {
                        assert(k == j as int / 2);
                        assert(in_subtree(k, leaf as int));
                    } else {
                        assert(self.storage@[k] == pre[k]);
                        assert(self.storage@[2 * k] == pre[2 * k]);
                        assert(self.storage@[2 * k + 1] == pre[2 * k + 1]);
                        if in_subtree(k, leaf as int) && k < j {
                            lemma_ancestor_nested(k, j as int, leaf as int);
                        }
                    }
                }
            }
            j = j / 2;
        }
        proof {
            assert(self@ =~= old(self)@.update(index as int, value));
        }
    }

    /// Returns the slot selected by descending from the root with the
    /// given value, together with that slot's priority.
    pub fn sample(&self, value: u64) -> (r: (usize, u64))
        requires
            self.wf(),
            (value as int) < self.total_spec(),
        ensures
            r.0 < self.capacity_spec(),
            r.0 <= self.last_index_spec(),
            prefix_sum(self@, r.0 as int) <= value as int,
            (value as int) < prefix_sum(self@, r.0 as int + 1),
            r.1 == self@[r.0 as int],
    {
        let index = self.sample_index(value);
        (index, self.storage[index + self.capacity])
    }

    /// Descends from the root: at each internal node, go left when the
    /// remaining value falls inside the left child's mass, otherwise
    /// subtract that mass and go right. The returned slot is clamped to
    /// the highest slot ever written.
    pub fn sample_index(&self, value: u64) -> (idx: usize)
        requires
            self.wf(),
            (value as int) < self.total_spec(),
        ensures
            idx < self.capacity_spec(),
            idx <= self.last_index_spec(),
            prefix_sum(self@, idx as int) <= value as int,
            (value as int) < prefix_sum(self@, idx as int + 1),
    {
        let ghost cap = self.capacity as int;
        let mut i: usize = 1;
        let mut v: u64 = value;
        proof {
            assert(is_pow_2(2)) by {
                assert(is_pow_2(1));
            }
            lemma_leftmost(cap, 1);
            lemma_rightmost(cap, 1);
            self.lemma_node_bounded(1);
            lemma_node_range(self.storage@, cap, 1);
            assert(self.storage@.subrange(cap, 2 * cap) =~= self@);
        }
        while i < self.capacity
            invariant
                self.wf(),
                cap == self.capacity as int,
                1 <= i < 2 * cap,
                v as int == value - prefix_sum(self@, node_lo(cap, i as int)),
                (value as int) < prefix_sum(self@, node_lo(cap, i as int)) + node_val(
                    self.storage@,
                    cap,
                    i as int,
                ),
                0 <= node_lo(cap, i as int),
                node_hi(cap, i as int) <= cap,
            decreases 2 * cap - i,
        {
            proof {
                self.lemma_node_bounded(2 * i as int);
                self.lemma_node_bounded(2 * i as int + 1);
                lemma_node_range(self.storage@, cap, 2 * i as int);
                lemma_node_range(self.storage@, cap, 2 * i as int + 1);
                assert(!is_pow_2(2 * i as int + 1)) by {
                    assert((2 * i as int + 1) % 2 != 0);
                }
                lemma_adjacent(cap, 2 * i as int);
                assert(self.storage@.subrange(cap, 2 * cap) =~= self@);
                lemma_range_sum_split(
                    self@,
                    0,
                    node_lo(cap, 2 * i as int),
                    node_hi(cap, 2 * i as int),
                );
            }
            let left = self.storage[2 * i];
            if v < left {
                i = 2 * i;
            } else {
                v = v - left;
                i = 2 * i + 1;
            }
        }
        proof {
            self.lemma_node_bounded(i as int);
            assert(node_lo(cap, i as int) == i - cap);
            assert(node_val(self.storage@, cap, i as int) == self.storage@[i as int]);
            assert(self@[i - cap as int] == self.storage@[i as int]);
            lemma_range_sum_split(self@, 0, i - cap as int, i - cap as int + 1);
            assert(range_sum(self@, i - cap as int, i - cap as int + 1) == self@[i - cap as int]
                + range_sum(self@, i - cap as int + 1, i - cap as int + 1));
            assert(self@[i - cap as int] > 0);
        }
        let idx = i - self.capacity;
        if idx > self.last_index {
            proof {
                assert(self@[idx as int] == 0);
                assert(false);
            }
            self.last_index
        } else {
            idx
        }
    }
}

/// Writing one slot moves the sum of the leaves by exactly the change in
/// that slot: iterated over any sequence of writes, the total is the sum
/// of the latest value written to each slot.
pub proof fn lemma_sum_after_update(q: Seq<u64>, i: int, v: u64)
    requires
        0 <= i < q.len(),
    ensures
        range_sum(q.update(i, v), 0, q.len() as int) == range_sum(q, 0, q.len() as int) - q[i]
            + v,
{
    let n = q.len() as int;
    let q2 = q.update(i, v);
    lemma_range_sum_split(q, 0, i, n);
    lemma_range_sum_split(q, i, i + 1, n);
    lemma_range_sum_split(q2, 0, i, n);
    lemma_range_sum_split(q2, i, i + 1, n);
    lemma_range_sum_same(q, q2, 0, i);
    lemma_range_sum_same(q, q2, i + 1, n);
    assert(range_sum(q, i, i + 1) == q[i] + range_sum(q, i + 1, i + 1));
    assert(range_sum(q2, i, i + 1) == q2[i] + range_sum(q2, i + 1, i + 1));
}

/// A range sum reads only the range: sequences that agree there sum the
/// same.
proof fn lemma_range_sum_same(q1: Seq<u64>, q2: Seq<u64>, lo: int, hi: int)
    requires
        forall|m: int| lo <= m < hi ==> #[trigger] q1[m] == q2[m],
    ensures
        range_sum(q1, lo, hi) == range_sum(q2, lo, hi),
    decreases hi - lo,
{
    if lo < hi {
        lemma_range_sum_same(q1, q2, lo + 1, hi);
    }
}

/// A node strictly below `low`'s level cannot be an ancestor of anything
/// in `low`'s subtree: members of the subtree of `child` are at least
/// `child`.
pub proof fn lemma_subtree_low(child: int, k: int)
    requires
        1 <= k,
        1 <= child,
        in_subtree(child, k),
    ensures
        k >= child,
    decreases k,
{
    if k != child {
        lemma_subtree_low(child, k / 2);
    }
}

/// Two ancestors of one node are nested: the smaller one is an ancestor
/// of the larger one's parent.
pub proof fn lemma_ancestor_nested(k: int, j: int, leaf: int)
    requires
        1 <= k < j,
        1 <= leaf,
        in_subtree(k, leaf),
        in_subtree(j, leaf),
    ensures
        k <= j / 2,
    decreases leaf,
{
    if leaf == j {
        assert(in_subtree(k, j / 2));
        lemma_subtree_low(k, j / 2);
    } else {
        assert(leaf > j);
        assert(in_subtree(j, leaf / 2));
        assert(leaf > k);
        assert(in_subtree(k, leaf / 2));
        lemma_ancestor_nested(k, j, leaf / 2);
    }
}

} // verus!
