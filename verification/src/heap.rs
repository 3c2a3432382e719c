//! The heap engine: a binary min-heap kept in a dense, zero-indexed vector.
//!
//! Node `i`'s children sit at `2i + 1` and `2i + 2`, its parent at
//! `(i - 1) / 2`. The engine restores the heap invariant after an append by
//! sifting the new element up, and after removing the root by sinking the
//! promoted last element down. Comparisons are strict, so equal scores never
//! trigger a swap.

use vstd::prelude::*;

verus! {

broadcast use vstd::seq_lib::group_to_multiset_ensures;

/// Index of the parent of node `i` (meaningful for `i >= 1`).
pub open spec fn parent_index(i: int) -> int {
    (i - 1) / 2
}

/// The min-heap property: every node other than the root scores at least its
/// parent, hence at least every ancestor.
pub open spec fn is_min_heap(s: Seq<i64>) -> bool {
    forall|i: int| 1 <= i < s.len() ==> s[parent_index(i)] <= #[trigger] s[i]
}

/// What a heap with contents `s` reports as its minimum: the root, if any.
pub open spec fn spec_peek(s: Seq<i64>) -> Option<i64> {
    if s.len() == 0 {
        None
    } else {
        Some(s[0])
    }
}

/// The heap property, weakened at one node on the way up: every parent edge
/// holds except possibly the one from `j` to its own parent, and `j`'s
/// children score at least `j`'s parent, so that swapping `j` with its parent
/// cannot break the edges below.
pub open spec fn heap_except_up(s: Seq<i64>, j: int) -> bool {
    &&& forall|i: int| 1 <= i < s.len() && i != j ==> s[parent_index(i)] <= #[trigger] s[i]
    &&& forall|i: int|
        1 <= i < s.len() && parent_index(i) == j && j >= 1 ==> s[parent_index(j)] <= #[trigger] s[i]
}

/// The heap property, weakened at one node on the way down: every parent edge
/// holds except possibly those from `j` down to its children, and `j`'s
/// children score at least `j`'s parent, so that swapping `j` with a child
/// cannot break the edge above.
pub open spec fn heap_except_down(s: Seq<i64>, j: int) -> bool {
    &&& forall|i: int|
        1 <= i < s.len() && parent_index(i) != j ==> s[parent_index(i)] <= #[trigger] s[i]
    &&& forall|i: int|
        1 <= i < s.len() && parent_index(i) == j && j >= 1 ==> s[parent_index(j)] <= #[trigger] s[i]
}

/// In a well-formed heap the root scores no more than any node.
pub proof fn lemma_root_is_min(s: Seq<i64>)
    requires
        is_min_heap(s),
    ensures
        forall|i: int| 0 <= i < s.len() ==> s[0] <= #[trigger] s[i],
{
    assert forall|i: int| 0 <= i < s.len() implies s[0] <= #[trigger] s[i] by {
        lemma_root_le(s, i);
    }
}

/// The root scores no more than the node at `i`, by walking `i`'s ancestors.
pub proof fn lemma_root_le(s: Seq<i64>, i: int)
    requires
        is_min_heap(s),
        0 <= i < s.len(),
    ensures
        s[0] <= s[i],
    decreases i,
{
    if i > 0 {
        assert(0 <= parent_index(i) < i);
        lemma_root_le(s, parent_index(i));
    }
}

/// Min-extraction order: once the root `r1` of a well-formed heap is removed,
/// every score still present — in particular whatever a later `pop` returns —
/// is at least `r1`. Popping repeatedly therefore yields scores in
/// non-decreasing order.
pub proof fn lemma_min_extraction_order(pre: Seq<i64>, post: Seq<i64>, r1: i64, r2: i64)
    requires
        is_min_heap(pre),
        pre.len() > 0,
        r1 == pre[0],
        post.to_multiset() == pre.to_multiset().remove(r1),
        post.to_multiset().contains(r2),
    ensures
        r1 <= r2,
{
    broadcast use vstd::multiset::group_multiset_axioms;

    if r2 == r1 {
    } else {
        assert(pre.to_multiset().count(r2) > 0);
        assert(pre.contains(r2));
        let i = choose|i: int| 0 <= i < pre.len() && pre[i] == r2;
        lemma_root_le(pre, i);
    }
}

/// One caller-visible mutation of a heap.
pub enum HeapOp {
    Push(i64),
    Pop,
}

/// Number of pushes among `ops`.
pub open spec fn count_pushes(ops: Seq<HeapOp>) -> int
    decreases ops.len(),
{
    if ops.len() == 0 {
        0
    } else {
        count_pushes(ops.drop_last()) + if ops.last() is Push {
            1int
        } else {
            0int
        }
    }
}

/// Number of pops among `ops`.
pub open spec fn count_pops(ops: Seq<HeapOp>) -> int
    decreases ops.len(),
{
    if ops.len() == 0 {
        0
    } else {
        count_pops(ops.drop_last()) + if ops.last() is Pop {
            1int
        } else {
            0int
        }
    }
}

/// The element count after driving an initially empty heap through `ops`,
/// stepping as the length clauses of `push` and `pop` state: a push adds one
/// element, a pop removes one unless there is none to remove.
pub open spec fn size_after(ops: Seq<HeapOp>) -> int
    decreases ops.len(),
{
    if ops.len() == 0 {
        0
    } else {
        let rest = size_after(ops.drop_last());
        match ops.last() {
            HeapOp::Push(_) => rest + 1,
            HeapOp::Pop => if rest == 0 {
                0
            } else {
                rest - 1
            },
        }
    }
}

/// Size consistency: after `n` pushes and `m` pops, none of which found the
/// heap empty, exactly `n - m` elements remain.
pub proof fn lemma_size_consistency(ops: Seq<HeapOp>)
    requires
        forall|k: int|
            0 <= k < ops.len() && ops[k] is Pop ==> size_after(#[trigger] ops.take(k)) > 0,
    ensures
        size_after(ops) == count_pushes(ops) - count_pops(ops),
        count_pops(ops) <= count_pushes(ops),
    decreases ops.len(),
{
    if ops.len() > 0 {
        let prefix = ops.drop_last();
        assert(prefix =~= ops.take(ops.len() - 1));
        assert forall|k: int|
            0 <= k < prefix.len() && prefix[k] is Pop implies size_after(
            #[trigger] prefix.take(k),
        ) > 0 by {
            assert(prefix.take(k) =~= ops.take(k));
        }
        lemma_size_consistency(prefix);
        if ops.last() is Pop {
            assert(size_after(prefix) > 0);
        }
    }
}

/// A binary min-heap of `i64` scores: the smallest score sits at the root.
pub struct BinaryHeap {
    data: Vec<i64>,
}

impl View for BinaryHeap {
    type V = Seq<i64>;

    closed spec fn view(&self) -> Seq<i64> {
        self.data@
    }
}

impl BinaryHeap {
    /// The heap invariant, which `new` establishes and `push`/`pop` preserve.
    pub open spec fn wf(&self) -> bool {
        is_min_heap(self@)
    }

    /// An empty heap, with room reserved for typical small workloads.
    pub fn new() -> (h: BinaryHeap)
        ensures
            h@ == Seq::<i64>::empty(),
            h.wf(),
    {
        BinaryHeap { data: Vec::with_capacity(10) }
    }

    /// The current element count.
    pub fn size(&self) -> (n: usize)
        ensures
            n == self@.len(),
    {
        self.data.len()
    }

    /// The minimum score without removing it, or nothing when empty.
    pub fn peek(&self) -> (r: Option<i64>)
        ensures
            r == spec_peek(self@),
            self.wf() ==> forall|i: int| 0 <= i < self@.len() ==> self@[0] <= #[trigger] self@[i],
    {
        proof {
            if self.wf() {
                lemma_root_is_min(self@);
            }
        }
        if self.data.len() == 0 {
            None
        } else {
            Some(self.data[0])
        }
    }

    /// Appends `v`, then restores the heap invariant by sifting it up.
    pub fn push(&mut self, v: i64)
        requires
            old(self).wf(),
        ensures
            final(self).wf(),
            final(self)@.len() == old(self)@.len() + 1,
            final(self)@.to_multiset() == old(self)@.to_multiset().insert(v),
    {
        self.data.push(v);
        let n = self.data.len() - 1;
        proof {
            assert(self@ == old(self)@.push(v));
            assert forall|i: int| 1 <= i < self@.len() && i != n implies self@[parent_index(i)]
                <= #[trigger] self@[i] by {
                assert(old(self)@[parent_index(i)] <= old(self)@[i]);
            }
            assert forall|i: int|
                1 <= i < self@.len() && parent_index(i) == n && n >= 1 implies self@[parent_index(
                n as int,
            )] <= #[trigger] self@[i] by {
                assert(i >= 2 * n + 1);
            }
        }
        self.bubble_up(n);
    }

    /// Removes and returns the minimum score (what `peek` would have
    /// returned), then restores the heap invariant by sinking the promoted
    /// last element down. Nothing is removed from an empty heap.
    pub fn pop(&mut self) -> (r: Option<i64>)
        requires
            old(self).wf(),
        ensures
            final(self).wf(),
            r == spec_peek(old(self)@),
            old(self)@.len() == 0 ==> *final(self) == *old(self),
            old(self)@.len() > 0 ==> {
                &&& final(self)@.len() == old(self)@.len() - 1
                &&& final(self)@.to_multiset() == old(self)@.to_multiset().remove(old(self)@[0])
                &&& forall|i: int|
                    0 <= i < old(self)@.len() ==> old(self)@[0] <= #[trigger] old(self)@[i]
            },
    {
        proof {
            lemma_root_is_min(self@);
        }
        if self.data.len() == 0 {
            return None;
        }
        let result = self.data.swap_remove(0);
        proof {
            lemma_swap_remove_root_multiset(old(self)@);
        }
        if self.data.len() > 0 {
            proof {
                let s = old(self)@;
                let t = self@;
                assert forall|i: int|
                    1 <= i < t.len() && parent_index(i) != 0 implies t[parent_index(i)]
                    <= #[trigger] t[i] by {
                    assert(1 <= parent_index(i) < i);
                    assert(s[parent_index(i)] <= s[i]);
                }
            }
            self.sink_down(0);
        }
        Some(result)
    }

    /// Sifts the element at `n` toward the root while it scores strictly less
    /// than its parent.
    fn bubble_up(&mut self, n: usize)
        requires
            n < old(self)@.len(),
            heap_except_up(old(self)@, n as int),
        ensures
            final(self).wf(),
            final(self)@.len() == old(self)@.len(),
            final(self)@.to_multiset() == old(self)@.to_multiset(),
    {
        let mut n = n;
        while n > 0
            invariant_except_break
                n < self@.len(),
                heap_except_up(self@, n as int),
                self@.len() == old(self)@.len(),
                self@.to_multiset() == old(self)@.to_multiset(),
            ensures
                is_min_heap(self@),
                self@.len() == old(self)@.len(),
                self@.to_multiset() == old(self)@.to_multiset(),
            decreases n,
        {
            let parent_n = (n - 1) / 2;
            let cur = self.data[n];
            let par = self.data[parent_n];
            if cur < par {
                let ghost s = self@;
                self.data.set(n, par);
                self.data.set(parent_n, cur);
                proof {
                    lemma_swap_multiset(s, n as int, parent_n as int);
                    lemma_bubble_step(s, self@, n as int);
                }
                n = parent_n;
            } else {
                proof {
                    lemma_bubble_done(self@, n as int);
                }
                break;
            }
        }
    }

    /// Sinks the element at `n` toward the leaves while a child scores
    /// strictly less than it, always descending into the smaller child.
    fn sink_down(&mut self, n: usize)
        requires
            n < old(self)@.len(),
            heap_except_down(old(self)@, n as int),
        ensures
            final(self).wf(),
            final(self)@.len() == old(self)@.len(),
            final(self)@.to_multiset() == old(self)@.to_multiset(),
    {
        let length = self.data.len();
        let mut n = n;
        loop
            invariant_except_break
                length == self@.len(),
                n < length,
                heap_except_down(self@, n as int),
                self@.len() == old(self)@.len(),
                self@.to_multiset() == old(self)@.to_multiset(),
            ensures
                is_min_heap(self@),
                self@.len() == old(self)@.len(),
                self@.to_multiset() == old(self)@.to_multiset(),
            decreases length - n,
        {
            if n >= length / 2 {
                // A node in the back half has no children: the exception is
                // vacuous and the whole heap property holds.
                proof {
                    lemma_sink_done_leaf(self@, n as int);
                }
                break;
            }
            let left = 2 * n + 1;
            let right = left + 1;
            let cur = self.data[n];
            let mut smallest = n;
            let mut small_val = cur;
            let left_val = self.data[left];
            if left_val < small_val {
                smallest = left;
                small_val = left_val;
            }
            if right < length {
                let right_val = self.data[right];
                if right_val < small_val {
                    smallest = right;
                    small_val = right_val;
                }
            }
            if smallest == n {
                // Neither child scores strictly less: the element may stay.
                proof {
                    lemma_sink_done_settled(self@, n as int, length as int);
                }
                break;
            }
            let ghost s = self@;
            self.data.set(n, small_val);
            self.data.set(smallest, cur);
            proof {
                lemma_swap_multiset(s, n as int, smallest as int);
                lemma_sink_step(s, self@, n as int, smallest as int, length as int);
            }
            n = smallest;
        }
    }
}

/// Swapping two positions of a sequence keeps its multiset of elements.
proof fn lemma_swap_multiset(s: Seq<i64>, i: int, j: int)
    requires
        0 <= i < s.len(),
        0 <= j < s.len(),
        i != j,
    ensures
        s.update(i, s[j]).update(j, s[i]).to_multiset() == s.to_multiset(),
{
    let t = s.update(i, s[j]).update(j, s[i]);
    assert(s.update(i, s[j])[j] == s[j]);
    assert(t.to_multiset() =~= s.to_multiset());
}

/// Removing the root by swapping in the last element and shrinking removes
/// exactly the root from the heap's multiset of scores.
proof fn lemma_swap_remove_root_multiset(s: Seq<i64>)
    requires
        s.len() > 0,
    ensures
        s.update(0, s.last()).drop_last().to_multiset() == s.to_multiset().remove(s[0]),
{
    let u = s.update(0, s.last());
    assert(u.drop_last() =~= u.remove(u.len() - 1));
    if s.len() == 1 {
        assert(u.drop_last().to_multiset() =~= s.to_multiset().remove(s[0]));
    } else {
        assert(u[u.len() - 1] == s.last());
        assert(u.remove(u.len() - 1).to_multiset() =~= s.to_multiset().remove(s[0]));
    }
}

/// One sift-up swap: exchanging a node that scores strictly less than its
/// parent moves the weakened edge one level up.
proof fn lemma_bubble_step(s: Seq<i64>, t: Seq<i64>, n: int)
    requires
        1 <= n < s.len(),
        heap_except_up(s, n),
        s[n] < s[parent_index(n)],
        t == s.update(n, s[parent_index(n)]).update(parent_index(n), s[n]),
    ensures
        heap_except_up(t, parent_index(n)),
{
    let p = parent_index(n);
    assert(0 <= p < n);
    assert forall|i: int| 1 <= i < t.len() && i != p implies t[parent_index(i)]
        <= #[trigger] t[i] by {
        assert(0 <= parent_index(i) < i);
        if i == n {
            assert(t[p] == s[n] && t[n] == s[p]);
        } else if parent_index(i) == n {
            assert(s[parent_index(n)] <= s[i]);
        } else if parent_index(i) == p {
            assert(s[p] <= s[i]);
        } else {
            assert(s[parent_index(i)] <= s[i]);
        }
    }
    assert forall|i: int|
        1 <= i < t.len() && parent_index(i) == p && p >= 1 implies t[parent_index(p)]
        <= #[trigger] t[i] by {
        assert(parent_index(p) < p);
        assert(s[parent_index(p)] <= s[p]);
        if i == n {
            assert(t[i] == s[p]);
        } else {
            assert(s[p] <= s[i]);
        }
    }
}

/// Sift-up may stop: a node that does not score strictly less than its
/// parent closes the one weakened edge, so the whole heap property holds.
proof fn lemma_bubble_done(s: Seq<i64>, n: int)
    requires
        1 <= n < s.len(),
        heap_except_up(s, n),
        s[parent_index(n)] <= s[n],
    ensures
        is_min_heap(s),
{
}

/// Sink-down may stop at a childless node: the weakened edges do not exist.
proof fn lemma_sink_done_leaf(s: Seq<i64>, n: int)
    requires
        0 <= n < s.len(),
        heap_except_down(s, n),
        n >= s.len() / 2,
    ensures
        is_min_heap(s),
{
    assert forall|i: int| 1 <= i < s.len() implies s[parent_index(i)] <= #[trigger] s[i] by {
        if parent_index(i) == n {
            assert(i == 2 * n + 1 || i == 2 * n + 2);
        }
    }
}

/// Sink-down may stop when no child scores strictly less than the node.
proof fn lemma_sink_done_settled(s: Seq<i64>, n: int, length: int)
    requires
        length == s.len(),
        0 <= n < length,
        2 * n + 1 < length,
        heap_except_down(s, n),
        s[n] <= s[2 * n + 1],
        2 * n + 2 < length ==> s[n] <= s[2 * n + 2],
    ensures
        is_min_heap(s),
{
    assert forall|i: int| 1 <= i < s.len() implies s[parent_index(i)] <= #[trigger] s[i] by {
        if parent_index(i) == n {
            assert(i == 2 * n + 1 || i == 2 * n + 2);
        }
    }
}

/// One sink-down swap: exchanging a node with its strictly smaller minimal
/// child moves the weakened edges one level down.
proof fn lemma_sink_step(s: Seq<i64>, t: Seq<i64>, n: int, k: int, length: int)
    requires
        length == s.len(),
        0 <= n < length,
        k == 2 * n + 1 || k == 2 * n + 2,
        k < length,
        heap_except_down(s, n),
        s[k] < s[n],
        k == 2 * n + 1 && 2 * n + 2 < length ==> s[k] <= s[2 * n + 2],
        k == 2 * n + 2 ==> s[k] <= s[2 * n + 1],
        t == s.update(n, s[k]).update(k, s[n]),
    ensures
        heap_except_down(t, k),
{
    assert(parent_index(k) == n);
    assert forall|i: int| 1 <= i < t.len() && parent_index(i) != k implies t[parent_index(i)]
        <= #[trigger] t[i] by {
        assert(0 <= parent_index(i) < i);
        if i == k {
            assert(t[n] == s[k] && t[k] == s[n]);
        } else if parent_index(i) == n {
            assert(i == 2 * n + 1 || i == 2 * n + 2);
            assert(t[n] == s[k] && t[i] == s[i]);
        } else if i == n {
            // `n` has a parent here, so the old side condition applies.
            assert(s[parent_index(n)] <= s[k]);
        } else {
            assert(s[parent_index(i)] <= s[i]);
        }
    }
    assert forall|i: int|
        1 <= i < t.len() && parent_index(i) == k && k >= 1 implies t[parent_index(k)]
        <= #[trigger] t[i] by {
        assert(i != n && i != k && parent_index(i) != n);
        assert(s[k] <= s[i]);
        assert(t[i] == s[i] && t[parent_index(k)] == s[k]);
    }
}

} // verus!
