//! The single-instance adapter: owns at most one heap engine, absent until
//! `init`, and exposes the five scalar-only operations defensively. A call
//! before `init` is absorbed: `push` is a no-op, `size` reports zero, and
//! `pop`/`peek` answer with the sentinel, as they do on an empty heap.

use crate::heap::BinaryHeap;
use crate::heap::is_min_heap;
use crate::heap::lemma_root_is_min;
use vstd::prelude::*;

verus! {

/// The score that `pop` and `peek` answer when there is nothing to return.
/// A caller that pushes this very score cannot tell the two cases apart; that
/// ambiguity is accepted, since the boundary exchanges only plain scalars.
pub const SENTINEL: i64 = -1;

/// A handle on zero-or-one heap engines.
pub struct HeapHandle {
    instance: Option<BinaryHeap>,
}

impl HeapHandle {
    /// Whether `init` has installed an engine.
    pub closed spec fn initialized(&self) -> bool {
        self.instance is Some
    }

    /// The scores held by the live engine, in heap order; meaningless while
    /// no engine is installed.
    pub closed spec fn scores(&self) -> Seq<i64> {
        self.instance->0@
    }

    /// The live engine, when there is one, satisfies the heap invariant.
    pub open spec fn wf(&self) -> bool {
        self.initialized() ==> is_min_heap(self.scores())
    }

    /// What `size` reports: the live element count, or zero when absent.
    pub open spec fn spec_size(&self) -> nat {
        if self.initialized() {
            self.scores().len()
        } else {
            0
        }
    }

    /// What `peek` answers: the root score, or the sentinel when there is no
    /// engine or no element.
    pub open spec fn spec_front(&self) -> i64 {
        if self.initialized() && self.scores().len() > 0 {
            self.scores()[0]
        } else {
            SENTINEL
        }
    }

    /// A handle with no engine yet, as before the first `init`.
    pub fn new() -> (h: HeapHandle)
        ensures
            !h.initialized(),
            h.wf(),
    {
        HeapHandle { instance: None }
    }

    /// Installs a fresh empty engine, discarding any previous one and all of
    /// its contents.
    pub fn init(&mut self)
        ensures
            final(self).initialized(),
            final(self).scores() == Seq::<i64>::empty(),
            final(self).wf(),
    {
        self.instance = Some(BinaryHeap::new());
    }

    /// Inserts `v` into the live engine; absorbed silently when none exists.
    pub fn push(&mut self, v: i64)
        requires
            old(self).wf(),
        ensures
            final(self).wf(),
            final(self).initialized() == old(self).initialized(),
            old(self).initialized() ==> {
                &&& final(self).scores().len() == old(self).scores().len() + 1
                &&& final(self).scores().to_multiset() == old(self).scores().to_multiset().insert(v)
            },
            !old(self).initialized() ==> *final(self) == *old(self),
    {
        match &mut self.instance {
            Some(h) => h.push(v),
            None => (),
        }
    }

    /// Removes and answers the minimum score; answers the sentinel, removing
    /// nothing, when there is no engine or no element.
    pub fn pop(&mut self) -> (r: i64)
        requires
            old(self).wf(),
        ensures
            final(self).wf(),
            final(self).initialized() == old(self).initialized(),
            r == old(self).spec_front(),
            old(self).spec_size() == 0 ==> *final(self) == *old(self),
            old(self).spec_size() > 0 ==> {
                &&& final(self).scores().len() == old(self).scores().len() - 1
                &&& final(self).scores().to_multiset() == old(self).scores().to_multiset().remove(r)
                &&& forall|i: int|
                    0 <= i < old(self).scores().len() ==> r <= #[trigger] old(self).scores()[i]
            },
    {
        match &mut self.instance {
            Some(h) => {
                match h.pop() {
                    Some(v) => v,
                    None => SENTINEL,
                }
            },
            None => SENTINEL,
        }
    }

    /// Answers the minimum score without removing it; the sentinel when there
    /// is no engine or no element.
    pub fn peek(&self) -> (r: i64)
        requires
            self.wf(),
        ensures
            r == self.spec_front(),
            self.spec_size() > 0 ==> forall|i: int|
                0 <= i < self.scores().len() ==> r <= #[trigger] self.scores()[i],
    {
        proof {
            if self.initialized() {
                lemma_root_is_min(self.scores());
            }
        }
        match &self.instance {
            Some(h) => {
                match h.peek() {
                    Some(v) => v,
                    None => SENTINEL,
                }
            },
            None => SENTINEL,
        }
    }

    /// The live element count; zero when no engine exists.
    pub fn size(&self) -> (n: usize)
        ensures
            n == self.spec_size(),
    {
        match &self.instance {
            Some(h) => h.size(),
            None => 0,
        }
    }
}

} // verus!
