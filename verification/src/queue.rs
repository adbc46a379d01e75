//! The run-once worklist: a FIFO queue of constraint indices with
//! deduplication.  A push of an index already pending is ignored; once an
//! index is popped it may be pushed again.

use vstd::prelude::*;

verus! {

/// A FIFO queue over indices `0 .. bound`, with at most one pending copy of
/// each index.
#[derive(Debug)]
pub struct OnceQueue {
    pub items: Vec<usize>,
    pub pending: Vec<bool>,
}

/// Pending flags and the item list agree, and the item list is
/// duplicate-free.
pub open spec fn queue_wf(q: OnceQueue) -> bool {
    &&& forall|p: int, r: int| 0 <= p < r < q.items@.len() ==> q.items@[p] != q.items@[r]
    &&& forall|p: int|
        0 <= p < q.items@.len() ==> (#[trigger] q.items@[p]) < q.pending@.len()
            && q.pending@[q.items@[p] as int]
    &&& forall|i: usize| i < q.pending@.len() && q.pending@[i as int] ==> q.items@.contains(i)
}

/// Index `i` is pending.
pub open spec fn in_queue(q: OnceQueue, i: usize) -> bool {
    i < q.pending@.len() && q.pending@[i as int]
}

impl OnceQueue {
    /// A queue holding every index below `n`, in order.
    pub fn full(n: usize) -> (q: OnceQueue)
        ensures
            queue_wf(q),
            q.pending@.len() == n,
            forall|i: usize| in_queue(q, i) <==> i < n,
    {
        let mut items: Vec<usize> = Vec::new();
        let mut pending: Vec<bool> = Vec::new();
        let mut i: usize = 0;
        while i < n
            invariant
                i <= n,
                items@.len() == i,
                pending@.len() == i,
                forall|p: int| 0 <= p < i ==> items@[p] == p,
                forall|p: int| 0 <= p < i ==> pending@[p],
            decreases n - i,
        {
            items.push(i);
            pending.push(true);
            i = i + 1;
        }
        let q = OnceQueue { items, pending };
        proof {
            assert forall|p: usize|
                p < q.pending@.len() && q.pending@[p as int] implies q.items@.contains(p) by {
                assert(q.items@[p as int] == p);
            }
        }
        q
    }

    /// Enqueue `i` unless it is already pending.
    pub fn push(&mut self, i: usize)
        requires
            queue_wf(*old(self)),
            i < old(self).pending@.len(),
        ensures
            queue_wf(*final(self)),
            final(self).pending@.len() == old(self).pending@.len(),
            forall|k: usize| in_queue(*final(self), k) <==> in_queue(*old(self), k) || k == i,
            !in_queue(*old(self), i) ==> final(self).items@ == old(self).items@.push(i),
            in_queue(*old(self), i) ==> *final(self) == *old(self),
    {
        if !self.pending[i] {
            self.items.push(i);
            let e = vstd::std_specs::vec::vec_index_mut(&mut self.pending, i);
            *e = true;
            proof {
                let q = *self;
                assert forall|p: usize|
                    p < q.pending@.len() && q.pending@[p as int] implies q.items@.contains(
                    p,
                ) by {
                    if p == i {
                        assert(q.items@[q.items@.len() - 1] == i);
                    } else {
                        assert(old(self).pending@[p as int]);
                        let t = choose|t: int|
                            0 <= t < old(self).items@.len() && old(self).items@[t] == p;
                        assert(q.items@[t] == p);
                    }
                }
                assert forall|p: int, r: int|
                    0 <= p < r < q.items@.len() implies q.items@[p] != q.items@[r] by {
                    if r == q.items@.len() - 1 {
                        assert(!old(self).pending@[i as int]);
                        assert(old(self).items@[p] == q.items@[p]);
                    }
                }
            }
        }
    }

    /// The number of pending indices.
    pub fn len(&self) -> (r: usize)
        ensures
            r == self.items@.len(),
    {
        self.items.len()
    }

    /// Dequeue the front index, if any.
    pub fn pop(&mut self) -> (r: Option<usize>)
        requires
            queue_wf(*old(self)),
        ensures
            queue_wf(*final(self)),
            final(self).pending@.len() == old(self).pending@.len(),
            r is Some <==> old(self).items@.len() > 0,
            final(self).items@.len() < old(self).items@.len() || r is None,
            r matches Some(i) ==> in_queue(*old(self), i) && i == old(self).items@[0] && final(self).items@ == old(self).items@.drop_first() && forall|k: usize|
                in_queue(*final(self), k) <==> in_queue(*old(self), k) && k != i,
            r is None ==> *final(self) == *old(self) && forall|k: usize|
                !in_queue(*old(self), k),
    {
        if self.items.len() == 0 {
            proof {
                assert forall|k: usize| !in_queue(*self, k) by {
                    if in_queue(*self, k) {
                        assert(self.items@.contains(k));
                    }
                }
            }
            None
        } else {
            let i = self.items.remove(0);
            let e = vstd::std_specs::vec::vec_index_mut(&mut self.pending, i);
            *e = false;
            proof {
                let q = *self;
                let oldq = *old(self);
                assert(oldq.items@[0] == i);
                assert(q.items@ =~= oldq.items@.drop_first());
                assert forall|p: int, r: int|
                    0 <= p < r < q.items@.len() implies q.items@[p] != q.items@[r] by {
                    assert(q.items@[p] == oldq.items@[p + 1]);
                    assert(q.items@[r] == oldq.items@[r + 1]);
                }
                assert forall|p: int|
                    0 <= p < q.items@.len() implies (#[trigger] q.items@[p]) < q.pending@.len()
                    && q.pending@[q.items@[p] as int] by {
                    assert(q.items@[p] == oldq.items@[p + 1]);
                    assert(oldq.items@[p + 1] != oldq.items@[0]);
                }
                assert forall|p: usize|
                    p < q.pending@.len() && q.pending@[p as int] implies q.items@.contains(
                    p,
                ) by {
                    assert(q.pending@[i as int] == false);
                    assert(p != i);
                    assert(oldq.pending@[p as int]);
                    let t = choose|t: int|
                        0 <= t < oldq.items@.len() && oldq.items@[t] == p;
                    if t == 0 {
                        assert(i == p);
                        assert(false);
                    }
                    assert(q.items@[t - 1] == p);
                }
                assert forall|k: usize|
                    in_queue(q, k) <==> in_queue(oldq, k) && k != i by {}
            }
            Some(i)
        }
    }
}

} // verus!
