//! The use-index: for each variable, the set of constraint indices whose
//! `A`, `B` or `C` combination currently mentions it.
//!
//! The index is derived, never authoritative: it is built once from the
//! constraint sequence and patched incrementally as constraints change.
//! Its governing property is exact consistency with the constraints, which
//! the optimizer maintains across every substitution.

use vstd::prelude::*;
use crate::lc::{contains_var, Lc, Var};
use crate::r1cs::{con_mentions, Constraint};

verus! {

/// A use-index: an association list from variables to lists of constraint
/// indices.  Variable keys are unique and each index list is duplicate-free.
#[derive(Debug)]
pub struct UseIndex {
    pub entries: Vec<(Var, Vec<usize>)>,
}

/// Keys unique and index lists duplicate-free.
pub open spec fn uses_wf(ui: UseIndex) -> bool {
    &&& forall|i: int, j: int|
        0 <= i < j < ui.entries@.len() ==> (#[trigger] ui.entries@[i]).0 != (
        #[trigger] ui.entries@[j]).0
    &&& forall|i: int, p: int, q: int|
        #![trigger ui.entries@[i].1@[p], ui.entries@[i].1@[q]]
        0 <= i < ui.entries@.len() && 0 <= p < q < ui.entries@[i].1@.len()
            ==> ui.entries@[i].1@[p] != ui.entries@[i].1@[q]
}

/// Constraint index `k` is recorded as a use of `v`.
pub open spec fn in_uses(ui: UseIndex, v: Var, k: usize) -> bool {
    exists|i: int|
        0 <= i < ui.entries@.len() && (#[trigger] ui.entries@[i]).0 == v
            && ui.entries@[i].1@.contains(k)
}

/// Exact consistency with a constraint sequence: `k` is recorded for `v`
/// precisely when constraint `k` mentions `v`.
pub open spec fn uses_consistent(ui: UseIndex, cs: Seq<Constraint>) -> bool {
    forall|v: Var, k: usize|
        #[trigger] in_uses(ui, v, k) <==> k < cs.len() && con_mentions(cs[k as int], v)
}

impl UseIndex {
    /// An empty index.
    pub fn new() -> (r: UseIndex)
        ensures
            uses_wf(r),
            forall|v: Var, k: usize| !in_uses(r, v, k),
    {
        UseIndex { entries: Vec::new() }
    }

    /// The position of the entry for `v`, if any.
    fn find_entry(&self, v: Var) -> (r: Option<usize>)
        ensures
            r matches Some(i) ==> i < self.entries@.len() && self.entries@[i as int].0 == v,
            r is None ==> forall|i: int|
                0 <= i < self.entries@.len() ==> (#[trigger] self.entries@[i]).0 != v,
    {
        let mut i: usize = 0;
        while i < self.entries.len()
            invariant
                i <= self.entries@.len(),
                forall|j: int| 0 <= j < i ==> (#[trigger] self.entries@[j]).0 != v,
            decreases self.entries@.len() - i,
        {
            if self.entries[i].0 == v {
                return Some(i);
            }
            i = i + 1;
        }
        None
    }

    /// Record constraint `k` as a use of `v`.
    pub fn add_use(&mut self, v: Var, k: usize)
        requires
            uses_wf(*old(self)),
        ensures
            uses_wf(*final(self)),
            forall|w: Var, j: usize|
                in_uses(*final(self), w, j) <==> in_uses(*old(self), w, j) || (w == v && j == k),
    {
        let ghost pre = *self;
        match self.find_entry(v) {
            None => {
                let mut l: Vec<usize> = Vec::new();
                l.push(k);
                self.entries.push((v, l));
                proof {
                    let es = self.entries@;
                    let n = es.len() - 1;
                    assert(es[n].1@[0] == k);
                    assert(es[n].0 == v && es[n].1@.contains(k));
                    assert forall|w: Var, j: usize| in_uses(*self, w, j) implies in_uses(
                        pre,
                        w,
                        j,
                    ) || (w == v && j == k) by {
                        let i = choose|i: int|
                            0 <= i < es.len() && (#[trigger] es[i]).0 == w && es[i].1@.contains(j);
                        if i < n {
                            assert(pre.entries@[i].0 == w && pre.entries@[i].1@.contains(j));
                        } else {
                            assert(es[n].1@ =~= seq![k]);
                        }
                    }
                    assert forall|w: Var, j: usize|
                        in_uses(pre, w, j) || (w == v && j == k) implies in_uses(
                        *self,
                        w,
                        j,
                    ) by {
                        if in_uses(pre, w, j) {
                            let i = choose|i: int|
                                0 <= i < pre.entries@.len() && (#[trigger] pre.entries@[i]).0 == w
                                    && pre.entries@[i].1@.contains(j);
                            assert(es[i].0 == w && es[i].1@.contains(j));
                        } else {
                            assert(es[n].0 == v && es[n].1@.contains(k));
                        }
                    }
                }
            }
            Some(i) => {
                let mut already: bool = false;
                let mut p: usize = 0;
                let ghost l = self.entries@[i as int].1@;
                while p < self.entries[i].1.len()
                    invariant
                        i < self.entries@.len(),
                        l == self.entries@[i as int].1@,
                        p <= l.len(),
                        already == exists|q: int| 0 <= q < p && l[q] == k,
                    decreases l.len() - p,
                {
                    if self.entries[i].1[p] == k {
                        already = true;
                        proof {
                            assert(l[p as int] == k);
                        }
                    }
                    p = p + 1;
                }
                proof {
                    assert(already == l.contains(k));
                }
                if !already {
                    let e = vstd::std_specs::vec::vec_index_mut(&mut self.entries, i);
                    e.1.push(k);
                    proof {
                        let es = self.entries@;
                        assert(es =~= pre.entries@.update(i as int, (v, es[i as int].1)));
                        assert(es[i as int].1@ =~= l.push(k));
                        assert forall|w: Var, j: usize| in_uses(*self, w, j) implies in_uses(
                            pre,
                            w,
                            j,
                        ) || (w == v && j == k) by {
                            let i2 = choose|i2: int|
                                0 <= i2 < es.len() && (#[trigger] es[i2]).0 == w
                                    && es[i2].1@.contains(j);
                            if i2 != i {
                                assert(pre.entries@[i2].0 == w && pre.entries@[i2].1@.contains(j));
                            } else {
                                let q = choose|q: int|
                                    0 <= q < es[i2].1@.len() && es[i2].1@[q] == j;
                                if q < l.len() {
                                    assert(pre.entries@[i as int].1@.contains(j));
                                }
                            }
                        }
                        assert forall|w: Var, j: usize|
                            in_uses(pre, w, j) || (w == v && j == k) implies in_uses(
                            *self,
                            w,
                            j,
                        ) by {
                            if in_uses(pre, w, j) {
                                let i2 = choose|i2: int|
                                    0 <= i2 < pre.entries@.len() && (#[trigger] pre.entries@[i2]).0 == w && pre.entries@[i2].1@.contains(j);
                                if i2 != i {
                                    assert(es[i2].0 == w && es[i2].1@.contains(j));
                                } else {
                                    let q = choose|q: int| 0 <= q < l.len() && l[q] == j;
                                    assert(es[i as int].1@[q] == j);
                                    assert(es[i as int].1@.contains(j));
                                }
                            } else {
                                assert(es[i as int].1@[l.len() as int] == k);
                                assert(es[i as int].0 == v && es[i as int].1@.contains(k));
                            }
                        }
                    }
                } else {
                    proof {
                        assert(in_uses(pre, v, k)) by {
                            assert(pre.entries@[i as int].0 == v
                                && pre.entries@[i as int].1@.contains(k));
                        }
                    }
                }
            }
        }
    }

    /// Drop constraint `k` from the uses of `v`.
    pub fn remove_use(&mut self, v: Var, k: usize)
        requires
            uses_wf(*old(self)),
        ensures
            uses_wf(*final(self)),
            forall|w: Var, j: usize|
                in_uses(*final(self), w, j) <==> in_uses(*old(self), w, j) && !(w == v && j == k),
    {
        let ghost pre = *self;
        match self.find_entry(v) {
            None => {
                proof {
                    assert forall|w: Var, j: usize| in_uses(pre, w, j) && !(w == v && j
                        == k) implies in_uses(*self, w, j) by {}
                    assert forall|w: Var, j: usize| in_uses(*self, w, j) implies in_uses(
                        pre,
                        w,
                        j,
                    ) && !(w == v && j == k) by {
                        if w == v {
                            let i = choose|i: int|
                                0 <= i < self.entries@.len() && (#[trigger] self.entries@[i]).0
                                    == w && self.entries@[i].1@.contains(j);
                        }
                    }
                }
            }
            Some(i) => {
                let ghost l = self.entries@[i as int].1@;
                let mut p: usize = 0;
                let mut found: Option<usize> = None;
                while p < self.entries[i].1.len()
                    invariant
                        i < self.entries@.len(),
                        l == self.entries@[i as int].1@,
                        p <= l.len(),
                        found matches Some(q) ==> q < l.len() && l[q as int] == k,
                        found is None ==> forall|q: int| 0 <= q < p ==> l[q] != k,
                    decreases l.len() - p,
                {
                    if found.is_none() && self.entries[i].1[p] == k {
                        found = Some(p);
                        proof {
                            assert(l[p as int] == k);
                        }
                    }
                    p = p + 1;
                }
                match found {
                    None => {
                        proof {
                            assert(!l.contains(k));
                            assert forall|w: Var, j: usize| in_uses(*self, w, j) implies in_uses(
                                pre,
                                w,
                                j,
                            ) && !(w == v && j == k) by {
                                if w == v && j == k {
                                    let i2 = choose|i2: int|
                                        0 <= i2 < self.entries@.len() && (#[trigger] self.entries@[i2]).0 == w && self.entries@[i2].1@.contains(j);
                                    assert(i2 == i);
                                }
                            }
                        }
                    }
                    Some(q) => {
                        let e = vstd::std_specs::vec::vec_index_mut(&mut self.entries, i);
                        e.1.remove(q);
                        proof {
                            let es = self.entries@;
                            let nl = es[i as int].1@;
                            assert(nl =~= l.remove(q as int));
                            // the removed list keeps every index but `k`
                            assert forall|j: usize| nl.contains(j) implies l.contains(j) && j
                                != k by {
                                let p2 = choose|p2: int| 0 <= p2 < nl.len() && nl[p2] == j;
                                if p2 < q {
                                    assert(l[p2] == j);
                                } else {
                                    assert(l[p2 + 1] == j);
                                }
                                if j == k {
                                    // uniqueness: k sits only at position q
                                    if p2 < q {
                                        assert(l[p2] == l[q as int]);
                                    } else {
                                        assert(l[p2 + 1] == l[q as int]);
                                    }
                                }
                            }
                            assert forall|j: usize| l.contains(j) && j != k implies nl.contains(
                                j,
                            ) by {
                                let p2 = choose|p2: int| 0 <= p2 < l.len() && l[p2] == j;
                                if p2 < q {
                                    assert(nl[p2] == j);
                                } else if p2 > q {
                                    assert(nl[p2 - 1] == j);
                                }
                            }
                            assert forall|i1: int, p1: int, q1: int|
                                #![trigger es[i1].1@[p1], es[i1].1@[q1]]
                                0 <= i1 < es.len() && 0 <= p1 < q1 < es[i1].1@.len() implies es[
                                i1].1@[p1] != es[i1].1@[q1] by {
                                if i1 == i {
                                    if q1 < q {
                                    } else if p1 < q {
                                        assert(es[i1].1@[q1] == l[q1 + 1]);
                                    } else {
                                        assert(es[i1].1@[p1] == l[p1 + 1]);
                                        assert(es[i1].1@[q1] == l[q1 + 1]);
                                    }
                                }
                            }
                            assert forall|w: Var, j: usize| in_uses(*self, w, j) implies in_uses(
                                pre,
                                w,
                                j,
                            ) && !(w == v && j == k) by {
                                let i2 = choose|i2: int|
                                    0 <= i2 < es.len() && (#[trigger] es[i2]).0 == w
                                        && es[i2].1@.contains(j);
                                if i2 != i {
                                    assert(pre.entries@[i2].0 == w
                                        && pre.entries@[i2].1@.contains(j));
                                    if w == v {
                                        assert(pre.entries@[i2].0 == pre.entries@[i as int].0);
                                    }
                                } else {
                                    assert(l.contains(j) && j != k);
                                    assert(pre.entries@[i as int].1@.contains(j));
                                }
                            }
                            assert forall|w: Var, j: usize| in_uses(pre, w, j) && !(w == v && j
                                == k) implies in_uses(*self, w, j) by {
                                let i2 = choose|i2: int|
                                    0 <= i2 < pre.entries@.len() && (#[trigger] pre.entries@[i2]).0 == w && pre.entries@[i2].1@.contains(j);
                                if i2 != i {
                                    assert(es[i2].0 == w && es[i2].1@.contains(j));
                                } else {
                                    assert(w == v);
                                    assert(nl.contains(j));
                                }
                            }
                        }
                    }
                }
            }
        }
    }

    /// A copy of the use list of `v`.
    pub fn get_uses(&self, v: Var) -> (r: Vec<usize>)
        requires
            uses_wf(*self),
        ensures
            forall|p: int, q: int| 0 <= p < q < r@.len() ==> r@[p] != r@[q],
            forall|k: usize| r@.contains(k) <==> in_uses(*self, v, k),
    {
        match self.find_entry(v) {
            None => {
                let r: Vec<usize> = Vec::new();
                proof {
                    assert forall|k: usize| !in_uses(*self, v, k) by {
                        if in_uses(*self, v, k) {
                            let i = choose|i: int|
                                0 <= i < self.entries@.len() && (#[trigger] self.entries@[i]).0
                                    == v && self.entries@[i].1@.contains(k);
                        }
                    }
                }
                r
            }
            Some(i) => {
                let ghost l = self.entries@[i as int].1@;
                let mut r: Vec<usize> = Vec::new();
                let mut p: usize = 0;
                proof {
                    assert(r@ =~= l.take(0));
                }
                while p < self.entries[i].1.len()
                    invariant
                        i < self.entries@.len(),
                        l == self.entries@[i as int].1@,
                        p <= l.len(),
                        r@ == l.take(p as int),
                    decreases l.len() - p,
                {
                    r.push(self.entries[i].1[p]);
                    proof {
                        assert(r@ =~= l.take(p + 1));
                    }
                    p = p + 1;
                }
                proof {
                    assert(r@ =~= l);
                    assert forall|k: usize| l.contains(k) implies in_uses(*self, v, k) by {
                        assert(self.entries@[i as int].0 == v
                            && self.entries@[i as int].1@.contains(k));
                    }
                    assert forall|k: usize| in_uses(*self, v, k) implies l.contains(k) by {
                        let i2 = choose|i2: int|
                            0 <= i2 < self.entries@.len() && (#[trigger] self.entries@[i2]).0 == v
                                && self.entries@[i2].1@.contains(k);
                        assert(i2 == i);
                    }
                }
                r
            }
        }
    }

    /// Record constraint `k` for every variable mentioned by `lc`.
    pub fn register_lc(&mut self, lc: &Lc, k: usize)
        requires
            uses_wf(*old(self)),
        ensures
            uses_wf(*final(self)),
            forall|w: Var, j: usize|
                in_uses(*final(self), w, j) <==> in_uses(*old(self), w, j) || (contains_var(
                    lc.monomials@,
                    w,
                ) && j == k),
    {
        let ghost pre = *self;
        let mut t: usize = 0;
        while t < lc.monomials.len()
            invariant
                uses_wf(*self),
                t <= lc.monomials@.len(),
                forall|w: Var, j: usize|
                    in_uses(*self, w, j) <==> in_uses(pre, w, j) || (contains_var(
                        lc.monomials@.take(t as int),
                        w,
                    ) && j == k),
            decreases lc.monomials@.len() - t,
        {
            let v = lc.monomials[t].0;
            self.add_use(v, k);
            proof {
                let tk1 = lc.monomials@.take(t + 1);
                assert(tk1[t as int].0 == v);
                assert forall|w: Var|
                    contains_var(tk1, w) implies contains_var(lc.monomials@.take(t as int), w) || w
                    == v by {
                    let j2 = choose|j2: int| 0 <= j2 < tk1.len() && tk1[j2].0 == w;
                    if j2 < t {
                        assert(lc.monomials@.take(t as int)[j2].0 == w);
                    }
                }
                assert(contains_var(tk1, v));
            }
            t = t + 1;
        }
        proof {
            assert(lc.monomials@.take(lc.monomials@.len() as int) =~= lc.monomials@);
        }
    }

    /// Drop constraint `k` from the uses of every variable mentioned by `lc`.
    pub fn unregister_lc(&mut self, lc: &Lc, k: usize)
        requires
            uses_wf(*old(self)),
        ensures
            uses_wf(*final(self)),
            forall|w: Var, j: usize|
                in_uses(*final(self), w, j) <==> in_uses(*old(self), w, j) && !(contains_var(
                    lc.monomials@,
                    w,
                ) && j == k),
    {
        let ghost pre = *self;
        let mut t: usize = 0;
        while t < lc.monomials.len()
            invariant
                uses_wf(*self),
                t <= lc.monomials@.len(),
                forall|w: Var, j: usize|
                    in_uses(*self, w, j) <==> in_uses(pre, w, j) && !(contains_var(
                        lc.monomials@.take(t as int),
                        w,
                    ) && j == k),
            decreases lc.monomials@.len() - t,
        {
            let v = lc.monomials[t].0;
            self.remove_use(v, k);
            proof {
                let tk1 = lc.monomials@.take(t + 1);
                assert(tk1[t as int].0 == v);
                assert forall|w: Var|
                    contains_var(tk1, w) implies contains_var(lc.monomials@.take(t as int), w) || w
                    == v by {
                    let j2 = choose|j2: int| 0 <= j2 < tk1.len() && tk1[j2].0 == w;
                    if j2 < t {
                        assert(lc.monomials@.take(t as int)[j2].0 == w);
                    }
                }
                assert(contains_var(tk1, v));
            }
            t = t + 1;
        }
        proof {
            assert(lc.monomials@.take(lc.monomials@.len() as int) =~= lc.monomials@);
        }
    }
}

} // verus!
