//! Variables and linear combinations over a prime field.
//!
//! A linear combination (`Lc`) is a field constant plus a sequence of
//! `(variable, coefficient)` monomials.  The sequence order is the insertion
//! order and is significant: the elimination tie-break walks it front to
//! back.  Two invariants are maintained by every operation: monomial keys
//! are unique, and no monomial carries a zero coefficient — an operation
//! that drives a coefficient to zero removes the entry.

use vstd::prelude::*;
use vstd::arithmetic::div_mod::{
    lemma_add_mod_noop, lemma_mod_add_multiples_vanish, lemma_mod_multiples_vanish,
    lemma_mul_mod_noop_left, lemma_mul_mod_noop_right, lemma_small_mod, lemma_sub_mod_noop,
};
use crate::field::{add_mod, congruent, mul_mod};

verus! {

/// The role a variable plays in the constraint system.
#[derive(Clone, Copy, PartialEq, Eq, Structural, Hash, Debug)]
pub enum VarType {
    /// A public instance variable.
    Inst,
    /// A committed witness variable.
    CWit,
    /// A per-round witness variable.
    RoundWit,
    /// A verifier challenge variable.
    Chall,
    /// A final witness variable.
    FinalWit,
}

/// A variable: a role together with a sequence number.  Identity is
/// structural on the pair.
#[derive(Clone, Copy, PartialEq, Eq, Structural, Hash, Debug)]
pub struct Var {
    pub ty: VarType,
    pub number: u64,
}

/// A linear combination: `constant + sum(coeff * var)` over the field with
/// the given modulus.
#[derive(Debug)]
pub struct Lc {
    pub modulus: u64,
    pub constant: u64,
    pub monomials: Vec<(Var, u64)>,
}

/// The monomial keys are pairwise distinct.
pub open spec fn unique_keys(s: Seq<(Var, u64)>) -> bool {
    forall|i: int, j: int| 0 <= i < j < s.len() ==> s[i].0 != s[j].0
}

/// Every coefficient is nonzero and reduced below `m`.
pub open spec fn coeffs_wf(s: Seq<(Var, u64)>, m: u64) -> bool {
    forall|i: int| 0 <= i < s.len() ==> 0 < #[trigger] s[i].1 < m
}

/// Well-formedness of a linear combination.
pub open spec fn lc_wf(lc: Lc) -> bool {
    &&& 1 < lc.modulus
    &&& lc.constant < lc.modulus
    &&& unique_keys(lc.monomials@)
    &&& coeffs_wf(lc.monomials@, lc.modulus)
}

/// Some monomial mentions `v`.
pub open spec fn contains_var(s: Seq<(Var, u64)>, v: Var) -> bool {
    exists|j: int| 0 <= j < s.len() && s[j].0 == v
}

/// The (un-reduced) integer value of a monomial sequence under an
/// assignment of integers to variables.
pub open spec fn mon_sum(s: Seq<(Var, u64)>, asn: Map<Var, int>) -> int
    decreases s.len(),
{
    if s.len() == 0 {
        0
    } else {
        s[0].1 * asn[s[0].0] + mon_sum(s.drop_first(), asn)
    }
}

/// The integer value of a linear combination under an assignment.  The
/// field semantics is this value modulo the modulus.
pub open spec fn lc_eval(lc: Lc, asn: Map<Var, int>) -> int {
    lc.constant + mon_sum(lc.monomials@, asn)
}

/// Structural equality of linear combinations, by view.
pub open spec fn lc_equal(a: Lc, b: Lc) -> bool {
    a.modulus == b.modulus && a.constant == b.constant && a.monomials@ == b.monomials@
}

/// The zero combination: constant zero and no monomials.
pub open spec fn lc_is_zero(lc: Lc) -> bool {
    lc.constant == 0 && lc.monomials@.len() == 0
}

pub proof fn lemma_mon_sum_push(s: Seq<(Var, u64)>, e: (Var, u64), asn: Map<Var, int>)
    ensures
        mon_sum(s.push(e), asn) == mon_sum(s, asn) + e.1 * asn[e.0],
    decreases s.len(),
{
    if s.len() == 0 {
        assert(s.push(e).drop_first() =~= Seq::<(Var, u64)>::empty());
        assert(s.push(e)[0] == e);
        assert(mon_sum(Seq::<(Var, u64)>::empty(), asn) == 0);
        assert(mon_sum(s.push(e), asn) == e.1 * asn[e.0] + 0);
    } else {
        assert(s.push(e).drop_first() =~= s.drop_first().push(e));
        assert(s.push(e)[0] == s[0]);
        lemma_mon_sum_push(s.drop_first(), e, asn);
        assert(mon_sum(s.push(e), asn)
            == s[0].1 * asn[s[0].0] + mon_sum(s.drop_first().push(e), asn));
    }
}

/// Summing one more prefix element.
pub proof fn lemma_mon_sum_take_step(s: Seq<(Var, u64)>, k: int, asn: Map<Var, int>)
    requires
        0 <= k < s.len(),
    ensures
        mon_sum(s.take(k + 1), asn) == mon_sum(s.take(k), asn) + s[k].1 * asn[s[k].0],
{
    assert(s.take(k + 1) =~= s.take(k).push(s[k]));
    lemma_mon_sum_push(s.take(k), s[k], asn);
}

pub proof fn lemma_mon_sum_update(s: Seq<(Var, u64)>, j: int, c2: u64, asn: Map<Var, int>)
    requires
        0 <= j < s.len(),
    ensures
        mon_sum(s.update(j, (s[j].0, c2)), asn)
            == mon_sum(s, asn) - s[j].1 * asn[s[j].0] + c2 * asn[s[j].0],
    decreases s.len(),
{
    let t = s.update(j, (s[j].0, c2));
    if j == 0 {
        assert(t.drop_first() =~= s.drop_first());
        assert(t[0] == (s[0].0, c2));
    } else {
        assert(t.drop_first() =~= s.drop_first().update(j - 1, (s[j].0, c2)));
        assert(s.drop_first()[j - 1] == s[j]);
        lemma_mon_sum_update(s.drop_first(), j - 1, c2, asn);
        assert(t[0] == s[0]);
    }
}

pub proof fn lemma_mon_sum_remove(s: Seq<(Var, u64)>, j: int, asn: Map<Var, int>)
    requires
        0 <= j < s.len(),
    ensures
        mon_sum(s.remove(j), asn) == mon_sum(s, asn) - s[j].1 * asn[s[j].0],
    decreases s.len(),
{
    let t = s.remove(j);
    if j == 0 {
        assert(t =~= s.drop_first());
    } else {
        assert(t.drop_first() =~= s.drop_first().remove(j - 1));
        assert(s.drop_first()[j - 1] == s[j]);
        lemma_mon_sum_remove(s.drop_first(), j - 1, asn);
        assert(t[0] == s[0]);
    }
}

impl Lc {
    /// The zero combination over the field with the given modulus.
    pub fn new(modulus: u64) -> (r: Lc)
        requires
            1 < modulus,
        ensures
            lc_wf(r),
            r.modulus == modulus,
            lc_is_zero(r),
    {
        Lc { modulus, constant: 0, monomials: Vec::new() }
    }

    /// A structural copy.
    pub fn duplicate(&self) -> (r: Lc)
        ensures
            lc_equal(r, *self),
    {
        let mut mons: Vec<(Var, u64)> = Vec::new();
        let mut i: usize = 0;
        proof {
            assert(mons@ =~= self.monomials@.take(0));
        }
        while i < self.monomials.len()
            invariant
                i <= self.monomials@.len(),
                mons@ == self.monomials@.take(i as int),
            decreases self.monomials@.len() - i,
        {
            mons.push(self.monomials[i]);
            proof {
                assert(mons@ =~= self.monomials@.take(i + 1));
            }
            i = i + 1;
        }
        proof {
            assert(self.monomials@.take(self.monomials@.len() as int) =~= self.monomials@);
        }
        Lc { modulus: self.modulus, constant: self.constant, monomials: mons }
    }

    /// Reset to the zero combination, keeping the modulus.
    pub fn clear(&mut self)
        ensures
            final(self).modulus == old(self).modulus,
            lc_is_zero(*final(self)),
            old(self).modulus > 1 ==> lc_wf(*final(self)),
    {
        self.constant = 0;
        self.monomials = Vec::new();
    }

    /// True exactly for the zero combination.
    pub fn is_zero(&self) -> (r: bool)
        ensures
            r == lc_is_zero(*self),
    {
        self.constant == 0 && self.monomials.len() == 0
    }

    /// `Some(constant)` exactly when the combination has no monomials
    /// (whatever the constant, zero included).
    pub fn as_constant(&self) -> (r: Option<u64>)
        ensures
            r matches Some(c) ==> self.monomials@.len() == 0 && c == self.constant,
            r is Some <==> self.monomials@.len() == 0,
    {
        if self.monomials.len() == 0 {
            Some(self.constant)
        } else {
            None
        }
    }

    /// The position of the monomial for `v`, if any.
    pub fn find_var(&self, v: Var) -> (r: Option<usize>)
        ensures
            r matches Some(j) ==> j < self.monomials@.len() && self.monomials@[j as int].0 == v,
            r is None ==> !contains_var(self.monomials@, v),
    {
        let mut i: usize = 0;
        while i < self.monomials.len()
            invariant
                i <= self.monomials@.len(),
                forall|j: int| 0 <= j < i ==> self.monomials@[j].0 != v,
            decreases self.monomials@.len() - i,
        {
            if self.monomials[i].0 == v {
                return Some(i);
            }
            i = i + 1;
        }
        None
    }
}

impl Lc {
    /// Add `s` times `other` into `self`, merging monomials and pruning any
    /// coefficient that is driven to exactly zero.
    pub fn add_scaled(&mut self, s: u64, other: &Lc)
        requires
            lc_wf(*old(self)),
            lc_wf(*other),
            old(self).modulus == other.modulus,
            s < old(self).modulus,
        ensures
            lc_wf(*final(self)),
            final(self).modulus == old(self).modulus,
            forall|v: Var|
                contains_var(final(self).monomials@, v) ==> contains_var(
                    old(self).monomials@,
                    v,
                ) || contains_var(other.monomials@, v),
            forall|asn: Map<Var, int>|
                congruent(
                    #[trigger] lc_eval(*final(self), asn),
                    lc_eval(*old(self), asn) + s * lc_eval(*other, asn),
                    old(self).modulus as int,
                ),
            s == 0 ==> lc_equal(*final(self), *old(self)),
    {
        let ghost orig = *self;
        let m = self.modulus;
        let oc = other.constant;
        let newc = add_mod(self.constant, mul_mod(s, oc, m), m);
        self.constant = newc;
        let mut k: usize = 0;
        proof {
            if s == 0 {
                assert(s as int * oc as int == 0) by (nonlinear_arith)
                    requires
                        s == 0,
                ;
                lemma_small_mod(0nat, m as nat);
                lemma_small_mod(orig.constant as nat, m as nat);
                assert(newc == orig.constant);
            }
            assert(other.monomials@.take(0) =~= Seq::<(Var, u64)>::empty());
            assert forall|asn: Map<Var, int>|
                congruent(
                    #[trigger] lc_eval(*self, asn),
                    lc_eval(orig, asn) + s * (oc + mon_sum(other.monomials@.take(0), asn)),
                    m as int,
                ) by {
                let mi = m as int;
                // newc ~ orig.constant + s * oc, and the monomials are unchanged
                lemma_small_mod(orig.constant as nat, m as nat);
                lemma_small_mod(newc as nat, m as nat);
                lemma_add_mod_noop(orig.constant as int, s as int * oc as int, mi);
                assert(newc as int % mi == (orig.constant + s as int * oc as int) % mi);
                let ms = mon_sum(orig.monomials@, asn);
                lemma_add_mod_noop(newc as int, ms, mi);
                lemma_add_mod_noop(orig.constant + s as int * oc as int, ms, mi);
                assert(s * (oc + 0) == s as int * oc as int) by (nonlinear_arith);
            }
        }
        while k < other.monomials.len()
            invariant
                lc_wf(*self),
                self.modulus == m,
                1 < m,
                lc_wf(*other),
                other.modulus == m,
                s < m,
                oc == other.constant,
                k <= other.monomials@.len(),
                s == 0 ==> self.constant == orig.constant && self.monomials@ == orig.monomials@,
                forall|v: Var|
                    contains_var(self.monomials@, v) ==> contains_var(orig.monomials@, v)
                        || contains_var(other.monomials@, v),
                forall|asn: Map<Var, int>|
                    congruent(
                        #[trigger] lc_eval(*self, asn),
                        lc_eval(orig, asn) + s * (oc + mon_sum(
                            other.monomials@.take(k as int),
                            asn,
                        )),
                        m as int,
                    ),
            decreases other.monomials@.len() - k,
        {
            let ghost pre = *self;
            let pair = other.monomials[k];
            let v = pair.0;
            let c = pair.1;
            let delta = mul_mod(s, c, m);
            proof {
                if s == 0 {
                    assert(s as int * c as int == 0) by (nonlinear_arith)
                        requires
                            s == 0,
                    ;
                    lemma_small_mod(0nat, m as nat);
                    assert(delta == 0);
                }
            }
            // the exact change to the monomial sum, as a coefficient on asn[v]
            let ghost d: int = 0;
            if delta != 0 {
                match self.find_var(v) {
                    Some(j) => {
                        let cj = self.monomials[j].1;
                        let nc = add_mod(cj, delta, m);
                        if nc == 0 {
                            self.monomials.remove(j);
                            proof {
                                d = 0 - cj as int;
                                let sm = pre.monomials@;
                                let t = self.monomials@;
                                assert forall|i1: int, i2: int|
                                    0 <= i1 < i2 < t.len() implies t[i1].0 != t[i2].0 by {
                                    if i2 < j {
                                    } else if i1 < j {
                                        assert(t[i2] == sm[i2 + 1]);
                                    } else {
                                        assert(t[i1] == sm[i1 + 1]);
                                        assert(t[i2] == sm[i2 + 1]);
                                    }
                                }
                                assert forall|w: Var| contains_var(t, w) implies contains_var(
                                    sm,
                                    w,
                                ) by {
                                    let j2 = choose|j2: int| 0 <= j2 < t.len() && t[j2].0 == w;
                                    if j2 < j {
                                        assert(sm[j2].0 == w);
                                    } else {
                                        assert(sm[j2 + 1].0 == w);
                                    }
                                }
                                assert forall|asn: Map<Var, int>|
                                    lc_eval(*self, asn) == lc_eval(pre, asn) + d * asn[v] by {
                                    lemma_mon_sum_remove(sm, j as int, asn);
                                    assert((0 - cj as int) * asn[v] == 0 - cj as int * asn[v])
                                        by (nonlinear_arith);
                                }
                                // -cj ~ delta (mod m), since cj + delta ~ 0
                                let mi = m as int;
                                lemma_small_mod(delta as nat, m as nat);
                                lemma_sub_mod_noop(delta as int, cj as int + delta as int, mi);
                                assert((0 - cj as int) % mi == delta as int % mi);
                                assert(congruent(d, delta as int, mi));
                            }
                        } else {
                            let e = vstd::std_specs::vec::vec_index_mut(&mut self.monomials, j);
                            *e = (v, nc);
                            proof {
                                d = nc as int - cj as int;
                                let sm = pre.monomials@;
                                let t = self.monomials@;
                                assert(t =~= sm.update(j as int, (v, nc)));
                                assert forall|i1: int| 0 <= i1 < t.len() implies t[i1].0
                                    == sm[i1].0 by {}
                                assert forall|w: Var| contains_var(t, w) implies contains_var(
                                    sm,
                                    w,
                                ) by {
                                    let j2 = choose|j2: int| 0 <= j2 < t.len() && t[j2].0 == w;
                                    assert(sm[j2].0 == w);
                                }
                                assert forall|asn: Map<Var, int>|
                                    lc_eval(*self, asn) == lc_eval(pre, asn) + d * asn[v] by {
                                    assert(sm[j as int] == (v, cj));
                                    lemma_mon_sum_update(sm, j as int, nc, asn);
                                    assert((nc as int - cj as int) * asn[v] == nc as int * asn[v]
                                        - cj as int * asn[v]) by (nonlinear_arith);
                                }
                                // nc - cj ~ delta (mod m)
                                let mi = m as int;
                                lemma_small_mod(delta as nat, m as nat);
                                lemma_sub_mod_noop(cj as int + delta as int, cj as int, mi);
                                lemma_small_mod(nc as nat, m as nat);
                                lemma_sub_mod_noop(nc as int, cj as int, mi);
                                assert((nc as int - cj as int) % mi == ((cj as int + delta as int)
                                    - cj as int) % mi);
                                assert(congruent(d, delta as int, mi));
                            }
                        }
                    }
                    None => {
                        self.monomials.push((v, delta));
                        proof {
                            d = delta as int;
                            let sm = pre.monomials@;
                            let t = self.monomials@;
                            assert forall|i1: int, i2: int|
                                0 <= i1 < i2 < t.len() implies t[i1].0 != t[i2].0 by {
                                if i2 == t.len() - 1 {
                                    assert(t[i1] == sm[i1]);
                                    assert(!contains_var(sm, v));
                                }
                            }
                            assert(contains_var(other.monomials@, v));
                            assert forall|w: Var| contains_var(t, w) implies contains_var(sm, w)
                                || w == v by {
                                let j2 = choose|j2: int| 0 <= j2 < t.len() && t[j2].0 == w;
                                if j2 < t.len() - 1 {
                                    assert(sm[j2].0 == w);
                                }
                            }
                            assert forall|asn: Map<Var, int>|
                                lc_eval(*self, asn) == lc_eval(pre, asn) + d * asn[v] by {
                                lemma_mon_sum_push(sm, (v, delta), asn);
                            }
                            lemma_small_mod(delta as nat, m as nat);
                        }
                    }
                }
            } else {
                proof {
                    lemma_small_mod(0nat, m as nat);
                    assert forall|asn: Map<Var, int>|
                        lc_eval(*self, asn) == lc_eval(pre, asn) + d * asn[v] by {}
                }
            }
            proof {
                let mi = m as int;
                // in every branch: congruent(d, s * c, m)
                assert(congruent(d, s as int * c as int, mi));
                assert(other.monomials@[k as int] == (v, c));
                assert forall|asn: Map<Var, int>|
                    congruent(
                        #[trigger] lc_eval(*self, asn),
                        lc_eval(orig, asn) + s * (oc + mon_sum(
                            other.monomials@.take(k as int + 1),
                            asn,
                        )),
                        m as int,
                    ) by {
                    let av = asn[v];
                    lemma_mon_sum_take_step(other.monomials@, k as int, asn);
                    let st = mon_sum(other.monomials@.take(k as int), asn);
                    assert(mon_sum(other.monomials@.take(k as int + 1), asn) == st + c * av);
                    // invariant instance at this assignment
                    assert(congruent(
                        lc_eval(pre, asn),
                        lc_eval(orig, asn) + s * (oc + st),
                        mi,
                    ));
                    assert(lc_eval(*self, asn) == lc_eval(pre, asn) + d * av);
                    lemma_cong_add_mul(
                        lc_eval(pre, asn),
                        lc_eval(orig, asn) + s * (oc + st),
                        d,
                        s as int * c as int,
                        av,
                        mi,
                    );
                    assert(s * (oc + (st + c * av)) == s * (oc + st) + (s as int * c as int) * av)
                        by (nonlinear_arith);
                }
            }
            k = k + 1;
        }
        proof {
            assert(other.monomials@.take(other.monomials@.len() as int) =~= other.monomials@);
        }
    }
}

/// A unit times a nonzero residue stays nonzero: if `s` has an inverse and
/// `0 < c < m`, then `(s * c) % m != 0`.
proof fn lemma_unit_scale_nonzero(s: u64, s_inv: u64, c: u64, m: u64)
    requires
        1 < m,
        (s as int * s_inv as int) % (m as int) == 1,
        0 < c < m,
    ensures
        (s as int * c as int) % (m as int) != 0,
{
    let mi = m as int;
    let si = s as int;
    let ii = s_inv as int;
    let ci = c as int;
    if (si * ci) % mi == 0 {
        lemma_mul_mod_noop_left(si * ii, ci, mi);
        lemma_small_mod(c as nat, m as nat);
        assert((1 * ci) % mi == ci % mi);
        assert(((si * ii) * ci) % mi == ci);
        assert((si * ii) * ci == ii * (si * ci)) by (nonlinear_arith);
        lemma_mul_mod_noop_right(ii, si * ci, mi);
        assert((ii * ((si * ci) % mi)) % mi == (ii * (si * ci)) % mi);
        assert(ii * 0 == 0) by (nonlinear_arith);
        lemma_small_mod(0nat, m as nat);
        assert(ci == 0);
    }
}

impl Lc {
    /// Multiply by `s`, pruning any coefficient driven to exactly zero.
    pub fn scale(&mut self, s: u64)
        requires
            lc_wf(*old(self)),
            s < old(self).modulus,
        ensures
            lc_wf(*final(self)),
            final(self).modulus == old(self).modulus,
            forall|v: Var|
                contains_var(final(self).monomials@, v) ==> contains_var(
                    old(self).monomials@,
                    v,
                ),
            forall|asn: Map<Var, int>|
                congruent(
                    #[trigger] lc_eval(*final(self), asn),
                    s * lc_eval(*old(self), asn),
                    old(self).modulus as int,
                ),
    {
        let ghost orig = *self;
        let m = self.modulus;
        self.constant = mul_mod(s, self.constant, m);
        let mut out: Vec<(Var, u64)> = Vec::new();
        let mut i: usize = 0;
        proof {
            assert(out@ =~= Seq::<(Var, u64)>::empty());
            assert(orig.monomials@.take(0) =~= Seq::<(Var, u64)>::empty());
        }
        while i < self.monomials.len()
            invariant
                1 < m,
                s < m,
                lc_wf(orig),
                orig.modulus == m,
                self.monomials@ == orig.monomials@,
                i <= orig.monomials@.len(),
                unique_keys(out@),
                coeffs_wf(out@, m),
                forall|w: Var|
                    contains_var(out@, w) ==> contains_var(orig.monomials@.take(i as int), w),
                forall|asn: Map<Var, int>|
                    congruent(
                        #[trigger] mon_sum(out@, asn),
                        s * mon_sum(orig.monomials@.take(i as int), asn),
                        m as int,
                    ),
            decreases orig.monomials@.len() - i,
        {
            let ghost preout = out@;
            let pair = self.monomials[i];
            let v = pair.0;
            let c = pair.1;
            let nc = mul_mod(s, c, m);
            if nc != 0 {
                proof {
                    if contains_var(preout, v) {
                        let j2 = choose|j2: int| 0 <= j2 < preout.len() && preout[j2].0 == v;
                        let jj = choose|jj: int|
                            0 <= jj < i && orig.monomials@.take(i as int)[jj].0 == v;
                        assert(orig.monomials@[jj].0 == orig.monomials@[i as int].0);
                    }
                }
                out.push((v, nc));
            }
            proof {
                let tk = orig.monomials@.take(i as int);
                let tk1 = orig.monomials@.take(i as int + 1);
                assert(orig.monomials@[i as int] == (v, c));
                assert forall|w: Var| contains_var(out@, w) implies contains_var(tk1, w) by {
                    let j2 = choose|j2: int| 0 <= j2 < out@.len() && out@[j2].0 == w;
                    if j2 < preout.len() {
                        assert(contains_var(preout, w));
                        let jj = choose|jj: int| 0 <= jj < tk.len() && tk[jj].0 == w;
                        assert(tk1[jj].0 == w);
                    } else {
                        assert(tk1[i as int].0 == w);
                    }
                }
                assert forall|asn: Map<Var, int>|
                    congruent(
                        #[trigger] mon_sum(out@, asn),
                        s * mon_sum(tk1, asn),
                        m as int,
                    ) by {
                    let mi = m as int;
                    let av = asn[v];
                    lemma_mon_sum_take_step(orig.monomials@, i as int, asn);
                    let st = mon_sum(tk, asn);
                    assert(congruent(mon_sum(preout, asn), s * st, mi));
                    if nc != 0 {
                        lemma_mon_sum_push(preout, (v, nc), asn);
                        assert(mon_sum(out@, asn) == mon_sum(preout, asn) + nc * av);
                    } else {
                        assert(mon_sum(out@, asn) == mon_sum(preout, asn) + nc * av);
                    }
                    lemma_small_mod(nc as nat, m as nat);
                    lemma_cong_add_mul(
                        mon_sum(preout, asn),
                        s * st,
                        nc as int,
                        s as int * c as int,
                        av,
                        mi,
                    );
                    assert(s * (st + c * av) == s * st + (s as int * c as int) * av)
                        by (nonlinear_arith);
                }
            }
            i = i + 1;
        }
        self.monomials = out;
        proof {
            assert(orig.monomials@.take(orig.monomials@.len() as int) =~= orig.monomials@);
            assert forall|asn: Map<Var, int>|
                congruent(
                    #[trigger] lc_eval(*self, asn),
                    s * lc_eval(orig, asn),
                    m as int,
                ) by {
                let mi = m as int;
                let sc = (s as int * orig.constant as int) % mi;
                assert(self.constant as int == sc);
                lemma_mul_mod_noop_left(s as int, orig.constant as int, mi);
                lemma_small_mod(self.constant as nat, m as nat);
                // constant part ~ s * orig.constant; monomial part ~ s * sum
                lemma_add_mod_noop(self.constant as int, mon_sum(self.monomials@, asn), mi);
                lemma_add_mod_noop(
                    s as int * orig.constant as int,
                    s * mon_sum(orig.monomials@, asn),
                    mi,
                );
                assert(congruent(
                    mon_sum(self.monomials@, asn),
                    s * mon_sum(orig.monomials@, asn),
                    mi,
                ));
                assert((self.constant as int) % mi == (s as int * orig.constant as int) % mi);
                assert(s * (orig.constant + mon_sum(orig.monomials@, asn)) == s as int
                    * orig.constant as int + s * mon_sum(orig.monomials@, asn))
                    by (nonlinear_arith);
            }
        }
    }
}

impl Lc {
    /// Multiply by an invertible `s`: no coefficient can be driven to zero,
    /// so the monomials keep their keys, order and count.
    pub(crate) fn scale_by_unit(&mut self, s: u64, s_inv: u64)
        requires
            lc_wf(*old(self)),
            s < old(self).modulus,
            s_inv < old(self).modulus,
            (s as int * s_inv as int) % (old(self).modulus as int) == 1,
        ensures
            lc_wf(*final(self)),
            final(self).modulus == old(self).modulus,
            final(self).monomials@.len() == old(self).monomials@.len(),
            forall|j: int|
                0 <= j < final(self).monomials@.len()
                    ==> (#[trigger] final(self).monomials@[j]).0 == old(self).monomials@[j].0,
            forall|asn: Map<Var, int>|
                congruent(
                    #[trigger] lc_eval(*final(self), asn),
                    s * lc_eval(*old(self), asn),
                    old(self).modulus as int,
                ),
    {
        let ghost orig = *self;
        let m = self.modulus;
        self.constant = mul_mod(s, self.constant, m);
        let mut out: Vec<(Var, u64)> = Vec::new();
        let mut i: usize = 0;
        proof {
            assert(out@ =~= Seq::<(Var, u64)>::empty());
            assert(orig.monomials@.take(0) =~= Seq::<(Var, u64)>::empty());
        }
        while i < self.monomials.len()
            invariant
                1 < m,
                s < m,
                s_inv < m,
                (s as int * s_inv as int) % (m as int) == 1,
                lc_wf(orig),
                orig.modulus == m,
                self.monomials@ == orig.monomials@,
                i <= orig.monomials@.len(),
                out@.len() == i,
                coeffs_wf(out@, m),
                forall|j: int| 0 <= j < i ==> (#[trigger] out@[j]).0 == orig.monomials@[j].0,
                forall|asn: Map<Var, int>|
                    congruent(
                        #[trigger] mon_sum(out@, asn),
                        s * mon_sum(orig.monomials@.take(i as int), asn),
                        m as int,
                    ),
            decreases orig.monomials@.len() - i,
        {
            let ghost preout = out@;
            let pair = self.monomials[i];
            let v = pair.0;
            let c = pair.1;
            let nc = mul_mod(s, c, m);
            proof {
                lemma_unit_scale_nonzero(s, s_inv, c, m);
            }
            out.push((v, nc));
            proof {
                let tk = orig.monomials@.take(i as int);
                let tk1 = orig.monomials@.take(i as int + 1);
                assert(orig.monomials@[i as int] == (v, c));
                assert forall|asn: Map<Var, int>|
                    congruent(
                        #[trigger] mon_sum(out@, asn),
                        s * mon_sum(tk1, asn),
                        m as int,
                    ) by {
                    let mi = m as int;
                    let av = asn[v];
                    lemma_mon_sum_take_step(orig.monomials@, i as int, asn);
                    let st = mon_sum(tk, asn);
                    assert(congruent(mon_sum(preout, asn), s * st, mi));
                    lemma_mon_sum_push(preout, (v, nc), asn);
                    lemma_small_mod(nc as nat, m as nat);
                    lemma_cong_add_mul(
                        mon_sum(preout, asn),
                        s * st,
                        nc as int,
                        s as int * c as int,
                        av,
                        mi,
                    );
                    assert(s * (st + c * av) == s * st + (s as int * c as int) * av)
                        by (nonlinear_arith);
                }
            }
            i = i + 1;
        }
        self.monomials = out;
        proof {
            assert(orig.monomials@.take(orig.monomials@.len() as int) =~= orig.monomials@);
            assert forall|asn: Map<Var, int>|
                congruent(
                    #[trigger] lc_eval(*self, asn),
                    s * lc_eval(orig, asn),
                    m as int,
                ) by {
                let mi = m as int;
                lemma_mul_mod_noop_left(s as int, orig.constant as int, mi);
                lemma_small_mod(self.constant as nat, m as nat);
                lemma_add_mod_noop(self.constant as int, mon_sum(self.monomials@, asn), mi);
                lemma_add_mod_noop(
                    s as int * orig.constant as int,
                    s * mon_sum(orig.monomials@, asn),
                    mi,
                );
                assert(congruent(
                    mon_sum(self.monomials@, asn),
                    s * mon_sum(orig.monomials@, asn),
                    mi,
                ));
                assert((self.constant as int) % mi == (s as int * orig.constant as int) % mi);
                assert(s * (orig.constant + mon_sum(orig.monomials@, asn)) == s as int
                    * orig.constant as int + s * mon_sum(orig.monomials@, asn))
                    by (nonlinear_arith);
            }
        }
    }

    /// Negate in place: the monomials keep their keys, order and count.
    pub fn negate(&mut self)
        requires
            lc_wf(*old(self)),
        ensures
            lc_wf(*final(self)),
            final(self).modulus == old(self).modulus,
            final(self).monomials@.len() == old(self).monomials@.len(),
            forall|j: int|
                0 <= j < final(self).monomials@.len()
                    ==> (#[trigger] final(self).monomials@[j]).0 == old(self).monomials@[j].0,
            forall|asn: Map<Var, int>|
                congruent(
                    #[trigger] lc_eval(*final(self), asn),
                    0 - lc_eval(*old(self), asn),
                    old(self).modulus as int,
                ),
    {
        let ghost orig = *self;
        let m = self.modulus;
        let s = m - 1;
        proof {
            let mi = m as int;
            assert((mi - 1) * (mi - 1) == mi * (mi - 2) + 1) by (nonlinear_arith);
            lemma_mod_multiples_vanish(mi - 2, 1, mi);
            lemma_small_mod(1nat, m as nat);
            assert((s as int * s as int) % mi == 1);
        }
        self.scale_by_unit(s, s);
        proof {
            assert forall|asn: Map<Var, int>|
                congruent(
                    #[trigger] lc_eval(*self, asn),
                    0 - lc_eval(orig, asn),
                    m as int,
                ) by {
                let mi = m as int;
                let t = lc_eval(orig, asn);
                assert(congruent(lc_eval(*self, asn), s * t, mi));
                lemma_mul_mod_noop_left(0 - 1, t, mi);
                lemma_mod_add_multiples_vanish(0 - 1, mi);
                lemma_small_mod((m - 1) as nat, m as nat);
                assert(((0 - 1) % mi) == s as int);
                assert((0 - 1) * t == 0 - t) by (nonlinear_arith);
                assert((s as int * t) % mi == (0 - t) % mi);
            }
        }
    }

    /// Add `other` into `self`.
    pub fn add(&mut self, other: &Lc)
        requires
            lc_wf(*old(self)),
            lc_wf(*other),
            old(self).modulus == other.modulus,
        ensures
            lc_wf(*final(self)),
            final(self).modulus == old(self).modulus,
            forall|v: Var|
                contains_var(final(self).monomials@, v) ==> contains_var(
                    old(self).monomials@,
                    v,
                ) || contains_var(other.monomials@, v),
            forall|asn: Map<Var, int>|
                congruent(
                    #[trigger] lc_eval(*final(self), asn),
                    lc_eval(*old(self), asn) + lc_eval(*other, asn),
                    old(self).modulus as int,
                ),
    {
        self.add_scaled(1, other);
    }

    /// Subtract `other` from `self`.
    pub fn sub(&mut self, other: &Lc)
        requires
            lc_wf(*old(self)),
            lc_wf(*other),
            old(self).modulus == other.modulus,
        ensures
            lc_wf(*final(self)),
            final(self).modulus == old(self).modulus,
            forall|v: Var|
                contains_var(final(self).monomials@, v) ==> contains_var(
                    old(self).monomials@,
                    v,
                ) || contains_var(other.monomials@, v),
            forall|asn: Map<Var, int>|
                congruent(
                    #[trigger] lc_eval(*final(self), asn),
                    lc_eval(*old(self), asn) - lc_eval(*other, asn),
                    old(self).modulus as int,
                ),
    {
        let ghost orig = *self;
        let m = self.modulus;
        let s = m - 1;
        self.add_scaled(s, other);
        proof {
            assert forall|asn: Map<Var, int>|
                congruent(
                    #[trigger] lc_eval(*self, asn),
                    lc_eval(orig, asn) - lc_eval(*other, asn),
                    m as int,
                ) by {
                let mi = m as int;
                let t = lc_eval(*other, asn);
                assert(congruent(lc_eval(*self, asn), lc_eval(orig, asn) + s * t, mi));
                lemma_mod_add_multiples_vanish(0 - 1, mi);
                lemma_small_mod((m - 1) as nat, m as nat);
                lemma_cong_add_mul(lc_eval(orig, asn), lc_eval(orig, asn), s as int, 0 - 1, t, mi);
                assert((0 - 1) * t == 0 - t) by (nonlinear_arith);
            }
        }
    }

    /// Replace every occurrence of `var` by `value`, scaled by `var`'s
    /// coefficient here.  Reports whether `var` was present at all.  Under
    /// any assignment that binds `var` to the value of `value`, the
    /// combination keeps its value.
    pub fn eliminate(&mut self, var: Var, value: &Lc) -> (changed: bool)
        requires
            lc_wf(*old(self)),
            lc_wf(*value),
            old(self).modulus == value.modulus,
            !contains_var(value.monomials@, var),
        ensures
            lc_wf(*final(self)),
            final(self).modulus == old(self).modulus,
            changed == contains_var(old(self).monomials@, var),
            !changed ==> *final(self) == *old(self),
            !contains_var(final(self).monomials@, var),
            forall|v: Var|
                contains_var(final(self).monomials@, v) ==> contains_var(
                    old(self).monomials@,
                    v,
                ) || contains_var(value.monomials@, v),
            forall|asn: Map<Var, int>|
                congruent(asn[var], lc_eval(*value, asn), old(self).modulus as int) ==> congruent(
                    #[trigger] lc_eval(*final(self), asn),
                    lc_eval(*old(self), asn),
                    old(self).modulus as int,
                ),
    {
        let ghost orig = *self;
        let m = self.modulus;
        match self.find_var(var) {
            None => false,
            Some(j) => {
                let sc = self.monomials[j].1;
                self.monomials.remove(j);
                let ghost mid = *self;
                proof {
                    let sm = orig.monomials@;
                    let t = self.monomials@;
                    assert forall|i1: int, i2: int|
                        0 <= i1 < i2 < t.len() implies t[i1].0 != t[i2].0 by {
                        if i2 < j {
                        } else if i1 < j {
                            assert(t[i2] == sm[i2 + 1]);
                        } else {
                            assert(t[i1] == sm[i1 + 1]);
                            assert(t[i2] == sm[i2 + 1]);
                        }
                    }
                    assert forall|w: Var| contains_var(t, w) implies contains_var(sm, w) && (w
                        != var || false) by {
                        let j2 = choose|j2: int| 0 <= j2 < t.len() && t[j2].0 == w;
                        if j2 < j {
                            assert(sm[j2].0 == w);
                            if w == var {
                                assert(sm[j2].0 == sm[j as int].0);
                            }
                        } else {
                            assert(sm[j2 + 1].0 == w);
                            if w == var {
                                assert(sm[j2 + 1].0 == sm[j as int].0);
                            }
                        }
                    }
                    assert(!contains_var(mid.monomials@, var));
                }
                self.add_scaled(sc, value);
                proof {
                    assert(contains_var(orig.monomials@, var)) by {
                        assert(orig.monomials@[j as int].0 == var);
                    }
                    assert forall|w: Var| contains_var(self.monomials@, w) implies contains_var(
                        orig.monomials@,
                        w,
                    ) || contains_var(value.monomials@, w) by {}
                    assert(!contains_var(self.monomials@, var)) by {
                        if contains_var(self.monomials@, var) {
                            assert(contains_var(mid.monomials@, var) || contains_var(
                                value.monomials@,
                                var,
                            ));
                        }
                    }
                    assert forall|asn: Map<Var, int>|
                        congruent(asn[var], lc_eval(*value, asn), m as int) implies congruent(
                        #[trigger] lc_eval(*self, asn),
                        lc_eval(orig, asn),
                        m as int,
                    ) by {
                        let mi = m as int;
                        let av = asn[var];
                        let ev = lc_eval(*value, asn);
                        lemma_mon_sum_remove(orig.monomials@, j as int, asn);
                        assert(lc_eval(mid, asn) == lc_eval(orig, asn) - sc * av);
                        assert(congruent(lc_eval(*self, asn), lc_eval(mid, asn) + sc * ev, mi));
                        // sc * ev ~ sc * av, so the removed term is restored
                        lemma_cong_add_mul(
                            lc_eval(mid, asn),
                            lc_eval(orig, asn) - sc * av,
                            sc as int,
                            sc as int,
                            0,
                            mi,
                        );
                        lemma_mul_mod_noop_right(sc as int, ev, mi);
                        lemma_mul_mod_noop_right(sc as int, av, mi);
                        assert(congruent(sc as int * ev, sc as int * av, mi));
                        lemma_add_mod_noop(lc_eval(mid, asn), sc as int * ev, mi);
                        lemma_add_mod_noop(lc_eval(orig, asn) - sc * av, sc as int * av, mi);
                        assert(congruent(
                            lc_eval(mid, asn) + sc * ev,
                            lc_eval(orig, asn) - sc * av + sc * av,
                            mi,
                        ));
                    }
                }
                true
            }
        }
    }
}

/// The monomial sum reads only the variables it mentions: assignments that
/// agree on those give the same sum.
pub proof fn lemma_mon_sum_agrees(s: Seq<(Var, u64)>, a1: Map<Var, int>, a2: Map<Var, int>)
    requires
        forall|v: Var| #[trigger] contains_var(s, v) ==> a1[v] == a2[v],
    ensures
        mon_sum(s, a1) == mon_sum(s, a2),
    decreases s.len(),
{
    if s.len() > 0 {
        assert(contains_var(s, s[0].0)) by {
            assert(s[0].0 == s[0].0);
        }
        assert forall|v: Var| #[trigger] contains_var(s.drop_first(), v) implies a1[v]
            == a2[v] by {
            let j = choose|j: int| 0 <= j < s.drop_first().len() && s.drop_first()[j].0 == v;
            assert(s[j + 1].0 == v);
            assert(contains_var(s, v));
        }
        lemma_mon_sum_agrees(s.drop_first(), a1, a2);
    }
}

/// If `x ~ y` and `d ~ e` (mod `m`), then `x + d*t ~ y + e*t`.
pub proof fn lemma_cong_add_mul(x: int, y: int, d: int, e: int, t: int, m: int)
    requires
        1 < m,
        congruent(x, y, m),
        congruent(d, e, m),
    ensures
        congruent(x + d * t, y + e * t, m),
{
    lemma_mul_mod_noop_left(d, t, m);
    lemma_mul_mod_noop_left(e, t, m);
    assert((d * t) % m == (e * t) % m) by {
        assert((d % m) * t == (e % m) * t);
    }
    lemma_add_mod_noop(x, d * t, m);
    lemma_add_mod_noop(y, e * t, m);
}

} // verus!
