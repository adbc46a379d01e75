//! Constraints and constraint systems.
//!
//! A constraint is a triple of linear combinations `(A, B, C)` asserting
//! `(A·x)(B·x) = C·x` in the field.  A system owns an ordered sequence of
//! constraints, the ordered list of live variables, the field modulus, and
//! the policy saying which variable roles the optimizer may eliminate.

use vstd::prelude::*;
use crate::lc::{contains_var, lc_equal, lc_eval, lc_is_zero, lc_wf, Lc, Var, VarType};
use crate::field::congruent;

verus! {

/// A bilinear constraint `(A·x)(B·x) = C·x`.
#[derive(Debug)]
pub struct Constraint {
    pub a: Lc,
    pub b: Lc,
    pub c: Lc,
}

/// Well-formedness of a constraint under the system modulus.
pub open spec fn con_wf(con: Constraint, m: u64) -> bool {
    &&& lc_wf(con.a)
    &&& lc_wf(con.b)
    &&& lc_wf(con.c)
    &&& con.a.modulus == m
    &&& con.b.modulus == m
    &&& con.c.modulus == m
}

/// The constraint holds under an integer assignment, in the field.
pub open spec fn sat_con(con: Constraint, asn: Map<Var, int>, m: int) -> bool {
    (lc_eval(con.a, asn) * lc_eval(con.b, asn) - lc_eval(con.c, asn)) % m == 0
}

/// Some combination of the constraint mentions `v`.
pub open spec fn con_mentions(con: Constraint, v: Var) -> bool {
    contains_var(con.a.monomials@, v) || contains_var(con.b.monomials@, v) || contains_var(
        con.c.monomials@,
        v,
    )
}

/// Structural equality of constraints, by view.
pub open spec fn con_equal(x: Constraint, y: Constraint) -> bool {
    lc_equal(x.a, y.a) && lc_equal(x.b, y.b) && lc_equal(x.c, y.c)
}

/// The canonical shape kept by normalization: either both factors are the
/// zero combination (a degenerate, purely linear constraint `C = 0`), or
/// both are genuine linear forms.
pub open spec fn con_normalized(con: Constraint) -> bool {
    (lc_is_zero(con.a) && lc_is_zero(con.b)) || (con.a.monomials@.len() > 0
        && con.b.monomials@.len() > 0)
}

/// Every constraint of the sequence holds under the assignment.
pub open spec fn sat_sys(cs: Seq<Constraint>, asn: Map<Var, int>, m: int) -> bool {
    forall|i: int| 0 <= i < cs.len() ==> sat_con(#[trigger] cs[i], asn, m)
}

/// Some constraint of the sequence mentions `v`.
pub open spec fn sys_mentions(cs: Seq<Constraint>, v: Var) -> bool {
    exists|i: int| 0 <= i < cs.len() && con_mentions(#[trigger] cs[i], v)
}

/// Which variable roles the optimizer may eliminate.  This is the injected
/// eligibility policy: it is data, consulted per variable role.
#[derive(Clone, Copy, PartialEq, Eq, Structural, Debug)]
pub struct ElimPolicy {
    pub inst: bool,
    pub cwit: bool,
    pub round_wit: bool,
    pub chall: bool,
    pub final_wit: bool,
}

impl ElimPolicy {
    /// The policy admits this variable.
    pub open spec fn allows(self, v: Var) -> bool {
        match v.ty {
            VarType::Inst => self.inst,
            VarType::CWit => self.cwit,
            VarType::RoundWit => self.round_wit,
            VarType::Chall => self.chall,
            VarType::FinalWit => self.final_wit,
        }
    }

    /// The usual policy: every private witness role may be eliminated,
    /// public instance variables never.
    pub fn private_only() -> (r: ElimPolicy)
        ensures
            forall|v: Var| r.allows(v) <==> v.ty != VarType::Inst,
    {
        ElimPolicy { inst: false, cwit: true, round_wit: true, chall: true, final_wit: true }
    }
}

/// A rank-1 constraint system.
#[derive(Debug)]
pub struct R1cs {
    pub modulus: u64,
    pub constraints: Vec<Constraint>,
    pub vars: Vec<Var>,
    pub policy: ElimPolicy,
}

/// `v` is in the live-variable list.
pub open spec fn live(sys: R1cs, v: Var) -> bool {
    sys.vars@.contains(v)
}

/// Well-formedness of a system: a usable modulus, well-formed constraints,
/// no duplicate live variables, and every variable occurring in a
/// constraint present in the live list.
pub open spec fn r1cs_wf(sys: R1cs) -> bool {
    &&& 1 < sys.modulus
    &&& forall|i: int|
        0 <= i < sys.constraints@.len() ==> con_wf(#[trigger] sys.constraints@[i], sys.modulus)
    &&& forall|i: int, j: int| 0 <= i < j < sys.vars@.len() ==> sys.vars@[i] != sys.vars@[j]
    &&& forall|v: Var| sys_mentions(sys.constraints@, v) ==> live(sys, v)
}

impl Constraint {
    /// A structural copy.
    pub fn duplicate(&self) -> (r: Constraint)
        ensures
            con_equal(r, *self),
    {
        Constraint { a: self.a.duplicate(), b: self.b.duplicate(), c: self.c.duplicate() }
    }
}

impl R1cs {
    /// An empty system over the given modulus.
    pub fn new(modulus: u64, policy: ElimPolicy) -> (r: R1cs)
        requires
            1 < modulus,
        ensures
            r1cs_wf(r),
            r.modulus == modulus,
            r.policy == policy,
            r.constraints@.len() == 0,
            r.vars@.len() == 0,
    {
        let r = R1cs { modulus, constraints: Vec::new(), vars: Vec::new(), policy };
        proof {
            assert(forall|v: Var| !sys_mentions(r.constraints@, v));
        }
        r
    }

    /// The number of live variables.
    pub fn num_vars(&self) -> (r: usize)
        ensures
            r == self.vars@.len(),
    {
        self.vars.len()
    }

    /// Whether the elimination policy admits `v`.
    pub fn can_eliminate(&self, v: Var) -> (r: bool)
        ensures
            r == self.policy.allows(v),
    {
        match v.ty {
            VarType::Inst => self.policy.inst,
            VarType::CWit => self.policy.cwit,
            VarType::RoundWit => self.policy.round_wit,
            VarType::Chall => self.policy.chall,
            VarType::FinalWit => self.policy.final_wit,
        }
    }

    /// Whether `v` is in the live-variable list.
    pub fn is_live(&self, v: Var) -> (r: bool)
        ensures
            r == live(*self, v),
    {
        let mut i: usize = 0;
        while i < self.vars.len()
            invariant
                i <= self.vars@.len(),
                forall|j: int| 0 <= j < i ==> self.vars@[j] != v,
            decreases self.vars@.len() - i,
        {
            if self.vars[i] == v {
                return true;
            }
            i = i + 1;
        }
        false
    }

    /// Declare a variable: appended to the live list unless already there.
    pub fn add_var(&mut self, v: Var)
        requires
            r1cs_wf(*old(self)),
        ensures
            r1cs_wf(*final(self)),
            final(self).modulus == old(self).modulus,
            final(self).policy == old(self).policy,
            final(self).constraints@ == old(self).constraints@,
            forall|w: Var| live(*final(self), w) <==> live(*old(self), w) || w == v,
    {
        if !self.is_live(v) {
            self.vars.push(v);
            proof {
                assert forall|w: Var| live(*self, w) implies live(
                    *old(self),
                    w,
                ) || w == v by {
                    let j = choose|j: int| 0 <= j < self.vars@.len() && self.vars@[j] == w;
                    if j < self.vars@.len() - 1 {
                        assert(old(self).vars@[j] == w);
                    }
                }
                assert forall|w: Var| live(*old(self), w) || w == v implies live(
                    *self,
                    w,
                ) by {
                    if w == v {
                        assert(self.vars@[self.vars@.len() - 1] == v);
                    } else {
                        let j = choose|j: int|
                            0 <= j < old(self).vars@.len() && old(self).vars@[j] == w;
                        assert(self.vars@[j] == w);
                    }
                }
            }
        }
    }

    /// Append a constraint, after checking that every variable it mentions
    /// is live.  Returns whether it was appended; on `false` the system is
    /// unchanged.
    pub fn add_constraint(&mut self, con: Constraint) -> (r: bool)
        requires
            r1cs_wf(*old(self)),
            con_wf(con, old(self).modulus),
        ensures
            r1cs_wf(*final(self)),
            final(self).modulus == old(self).modulus,
            final(self).policy == old(self).policy,
            final(self).vars@ == old(self).vars@,
            r ==> final(self).constraints@.len() == old(self).constraints@.len() + 1
                && con_equal(final(self).constraints@[old(self).constraints@.len() as int], con)
                && (forall|i: int|
                    0 <= i < old(self).constraints@.len() ==> final(self).constraints@[i] == old(
                        self,
                    ).constraints@[i]),
            !r ==> final(self).constraints@ == old(self).constraints@ && exists|v: Var|
                con_mentions(con, v) && !live(*old(self), v),
    {
        // check the three combinations for non-live variables
        let mut part: usize = 0;
        while part < 3
            invariant
                r1cs_wf(*self),
                *self == *old(self),
                con_wf(con, self.modulus),
                part >= 1 ==> forall|v: Var| contains_var(con.a.monomials@, v) ==> live(*self, v),
                part >= 2 ==> forall|v: Var| contains_var(con.b.monomials@, v) ==> live(*self, v),
                part >= 3 ==> forall|v: Var| contains_var(con.c.monomials@, v) ==> live(*self, v),
            decreases 3 - part,
        {
            let lc: &Lc = if part == 0 {
                &con.a
            } else if part == 1 {
                &con.b
            } else {
                &con.c
            };
            let mut k: usize = 0;
            while k < lc.monomials.len()
                invariant
                    r1cs_wf(*self),
                    part < 3,
                    part == 0 ==> *lc == con.a,
                    part == 1 ==> *lc == con.b,
                    part == 2 ==> *lc == con.c,
                    forall|j: int| 0 <= j < k ==> live(*self, (#[trigger] lc.monomials@[j]).0),
                decreases lc.monomials@.len() - k,
            {
                if !self.is_live(lc.monomials[k].0) {
                    proof {
                        let w = lc.monomials@[k as int].0;
                        assert(contains_var(lc.monomials@, w));
                        if part == 0 {
                            assert(contains_var(con.a.monomials@, w));
                        } else if part == 1 {
                            assert(contains_var(con.b.monomials@, w));
                        } else {
                            assert(contains_var(con.c.monomials@, w));
                        }
                        assert(con_mentions(con, w) && !live(*self, w));
                    }
                    return false;
                }
                k = k + 1;
            }
            proof {
                assert forall|v: Var| contains_var(lc.monomials@, v) implies live(
                    *self,
                    v,
                ) by {
                    let j = choose|j: int| 0 <= j < lc.monomials@.len() && lc.monomials@[j].0 == v;
                    assert(live(*self, lc.monomials@[j].0));
                }
            }
            part = part + 1;
        }
        self.constraints.push(con);
        proof {
            let cs = self.constraints@;
            let n = cs.len() - 1;
            assert(con_equal(cs[n as int], con));
            assert forall|v: Var| sys_mentions(cs, v) implies live(*self, v) by {
                let i = choose|i: int| 0 <= i < cs.len() && con_mentions(cs[i], v);
                if i < n {
                    assert(con_mentions(old(self).constraints@[i], v));
                    assert(sys_mentions(old(self).constraints@, v));
                } else {
                    assert(cs[i] == con);
                    assert(contains_var(con.a.monomials@, v) || contains_var(
                        con.b.monomials@,
                        v,
                    ) || contains_var(con.c.monomials@, v));
                    assert(live(*old(self), v));
                }
                assert(self.vars@ == old(self).vars@);
                assert(live(*old(self), v));
            }
        }
        true
    }
}

} // verus!
