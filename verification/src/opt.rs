//! The constraint-system optimizer: a worklist fixpoint that eliminates
//! variables provably equal to a linear combination of other variables.
//!
//! The pass preserves every satisfying assignment of the input system, keeps
//! the use-index exactly consistent throughout, rejects eliminations whose
//! replacement value exceeds the configured size threshold, and ends with a
//! cleanup that drops constantly-true constraints and unreferenced
//! variables.  A constant constraint whose arithmetic does not hold is
//! surfaced as an error: it proves the input system unsatisfiable.

use vstd::prelude::*;
use vstd::arithmetic::div_mod::{
    lemma_add_mod_noop, lemma_mod_add_multiples_vanish, lemma_mod_bound, lemma_mul_mod_noop_left,
    lemma_mul_mod_noop_right, lemma_small_mod, lemma_sub_mod_noop,
};
use crate::field::{congruent, gcd, inv_mod, neg_mod};
use crate::lc::{contains_var, lc_equal, lc_eval, lc_is_zero, lc_wf, mon_sum, Lc, Var};
use crate::lc::{lemma_mon_sum_remove};
use crate::r1cs::{
    con_equal, con_mentions, con_normalized, con_wf, live, r1cs_wf, sat_con, sat_sys,
    sys_mentions, Constraint, ElimPolicy, R1cs,
};
use crate::uses::{in_uses, uses_consistent, uses_wf, UseIndex};
use crate::queue::{in_queue, queue_wf, OnceQueue};

verus! {

/// The optimizer's error: a constant constraint whose arithmetic does not
/// hold, which proves the input system unsatisfiable.
#[derive(Clone, Copy, PartialEq, Eq, Structural, Debug)]
pub enum OptError {
    UnsatisfiableConstraint,
}

/// Every assignment satisfying `cs0` satisfies `cs1`.
pub open spec fn preserves_sat(cs0: Seq<Constraint>, cs1: Seq<Constraint>, m: int) -> bool {
    forall|asn: Map<Var, int>| #[trigger] sat_sys(cs0, asn, m) ==> sat_sys(cs1, asn, m)
}

/// Every assignment satisfying `cs0` binds `v` to the value of `value`.
pub open spec fn entails_equation(cs0: Seq<Constraint>, v: Var, value: Lc, m: int) -> bool {
    forall|asn: Map<Var, int>| #[trigger] sat_sys(cs0, asn, m) ==> congruent(
        asn[v],
        lc_eval(value, asn),
        m,
    )
}

/// The first monomial whose variable the policy admits, walking the
/// insertion order front to back.
pub open spec fn first_eligible(s: Seq<(Var, u64)>, policy: ElimPolicy) -> Option<(Var, u64)>
    decreases s.len(),
{
    if s.len() == 0 {
        None
    } else if policy.allows(s[0].0) {
        Some(s[0])
    } else {
        first_eligible(s.drop_first(), policy)
    }
}

/// The replacement-size cap admits a value with `n` monomials.
pub open spec fn size_ok(thresh: Option<usize>, n: int) -> bool {
    match thresh {
        Option::None => true,
        Option::Some(t) => n < t,
    }
}

/// The constraint yields an elimination the driver would accept: it is
/// effectively linear, some variable of `C` is eligible, that variable's
/// coefficient is invertible, and the solved value fits the size cap.
pub open spec fn acceptable(
    con: Constraint,
    policy: ElimPolicy,
    thresh: Option<usize>,
    m: u64,
) -> bool {
    &&& lc_is_zero(con.a) || lc_is_zero(con.b)
    &&& match first_eligible(con.c.monomials@, policy) {
        Option::None => false,
        Option::Some(p) => gcd(m as nat, p.1 as nat) == 1 && size_ok(
            thresh,
            con.c.monomials@.len() - 1,
        ),
    }
}

/// All three combinations are constants and the product equation holds.
pub open spec fn spec_constantly_true(con: Constraint, m: u64) -> bool {
    &&& con.a.monomials@.len() == 0
    &&& con.b.monomials@.len() == 0
    &&& con.c.monomials@.len() == 0
    &&& (con.a.constant * con.b.constant - con.c.constant) % (m as int) == 0
}

/// All three combinations are constants and the product equation fails.
pub open spec fn spec_constantly_false(con: Constraint, m: u64) -> bool {
    &&& con.a.monomials@.len() == 0
    &&& con.b.monomials@.len() == 0
    &&& con.c.monomials@.len() == 0
    &&& (con.a.constant * con.b.constant - con.c.constant) % (m as int) != 0
}

/// A fixpoint of the optimizer: normalized constraints, none of which
/// yields an acceptable elimination or is constantly true, and a live list
/// holding exactly the occurring variables.
pub open spec fn optimized(sys: R1cs, thresh: Option<usize>) -> bool {
    &&& forall|i: int|
        0 <= i < sys.constraints@.len() ==> con_normalized(#[trigger] sys.constraints@[i])
    &&& forall|i: int|
        0 <= i < sys.constraints@.len() ==> !acceptable(
            #[trigger] sys.constraints@[i],
            sys.policy,
            thresh,
            sys.modulus,
        )
    &&& forall|i: int|
        0 <= i < sys.constraints@.len() ==> !spec_constantly_true(
            #[trigger] sys.constraints@[i],
            sys.modulus,
        )
    &&& forall|v: Var| live(sys, v) <==> sys_mentions(sys.constraints@, v)
}

/// View equality of whole systems.
pub open spec fn sys_equal(x: R1cs, y: R1cs) -> bool {
    &&& x.modulus == y.modulus
    &&& x.policy == y.policy
    &&& x.vars@ == y.vars@
    &&& x.constraints@.len() == y.constraints@.len()
    &&& forall|i: int|
        0 <= i < x.constraints@.len() ==> con_equal(
            #[trigger] x.constraints@[i],
            y.constraints@[i],
        )
}

/// Extend an assignment of the surviving variables to the eliminated ones,
/// in reverse elimination order: the last-eliminated variable's value reads
/// only surviving variables, and each earlier one may read variables
/// eliminated after it.
pub open spec fn extend_assignment(elims: Seq<(Var, Lc)>, asn: Map<Var, int>) -> Map<Var, int>
    decreases elims.len(),
{
    if elims.len() == 0 {
        asn
    } else {
        let e = elims.last();
        extend_assignment(elims.drop_last(), asn.insert(e.0, lc_eval(e.1, asn)))
    }
}

/// The two assignments agree on every live variable of the system.
pub open spec fn agrees_on_live(sys: R1cs, a: Map<Var, int>, b: Map<Var, int>) -> bool {
    forall|v: Var| live(sys, v) ==> a[v] == b[v]
}

/// Every assignment satisfying the reduced system extends, on the
/// eliminated variables, to one satisfying `cs0`: the reduction is
/// equisatisfiable, witness by witness.
pub open spec fn extends_sat(cs0: Seq<Constraint>, out: R1cs, m: int) -> bool {
    forall|asn: Map<Var, int>|
        #[trigger] sat_sys(out.constraints@, asn, m) ==> exists|asn2: Map<Var, int>|
            #[trigger] sat_sys(cs0, asn2, m) && agrees_on_live(out, asn2, asn)
}

/// The extension changes no variable outside the eliminated keys.
proof fn lemma_extend_agrees(elims: Seq<(Var, Lc)>, asn: Map<Var, int>, v: Var)
    requires
        forall|k: int| 0 <= k < elims.len() ==> (#[trigger] elims[k]).0 != v,
    ensures
        extend_assignment(elims, asn)[v] == asn[v],
    decreases elims.len(),
{
    if elims.len() > 0 {
        let e = elims.last();
        assert(elims[elims.len() - 1].0 != v);
        let asn1 = asn.insert(e.0, lc_eval(e.1, asn));
        assert(asn1[v] == asn[v]);
        assert forall|k: int| 0 <= k < elims.drop_last().len() implies (#[trigger] elims.drop_last()[
            k]).0 != v by {
            assert(elims.drop_last()[k] == elims[k]);
        }
        lemma_extend_agrees(elims.drop_last(), asn1, v);
    }
}

/// A constraint reads only the variables it mentions.
proof fn lemma_sat_con_agrees(con: Constraint, a1: Map<Var, int>, a2: Map<Var, int>, m: int)
    requires
        forall|v: Var| #[trigger] con_mentions(con, v) ==> a1[v] == a2[v],
    ensures
        sat_con(con, a1, m) == sat_con(con, a2, m),
{
    assert forall|v: Var| #[trigger] contains_var(con.a.monomials@, v) implies a1[v] == a2[v] by {
        assert(con_mentions(con, v));
    }
    assert forall|v: Var| #[trigger] contains_var(con.b.monomials@, v) implies a1[v] == a2[v] by {
        assert(con_mentions(con, v));
    }
    assert forall|v: Var| #[trigger] contains_var(con.c.monomials@, v) implies a1[v] == a2[v] by {
        assert(con_mentions(con, v));
    }
    crate::lc::lemma_mon_sum_agrees(con.a.monomials@, a1, a2);
    crate::lc::lemma_mon_sum_agrees(con.b.monomials@, a1, a2);
    crate::lc::lemma_mon_sum_agrees(con.c.monomials@, a1, a2);
}

/// `x ~ 0` exactly when `-x ~ 0`.
proof fn lemma_neg_zero_mod(x: int, m: int)
    requires
        1 < m,
    ensures
        ((0 - x) % m == 0) <==> (x % m == 0),
{
    lemma_add_mod_noop(0 - x, x, m);
    lemma_mod_bound(x, m);
    lemma_mod_bound(0 - x, m);
    lemma_small_mod(0nat, m as nat);
    if (0 - x) % m == 0 {
        assert((x % m) % m == 0);
        lemma_small_mod((x % m) as nat, m as nat);
    }
    if x % m == 0 {
        assert(((0 - x) % m) % m == 0);
        lemma_small_mod(((0 - x) % m) as nat, m as nat);
    }
}

/// A multiple of `m` strictly between `-m` and `m` is zero.
proof fn lemma_small_range_mod_zero(d: int, m: int)
    requires
        1 < m,
        0 - m < d < m,
        d % m == 0,
    ensures
        d == 0,
{
    if d >= 0 {
        lemma_small_mod(d as nat, m as nat);
    } else {
        lemma_mod_add_multiples_vanish(d, m);
        lemma_small_mod((d + m) as nat, m as nat);
    }
}

/// Locating the first eligible monomial by scan.
proof fn lemma_first_eligible_at(s: Seq<(Var, u64)>, policy: ElimPolicy, j: int)
    requires
        0 <= j < s.len(),
        forall|q: int| 0 <= q < j ==> !policy.allows((#[trigger] s[q]).0),
        policy.allows(s[j].0),
    ensures
        first_eligible(s, policy) == Some(s[j]),
    decreases j,
{
    if j > 0 {
        assert(!policy.allows(s[0].0));
        lemma_first_eligible_at(s.drop_first(), policy, j - 1);
        assert(s.drop_first()[j - 1] == s[j]);
    }
}

/// A wholly ineligible monomial list has no first eligible entry.
proof fn lemma_first_eligible_none(s: Seq<(Var, u64)>, policy: ElimPolicy)
    requires
        forall|q: int| 0 <= q < s.len() ==> !policy.allows((#[trigger] s[q]).0),
    ensures
        first_eligible(s, policy) is None,
    decreases s.len(),
{
    if s.len() > 0 {
        lemma_first_eligible_none(s.drop_first(), policy);
    }
}

/// Solving a linear equation in the field: from `emid + coeff*av ~ 0`,
/// `coeff*inv ~ 1` and `s ~ -inv`, conclude `av ~ s*emid`.
proof fn lemma_solve(av: int, emid: int, coeff: int, inv: int, s: int, m: int)
    requires
        1 < m,
        (emid + coeff * av) % m == 0,
        (coeff * inv) % m == 1,
        congruent(s, 0 - inv, m),
    ensures
        congruent(av, s * emid, m),
{
    // inv * (emid + coeff*av) ~ 0
    lemma_mul_mod_noop_right(inv, emid + coeff * av, m);
    assert(inv * 0 == 0) by (nonlinear_arith);
    lemma_small_mod(0nat, m as nat);
    assert((inv * (emid + coeff * av)) % m == 0);
    assert(inv * (emid + coeff * av) == inv * emid + (coeff * inv) * av) by (nonlinear_arith);
    // (coeff*inv)*av ~ av
    lemma_mul_mod_noop_left(coeff * inv, av, m);
    assert(((coeff * inv) % m) * av == 1 * av);
    assert(((coeff * inv) * av) % m == av % m);
    // av ~ -(inv*emid)
    lemma_sub_mod_noop(inv * emid + (coeff * inv) * av, inv * emid, m);
    assert((inv * emid + (coeff * inv) * av) - inv * emid == (coeff * inv) * av);
    assert((((inv * emid + (coeff * inv) * av) % m) - ((inv * emid) % m)) % m == ((coeff * inv)
        * av) % m);
    assert(((0 - ((inv * emid) % m))) % m == av % m);
    lemma_sub_mod_noop(0, inv * emid, m);
    lemma_small_mod(0nat, m as nat);
    assert((0 - inv * emid) % m == av % m);
    // s*emid ~ (0-inv)*emid == -(inv*emid)
    lemma_mul_mod_noop_left(s, emid, m);
    lemma_mul_mod_noop_left(0 - inv, emid, m);
    assert((s * emid) % m == ((0 - inv) * emid) % m);
    assert((0 - inv) * emid == 0 - inv * emid) by (nonlinear_arith);
}

/// The converse of `lemma_solve`: binding the variable to the solved value
/// satisfies the linear equation.
proof fn lemma_solve_reverse(av: int, emid: int, coeff: int, inv: int, s: int, m: int)
    requires
        1 < m,
        congruent(av, s * emid, m),
        (coeff * inv) % m == 1,
        congruent(s, 0 - inv, m),
    ensures
        (emid + coeff * av) % m == 0,
{
    // coeff * av ~ coeff * (s * emid) == (coeff * s) * emid
    lemma_mul_mod_noop_right(coeff, av, m);
    lemma_mul_mod_noop_right(coeff, s * emid, m);
    assert((coeff * av) % m == (coeff * (s * emid)) % m);
    assert(coeff * (s * emid) == (coeff * s) * emid) by (nonlinear_arith);
    // coeff * s ~ coeff * (0 - inv) == -(coeff * inv) ~ -1
    lemma_mul_mod_noop_right(coeff, s, m);
    lemma_mul_mod_noop_right(coeff, 0 - inv, m);
    assert((coeff * s) % m == (coeff * (0 - inv)) % m);
    assert(coeff * (0 - inv) == 0 - coeff * inv) by (nonlinear_arith);
    lemma_sub_mod_noop(0, coeff * inv, m);
    lemma_sub_mod_noop(0, 1, m);
    lemma_small_mod(0nat, m as nat);
    lemma_small_mod(1nat, m as nat);
    assert((0 - coeff * inv) % m == (0 - 1) % m);
    // (coeff * s) * emid ~ (-1) * emid == -emid
    lemma_mul_mod_noop_left(coeff * s, emid, m);
    lemma_mul_mod_noop_left(0 - 1, emid, m);
    assert(((coeff * s) * emid) % m == ((0 - 1) * emid) % m);
    assert((0 - 1) * emid == 0 - emid) by (nonlinear_arith);
    // emid + coeff*av ~ emid - emid == 0
    lemma_add_mod_noop(emid, coeff * av, m);
    lemma_add_mod_noop(emid, 0 - emid, m);
    assert((emid + coeff * av) % m == (emid + (0 - emid)) % m);
}

/// Fold a constant factor into `C`: if `A` (or else `B`) is a pure
/// constant `k`, replace `C` by `C - k*B` (respectively `C - k*A`) and
/// clear both factors.  Keeps the constraint's satisfaction unchanged, and
/// is the identity on an already-normalized constraint.
pub fn normalize(con: &mut Constraint)
    requires
        con_wf(*old(con), old(con).a.modulus),
    ensures
        con_wf(*final(con), old(con).a.modulus),
        con_normalized(*final(con)),
        forall|v: Var| con_mentions(*final(con), v) ==> con_mentions(*old(con), v),
        forall|asn: Map<Var, int>|
            #[trigger] sat_con(*final(con), asn, old(con).a.modulus as int) <==> sat_con(
                *old(con),
                asn,
                old(con).a.modulus as int,
            ),
        con_normalized(*old(con)) ==> con_equal(*final(con), *old(con)),
{
    let m = con.a.modulus;
    let ghost orig = *con;
    let a_const = con.a.as_constant();
    let b_const = con.b.as_constant();
    match a_const {
        Some(ac) => {
            let s = neg_mod(ac, m);
            con.c.add_scaled(s, &con.b);
            con.b.clear();
            con.a.clear();
            proof {
                lemma_small_mod(s as nat, m as nat);
                lemma_normalize_fold(orig, *con, orig.a, orig.b, ac, s, m, true);
                if con_normalized(orig) {
                    assert(lc_is_zero(orig.a) && lc_is_zero(orig.b));
                    assert(ac == 0 && s == 0);
                    assert(lc_equal(con.c, orig.c));
                    assert(con.a.monomials@ =~= orig.a.monomials@);
                    assert(con.b.monomials@ =~= orig.b.monomials@);
                }
            }
        }
        None => {
            match b_const {
                Some(bc) => {
                    let s = neg_mod(bc, m);
                    con.c.add_scaled(s, &con.a);
                    con.a.clear();
                    con.b.clear();
                    proof {
                        lemma_small_mod(s as nat, m as nat);
                        lemma_normalize_fold(orig, *con, orig.b, orig.a, bc, s, m, false);
                        // a normalized constraint with monomials in `A` has no
                        // constant `B`, so this branch leaves normalized input alone
                        assert(!con_normalized(orig));
                    }
                }
                None => {},
            }
        }
    }
}

/// The satisfaction equivalence behind `normalize`: `folded` is a constant
/// factor, `other` the kept factor; the new `C` is congruent to
/// `C - k*other` and both factors are now zero.
proof fn lemma_normalize_fold(
    orig: Constraint,
    now: Constraint,
    folded: Lc,
    other: Lc,
    k: u64,
    s: u64,
    m: u64,
    a_side: bool,
)
    requires
        1 < m,
        con_wf(orig, m),
        folded.monomials@.len() == 0,
        folded.constant == k,
        s < m,
        congruent(s as int, 0 - k, m as int),
        a_side ==> folded == orig.a && other == orig.b,
        !a_side ==> folded == orig.b && other == orig.a,
        lc_is_zero(now.a),
        lc_is_zero(now.b),
        forall|asn: Map<Var, int>|
            congruent(
                #[trigger] lc_eval(now.c, asn),
                lc_eval(orig.c, asn) + s * lc_eval(other, asn),
                m as int,
            ),
    ensures
        forall|asn: Map<Var, int>|
            #[trigger] sat_con(now, asn, m as int) <==> sat_con(orig, asn, m as int),
{
    let mi = m as int;
    assert forall|asn: Map<Var, int>|
        #[trigger] sat_con(now, asn, mi) <==> sat_con(orig, asn, mi) by {
        let evk = lc_eval(folded, asn);
        let evo = lc_eval(other, asn);
        let evc = lc_eval(orig.c, asn);
        let evc2 = lc_eval(now.c, asn);
        assert(mon_sum(folded.monomials@, asn) == 0);
        assert(evk == k);
        let ea = lc_eval(now.a, asn);
        let eb = lc_eval(now.b, asn);
        assert(ea == 0 && eb == 0);
        assert(ea * eb == 0) by (nonlinear_arith)
            requires
                ea == 0,
        ;
        // old satisfaction is `k*evo - evc ~ 0`, in either orientation
        if a_side {
            assert(lc_eval(orig.a, asn) * lc_eval(orig.b, asn) == evk * evo);
        } else {
            assert(lc_eval(orig.a, asn) * lc_eval(orig.b, asn) == evo * evk);
            assert(evo * evk == evk * evo) by (nonlinear_arith);
        }
        // evc2 ~ evc - k*evo
        assert(congruent(evc2, evc + s * evo, mi));
        lemma_mul_mod_noop_left(s as int, evo, mi);
        lemma_mul_mod_noop_left(0 - k, evo, mi);
        assert((s as int * evo) % mi == ((0 - k) * evo) % mi);
        lemma_add_mod_noop(evc, s as int * evo, mi);
        lemma_add_mod_noop(evc, (0 - k) * evo, mi);
        assert(congruent(evc2, evc + (0 - k) * evo, mi));
        assert(evc + (0 - k) * evo == 0 - (evk * evo - evc)) by (nonlinear_arith)
            requires
                evk == k,
        ;
        // `0*0 - evc2 ~ 0` iff `evk*evo - evc ~ 0`
        lemma_neg_zero_mod(evc2, mi);
        lemma_neg_zero_mod(evk * evo - evc, mi);
        assert((evc2 % mi == 0) <==> ((evk * evo - evc) % mi == 0));
        assert((0 - evc2) == lc_eval(now.a, asn) * lc_eval(now.b, asn) - evc2);
    }
}

/// All three combinations are constants satisfying `A*B = C` in the field:
/// such a constraint holds under every assignment and may be dropped.
pub fn constantly_true(con: &Constraint) -> (r: bool)
    requires
        con_wf(*con, con.a.modulus),
    ensures
        r == spec_constantly_true(*con, con.a.modulus),
{
    let m = con.a.modulus;
    let a_const = con.a.as_constant();
    let b_const = con.b.as_constant();
    let c_const = con.c.as_constant();
    match (a_const, b_const, c_const) {
        (Some(x), Some(y), Some(z)) => {
            let p = crate::field::mul_mod(x, y, m);
            proof {
                let mi = m as int;
                lemma_sub_mod_noop(x as int * y as int, z as int, mi);
                lemma_small_mod(z as nat, m as nat);
                lemma_mod_bound(x as int * y as int, mi);
                if p == z {
                    lemma_small_mod(0nat, m as nat);
                    assert((p as int - z as int) % mi == 0);
                }
                if (x as int * y as int - z as int) % mi == 0 {
                    lemma_small_range_mod_zero(p as int - z as int, mi);
                }
            }
            p == z
        }
        _ => false,
    }
}

/// A constantly-true constraint holds under every assignment.
proof fn lemma_constantly_true_sat(con: Constraint, m: u64, asn: Map<Var, int>)
    requires
        1 < m,
        spec_constantly_true(con, m),
    ensures
        sat_con(con, asn, m as int),
{
    assert(mon_sum(con.a.monomials@, asn) == 0);
    assert(mon_sum(con.b.monomials@, asn) == 0);
    assert(mon_sum(con.c.monomials@, asn) == 0);
}

/// A constant constraint whose arithmetic fails holds under no assignment.
proof fn lemma_constantly_false_unsat(con: Constraint, m: u64, asn: Map<Var, int>)
    requires
        1 < m,
        spec_constantly_false(con, m),
    ensures
        !sat_con(con, asn, m as int),
{
    assert(mon_sum(con.a.monomials@, asn) == 0);
    assert(mon_sum(con.b.monomials@, asn) == 0);
    assert(mon_sum(con.c.monomials@, asn) == 0);
}

/// If the constraint is effectively linear (`A` or `B` the zero
/// combination), find the first variable of `C` that the policy admits and
/// solve `C = 0` for it.  Returns the variable and its solved value; `None`
/// when the constraint is still bilinear, no variable is eligible, or the
/// chosen variable's coefficient is not invertible.
pub fn as_linear_sub(con: &Constraint, sys: &R1cs) -> (r: Option<(Var, Lc)>)
    requires
        con_wf(*con, sys.modulus),
        1 < sys.modulus,
    ensures
        r is Some <==> (lc_is_zero(con.a) || lc_is_zero(con.b)) && (match first_eligible(
            con.c.monomials@,
            sys.policy,
        ) {
            Option::None => false,
            Option::Some(p) => gcd(sys.modulus as nat, p.1 as nat) == 1,
        }),
        r matches Some(pr) ==> {
            &&& sys.policy.allows(pr.0)
            &&& contains_var(con.c.monomials@, pr.0)
            &&& (first_eligible(con.c.monomials@, sys.policy) matches Some(p) && p.0 == pr.0)
            &&& lc_wf(pr.1)
            &&& pr.1.modulus == sys.modulus
            &&& pr.1.monomials@.len() == con.c.monomials@.len() - 1
            &&& !contains_var(pr.1.monomials@, pr.0)
            &&& forall|v: Var|
                contains_var(pr.1.monomials@, v) ==> contains_var(con.c.monomials@, v)
            &&& forall|asn: Map<Var, int>|
                #[trigger] sat_con(*con, asn, sys.modulus as int) <==> congruent(
                    asn[pr.0],
                    lc_eval(pr.1, asn),
                    sys.modulus as int,
                )
        },
{
    let m = sys.modulus;
    if !(con.a.is_zero() || con.b.is_zero()) {
        return None;
    }
    let mut j: usize = 0;
    while j < con.c.monomials.len()
        invariant
            con_wf(*con, sys.modulus),
            m == sys.modulus,
            1 < m,
            j <= con.c.monomials@.len(),
            lc_is_zero(con.a) || lc_is_zero(con.b),
            forall|q: int| 0 <= q < j ==> !sys.policy.allows((#[trigger] con.c.monomials@[q]).0),
        decreases con.c.monomials@.len() - j,
    {
        let var = con.c.monomials[j].0;
        if sys.can_eliminate(var) {
            proof {
                lemma_first_eligible_at(con.c.monomials@, sys.policy, j as int);
            }
            let coeff = con.c.monomials[j].1;
            match inv_mod(coeff, m) {
                None => {
                    return None;
                }
                Some(inv) => {
                    let mut value = con.c.duplicate();
                    value.monomials.remove(j);
                    let ghost mid = value;
                    proof {
                        let sm = con.c.monomials@;
                        let t = value.monomials@;
                        assert(t =~= sm.remove(j as int));
                        assert forall|i1: int, i2: int|
                            0 <= i1 < i2 < t.len() implies t[i1].0 != t[i2].0 by {
                            if i2 < j {
                            } else if i1 < j {
                                assert(t[i2] == sm[i2 + 1]);
                            } else {
                                assert(t[i1] == sm[i1 + 1]);
                                assert(t[i2] == sm[i2 + 1]);
                            }
                        }
                        assert forall|w: Var| contains_var(t, w) implies contains_var(sm, w) && (w
                            == var ==> false) by {
                            let j2 = choose|j2: int| 0 <= j2 < t.len() && t[j2].0 == w;
                            if j2 < j {
                                assert(sm[j2].0 == w);
                                if w == var {
                                    assert(sm[j2].0 == sm[j as int].0);
                                }
                            } else {
                                assert(sm[j2 + 1].0 == w);
                                if w == var {
                                    assert(sm[j2 + 1].0 == sm[j as int].0);
                                }
                            }
                        }
                        assert(lc_wf(mid));
                    }
                    // the solved value is `-(C - coeff*var) / coeff`
                    let s = neg_mod(inv, m);
                    let s_inv = neg_mod(coeff, m);
                    proof {
                        let mi = m as int;
                        // (m-inv)*(m-coeff) ~ inv*coeff ~ 1
                        assert(inv != 0) by {
                            if inv == 0 {
                                assert(coeff as int * 0 == 0) by (nonlinear_arith);
                                lemma_small_mod(0nat, m as nat);
                            }
                        }
                        assert((mi - inv) * (mi - coeff) == mi * (mi - inv - coeff) + inv as int
                            * coeff as int) by (nonlinear_arith);
                        crate::field::lemma_mul_vanish_mod(
                            mi - inv,
                            mi - coeff,
                            mi - inv - coeff,
                            inv as int * coeff as int,
                            mi,
                        );
                        lemma_mod_bound(inv as int * coeff as int, mi);
                        assert(coeff as int * inv as int == inv as int * coeff as int)
                            by (nonlinear_arith);
                        assert((s as int * s_inv as int) % mi == 1);
                    }
                    value.scale_by_unit(s, s_inv);
                    proof {
                        let mi = m as int;
                        assert(value.monomials@.len() == con.c.monomials@.len() - 1);
                        assert(!contains_var(value.monomials@, var)) by {
                            if contains_var(value.monomials@, var) {
                                let j2 = choose|j2: int|
                                    0 <= j2 < value.monomials@.len() && value.monomials@[j2].0
                                        == var;
                                assert(mid.monomials@[j2].0 == var);
                                assert(contains_var(mid.monomials@, var));
                            }
                        }
                        assert forall|w: Var|
                            contains_var(value.monomials@, w) implies contains_var(
                            con.c.monomials@,
                            w,
                        ) by {
                            let j2 = choose|j2: int|
                                0 <= j2 < value.monomials@.len() && value.monomials@[j2].0 == w;
                            assert(mid.monomials@[j2].0 == w);
                            assert(contains_var(mid.monomials@, w));
                        }
                        assert forall|asn: Map<Var, int>|
                            #[trigger] sat_con(*con, asn, mi) <==> congruent(
                            asn[var],
                            lc_eval(value, asn),
                            mi,
                        ) by {
                            let av = asn[var];
                            let evc = lc_eval(con.c, asn);
                            let emid = lc_eval(mid, asn);
                            // the constraint is exactly `C ~ 0`
                            assert(lc_eval(con.a, asn) == 0 || lc_eval(con.b, asn) == 0);
                            assert(lc_eval(con.a, asn) * lc_eval(con.b, asn) == 0)
                                by (nonlinear_arith)
                                requires
                                    lc_eval(con.a, asn) == 0 || lc_eval(con.b, asn) == 0,
                            ;
                            lemma_neg_zero_mod(evc, mi);
                            // C = coeff*var + rest
                            lemma_mon_sum_remove(con.c.monomials@, j as int, asn);
                            assert(emid == evc - coeff * av);
                            lemma_small_mod(s as nat, m as nat);
                            lemma_mod_add_multiples_vanish(0 - inv, mi);
                            lemma_small_mod(inv as nat, m as nat);
                            assert(congruent(s as int, 0 - inv, mi));
                            assert(congruent(lc_eval(value, asn), s * emid, mi));
                            if sat_con(*con, asn, mi) {
                                assert(evc % mi == 0);
                                assert((emid + coeff as int * av) % mi == 0);
                                lemma_solve(av, emid, coeff as int, inv as int, s as int, mi);
                            }
                            if congruent(av, lc_eval(value, asn), mi) {
                                assert(congruent(av, s * emid, mi));
                                lemma_solve_reverse(av, emid, coeff as int, inv as int, s as int, mi);
                                assert(evc % mi == 0);
                            }
                        }
                    }
                    return Some((var, value));
                }
            }
        }
        j = j + 1;
    }
    proof {
        lemma_first_eligible_none(con.c.monomials@, sys.policy);
    }
    None
}

/// Congruent evaluations satisfy the same constraints.
proof fn lemma_sat_con_congruent(c1: Constraint, c2: Constraint, asn: Map<Var, int>, m: int)
    requires
        1 < m,
        congruent(lc_eval(c1.a, asn), lc_eval(c2.a, asn), m),
        congruent(lc_eval(c1.b, asn), lc_eval(c2.b, asn), m),
        congruent(lc_eval(c1.c, asn), lc_eval(c2.c, asn), m),
    ensures
        sat_con(c1, asn, m) == sat_con(c2, asn, m),
{
    let a1 = lc_eval(c1.a, asn);
    let b1 = lc_eval(c1.b, asn);
    let c1e = lc_eval(c1.c, asn);
    let a2 = lc_eval(c2.a, asn);
    let b2 = lc_eval(c2.b, asn);
    let c2e = lc_eval(c2.c, asn);
    vstd::arithmetic::div_mod::lemma_mul_mod_noop_general(a1, b1, m);
    vstd::arithmetic::div_mod::lemma_mul_mod_noop_general(a2, b2, m);
    assert((a1 * b1) % m == (a2 * b2) % m);
    lemma_sub_mod_noop(a1 * b1, c1e, m);
    lemma_sub_mod_noop(a2 * b2, c2e, m);
}

/// A constraint of three zero combinations holds under every assignment.
proof fn lemma_zero_con_sat(con: Constraint, asn: Map<Var, int>, m: int)
    requires
        1 < m,
        lc_is_zero(con.a),
        lc_is_zero(con.b),
        lc_is_zero(con.c),
    ensures
        sat_con(con, asn, m),
{
    assert(mon_sum(con.a.monomials@, asn) == 0);
    assert(mon_sum(con.b.monomials@, asn) == 0);
    assert(mon_sum(con.c.monomials@, asn) == 0);
    let ea = lc_eval(con.a, asn);
    assert(ea == 0);
    assert(ea * lc_eval(con.b, asn) == 0) by (nonlinear_arith)
        requires
            ea == 0,
    ;
    lemma_small_mod(0nat, m as nat);
}

/// The optimizer's working state: the system, its use-index, the worklist
/// and the replacement-size cap.
pub struct LinReducer {
    pub r1cs: R1cs,
    pub uses: UseIndex,
    pub queue: OnceQueue,
    pub lc_size_thresh: Option<usize>,
}

/// The reducer's data invariant: a well-formed system, an exactly
/// consistent use-index, and a worklist sized to the constraint sequence.
pub open spec fn reducer_wf(r: LinReducer) -> bool {
    &&& r1cs_wf(r.r1cs)
    &&& uses_wf(r.uses)
    &&& uses_consistent(r.uses, r.r1cs.constraints@)
    &&& queue_wf(r.queue)
    &&& r.queue.pending@.len() == r.r1cs.constraints@.len()
}

/// Build the use-index by one scan over the constraints.
pub fn gen_uses(cs: &Vec<Constraint>) -> (r: UseIndex)
    ensures
        uses_wf(r),
        uses_consistent(r, cs@),
{
    let mut ui = UseIndex::new();
    let mut i: usize = 0;
    while i < cs.len()
        invariant
            i <= cs@.len(),
            uses_wf(ui),
            forall|w: Var, j: usize|
                #[trigger] in_uses(ui, w, j) <==> j < i && con_mentions(cs@[j as int], w),
        decreases cs@.len() - i,
    {
        ui.register_lc(&cs[i].a, i);
        ui.register_lc(&cs[i].b, i);
        ui.register_lc(&cs[i].c, i);
        i = i + 1;
    }
    ui
}

/// Whether the constraint mentions `v` in any combination.
pub fn con_mentions_exec(con: &Constraint, v: Var) -> (r: bool)
    ensures
        r == con_mentions(*con, v),
{
    match con.a.find_var(v) {
        Some(j) => {
            proof {
                assert(contains_var(con.a.monomials@, v));
            }
            true
        }
        None => match con.b.find_var(v) {
            Some(j) => {
                proof {
                    assert(contains_var(con.b.monomials@, v));
                }
                true
            }
            None => match con.c.find_var(v) {
                Some(j) => {
                    proof {
                        assert(contains_var(con.c.monomials@, v));
                    }
                    true
                }
                None => false,
            },
        },
    }
}

/// Whether any constraint of the sequence mentions `v`.
pub fn sys_mentions_exec(cs: &Vec<Constraint>, v: Var) -> (r: bool)
    ensures
        r == sys_mentions(cs@, v),
{
    let mut i: usize = 0;
    while i < cs.len()
        invariant
            i <= cs@.len(),
            forall|j: int| 0 <= j < i ==> !con_mentions(#[trigger] cs@[j], v),
        decreases cs@.len() - i,
    {
        if con_mentions_exec(&cs[i], v) {
            proof {
                assert(con_mentions(cs@[i as int], v));
            }
            return true;
        }
        i = i + 1;
    }
    false
}

impl LinReducer {
    /// Substitute `val` for `var` in the constraint at `con_id`, then
    /// re-normalize it and patch the use-index.  Returns whether the
    /// constraint mentioned `var` at all.  Under any assignment that binds
    /// `var` to the value of `val`, the constraint's satisfaction is
    /// unchanged.
    pub fn sub_in(&mut self, var: Var, val: &Lc, con_id: usize) -> (changed: bool)
        requires
            reducer_wf(*old(self)),
            con_id < old(self).r1cs.constraints@.len(),
            lc_wf(*val),
            val.modulus == old(self).r1cs.modulus,
            !contains_var(val.monomials@, var),
            forall|v: Var| contains_var(val.monomials@, v) ==> live(old(self).r1cs, v),
        ensures
            reducer_wf(*final(self)),
            final(self).r1cs.modulus == old(self).r1cs.modulus,
            final(self).r1cs.policy == old(self).r1cs.policy,
            final(self).r1cs.vars@ == old(self).r1cs.vars@,
            final(self).queue == old(self).queue,
            final(self).lc_size_thresh == old(self).lc_size_thresh,
            final(self).r1cs.constraints@.len() == old(self).r1cs.constraints@.len(),
            forall|i: int|
                0 <= i < old(self).r1cs.constraints@.len() && i != con_id ==> final(self).r1cs.constraints@[i] == old(self).r1cs.constraints@[i],
            changed == con_mentions(old(self).r1cs.constraints@[con_id as int], var),
            !changed ==> final(self).r1cs.constraints@[con_id as int] == old(self).r1cs.constraints@[con_id as int],
            changed ==> con_normalized(final(self).r1cs.constraints@[con_id as int]),
            !con_mentions(final(self).r1cs.constraints@[con_id as int], var),
            forall|v: Var|
                con_mentions(final(self).r1cs.constraints@[con_id as int], v) ==> con_mentions(
                    old(self).r1cs.constraints@[con_id as int],
                    v,
                ) || contains_var(val.monomials@, v),
            forall|asn: Map<Var, int>|
                congruent(asn[var], lc_eval(*val, asn), old(self).r1cs.modulus as int)
                    ==> (sat_con(
                    #[trigger] final(self).r1cs.constraints@[con_id as int],
                    asn,
                    old(self).r1cs.modulus as int,
                ) <==> sat_con(
                    old(self).r1cs.constraints@[con_id as int],
                    asn,
                    old(self).r1cs.modulus as int,
                )),
    {
        let m = self.r1cs.modulus;
        let ghost orig_con = self.r1cs.constraints@[con_id as int];
        let mut con = self.r1cs.constraints[con_id].duplicate();
        let ghost dup_con = con;
        let ch_a = con.a.eliminate(var, val);
        let ch_b = con.b.eliminate(var, val);
        let ch_c = con.c.eliminate(var, val);
        let changed = ch_a || ch_b || ch_c;
        if !changed {
            proof {
                assert(!con_mentions(orig_con, var));
            }
            return false;
        }
        let ghost sub_con = con;
        normalize(&mut con);
        proof {
            assert(con_mentions(orig_con, var));
        }
        let ghost mid_uses_0 = self.uses;
        self.uses.unregister_lc(&self.r1cs.constraints[con_id].a, con_id);
        self.uses.unregister_lc(&self.r1cs.constraints[con_id].b, con_id);
        self.uses.unregister_lc(&self.r1cs.constraints[con_id].c, con_id);
        proof {
            assert forall|w: Var, j: usize| #[trigger] in_uses(self.uses, w, j) implies j
                != con_id by {
                if j == con_id {
                    assert(in_uses(mid_uses_0, w, j));
                    assert(con_mentions(orig_con, w));
                }
            }
        }
        let ghost mid_uses = self.uses;
        let e = vstd::std_specs::vec::vec_index_mut(&mut self.r1cs.constraints, con_id);
        *e = con;
        self.uses.register_lc(&self.r1cs.constraints[con_id].a, con_id);
        self.uses.register_lc(&self.r1cs.constraints[con_id].b, con_id);
        self.uses.register_lc(&self.r1cs.constraints[con_id].c, con_id);
        proof {
            let mi = m as int;
            let new_con = self.r1cs.constraints@[con_id as int];
            let cs = self.r1cs.constraints@;
            let old_cs = old(self).r1cs.constraints@;
            // the new constraint's variables come from the old one or `val`
            assert forall|v: Var| con_mentions(new_con, v) implies con_mentions(
                orig_con,
                v,
            ) || contains_var(val.monomials@, v) by {
                assert(con_equal(dup_con, orig_con));
            }
            assert(!con_mentions(new_con, var));
            // consistency is restored entry by entry
            assert forall|w: Var, j: usize|
                #[trigger] in_uses(self.uses, w, j) <==> j < cs.len() && con_mentions(
                    cs[j as int],
                    w,
                ) by {
                if j == con_id {
                    assert((in_uses(self.uses, w, j)) == (in_uses(mid_uses, w, j)
                        || con_mentions(new_con, w)));
                } else {
                    assert((in_uses(self.uses, w, j)) == in_uses(mid_uses, w, j));
                    assert((in_uses(mid_uses, w, j)) == in_uses(old(self).uses, w, j));
                    if j < cs.len() {
                        assert(cs[j as int] == old_cs[j as int]);
                    }
                }
            }
            // the system stays well-formed
            assert forall|v: Var| sys_mentions(cs, v) implies live(self.r1cs, v) by {
                let i = choose|i: int| 0 <= i < cs.len() && con_mentions(cs[i], v);
                if i == con_id {
                    if con_mentions(orig_con, v) {
                        assert(sys_mentions(old_cs, v));
                    }
                } else {
                    assert(con_mentions(old_cs[i], v));
                    assert(sys_mentions(old_cs, v));
                }
                assert(live(old(self).r1cs, v));
            }
            // satisfaction is unchanged under the binding hypothesis
            assert forall|asn: Map<Var, int>|
                congruent(asn[var], lc_eval(*val, asn), mi) implies (sat_con(
                #[trigger] cs[con_id as int],
                asn,
                mi,
            ) <==> sat_con(orig_con, asn, mi)) by {
                assert(congruent(lc_eval(sub_con.a, asn), lc_eval(dup_con.a, asn), mi));
                assert(congruent(lc_eval(sub_con.b, asn), lc_eval(dup_con.b, asn), mi));
                assert(congruent(lc_eval(sub_con.c, asn), lc_eval(dup_con.c, asn), mi));
                lemma_sat_con_congruent(sub_con, dup_con, asn, mi);
                assert(sat_con(new_con, asn, mi) == sat_con(sub_con, asn, mi));
                assert(sat_con(dup_con, asn, mi) == sat_con(orig_con, asn, mi)) by {
                    assert(con_equal(dup_con, orig_con));
                }
            }
        }
        true
    }

    /// Empty all three combinations of the constraint at `i`, dropping it
    /// from the use-index entirely.  The cleared constraint holds under
    /// every assignment.
    pub fn clear_constraint(&mut self, i: usize)
        requires
            reducer_wf(*old(self)),
            i < old(self).r1cs.constraints@.len(),
        ensures
            reducer_wf(*final(self)),
            final(self).r1cs.modulus == old(self).r1cs.modulus,
            final(self).r1cs.policy == old(self).r1cs.policy,
            final(self).r1cs.vars@ == old(self).r1cs.vars@,
            final(self).queue == old(self).queue,
            final(self).lc_size_thresh == old(self).lc_size_thresh,
            final(self).r1cs.constraints@.len() == old(self).r1cs.constraints@.len(),
            forall|j: int|
                0 <= j < old(self).r1cs.constraints@.len() && j != i ==> final(self).r1cs.constraints@[j] == old(self).r1cs.constraints@[j],
            lc_is_zero(final(self).r1cs.constraints@[i as int].a),
            lc_is_zero(final(self).r1cs.constraints@[i as int].b),
            lc_is_zero(final(self).r1cs.constraints@[i as int].c),
            forall|w: Var| !con_mentions(final(self).r1cs.constraints@[i as int], w),
            forall|w: Var, j: usize|
                #[trigger] in_uses(final(self).uses, w, j) <==> in_uses(old(self).uses, w, j) && j
                    != i,
    {
        let m = self.r1cs.modulus;
        let ghost orig_con = self.r1cs.constraints@[i as int];
        let ghost uses0 = self.uses;
        self.uses.unregister_lc(&self.r1cs.constraints[i].a, i);
        self.uses.unregister_lc(&self.r1cs.constraints[i].b, i);
        self.uses.unregister_lc(&self.r1cs.constraints[i].c, i);
        proof {
            assert forall|w: Var, j: usize|
                #[trigger] in_uses(self.uses, w, j) <==> in_uses(uses0, w, j) && j != i by {
                if j == i && in_uses(uses0, w, j) {
                    assert(con_mentions(orig_con, w));
                }
            }
        }
        let e = vstd::std_specs::vec::vec_index_mut(&mut self.r1cs.constraints, i);
        *e = Constraint { a: Lc::new(m), b: Lc::new(m), c: Lc::new(m) };
        proof {
            let cs = self.r1cs.constraints@;
            let old_cs = old(self).r1cs.constraints@;
            assert forall|w: Var| !con_mentions(cs[i as int], w) by {}
            assert forall|w: Var, j: usize|
                #[trigger] in_uses(self.uses, w, j) <==> j < cs.len() && con_mentions(
                    cs[j as int],
                    w,
                ) by {
                if j != i && j < cs.len() {
                    assert(cs[j as int] == old_cs[j as int]);
                }
            }
            assert forall|v: Var| sys_mentions(cs, v) implies live(self.r1cs, v) by {
                let k = choose|k: int| 0 <= k < cs.len() && con_mentions(cs[k], v);
                assert(k != i);
                assert(con_mentions(old_cs[k], v));
                assert(sys_mentions(old_cs, v));
                assert(live(old(self).r1cs, v));
                assert(self.r1cs.vars@ == old(self).r1cs.vars@);
            }
        }
    }

    /// Drop `var` from the live-variable list.
    pub fn remove_var(&mut self, var: Var)
        requires
            reducer_wf(*old(self)),
            !sys_mentions(old(self).r1cs.constraints@, var),
        ensures
            reducer_wf(*final(self)),
            final(self).r1cs.modulus == old(self).r1cs.modulus,
            final(self).r1cs.policy == old(self).r1cs.policy,
            final(self).r1cs.constraints@ == old(self).r1cs.constraints@,
            final(self).uses == old(self).uses,
            final(self).queue == old(self).queue,
            final(self).lc_size_thresh == old(self).lc_size_thresh,
            forall|w: Var| live(final(self).r1cs, w) <==> live(old(self).r1cs, w) && w != var,
            live(old(self).r1cs, var) ==> final(self).r1cs.vars@.len() == old(
                self,
            ).r1cs.vars@.len() - 1,
    {
        let ghost vars0 = self.r1cs.vars@;
        let mut p: usize = 0;
        let mut found: Option<usize> = None;
        while p < self.r1cs.vars.len()
            invariant
                vars0 == self.r1cs.vars@,
                p <= vars0.len(),
                found matches Some(q) ==> q < vars0.len() && vars0[q as int] == var,
                found is None ==> forall|q: int| 0 <= q < p ==> vars0[q] != var,
            decreases vars0.len() - p,
        {
            if found.is_none() && self.r1cs.vars[p] == var {
                found = Some(p);
                proof {
                    assert(vars0[p as int] == var);
                }
            }
            p = p + 1;
        }
        match found {
            None => {
                proof {
                    assert forall|w: Var| live(self.r1cs, w) <==> live(old(self).r1cs, w) && w
                        != var by {
                        if w == var && live(self.r1cs, w) {
                            let q = choose|q: int| 0 <= q < vars0.len() && vars0[q] == w;
                        }
                    }
                }
            }
            Some(q) => {
                self.r1cs.vars.remove(q);
                proof {
                    let nv = self.r1cs.vars@;
                    assert(nv =~= vars0.remove(q as int));
                    assert forall|i1: int, i2: int|
                        0 <= i1 < i2 < nv.len() implies nv[i1] != nv[i2] by {
                        if i2 < q {
                        } else if i1 < q {
                            assert(nv[i2] == vars0[i2 + 1]);
                        } else {
                            assert(nv[i1] == vars0[i1 + 1]);
                            assert(nv[i2] == vars0[i2 + 1]);
                        }
                    }
                    assert forall|w: Var| live(self.r1cs, w) implies live(old(self).r1cs, w) && w
                        != var by {
                        let p2 = choose|p2: int| 0 <= p2 < nv.len() && nv[p2] == w;
                        if p2 < q {
                            assert(vars0[p2] == w);
                        } else {
                            assert(vars0[p2 + 1] == w);
                        }
                        if w == var {
                            if p2 < q {
                                assert(vars0[p2] == vars0[q as int]);
                            } else {
                                assert(vars0[p2 + 1] == vars0[q as int]);
                            }
                        }
                    }
                    assert forall|w: Var| live(old(self).r1cs, w) && w != var implies live(
                        self.r1cs,
                        w,
                    ) by {
                        let p2 = choose|p2: int| 0 <= p2 < vars0.len() && vars0[p2] == w;
                        assert(p2 != q);
                        if p2 < q {
                            assert(nv[p2] == w);
                        } else {
                            assert(nv[p2 - 1] == w);
                        }
                    }
                    assert forall|v: Var| sys_mentions(self.r1cs.constraints@, v) implies live(
                        self.r1cs,
                        v,
                    ) by {
                        assert(live(old(self).r1cs, v));
                        assert(v != var);
                    }
                }
            }
        }
    }

    /// Drop every live variable that no constraint references.  Afterwards
    /// the live list holds exactly the occurring variables.
    #[verifier::rlimit(30)]
    pub fn remove_dead_variables(&mut self)
        requires
            r1cs_wf(old(self).r1cs),
        ensures
            r1cs_wf(final(self).r1cs),
            final(self).r1cs.modulus == old(self).r1cs.modulus,
            final(self).r1cs.policy == old(self).r1cs.policy,
            final(self).r1cs.constraints@ == old(self).r1cs.constraints@,
            final(self).uses == old(self).uses,
            final(self).queue == old(self).queue,
            final(self).lc_size_thresh == old(self).lc_size_thresh,
            forall|w: Var|
                live(final(self).r1cs, w) <==> live(old(self).r1cs, w) && sys_mentions(
                    old(self).r1cs.constraints@,
                    w,
                ),
            (forall|w: Var|
                live(old(self).r1cs, w) ==> sys_mentions(old(self).r1cs.constraints@, w)) ==> final(self).r1cs.vars@ == old(self).r1cs.vars@,
    {
        let ghost vars0 = self.r1cs.vars@;
        let mut kept: Vec<Var> = Vec::new();
        let mut i: usize = 0;
        while i < self.r1cs.vars.len()
            invariant
                r1cs_wf(self.r1cs),
                *self == *old(self),
                vars0 == self.r1cs.vars@,
                i <= vars0.len(),
                forall|p: int, q: int| 0 <= p < q < kept@.len() ==> kept@[p] != kept@[q],
                forall|w: Var|
                    kept@.contains(w) <==> vars0.take(i as int).contains(w) && sys_mentions(
                        self.r1cs.constraints@,
                        w,
                    ),
                (forall|w: Var|
                    live(self.r1cs, w) ==> sys_mentions(self.r1cs.constraints@, w)) ==> kept@
                    == vars0.take(i as int),
            decreases vars0.len() - i,
        {
            let v = self.r1cs.vars[i];
            proof {
                assert(live(self.r1cs, v)) by {
                    assert(self.r1cs.vars@[i as int] == v);
                }
            }
            let ghost pre = kept@;
            let ghost mentioned = sys_mentions(self.r1cs.constraints@, v);
            if sys_mentions_exec(&self.r1cs.constraints, v) {
                proof {
                    if kept@.contains(v) {
                        let jj = choose|jj: int|
                            0 <= jj < i && vars0.take(i as int)[jj] == v;
                        assert(vars0[jj] == vars0[i as int]);
                    }
                }
                kept.push(v);
            }
            proof {
                let tk1 = vars0.take(i + 1);
                assert(tk1[i as int] == v);
                if mentioned {
                    assert(kept@ == pre.push(v));
                } else {
                    assert(kept@ == pre);
                }
                assert forall|w: Var|
                    kept@.contains(w) implies tk1.contains(w) && sys_mentions(
                    self.r1cs.constraints@,
                    w,
                ) by {
                    let j2 = choose|j2: int| 0 <= j2 < kept@.len() && kept@[j2] == w;
                    if j2 < pre.len() {
                        assert(pre.contains(w));
                        let q = choose|q: int| 0 <= q < i && vars0.take(i as int)[q] == w;
                        assert(tk1[q] == w);
                    } else {
                        assert(w == v);
                        assert(tk1[i as int] == w);
                    }
                }
                assert forall|w: Var|
                    tk1.contains(w) && sys_mentions(self.r1cs.constraints@, w) implies kept@
                    .contains(w) by {
                    let q = choose|q: int| 0 <= q < tk1.len() && tk1[q] == w;
                    if q < i {
                        assert(vars0.take(i as int)[q] == w);
                        assert(pre.contains(w));
                        let j2 = choose|j2: int| 0 <= j2 < pre.len() && pre[j2] == w;
                        assert(kept@[j2] == w);
                    } else {
                        assert(w == v);
                        assert(mentioned);
                        assert(kept@[kept@.len() - 1] == v);
                    }
                }
                if forall|w: Var| live(self.r1cs, w) ==> sys_mentions(self.r1cs.constraints@, w) {
                    assert(kept@ =~= vars0.take(i + 1));
                }
            }
            i = i + 1;
        }
        self.r1cs.vars = kept;
        proof {
            assert(vars0.take(vars0.len() as int) =~= vars0);
            assert forall|v: Var| sys_mentions(self.r1cs.constraints@, v) implies live(
                self.r1cs,
                v,
            ) by {
                assert(live(old(self).r1cs, v));
            }
        }
    }
}

impl LinReducer {
    /// Normalize every constraint, build the use-index, and queue every
    /// constraint index for examination.
    pub fn new(r1cs: R1cs, lc_size_thresh: Option<usize>) -> (r: LinReducer)
        requires
            r1cs_wf(r1cs),
        ensures
            reducer_wf(r),
            r.r1cs.modulus == r1cs.modulus,
            r.r1cs.policy == r1cs.policy,
            r.r1cs.vars@ == r1cs.vars@,
            r.lc_size_thresh == lc_size_thresh,
            r.r1cs.constraints@.len() == r1cs.constraints@.len(),
            forall|i: int|
                0 <= i < r.r1cs.constraints@.len() ==> con_normalized(
                    #[trigger] r.r1cs.constraints@[i],
                ),
            forall|asn: Map<Var, int>|
                #[trigger] sat_sys(r1cs.constraints@, asn, r1cs.modulus as int) <==> sat_sys(
                    r.r1cs.constraints@,
                    asn,
                    r1cs.modulus as int,
                ),
            forall|i: usize| in_queue(r.queue, i) <==> i < r.r1cs.constraints@.len(),
            (forall|i: int|
                0 <= i < r1cs.constraints@.len() ==> con_normalized(
                    #[trigger] r1cs.constraints@[i],
                )) ==> forall|i: int|
                0 <= i < r1cs.constraints@.len() ==> con_equal(
                    #[trigger] r.r1cs.constraints@[i],
                    r1cs.constraints@[i],
                ),
    {
        let ghost orig = r1cs;
        let ghost cs0 = r1cs.constraints@;
        let mut sys = r1cs;
        let m = sys.modulus;
        let mut i: usize = 0;
        while i < sys.constraints.len()
            invariant
                1 < m,
                sys.modulus == m,
                sys.policy == orig.policy,
                sys.vars@ == orig.vars@,
                sys.constraints@.len() == cs0.len(),
                i <= cs0.len(),
                forall|j: int|
                    0 <= j < cs0.len() ==> con_wf(#[trigger] sys.constraints@[j], m),
                forall|j: int, k: int|
                    0 <= j < k < sys.vars@.len() ==> sys.vars@[j] != sys.vars@[k],
                forall|j: int| i <= j < cs0.len() ==> sys.constraints@[j] == cs0[j],
                forall|j: int|
                    0 <= j < i ==> con_normalized(#[trigger] sys.constraints@[j]),
                forall|j: int, v: Var|
                    0 <= j < i && #[trigger] con_mentions(sys.constraints@[j], v)
                        ==> con_mentions(cs0[j], v),
                forall|j: int, asn: Map<Var, int>|
                    0 <= j < i ==> (#[trigger] sat_con(sys.constraints@[j], asn, m as int)
                        <==> sat_con(cs0[j], asn, m as int)),
                forall|j: int|
                    0 <= j < i && con_normalized(cs0[j]) ==> con_equal(
                        #[trigger] sys.constraints@[j],
                        cs0[j],
                    ),
                forall|v: Var| sys_mentions(cs0, v) ==> live(orig, v),
            decreases cs0.len() - i,
        {
            let e = vstd::std_specs::vec::vec_index_mut(&mut sys.constraints, i);
            normalize(e);
            i = i + 1;
        }
        proof {
            assert forall|v: Var| sys_mentions(sys.constraints@, v) implies live(sys, v) by {
                let j = choose|j: int|
                    0 <= j < sys.constraints@.len() && con_mentions(sys.constraints@[j], v);
                assert(con_mentions(cs0[j], v));
                assert(sys_mentions(cs0, v));
                assert(live(orig, v));
            }
            assert(r1cs_wf(sys));
        }
        let uses = gen_uses(&sys.constraints);
        let n = sys.constraints.len();
        let queue = OnceQueue::full(n);
        let r = LinReducer { r1cs: sys, uses, queue, lc_size_thresh };
        proof {
            let mi = m as int;
            assert forall|asn: Map<Var, int>|
                #[trigger] sat_sys(cs0, asn, mi) <==> sat_sys(r.r1cs.constraints@, asn, mi) by {
                if sat_sys(cs0, asn, mi) {
                    assert forall|j: int|
                        0 <= j < r.r1cs.constraints@.len() implies sat_con(
                        #[trigger] r.r1cs.constraints@[j],
                        asn,
                        mi,
                    ) by {
                        assert(sat_con(cs0[j], asn, mi));
                    }
                }
                if sat_sys(r.r1cs.constraints@, asn, mi) {
                    assert forall|j: int| 0 <= j < cs0.len() implies sat_con(
                        #[trigger] cs0[j],
                        asn,
                        mi,
                    ) by {
                        assert(sat_con(r.r1cs.constraints@[j], asn, mi));
                    }
                }
            }
        }
        r
    }

    /// The worklist fixpoint.  Pops constraint indices; when a popped
    /// constraint yields an elimination candidate whose value fits the size
    /// cap, clears that constraint, substitutes the value into every
    /// constraint that used the variable, re-queues those that became
    /// effectively linear, and removes the variable.  Afterwards drops
    /// constantly-true constraints — raising an error on a constant
    /// constraint whose arithmetic fails, which proves the input
    /// unsatisfiable — and removes unreferenced variables.
    pub fn run(self) -> (r: Result<R1cs, OptError>)
        requires
            reducer_wf(self),
            forall|i: int|
                0 <= i < self.r1cs.constraints@.len() ==> con_normalized(
                    #[trigger] self.r1cs.constraints@[i],
                ),
            forall|i: usize| in_queue(self.queue, i) <==> i < self.r1cs.constraints@.len(),
        ensures
            r matches Ok(out) ==> {
                &&& r1cs_wf(out)
                &&& out.modulus == self.r1cs.modulus
                &&& out.policy == self.r1cs.policy
                &&& preserves_sat(
                    self.r1cs.constraints@,
                    out.constraints@,
                    self.r1cs.modulus as int,
                )
                &&& optimized(out, self.lc_size_thresh)
                &&& extends_sat(self.r1cs.constraints@, out, self.r1cs.modulus as int)
                &&& forall|w: Var| live(out, w) ==> live(self.r1cs, w)
                &&& optimized(self.r1cs, self.lc_size_thresh) ==> sys_equal(out, self.r1cs)
            },
            r is Err ==> forall|asn: Map<Var, int>|
                !sat_sys(self.r1cs.constraints@, asn, self.r1cs.modulus as int),
    {
        let mut this = self;
        let ghost cs0 = this.r1cs.constraints@;
        let ghost vars0 = this.r1cs.vars@;
        let m = this.r1cs.modulus;
        let ghost mi = m as int;
        let ghost pol = this.r1cs.policy;
        let ghost th = this.lc_size_thresh;
        let ghost opt0 = optimized(this.r1cs, th);
        let ghost mut elims: Seq<(Var, Lc)> = Seq::empty();
        while this.queue.len() != 0
            invariant
                reducer_wf(this),
                this.r1cs.modulus == m,
                1 < m,
                mi == m as int,
                m == self.r1cs.modulus,
                cs0 == self.r1cs.constraints@,
                vars0 == self.r1cs.vars@,
                pol == self.r1cs.policy,
                th == self.lc_size_thresh,
                opt0 == optimized(self.r1cs, th),
                this.r1cs.policy == pol,
                this.lc_size_thresh == th,
                this.r1cs.constraints@.len() == cs0.len(),
                forall|w: Var| live(this.r1cs, w) ==> vars0.contains(w),
                forall|i: int|
                    0 <= i < cs0.len() ==> con_normalized(#[trigger] this.r1cs.constraints@[i]),
                preserves_sat(cs0, this.r1cs.constraints@, mi),
                forall|i: usize|
                    i < cs0.len() && !in_queue(this.queue, i) ==> !acceptable(
                        #[trigger] this.r1cs.constraints@[i as int],
                        pol,
                        th,
                        m,
                    ),
                opt0 ==> this.r1cs.vars@ == vars0 && (forall|i: int|
                    0 <= i < cs0.len() ==> con_equal(#[trigger] this.r1cs.constraints@[i], cs0[i])),
                forall|k: int|
                    0 <= k < elims.len() ==> !live(this.r1cs, (#[trigger] elims[k]).0),
                forall|asn: Map<Var, int>|
                    #[trigger] sat_sys(this.r1cs.constraints@, asn, mi) ==> sat_sys(
                        cs0,
                        extend_assignment(elims, asn),
                        mi,
                    ),
            decreases this.r1cs.vars@.len(), this.queue.items@.len(),
        {
            let ghost pre_loop = this;
            let popped = this.queue.pop();
            match popped {
                None => {
                    proof {
                        assert(false);
                    }
                }
                Some(con_id) => {
                    proof {
                        assert(in_queue(pre_loop.queue, con_id));
                        assert(con_id < cs0.len());
                    }
                    let sub = as_linear_sub(&this.r1cs.constraints[con_id], &this.r1cs);
                    match sub {
                        None => {
                            proof {
                                assert(!acceptable(
                                    this.r1cs.constraints@[con_id as int],
                                    pol,
                                    th,
                                    m,
                                ));
                            }
                        }
                        Some(pair) => {
                            let var = pair.0;
                            let lc = pair.1;
                            let fits: bool = match this.lc_size_thresh {
                                None => true,
                                Some(t) => lc.monomials.len() < t,
                            };
                            if !fits {
                                proof {
                                    assert(!acceptable(
                                        this.r1cs.constraints@[con_id as int],
                                        pol,
                                        th,
                                        m,
                                    ));
                                }
                            } else {
                                let ghost con_here = this.r1cs.constraints@[con_id as int];
                                let ghost vars_here = this.r1cs.vars@;
                                proof {
                                    if opt0 {
                                        assert(con_equal(con_here, cs0[con_id as int]));
                                        assert(lc.monomials@.len()
                                            == con_here.c.monomials@.len() - 1);
                                        assert(acceptable(con_here, pol, th, m));
                                        assert(optimized(self.r1cs, th));
                                        assert(!acceptable(cs0[con_id as int], pol, th, m));
                                        lemma_acceptable_view(con_here, cs0[con_id as int], pol, th, m);
                                        assert(false);
                                    }
                                    // every satisfying assignment of the input binds
                                    // `var` to the value of `lc`
                                    assert forall|asn: Map<Var, int>|
                                        #[trigger] sat_sys(cs0, asn, mi) implies congruent(
                                        asn[var],
                                        lc_eval(lc, asn),
                                        mi,
                                    ) by {
                                        assert(sat_sys(this.r1cs.constraints@, asn, mi));
                                        assert(sat_con(con_here, asn, mi));
                                    }
                                    assert(entails_equation(cs0, var, lc, mi));
                                    // the value's variables are live
                                    assert forall|v: Var|
                                        #[trigger] contains_var(lc.monomials@, v)
                                        implies vars_here.contains(v) by {
                                        assert(contains_var(con_here.c.monomials@, v));
                                        assert(con_mentions(con_here, v));
                                        assert(sys_mentions(this.r1cs.constraints@, v));
                                        assert(live(this.r1cs, v));
                                    }
                                    assert(vars_here.contains(var)) by {
                                        assert(con_mentions(con_here, var));
                                        assert(sys_mentions(this.r1cs.constraints@, var));
                                        assert(live(this.r1cs, var));
                                    }
                                    // the defining constraint is exactly the equation
                                    assert(forall|asn: Map<Var, int>|
                                        #[trigger] sat_con(con_here, asn, mi) <==> congruent(
                                            asn[var],
                                            lc_eval(lc, asn),
                                            mi,
                                        ));
                                    // the completeness invariant, pinned to this iteration's
                                    // starting state
                                    assert(forall|asn: Map<Var, int>|
                                        #[trigger] sat_sys(pre_loop.r1cs.constraints@, asn, mi)
                                            ==> sat_sys(cs0, extend_assignment(elims, asn), mi));
                                }
                                this.clear_constraint(con_id);
                                proof {
                                    let cur = this.r1cs.constraints@;
                                    assert forall|asn: Map<Var, int>|
                                        #[trigger] sat_sys(cs0, asn, mi) implies sat_sys(
                                        cur,
                                        asn,
                                        mi,
                                    ) by {
                                        assert(sat_sys(pre_loop.r1cs.constraints@, asn, mi));
                                        assert forall|j: int|
                                            0 <= j < cur.len() implies sat_con(
                                            #[trigger] cur[j],
                                            asn,
                                            mi,
                                        ) by {
                                            if j == con_id {
                                                lemma_zero_con_sat(cur[j], asn, mi);
                                            } else {
                                                assert(cur[j] == pre_loop.r1cs.constraints@[j]);
                                            }
                                        }
                                    }
                                    assert(!acceptable(cur[con_id as int], pol, th, m)) by {
                                        assert(cur[con_id as int].c.monomials@.len() == 0);
                                        assert(first_eligible(
                                            cur[con_id as int].c.monomials@,
                                            pol,
                                        ) is None);
                                    }
                                }
                                let use_list = this.uses.get_uses(var);
                                let ghost snap = this;
                                let mut k: usize = 0;
                                proof {
                                    vstd::std_specs::vec::axiom_spec_len(&this.r1cs.constraints);
                                    assert forall|i: int|
                                        0 <= i < cs0.len() && con_mentions(
                                            #[trigger] this.r1cs.constraints@[i],
                                            var,
                                        ) implies exists|t: int|
                                        k <= t < use_list@.len() && use_list@[t] == i by {
                                        let iu: usize = i as usize;
                                        assert(iu as int == i);
                                        assert(con_mentions(this.r1cs.constraints@[iu as int], var));
                                        assert(in_uses(this.uses, var, iu));
                                        assert(use_list@.contains(iu));
                                        let t = choose|t: int|
                                            0 <= t < use_list@.len() && use_list@[t] == iu;
                                        assert(use_list@[t] == i);
                                    }
                                    assert forall|t: int|
                                        0 <= t < use_list@.len() implies (
                                        #[trigger] use_list@[t]) < cs0.len() by {
                                        assert(in_uses(this.uses, var, use_list@[t]));
                                    }
                                    // the value's variables stay live after the clear
                                    assert forall|v: Var|
                                        #[trigger] contains_var(lc.monomials@, v) implies live(
                                        this.r1cs,
                                        v,
                                    ) by {
                                        assert(vars_here.contains(v));
                                        assert(this.r1cs.vars@ == vars_here);
                                    }
                                }
                                while k < use_list.len()
                                    invariant
                                        reducer_wf(this),
                                        this.r1cs.modulus == m,
                                        1 < m,
                                        mi == m as int,
                                        this.r1cs.policy == pol,
                                        this.lc_size_thresh == th,
                                        this.r1cs.constraints@.len() == cs0.len(),
                                        this.r1cs.vars@ == vars_here,
                                        this.queue.pending@.len() == cs0.len(),
                                        k <= use_list@.len(),
                                        lc_wf(lc),
                                        lc.modulus == m,
                                        !contains_var(lc.monomials@, var),
                                        forall|v: Var|
                                            #[trigger] contains_var(lc.monomials@, v) ==> live(
                                                this.r1cs,
                                                v,
                                            ),
                                        entails_equation(cs0, var, lc, mi),
                                        preserves_sat(cs0, this.r1cs.constraints@, mi),
                                        forall|i: int|
                                            0 <= i < cs0.len() ==> con_normalized(
                                                #[trigger] this.r1cs.constraints@[i],
                                            ),
                                        forall|i: usize|
                                            i < cs0.len() && !in_queue(this.queue, i)
                                                ==> !acceptable(
                                                #[trigger] this.r1cs.constraints@[i as int],
                                                pol,
                                                th,
                                                m,
                                            ),
                                        forall|t: int|
                                            0 <= t < use_list@.len() ==> (
                                            #[trigger] use_list@[t]) < cs0.len(),
                                        forall|i: int|
                                            0 <= i < cs0.len() && con_mentions(
                                                #[trigger] this.r1cs.constraints@[i],
                                                var,
                                            ) ==> exists|t: int|
                                                k <= t < use_list@.len() && use_list@[t] == i,
                                        forall|k2: int|
                                            0 <= k2 < elims.len() ==> !live(
                                                this.r1cs,
                                                (#[trigger] elims[k2]).0,
                                            ),
                                        forall|asn: Map<Var, int>|
                                            congruent(asn[var], lc_eval(lc, asn), mi) ==> (
                                            #[trigger] sat_sys(this.r1cs.constraints@, asn, mi)
                                                <==> sat_sys(snap.r1cs.constraints@, asn, mi)),
                                    decreases use_list@.len() - k,
                                {
                                    let use_id = use_list[k];
                                    let ghost pre_sub = this;
                                    let ch = this.sub_in(var, &lc, use_id);
                                    if ch {
                                        let azero = this.r1cs.constraints[use_id].a.is_zero();
                                        let bzero = this.r1cs.constraints[use_id].b.is_zero();
                                        if azero || bzero {
                                            this.queue.push(use_id);
                                        }
                                    }
                                    proof {
                                        let cur = this.r1cs.constraints@;
                                        let prev = pre_sub.r1cs.constraints@;
                                        // soundness is preserved through the substitution
                                        assert forall|asn: Map<Var, int>|
                                            #[trigger] sat_sys(cs0, asn, mi) implies sat_sys(
                                            cur,
                                            asn,
                                            mi,
                                        ) by {
                                            assert(sat_sys(prev, asn, mi));
                                            assert(congruent(asn[var], lc_eval(lc, asn), mi));
                                            assert forall|j: int|
                                                0 <= j < cur.len() implies sat_con(
                                                #[trigger] cur[j],
                                                asn,
                                                mi,
                                            ) by {
                                                if j == use_id {
                                                    assert(sat_con(prev[j], asn, mi));
                                                } else {
                                                    assert(cur[j] == prev[j]);
                                                    assert(sat_con(prev[j], asn, mi));
                                                }
                                            }
                                        }
                                        // substitution keeps satisfaction, in both
                                        // directions, under the binding hypothesis
                                        assert forall|asn: Map<Var, int>|
                                            congruent(asn[var], lc_eval(lc, asn), mi) implies (
                                            #[trigger] sat_sys(cur, asn, mi) <==> sat_sys(
                                                snap.r1cs.constraints@,
                                                asn,
                                                mi,
                                            )) by {
                                            assert(sat_sys(prev, asn, mi) <==> sat_sys(
                                                snap.r1cs.constraints@,
                                                asn,
                                                mi,
                                            ));
                                            assert(sat_con(cur[use_id as int], asn, mi)
                                                <==> sat_con(prev[use_id as int], asn, mi));
                                            if sat_sys(cur, asn, mi) {
                                                assert forall|j: int|
                                                    0 <= j < prev.len() implies sat_con(
                                                    #[trigger] prev[j],
                                                    asn,
                                                    mi,
                                                ) by {
                                                    if j != use_id {
                                                        assert(cur[j] == prev[j]);
                                                    }
                                                    assert(sat_con(cur[j], asn, mi));
                                                }
                                            }
                                            if sat_sys(prev, asn, mi) {
                                                assert forall|j: int|
                                                    0 <= j < cur.len() implies sat_con(
                                                    #[trigger] cur[j],
                                                    asn,
                                                    mi,
                                                ) by {
                                                    if j != use_id {
                                                        assert(cur[j] == prev[j]);
                                                    }
                                                    assert(sat_con(prev[j], asn, mi));
                                                }
                                            }
                                        }
                                        // eliminated keys stay dead
                                        assert forall|k2: int|
                                            0 <= k2 < elims.len() implies !live(
                                            this.r1cs,
                                            (#[trigger] elims[k2]).0,
                                        ) by {
                                            assert(!live(pre_sub.r1cs, elims[k2].0));
                                            assert(this.r1cs.vars@ == pre_sub.r1cs.vars@);
                                        }
                                        // constraints no longer mentioning the variable
                                        assert forall|i: int|
                                            0 <= i < cs0.len() && con_mentions(
                                                #[trigger] cur[i],
                                                var,
                                            ) implies exists|t: int|
                                            k + 1 <= t < use_list@.len() && use_list@[t] == i by {
                                            assert(i != use_id);
                                            assert(cur[i] == prev[i]);
                                            let t = choose|t: int|
                                                k <= t < use_list@.len() && use_list@[t] == i;
                                            assert(t != k);
                                        }
                                        // the value's variables stay live
                                        assert forall|v: Var|
                                            #[trigger] contains_var(lc.monomials@, v) implies live(
                                            this.r1cs,
                                            v,
                                        ) by {
                                            assert(live(pre_sub.r1cs, v));
                                            assert(this.r1cs.vars@ == pre_sub.r1cs.vars@);
                                        }
                                        // the fixpoint property for constraints off the queue
                                        assert forall|i: usize|
                                            i < cs0.len() && !in_queue(this.queue, i)
                                                implies !acceptable(
                                                #[trigger] cur[i as int],
                                                pol,
                                                th,
                                                m,
                                            ) by {
                                            if i == use_id {
                                                if ch {
                                                    assert(!in_queue(pre_sub.queue, i)
                                                        || in_queue(this.queue, i)
                                                        || !(lc_is_zero(cur[i as int].a)
                                                        || lc_is_zero(cur[i as int].b)));
                                                } else {
                                                    assert(cur[i as int] == prev[i as int]);
                                                }
                                            } else {
                                                assert(cur[i as int] == prev[i as int]);
                                            }
                                        }
                                    }
                                    k = k + 1;
                                }
                                proof {
                                    // the eliminated variable's use-set is now empty
                                    assert forall|j: usize| !in_uses(this.uses, var, j) by {
                                        if in_uses(this.uses, var, j) {
                                            assert(con_mentions(
                                                this.r1cs.constraints@[j as int],
                                                var,
                                            ));
                                        }
                                    }
                                    assert(!sys_mentions(this.r1cs.constraints@, var)) by {
                                        if sys_mentions(this.r1cs.constraints@, var) {
                                            let i = choose|i: int|
                                                0 <= i < this.r1cs.constraints@.len()
                                                    && con_mentions(
                                                    this.r1cs.constraints@[i],
                                                    var,
                                                );
                                        }
                                    }
                                }
                                let ghost before_rm = this;
                                proof {
                                    assert(live(this.r1cs, var)) by {
                                        assert(this.r1cs.vars@ == vars_here);
                                        assert(vars_here.contains(var));
                                    }
                                }
                                this.remove_var(var);
                                proof {
                                    assert(this.r1cs.vars@.len() < vars_here.len()) by {
                                        assert(before_rm.r1cs.vars@ == vars_here);
                                    }
                                    assert forall|w: Var| live(this.r1cs, w) implies
                                        vars0.contains(w) by {
                                        assert(live(before_rm.r1cs, w));
                                        assert(live(pre_loop.r1cs, w));
                                    }
                                    // record the elimination and carry the completeness
                                    // invariant across it
                                    let pre_elims = elims;
                                    elims = pre_elims.push((var, lc));
                                    assert(elims.drop_last() =~= pre_elims);
                                    assert(elims.last() == (var, lc));
                                    let cur = this.r1cs.constraints@;
                                    assert(cur == before_rm.r1cs.constraints@);
                                    assert forall|k2: int|
                                        0 <= k2 < elims.len() implies !live(
                                        this.r1cs,
                                        (#[trigger] elims[k2]).0,
                                    ) by {
                                        if k2 < pre_elims.len() {
                                            assert(elims[k2] == pre_elims[k2]);
                                            assert(!live(before_rm.r1cs, pre_elims[k2].0));
                                        } else {
                                            assert(elims[k2] == (var, lc));
                                        }
                                    }
                                    assert forall|asn: Map<Var, int>|
                                        #[trigger] sat_sys(cur, asn, mi) implies sat_sys(
                                        cs0,
                                        extend_assignment(elims, asn),
                                        mi,
                                    ) by {
                                        let m2 = asn.insert(var, lc_eval(lc, asn));
                                        // the current constraints never read `var`
                                        assert forall|j: int|
                                            0 <= j < cur.len() implies sat_con(
                                            #[trigger] cur[j],
                                            m2,
                                            mi,
                                        ) by {
                                            assert(!con_mentions(cur[j], var)) by {
                                                assert(!sys_mentions(cur, var));
                                            }
                                            assert forall|w: Var|
                                                #[trigger] con_mentions(cur[j], w) implies asn[w]
                                                == m2[w] by {
                                                assert(w != var);
                                            }
                                            lemma_sat_con_agrees(cur[j], asn, m2, mi);
                                            assert(sat_con(cur[j], asn, mi));
                                        }
                                        assert(sat_sys(cur, m2, mi));
                                        // the binding hypothesis holds for `m2`
                                        assert(lc_eval(lc, m2) == lc_eval(lc, asn)) by {
                                            assert forall|w: Var|
                                                #[trigger] contains_var(lc.monomials@, w)
                                                implies m2[w] == asn[w] by {
                                                assert(w != var);
                                            }
                                            crate::lc::lemma_mon_sum_agrees(
                                                lc.monomials@,
                                                m2,
                                                asn,
                                            );
                                        }
                                        assert(congruent(m2[var], lc_eval(lc, m2), mi));
                                        // back through the substitutions
                                        assert(sat_sys(snap.r1cs.constraints@, m2, mi));
                                        // back through the clear: the defining constraint
                                        // holds under the binding
                                        assert forall|j: int|
                                            0 <= j < pre_loop.r1cs.constraints@.len()
                                            implies sat_con(
                                            #[trigger] pre_loop.r1cs.constraints@[j],
                                            m2,
                                            mi,
                                        ) by {
                                            if j == con_id {
                                                assert(pre_loop.r1cs.constraints@[j] == con_here);
                                                assert(sat_con(con_here, m2, mi));
                                            } else {
                                                assert(snap.r1cs.constraints@[j]
                                                    == pre_loop.r1cs.constraints@[j]);
                                                assert(sat_con(snap.r1cs.constraints@[j], m2, mi));
                                            }
                                        }
                                        assert(sat_sys(pre_loop.r1cs.constraints@, m2, mi));
                                        assert(sat_sys(
                                            cs0,
                                            extend_assignment(pre_elims, m2),
                                            mi,
                                        ));
                                        assert(extend_assignment(elims, asn)
                                            == extend_assignment(pre_elims, m2));
                                    }
                                }
                            }
                        }
                    }
                }
            }
        }
        proof {
            // an empty worklist means no pending index at all
            assert forall|i: usize| !in_queue(this.queue, i) by {
                if in_queue(this.queue, i) {
                    assert(this.queue.items@.contains(i));
                }
            }
        }
        // final pass: drop constantly-true constraints, erring on a
        // constantly-false one, then drop unreferenced variables
        let ghost cs_fix = this.r1cs.constraints@;
        proof {
            assert(cs_fix.take(0) =~= Seq::<Constraint>::empty());
            vstd::std_specs::vec::axiom_spec_len(&this.r1cs.constraints);
            assert forall|j: int|
                0 <= j < cs_fix.len() implies !acceptable(
                #[trigger] cs_fix[j],
                pol,
                th,
                m,
            ) by {
                let ju: usize = j as usize;
                assert(ju as int == j);
                assert(!in_queue(this.queue, ju));
            }
        }
        let mut kept: Vec<Constraint> = Vec::new();
        let mut i: usize = 0;
        while i < this.r1cs.constraints.len()
            invariant
                reducer_wf(this),
                this.r1cs.modulus == m,
                1 < m,
                mi == m as int,
                m == self.r1cs.modulus,
                cs0 == self.r1cs.constraints@,
                vars0 == self.r1cs.vars@,
                pol == self.r1cs.policy,
                th == self.lc_size_thresh,
                opt0 == optimized(self.r1cs, th),
                this.r1cs.policy == pol,
                this.lc_size_thresh == th,
                i <= cs_fix.len(),
                cs_fix == this.r1cs.constraints@,
                cs_fix.len() == cs0.len(),
                preserves_sat(cs0, cs_fix, mi),
                forall|q: usize| !in_queue(this.queue, q),
                this.queue.pending@.len() == cs_fix.len(),
                forall|j: int|
                    0 <= j < cs_fix.len() ==> con_normalized(#[trigger] cs_fix[j]),
                forall|j: int|
                    0 <= j < cs_fix.len() ==> !acceptable(#[trigger] cs_fix[j], pol, th, m),
                forall|w: Var| live(this.r1cs, w) ==> vars0.contains(w),
                opt0 ==> this.r1cs.vars@ == vars0 && (forall|j: int|
                    0 <= j < cs0.len() ==> con_equal(#[trigger] cs_fix[j], cs0[j])),
                forall|j: int| 0 <= j < kept@.len() ==> con_wf(#[trigger] kept@[j], m),
                forall|j: int| 0 <= j < kept@.len() ==> con_normalized(#[trigger] kept@[j]),
                forall|j: int|
                    0 <= j < kept@.len() ==> !acceptable(#[trigger] kept@[j], pol, th, m),
                forall|j: int|
                    0 <= j < kept@.len() ==> !spec_constantly_true(#[trigger] kept@[j], m),
                forall|j: int, v: Var|
                    0 <= j < kept@.len() && #[trigger] con_mentions(kept@[j], v) ==> sys_mentions(
                        cs_fix,
                        v,
                    ),
                forall|asn: Map<Var, int>|
                    #[trigger] sat_sys(cs_fix, asn, mi) ==> sat_sys(kept@, asn, mi),
                opt0 ==> kept@.len() == i && (forall|j: int|
                    0 <= j < i ==> con_equal(#[trigger] kept@[j], cs_fix[j])),
                forall|asn: Map<Var, int>|
                    #[trigger] sat_sys(kept@, asn, mi) ==> sat_sys(
                        cs_fix.take(i as int),
                        asn,
                        mi,
                    ),
                forall|asn: Map<Var, int>|
                    #[trigger] sat_sys(cs_fix, asn, mi) ==> sat_sys(
                        cs0,
                        extend_assignment(elims, asn),
                        mi,
                    ),
                forall|k: int|
                    0 <= k < elims.len() ==> !live(this.r1cs, (#[trigger] elims[k]).0),
            decreases cs_fix.len() - i,
        {
            let ghost pre_kept = kept@;
            let ct = constantly_true(&this.r1cs.constraints[i]);
            if !ct {
                let all_const = this.r1cs.constraints[i].a.as_constant().is_some()
                    && this.r1cs.constraints[i].b.as_constant().is_some()
                    && this.r1cs.constraints[i].c.as_constant().is_some();
                if all_const {
                    proof {
                        let bad = this.r1cs.constraints@[i as int];
                        assert(spec_constantly_false(bad, m));
                        assert forall|asn: Map<Var, int>|
                            !sat_sys(cs0, asn, mi) by {
                            if sat_sys(cs0, asn, mi) {
                                assert(sat_sys(cs_fix, asn, mi));
                                assert(sat_con(bad, asn, mi));
                                lemma_constantly_false_unsat(bad, m, asn);
                            }
                        }
                    }
                    return Err(OptError::UnsatisfiableConstraint);
                }
                kept.push(this.r1cs.constraints[i].duplicate());
                proof {
                    let cj = this.r1cs.constraints@[i as int];
                    let nj = kept@[kept@.len() - 1];
                    assert(con_equal(nj, cj));
                    assert forall|v: Var| con_mentions(nj, v) implies sys_mentions(
                        cs_fix,
                        v,
                    ) by {
                        assert(con_mentions(cj, v));
                    }
                    assert forall|asn: Map<Var, int>|
                        #[trigger] sat_sys(cs_fix, asn, mi) implies sat_sys(kept@, asn, mi) by {
                        assert(sat_sys(pre_kept, asn, mi));
                        assert forall|j: int| 0 <= j < kept@.len() implies sat_con(
                            #[trigger] kept@[j],
                            asn,
                            mi,
                        ) by {
                            if j == kept@.len() - 1 {
                                assert(sat_con(cj, asn, mi));
                                lemma_sat_con_congruent(nj, cj, asn, mi);
                            } else {
                                assert(kept@[j] == pre_kept[j]);
                            }
                        }
                    }
                    assert(!acceptable(nj, pol, th, m)) by {
                        assert(!acceptable(cj, pol, th, m));
                        lemma_acceptable_view(nj, cj, pol, th, m);
                    }
                    assert(!spec_constantly_true(nj, m));
                    assert(con_normalized(nj));
                    assert(con_wf(nj, m));
                    assert(cs_fix.take(i + 1) =~= cs_fix.take(i as int).push(cs_fix[i as int]));
                    assert forall|asn: Map<Var, int>|
                        #[trigger] sat_sys(kept@, asn, mi) implies sat_sys(
                        cs_fix.take(i + 1),
                        asn,
                        mi,
                    ) by {
                        assert forall|j: int| 0 <= j < pre_kept.len() implies sat_con(
                            #[trigger] pre_kept[j],
                            asn,
                            mi,
                        ) by {
                            assert(kept@[j] == pre_kept[j]);
                            assert(sat_con(kept@[j], asn, mi));
                        }
                        assert(sat_sys(pre_kept, asn, mi));
                        assert(sat_sys(cs_fix.take(i as int), asn, mi));
                        assert forall|j: int|
                            0 <= j < i + 1 implies sat_con(
                            #[trigger] cs_fix.take(i + 1)[j],
                            asn,
                            mi,
                        ) by {
                            if j < i {
                                assert(cs_fix.take(i + 1)[j] == cs_fix.take(i as int)[j]);
                                assert(sat_con(cs_fix.take(i as int)[j], asn, mi));
                            } else {
                                assert(cs_fix.take(i + 1)[j] == cj);
                                assert(sat_con(nj, asn, mi));
                                lemma_sat_con_congruent(nj, cj, asn, mi);
                            }
                        }
                    }
                }
            } else {
                proof {
                    if opt0 {
                        let cj = this.r1cs.constraints@[i as int];
                        assert(con_equal(cj, cs0[i as int]));
                        assert(optimized(self.r1cs, th));
                        assert(!spec_constantly_true(cs0[i as int], m));
                        assert(cj.a.constant == cs0[i as int].a.constant && cj.a.monomials@
                            == cs0[i as int].a.monomials@);
                        assert(cj.b.constant == cs0[i as int].b.constant && cj.b.monomials@
                            == cs0[i as int].b.monomials@);
                        assert(cj.c.constant == cs0[i as int].c.constant && cj.c.monomials@
                            == cs0[i as int].c.monomials@);
                        assert(false);
                    }
                    assert forall|asn: Map<Var, int>|
                        #[trigger] sat_sys(cs_fix, asn, mi) implies sat_sys(kept@, asn, mi) by {
                        assert(sat_sys(pre_kept, asn, mi));
                    }
                    assert(cs_fix.take(i + 1) =~= cs_fix.take(i as int).push(cs_fix[i as int]));
                    assert forall|asn: Map<Var, int>|
                        #[trigger] sat_sys(kept@, asn, mi) implies sat_sys(
                        cs_fix.take(i + 1),
                        asn,
                        mi,
                    ) by {
                        assert(sat_sys(cs_fix.take(i as int), asn, mi));
                        assert forall|j: int|
                            0 <= j < i + 1 implies sat_con(
                            #[trigger] cs_fix.take(i + 1)[j],
                            asn,
                            mi,
                        ) by {
                            if j < i {
                                assert(cs_fix.take(i + 1)[j] == cs_fix.take(i as int)[j]);
                                assert(sat_con(cs_fix.take(i as int)[j], asn, mi));
                            } else {
                                assert(cs_fix.take(i + 1)[j] == cs_fix[i as int]);
                                lemma_constantly_true_sat(cs_fix[i as int], m, asn);
                            }
                        }
                    }
                }
            }
            i = i + 1;
        }
        let ghost sys_before = this.r1cs;
        this.r1cs.constraints = kept;
        proof {
            assert(this.r1cs.vars@ == sys_before.vars@);
            assert forall|v: Var| sys_mentions(this.r1cs.constraints@, v) implies live(
                this.r1cs,
                v,
            ) by {
                let j = choose|j: int|
                    0 <= j < this.r1cs.constraints@.len() && con_mentions(
                        this.r1cs.constraints@[j],
                        v,
                    );
                assert(sys_mentions(cs_fix, v));
                assert(live(sys_before, v));
            }
            assert(r1cs_wf(this.r1cs));
        }
        let ghost pre_clean = this.r1cs;
        this.remove_dead_variables();
        proof {
            let out = this.r1cs;
            // the live list now holds exactly the occurring variables
            assert forall|v: Var| live(out, v) <==> sys_mentions(out.constraints@, v) by {
                if sys_mentions(out.constraints@, v) {
                    assert(live(pre_clean, v));
                }
            }
            assert forall|asn: Map<Var, int>|
                #[trigger] sat_sys(cs0, asn, mi) implies sat_sys(out.constraints@, asn, mi) by {
                assert(sat_sys(cs_fix, asn, mi));
            }
            assert forall|w: Var| live(out, w) implies vars0.contains(w) by {
                assert(live(pre_clean, w));
            }
            // every satisfying assignment of the result extends to one of
            // the input, via the recorded eliminations
            assert forall|asn: Map<Var, int>|
                #[trigger] sat_sys(out.constraints@, asn, mi) implies exists|
                asn2: Map<Var, int>,
            |
                #[trigger] sat_sys(cs0, asn2, mi) && agrees_on_live(out, asn2, asn) by {
                assert(cs_fix.take(cs_fix.len() as int) =~= cs_fix);
                assert(sat_sys(cs_fix, asn, mi));
                let w = extend_assignment(elims, asn);
                assert(sat_sys(cs0, w, mi));
                assert forall|v: Var| live(out, v) implies w[v] == asn[v] by {
                    assert(live(pre_clean, v));
                    assert forall|k: int|
                        0 <= k < elims.len() implies (#[trigger] elims[k]).0 != v by {
                        assert(!live(pre_clean, elims[k].0));
                    }
                    lemma_extend_agrees(elims, asn, v);
                }
                assert(agrees_on_live(out, w, asn));
            }
            assert(extends_sat(cs0, out, mi));
            if opt0 {
                assert(this.r1cs.constraints@.len() == cs0.len());
                assert forall|w: Var|
                    live(pre_clean, w) implies sys_mentions(pre_clean.constraints@, w) by {
                    assert(vars0.contains(w));
                    assert(live(self.r1cs, w));
                    assert(sys_mentions(cs0, w));
                    let j = choose|j: int| 0 <= j < cs0.len() && con_mentions(cs0[j], w);
                    assert(con_equal(pre_clean.constraints@[j], cs0[j]));
                    assert(con_mentions(pre_clean.constraints@[j], w));
                }
                assert(out.vars@ == vars0);
                assert(sys_equal(out, self.r1cs));
            }
        }
        Ok(this.r1cs)
    }
}

/// Shrink the system by eliminating variables that are linear functions of
/// other variables.  `lc_size_thresh` caps the monomial count of any
/// replacement value (`None` means unbounded).  The reduction is
/// equisatisfiable: every satisfying assignment of the input satisfies the
/// result, and every satisfying assignment of the result extends, on the
/// eliminated variables, to one of the input.  An error proves the input
/// system unsatisfiable.  Running the pass on its own output changes
/// nothing.
pub fn reduce_linearities(r1cs: R1cs, lc_size_thresh: Option<usize>) -> (r: Result<
    R1cs,
    OptError,
>)
    requires
        r1cs_wf(r1cs),
    ensures
        r matches Ok(out) ==> {
            &&& r1cs_wf(out)
            &&& out.modulus == r1cs.modulus
            &&& out.policy == r1cs.policy
            &&& preserves_sat(r1cs.constraints@, out.constraints@, r1cs.modulus as int)
            &&& optimized(out, lc_size_thresh)
            &&& extends_sat(r1cs.constraints@, out, r1cs.modulus as int)
            &&& forall|w: Var| live(out, w) ==> live(r1cs, w)
            &&& (optimized(r1cs, lc_size_thresh) ==> sys_equal(out, r1cs))
        },
        r is Err ==> forall|asn: Map<Var, int>|
            !sat_sys(r1cs.constraints@, asn, r1cs.modulus as int),
{
    let ghost mi = r1cs.modulus as int;
    let ghost orig = r1cs;
    let reducer = LinReducer::new(r1cs, lc_size_thresh);
    let ghost mid = reducer.r1cs;
    let out = reducer.run();
    proof {
        match &out {
            Ok(o) => {
                assert(preserves_sat(orig.constraints@, o.constraints@, mi)) by {
                    assert forall|asn: Map<Var, int>|
                        #[trigger] sat_sys(orig.constraints@, asn, mi) implies sat_sys(
                        o.constraints@,
                        asn,
                        mi,
                    ) by {
                        assert(sat_sys(mid.constraints@, asn, mi));
                    }
                }
                assert forall|w: Var| live(*o, w) implies live(orig, w) by {
                    assert(live(mid, w));
                }
                // completeness composes through the normalization, which
                // keeps satisfaction in both directions
                assert forall|asn: Map<Var, int>|
                    #[trigger] sat_sys(o.constraints@, asn, mi) implies exists|
                    asn2: Map<Var, int>,
                |
                    #[trigger] sat_sys(orig.constraints@, asn2, mi) && agrees_on_live(
                        *o,
                        asn2,
                        asn,
                    ) by {
                    let asn2 = choose|asn2: Map<Var, int>|
                        #[trigger] sat_sys(mid.constraints@, asn2, mi) && agrees_on_live(
                            *o,
                            asn2,
                            asn,
                        );
                    assert(sat_sys(orig.constraints@, asn2, mi));
                }
                assert(extends_sat(orig.constraints@, *o, mi));
                if optimized(orig, lc_size_thresh) {
                    assert forall|i: int|
                        0 <= i < mid.constraints@.len() implies con_equal(
                        #[trigger] mid.constraints@[i],
                        orig.constraints@[i],
                    ) by {}
                    assert(optimized(mid, lc_size_thresh)) by {
                        lemma_optimized_congruent(orig, mid, lc_size_thresh);
                    }
                    assert(sys_equal(*o, mid));
                    assert(sys_equal(*o, orig)) by {
                        assert forall|i: int|
                            0 <= i < o.constraints@.len() implies con_equal(
                            #[trigger] o.constraints@[i],
                            orig.constraints@[i],
                        ) by {
                            assert(con_equal(o.constraints@[i], mid.constraints@[i]));
                            assert(con_equal(mid.constraints@[i], orig.constraints@[i]));
                        }
                    }
                }
            }
            Err(e) => {
                assert forall|asn: Map<Var, int>|
                    !sat_sys(orig.constraints@, asn, mi) by {
                    if sat_sys(orig.constraints@, asn, mi) {
                        assert(sat_sys(mid.constraints@, asn, mi));
                    }
                }
            }
        }
    }
    out
}

/// View-equal constraints admit the same eliminations.
proof fn lemma_acceptable_view(
    x: Constraint,
    y: Constraint,
    pol: ElimPolicy,
    th: Option<usize>,
    m: u64,
)
    requires
        con_equal(x, y),
    ensures
        acceptable(x, pol, th, m) == acceptable(y, pol, th, m),
{
    assert(x.a.constant == y.a.constant && x.a.monomials@ == y.a.monomials@);
    assert(x.b.constant == y.b.constant && x.b.monomials@ == y.b.monomials@);
    assert(x.c.constant == y.c.constant && x.c.monomials@ == y.c.monomials@);
}

/// A system view-equal to an optimized one is optimized.
proof fn lemma_optimized_congruent(x: R1cs, y: R1cs, thresh: Option<usize>)
    requires
        optimized(x, thresh),
        y.modulus == x.modulus,
        y.policy == x.policy,
        y.vars@ == x.vars@,
        y.constraints@.len() == x.constraints@.len(),
        forall|i: int|
            0 <= i < y.constraints@.len() ==> con_equal(
                #[trigger] y.constraints@[i],
                x.constraints@[i],
            ),
    ensures
        optimized(y, thresh),
{
    assert forall|i: int|
        0 <= i < y.constraints@.len() implies con_normalized(#[trigger] y.constraints@[i])
        && !acceptable(y.constraints@[i], y.policy, thresh, y.modulus) && !spec_constantly_true(
        y.constraints@[i],
        y.modulus,
    ) by {
        let yc = y.constraints@[i];
        let xc = x.constraints@[i];
        assert(con_normalized(xc) && !acceptable(xc, x.policy, thresh, x.modulus)
            && !spec_constantly_true(xc, x.modulus));
        assert(yc.a.constant == xc.a.constant && yc.a.monomials@ == xc.a.monomials@);
        assert(yc.b.constant == xc.b.constant && yc.b.monomials@ == xc.b.monomials@);
        assert(yc.c.constant == xc.c.constant && yc.c.monomials@ == xc.c.monomials@);
    }
    assert forall|v: Var| live(y, v) <==> sys_mentions(y.constraints@, v) by {
        if sys_mentions(y.constraints@, v) {
            let i = choose|i: int|
                0 <= i < y.constraints@.len() && con_mentions(y.constraints@[i], v);
            assert(y.constraints@[i].a.monomials@ == x.constraints@[i].a.monomials@);
            assert(y.constraints@[i].b.monomials@ == x.constraints@[i].b.monomials@);
            assert(y.constraints@[i].c.monomials@ == x.constraints@[i].c.monomials@);
            assert(con_mentions(x.constraints@[i], v));
            assert(sys_mentions(x.constraints@, v));
            assert(live(x, v));
            assert(y.vars@.contains(v));
        }
        if live(y, v) {
            assert(x.vars@.contains(v));
            assert(live(x, v));
            assert(sys_mentions(x.constraints@, v));
            let i = choose|i: int|
                0 <= i < x.constraints@.len() && con_mentions(x.constraints@[i], v);
            assert(y.constraints@[i].a.monomials@ == x.constraints@[i].a.monomials@);
            assert(y.constraints@[i].b.monomials@ == x.constraints@[i].b.monomials@);
            assert(y.constraints@[i].c.monomials@ == x.constraints@[i].c.monomials@);
            assert(con_mentions(y.constraints@[i], v));
            assert(sys_mentions(y.constraints@, v));
        }
    }
}

} // verus!
