//! End-to-end behavior of the linearity-reduction pass.

use std::collections::HashMap;

use zkpyc::lc::{Lc, Var, VarType};
use zkpyc::opt::{as_linear_sub, constantly_true, normalize, reduce_linearities, OptError};
use zkpyc::r1cs::{Constraint, ElimPolicy, R1cs};

fn var(ty: VarType, number: u64) -> Var {
    Var { ty, number }
}

fn lc(m: u64, constant: u64, monomials: Vec<(Var, u64)>) -> Lc {
    Lc { modulus: m, constant, monomials }
}

fn zero(m: u64) -> Lc {
    lc(m, 0, vec![])
}

fn system(m: u64, policy: ElimPolicy, vars: Vec<Var>, constraints: Vec<Constraint>) -> R1cs {
    R1cs { modulus: m, constraints, vars, policy }
}

fn private_only() -> ElimPolicy {
    ElimPolicy { inst: false, cwit: true, round_wit: true, chall: true, final_wit: true }
}

fn lc_equal(a: &Lc, b: &Lc) -> bool {
    a.modulus == b.modulus && a.constant == b.constant && a.monomials == b.monomials
}

fn eval_lc(l: &Lc, asn: &HashMap<Var, u64>, m: u64) -> u64 {
    let mut acc = l.constant as u128;
    for (v, c) in &l.monomials {
        acc += (*c as u128) * (*asn.get(v).unwrap() as u128);
        acc %= m as u128;
    }
    (acc % m as u128) as u64
}

fn satisfies(sys: &R1cs, asn: &HashMap<Var, u64>) -> bool {
    let m = sys.modulus;
    sys.constraints.iter().all(|con| {
        let a = eval_lc(&con.a, asn, m) as u128;
        let b = eval_lc(&con.b, asn, m) as u128;
        let c = eval_lc(&con.c, asn, m) as u128;
        (a * b) % m as u128 == c
    })
}

#[test]
fn eliminates_single_linear_constraint() {
    // (0, 0, x - 5) over modulus 17: x is solved to 5 and the constraint
    // disappears together with the variable.
    let m = 17;
    let x = var(VarType::FinalWit, 0);
    let sys = system(
        m,
        private_only(),
        vec![x],
        vec![Constraint { a: zero(m), b: zero(m), c: lc(m, 12, vec![(x, 1)]) }],
    );
    let out = reduce_linearities(sys, None).unwrap();
    assert_eq!(out.constraints.len(), 0);
    assert_eq!(out.vars.len(), 0);
}

#[test]
fn substitutes_solved_value_everywhere() {
    // (0, 0, x - 5) and (0, 0, y - x) over modulus 17 with y public:
    // x is replaced by 5 in the second constraint, which stays behind as
    // y - 5 = 0 (y + 12 in reduced form).
    let m = 17;
    let x = var(VarType::FinalWit, 0);
    let y = var(VarType::Inst, 0);
    let sys = system(
        m,
        private_only(),
        vec![x, y],
        vec![
            Constraint { a: zero(m), b: zero(m), c: lc(m, 12, vec![(x, 1)]) },
            Constraint { a: zero(m), b: zero(m), c: lc(m, 0, vec![(y, 1), (x, 16)]) },
        ],
    );
    let out = reduce_linearities(sys, None).unwrap();
    assert_eq!(out.constraints.len(), 1);
    let con = &out.constraints[0];
    assert!(con.a.monomials.is_empty() && con.a.constant == 0);
    assert!(con.b.monomials.is_empty() && con.b.constant == 0);
    assert_eq!(con.c.monomials, vec![(y, 1)]);
    assert_eq!(con.c.constant, 12);
    assert_eq!(out.vars, vec![y]);
}

#[test]
fn policy_picks_first_eligible_variable() {
    // (0, 0, y - 2x) and (x, x, z) over modulus 17 with only y eligible:
    // the first constraint solves y = 2x, the second is untouched, and y
    // leaves the system entirely.
    let m = 17;
    let y = var(VarType::FinalWit, 0);
    let x = var(VarType::CWit, 1);
    let z = var(VarType::CWit, 2);
    let policy = ElimPolicy {
        inst: false,
        cwit: false,
        round_wit: false,
        chall: false,
        final_wit: true,
    };
    let sys = system(
        m,
        policy,
        vec![y, x, z],
        vec![
            Constraint { a: zero(m), b: zero(m), c: lc(m, 0, vec![(y, 1), (x, 15)]) },
            Constraint {
                a: lc(m, 0, vec![(x, 1)]),
                b: lc(m, 0, vec![(x, 1)]),
                c: lc(m, 0, vec![(z, 1)]),
            },
        ],
    );
    let out = reduce_linearities(sys, None).unwrap();
    assert_eq!(out.constraints.len(), 1);
    let con = &out.constraints[0];
    assert_eq!(con.a.monomials, vec![(x, 1)]);
    assert_eq!(con.b.monomials, vec![(x, 1)]);
    assert_eq!(con.c.monomials, vec![(z, 1)]);
    assert_eq!(out.vars, vec![x, z]);
}

#[test]
fn drops_constantly_true_constraint() {
    // (3, 5, 15) over modulus 17 holds as constants and is dropped.
    let m = 17;
    let sys = system(
        m,
        private_only(),
        vec![],
        vec![Constraint { a: lc(m, 3, vec![]), b: lc(m, 5, vec![]), c: lc(m, 15, vec![]) }],
    );
    let out = reduce_linearities(sys, None).unwrap();
    assert_eq!(out.constraints.len(), 0);
}

#[test]
fn surfaces_constantly_false_constraint() {
    // (3, 5, 16) over modulus 17 fails as constants: a distinct error,
    // never a silent drop.
    let m = 17;
    let sys = system(
        m,
        private_only(),
        vec![],
        vec![Constraint { a: lc(m, 3, vec![]), b: lc(m, 5, vec![]), c: lc(m, 16, vec![]) }],
    );
    let out = reduce_linearities(sys, None);
    assert!(matches!(out, Err(OptError::UnsatisfiableConstraint)));
}

#[test]
fn threshold_rejects_oversized_value() {
    // A candidate whose solved value would have 60 monomials is rejected
    // under a cap of 50: the variable stays live and the constraint stays
    // in place unchanged.
    let m = 101;
    let target = var(VarType::FinalWit, 0);
    let mut vars = vec![target];
    let mut mons = vec![(target, 1)];
    for k in 0..60 {
        let v = var(VarType::CWit, 1 + k);
        vars.push(v);
        mons.push((v, 2));
    }
    let policy = ElimPolicy {
        inst: false,
        cwit: false,
        round_wit: false,
        chall: false,
        final_wit: true,
    };
    let sys = system(
        m,
        policy,
        vars.clone(),
        vec![Constraint { a: zero(m), b: zero(m), c: lc(m, 7, mons.clone()) }],
    );
    let out = reduce_linearities(sys, Some(50)).unwrap();
    assert_eq!(out.constraints.len(), 1);
    assert_eq!(out.constraints[0].c.monomials, mons);
    assert_eq!(out.constraints[0].c.constant, 7);
    assert_eq!(out.vars, vars);
}

#[test]
fn preserves_satisfying_assignments() {
    // A satisfying assignment of the input still satisfies the reduced
    // system restricted to the surviving variables.
    let m = 17;
    let x = var(VarType::FinalWit, 0);
    let y = var(VarType::FinalWit, 1);
    let z = var(VarType::Inst, 0);
    // x = 3, and z = x * y, with y - 2x = 0 making y = 6, z = 1 (18 mod 17)
    let sys = system(
        m,
        private_only(),
        vec![x, y, z],
        vec![
            Constraint { a: zero(m), b: zero(m), c: lc(m, 14, vec![(x, 1)]) },
            Constraint { a: zero(m), b: zero(m), c: lc(m, 0, vec![(y, 1), (x, 15)]) },
            Constraint {
                a: lc(m, 0, vec![(x, 1)]),
                b: lc(m, 0, vec![(y, 1)]),
                c: lc(m, 0, vec![(z, 1)]),
            },
        ],
    );
    let mut asn = HashMap::new();
    asn.insert(x, 3);
    asn.insert(y, 6);
    asn.insert(z, 1);
    assert!(satisfies(&sys, &asn));
    let out = reduce_linearities(sys, None).unwrap();
    assert!(satisfies(&out, &asn));
    for v in &out.vars {
        assert!(asn.contains_key(v));
    }
}

#[test]
fn reduced_witnesses_extend_to_the_input() {
    // x - 5 = 0 and y - x = 0 reduce to y - 5 = 0; a witness of the
    // reduced system (y = 5) extends with the solved value x = 5 to a
    // witness of the input.
    let m = 17;
    let x = var(VarType::FinalWit, 0);
    let y = var(VarType::Inst, 0);
    let build = || {
        system(
            m,
            private_only(),
            vec![x, y],
            vec![
                Constraint { a: zero(m), b: zero(m), c: lc(m, 12, vec![(x, 1)]) },
                Constraint { a: zero(m), b: zero(m), c: lc(m, 0, vec![(y, 1), (x, 16)]) },
            ],
        )
    };
    let out = reduce_linearities(build(), None).unwrap();
    let mut reduced_witness = HashMap::new();
    reduced_witness.insert(y, 5);
    assert!(satisfies(&out, &reduced_witness));
    let mut extended = reduced_witness.clone();
    extended.insert(x, 5);
    assert!(satisfies(&build(), &extended));
}

#[test]
fn second_run_is_a_fixpoint() {
    // Running the optimizer on its own output with the same threshold
    // changes nothing.
    let m = 17;
    let x = var(VarType::FinalWit, 0);
    let y = var(VarType::FinalWit, 1);
    let z = var(VarType::Inst, 0);
    let sys = system(
        m,
        private_only(),
        vec![x, y, z],
        vec![
            Constraint { a: zero(m), b: zero(m), c: lc(m, 14, vec![(x, 1)]) },
            Constraint {
                a: lc(m, 0, vec![(x, 1)]),
                b: lc(m, 0, vec![(y, 1)]),
                c: lc(m, 0, vec![(z, 1)]),
            },
        ],
    );
    let once = reduce_linearities(sys, Some(10)).unwrap();
    let again = reduce_linearities(
        R1cs {
            modulus: once.modulus,
            constraints: once
                .constraints
                .iter()
                .map(|c| Constraint { a: c.a.duplicate(), b: c.b.duplicate(), c: c.c.duplicate() })
                .collect(),
            vars: once.vars.clone(),
            policy: once.policy,
        },
        Some(10),
    )
    .unwrap();
    assert_eq!(once.constraints.len(), again.constraints.len());
    for (c1, c2) in once.constraints.iter().zip(again.constraints.iter()) {
        assert!(lc_equal(&c1.a, &c2.a));
        assert!(lc_equal(&c1.b, &c2.b));
        assert!(lc_equal(&c1.c, &c2.c));
    }
    assert_eq!(once.vars, again.vars);
}

#[test]
fn normalize_folds_constant_factor() {
    // (2, x + 1, x + 3) over modulus 17 folds into (0, 0, -2x + 1).
    let m = 17;
    let x = var(VarType::FinalWit, 0);
    let mut con = Constraint {
        a: lc(m, 2, vec![]),
        b: lc(m, 1, vec![(x, 1)]),
        c: lc(m, 3, vec![(x, 1)]),
    };
    normalize(&mut con);
    assert!(con.a.monomials.is_empty() && con.a.constant == 0);
    assert!(con.b.monomials.is_empty() && con.b.constant == 0);
    // c - 2*b = (3 - 2) + (1 - 2) x = 1 + 16 x
    assert_eq!(con.c.constant, 1);
    assert_eq!(con.c.monomials, vec![(x, 16)]);
}

#[test]
fn constantly_true_checks_the_field_product() {
    let m = 17;
    let t = Constraint { a: lc(m, 4, vec![]), b: lc(m, 13, vec![]), c: lc(m, 1, vec![]) };
    assert!(constantly_true(&t)); // 4 * 13 = 52 = 3 * 17 + 1
    let f = Constraint { a: lc(m, 4, vec![]), b: lc(m, 13, vec![]), c: lc(m, 2, vec![]) };
    assert!(!constantly_true(&f));
}

#[test]
fn as_linear_sub_solves_for_the_first_eligible_variable() {
    // (0, 0, 3x + 5) over modulus 17: x = -5/3 = -5 * 6 = -30 = 4 mod 17.
    let m = 17;
    let x = var(VarType::FinalWit, 0);
    let sys = system(m, private_only(), vec![x], vec![]);
    let con = Constraint { a: zero(m), b: zero(m), c: lc(m, 5, vec![(x, 3)]) };
    let (v, value) = as_linear_sub(&con, &sys).unwrap();
    assert_eq!(v, x);
    assert!(value.monomials.is_empty());
    assert_eq!(value.constant, 4);
}

#[test]
fn as_linear_sub_ignores_bilinear_constraints() {
    let m = 17;
    let x = var(VarType::FinalWit, 0);
    let sys = system(m, private_only(), vec![x], vec![]);
    let con = Constraint {
        a: lc(m, 0, vec![(x, 1)]),
        b: lc(m, 0, vec![(x, 1)]),
        c: lc(m, 5, vec![(x, 3)]),
    };
    assert!(as_linear_sub(&con, &sys).is_none());
}
