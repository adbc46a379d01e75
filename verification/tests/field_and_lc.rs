//! Field arithmetic, linear-combination arithmetic, the use-index and the
//! worklist queue.

use zkpyc::field::{add_mod, int_to_field, inv_mod, mul_mod, neg_mod, sub_mod, to_le_bytes};
use zkpyc::lc::{Lc, Var, VarType};
use zkpyc::queue::OnceQueue;
use zkpyc::r1cs::{Constraint, R1cs, ElimPolicy};
use zkpyc::uses::UseIndex;

fn var(number: u64) -> Var {
    Var { ty: VarType::FinalWit, number }
}

fn lc(m: u64, constant: u64, monomials: Vec<(Var, u64)>) -> Lc {
    Lc { modulus: m, constant, monomials }
}

#[test]
fn modular_arithmetic_basics() {
    assert_eq!(add_mod(9, 12, 17), 4);
    assert_eq!(sub_mod(3, 12, 17), 8);
    assert_eq!(mul_mod(5, 7, 17), 1);
    assert_eq!(neg_mod(0, 17), 0);
    assert_eq!(neg_mod(1, 17), 16); // one().negate() is the field maximum
    assert_eq!(mul_mod(0xffff_ffff_ffff_fffe, 0xffff_ffff_ffff_fffe, 0xffff_ffff_ffff_ffff), 1);
}

#[test]
fn modular_inverse_exact() {
    assert_eq!(inv_mod(5, 17), Some(7)); // 35 = 2*17 + 1
    assert_eq!(inv_mod(3, 17), Some(6)); // 18 = 17 + 1
    assert_eq!(inv_mod(0, 17), None);
    assert_eq!(inv_mod(4, 12), None); // gcd 4
    assert_eq!(inv_mod(5, 12), Some(5)); // 25 = 2*12 + 1
}

#[test]
fn limb_reduction_is_most_significant_first() {
    // value = 3 * 2^64 + 7, reduced modulo 1000003
    let limbs = vec![3u64, 7u64];
    let m = 1_000_003u64;
    let expected = ((3u128 * (1u128 << 64)) % m as u128 + 7) % m as u128;
    assert_eq!(int_to_field(&limbs, m) as u128, expected);
    // a value already below the modulus is returned as is
    assert_eq!(int_to_field(&vec![12345u64], m), 12345);
    // reduction modulo the characteristic, never truncation
    assert_eq!(int_to_field(&vec![1u64, 5u64], 2), 1); // 2^64 + 5 is odd
}

#[test]
fn little_endian_encoding_is_fixed_width() {
    assert_eq!(to_le_bytes(0x0102, 4), vec![2, 1, 0, 0]);
    assert_eq!(to_le_bytes(0, 3), vec![0, 0, 0]);
    assert_eq!(to_le_bytes(16, 1), vec![16]);
    assert_eq!(
        to_le_bytes(0x0807060504030201, 8),
        vec![1, 2, 3, 4, 5, 6, 7, 8]
    );
}

#[test]
fn add_merges_and_prunes_exact_zeros() {
    let m = 17;
    let x = var(0);
    let y = var(1);
    let mut a = lc(m, 3, vec![(x, 5), (y, 2)]);
    let b = lc(m, 1, vec![(x, 12), (y, 4)]); // 5 + 12 = 17 = 0: x cancels
    a.add(&b);
    assert_eq!(a.constant, 4);
    assert_eq!(a.monomials, vec![(y, 6)]);
    assert!(a.monomials.iter().all(|e| e.1 != 0));
}

#[test]
fn sub_and_negate() {
    let m = 17;
    let x = var(0);
    let mut a = lc(m, 3, vec![(x, 5)]);
    let b = lc(m, 1, vec![(x, 2)]);
    a.sub(&b);
    assert_eq!(a.constant, 2);
    assert_eq!(a.monomials, vec![(x, 3)]);
    a.negate();
    assert_eq!(a.constant, 15);
    assert_eq!(a.monomials, vec![(x, 14)]);
}

#[test]
fn scale_prunes_when_factor_shares_a_divisor() {
    // over the composite modulus 12, scaling by 4 drives the coefficient 3
    // to exactly zero and the entry is removed
    let m = 12;
    let x = var(0);
    let y = var(1);
    let mut a = lc(m, 1, vec![(x, 3), (y, 5)]);
    a.scale(4);
    assert_eq!(a.constant, 4);
    assert_eq!(a.monomials, vec![(y, 8)]);
}

#[test]
fn clear_is_zero_and_as_constant() {
    let m = 17;
    let x = var(0);
    let mut a = lc(m, 3, vec![(x, 5)]);
    assert!(!a.is_zero());
    assert_eq!(a.as_constant(), None);
    a.clear();
    assert!(a.is_zero());
    assert_eq!(a.as_constant(), Some(0));
    let b = lc(m, 0, vec![]);
    assert_eq!(b.as_constant(), Some(0)); // Some even for a zero constant
}

#[test]
fn eliminate_substitutes_scaled_value() {
    // a = 2 + 3x + y, substituting x := 4 + 2y gives 14 + 7y
    let m = 17;
    let x = var(0);
    let y = var(1);
    let mut a = lc(m, 2, vec![(x, 3), (y, 1)]);
    let value = lc(m, 4, vec![(y, 2)]);
    let changed = a.eliminate(x, &value);
    assert!(changed);
    assert_eq!(a.constant, 14);
    assert_eq!(a.monomials, vec![(y, 7)]);
    // a second elimination of the same variable is a no-op
    let changed2 = a.eliminate(x, &value);
    assert!(!changed2);
}

#[test]
fn use_index_tracks_membership_exactly() {
    let m = 17;
    let x = var(0);
    let y = var(1);
    let cons = vec![
        Constraint {
            a: lc(m, 0, vec![(x, 1)]),
            b: lc(m, 0, vec![]),
            c: lc(m, 0, vec![(y, 2)]),
        },
        Constraint {
            a: lc(m, 0, vec![]),
            b: lc(m, 0, vec![(x, 3)]),
            c: lc(m, 0, vec![(x, 4)]),
        },
    ];
    let ui = zkpyc::opt::gen_uses(&cons);
    let mut xs = ui.get_uses(x);
    xs.sort();
    assert_eq!(xs, vec![0, 1]);
    assert_eq!(ui.get_uses(y), vec![0]);
    assert_eq!(ui.get_uses(var(9)), Vec::<usize>::new());
}

#[test]
fn use_index_add_and_remove() {
    let x = var(0);
    let mut ui = UseIndex::new();
    ui.add_use(x, 3);
    ui.add_use(x, 5);
    ui.add_use(x, 3); // deduplicated
    let mut l = ui.get_uses(x);
    l.sort();
    assert_eq!(l, vec![3, 5]);
    ui.remove_use(x, 3);
    assert_eq!(ui.get_uses(x), vec![5]);
    ui.remove_use(x, 4); // absent: no effect
    assert_eq!(ui.get_uses(x), vec![5]);
}

#[test]
fn queue_is_fifo_with_dedup() {
    let mut q = OnceQueue::full(3);
    assert_eq!(q.pop(), Some(0));
    q.push(2); // already pending: ignored
    q.push(0); // re-push after pop: honored
    assert_eq!(q.pop(), Some(1));
    assert_eq!(q.pop(), Some(2));
    assert_eq!(q.pop(), Some(0));
    assert_eq!(q.pop(), None);
}

#[test]
fn system_construction_checks_liveness() {
    let m = 17;
    let x = var(0);
    let policy = ElimPolicy { inst: false, cwit: true, round_wit: true, chall: true, final_wit: true };
    let mut sys = R1cs::new(m, policy);
    sys.add_var(x);
    assert_eq!(sys.num_vars(), 1);
    let ok = sys.add_constraint(Constraint {
        a: lc(m, 0, vec![]),
        b: lc(m, 0, vec![]),
        c: lc(m, 1, vec![(x, 1)]),
    });
    assert!(ok);
    let rejected = sys.add_constraint(Constraint {
        a: lc(m, 0, vec![]),
        b: lc(m, 0, vec![]),
        c: lc(m, 1, vec![(var(7), 1)]),
    });
    assert!(!rejected);
    assert_eq!(sys.constraints.len(), 1);
    assert!(sys.can_eliminate(x));
    assert!(!sys.can_eliminate(Var { ty: VarType::Inst, number: 0 }));
}
