//! Modular arithmetic over an explicit prime-field modulus.
//!
//! A field element is a `u64` reduced below the modulus `m`, and the modulus
//! is threaded explicitly through every operation rather than read from any
//! ambient state.  `inv_mod` is exact: it returns an inverse precisely when
//! the argument is coprime to the modulus.

use vstd::prelude::*;
use vstd::arithmetic::div_mod::{
    lemma_add_mod_noop, lemma_fundamental_div_mod, lemma_mod_add_multiples_vanish,
    lemma_mod_bound, lemma_mul_mod_noop_general, lemma_mul_mod_noop_left, lemma_small_mod,
    lemma_sub_mod_noop,
};

verus! {

/// Two integers are congruent modulo `m`.
pub open spec fn congruent(a: int, b: int, m: int) -> bool {
    a % m == b % m
}

/// Euclid's greatest common divisor.
pub open spec fn gcd(a: nat, b: nat) -> nat
    decreases b,
{
    if b == 0 {
        a
    } else {
        gcd(b, a % b)
    }
}

/// `(a + b) mod m`.
pub fn add_mod(a: u64, b: u64, m: u64) -> (r: u64)
    requires
        1 < m,
        a < m,
        b < m,
    ensures
        r < m,
        r as int == (a + b) % (m as int),
{
    let s: u128 = a as u128 + b as u128;
    let r: u128 = s % (m as u128);
    proof {
        lemma_mod_bound(s as int, m as int);
    }
    r as u64
}

/// `(a * b) mod m`.
pub fn mul_mod(a: u64, b: u64, m: u64) -> (r: u64)
    requires
        1 < m,
        a < m,
        b < m,
    ensures
        r < m,
        r as int == (a as int * b as int) % (m as int),
{
    proof {
        assert(a as u128 * b as u128 <= u64::MAX as u128 * u64::MAX as u128) by (nonlinear_arith)
            requires
                a as u128 <= u64::MAX as u128,
                b as u128 <= u64::MAX as u128,
        ;
    }
    let s: u128 = a as u128 * b as u128;
    let r: u128 = s % (m as u128);
    proof {
        lemma_mod_bound(s as int, m as int);
    }
    r as u64
}

/// `(a - b) mod m`, kept in `[0, m)`.
pub fn sub_mod(a: u64, b: u64, m: u64) -> (r: u64)
    requires
        1 < m,
        a < m,
        b < m,
    ensures
        r < m,
        r as int == (a - b) % (m as int),
{
    let s: u128 = a as u128 + m as u128 - b as u128;
    let r: u128 = s % (m as u128);
    proof {
        lemma_mod_bound(s as int, m as int);
        lemma_mod_add_multiples_vanish(a - b, m as int);
    }
    r as u64
}

/// `(-a) mod m`, kept in `[0, m)`.  `neg_mod(1, m)` is the field's largest
/// representative, `m - 1`.
pub fn neg_mod(a: u64, m: u64) -> (r: u64)
    requires
        1 < m,
        a < m,
    ensures
        r < m,
        r as int == (0 - a) % (m as int),
        a == 0 ==> r == 0,
        a != 0 ==> r == m - a,
{
    proof {
        lemma_mod_add_multiples_vanish(0 - a, m as int);
        if a == 0 {
            lemma_small_mod(0nat, m as nat);
        } else {
            lemma_small_mod((m - a) as nat, m as nat);
        }
    }
    if a == 0 {
        0
    } else {
        m - a
    }
}

/// The base of one 64-bit limb.
pub open spec fn limb_base() -> int {
    0x10000000000000000
}

/// The value of an arbitrary-precision non-negative integer given as 64-bit
/// limbs, most-significant limb first.
pub open spec fn limbs_value(s: Seq<u64>) -> int
    decreases s.len(),
{
    if s.len() == 0 {
        0
    } else {
        limbs_value(s.drop_last()) * limb_base() + s.last()
    }
}

/// `256^n`.
pub open spec fn pow256(n: nat) -> int
    decreases n,
{
    if n == 0 {
        1
    } else {
        256 * pow256((n - 1) as nat)
    }
}

/// The value of a little-endian byte string.
pub open spec fn le_bytes_value(s: Seq<u8>) -> int
    decreases s.len(),
{
    if s.len() == 0 {
        0
    } else {
        s[0] + 256 * le_bytes_value(s.drop_first())
    }
}

pub proof fn lemma_pow256_pos(n: nat)
    ensures
        pow256(n) >= 1,
    decreases n,
{
    if n > 0 {
        lemma_pow256_pos((n - 1) as nat);
    }
}

pub proof fn lemma_le_bytes_value_nonneg(s: Seq<u8>)
    ensures
        le_bytes_value(s) >= 0,
    decreases s.len(),
{
    if s.len() > 0 {
        lemma_le_bytes_value_nonneg(s.drop_first());
    }
}

/// Appending a byte at the high end adds its value at the next power of 256.
pub proof fn lemma_le_bytes_value_push(s: Seq<u8>, b: u8)
    ensures
        le_bytes_value(s.push(b)) == le_bytes_value(s) + pow256(s.len()) * b,
    decreases s.len(),
{
    if s.len() == 0 {
        assert(s.push(b).drop_first() =~= Seq::<u8>::empty());
        assert(s.push(b)[0] == b);
        assert(le_bytes_value(Seq::<u8>::empty()) == 0);
        assert(le_bytes_value(s.push(b)) == b + 256 * le_bytes_value(s.push(b).drop_first()));
        assert(pow256(s.len()) == 1);
        assert(le_bytes_value(s) == 0);
    } else {
        assert(s.push(b).drop_first() =~= s.drop_first().push(b));
        lemma_le_bytes_value_push(s.drop_first(), b);
        let ldf = le_bytes_value(s.drop_first());
        let p = pow256((s.len() - 1) as nat);
        assert(s.push(b)[0] == s[0]);
        assert(le_bytes_value(s.push(b)) == s[0] + 256 * (ldf + p * b));
        assert(256 * (ldf + p * b) == 256 * ldf + 256 * p * b) by (nonlinear_arith);
        assert(256 * p * b == pow256(s.len()) * b) by (nonlinear_arith)
            requires
                pow256(s.len()) == 256 * p,
        ;
        assert(le_bytes_value(s) == s[0] + 256 * ldf);
    }
}

/// Reduce an arbitrary-precision integer, given as limbs with the
/// most-significant limb first, into the field: the accumulator is multiplied
/// by the limb base and the next limb is added, limb by limb.
pub fn int_to_field(limbs: &Vec<u64>, m: u64) -> (r: u64)
    requires
        1 < m,
    ensures
        r < m,
        r as int == limbs_value(limbs@) % (m as int),
{
    let mut acc: u64 = 0;
    let mut i: usize = 0;
    proof {
        assert(limbs@.take(0) =~= Seq::<u64>::empty());
        lemma_small_mod(0nat, m as nat);
    }
    while i < limbs.len()
        invariant
            1 < m,
            i <= limbs.len(),
            acc < m,
            acc as int == limbs_value(limbs@.take(i as int)) % (m as int),
        decreases limbs.len() - i,
    {
        let limb: u64 = limbs[i];
        proof {
            assert(acc as u128 * 0x10000000000000000u128 <= u64::MAX as u128
                * 0x10000000000000000u128) by (nonlinear_arith)
                requires
                    acc as u128 <= u64::MAX as u128,
            ;
        }
        let t: u128 = acc as u128 * 0x10000000000000000u128 + limb as u128;
        let next: u64 = (t % (m as u128)) as u64;
        proof {
            lemma_mod_bound(t as int, m as int);
            let mi = m as int;
            let prev = limbs_value(limbs@.take(i as int));
            // acc * base + limb ~ prev * base + limb
            lemma_mul_mod_noop_left(prev, limb_base(), mi);
            lemma_mul_mod_noop_left(acc as int, limb_base(), mi);
            assert((acc as int * limb_base()) % mi == (prev * limb_base()) % mi);
            lemma_add_mod_noop(acc as int * limb_base(), limb as int, mi);
            lemma_add_mod_noop(prev * limb_base(), limb as int, mi);
            assert(t as int % mi == (prev * limb_base() + limb as int) % mi);
            // the next prefix appends this limb at the low end
            assert(limbs@.take(i + 1).drop_last() =~= limbs@.take(i as int));
            assert(limbs_value(limbs@.take(i + 1)) == prev * limb_base() + limb as int);
        }
        acc = next;
        i = i + 1;
    }
    proof {
        assert(limbs@.take(limbs@.len() as int) =~= limbs@);
    }
    acc
}

/// Fixed-width little-endian encoding of a field element: the canonical byte
/// form used by the export layer.
pub fn to_le_bytes(x: u64, width: usize) -> (r: Vec<u8>)
    requires
        (x as int) < pow256(width as nat),
    ensures
        r@.len() == width,
        le_bytes_value(r@) == x as int,
{
    let mut r: Vec<u8> = Vec::new();
    let mut cur: u64 = x;
    let mut i: usize = 0;
    proof {
        assert(r@ =~= Seq::<u8>::empty());
    }
    while i < width
        invariant
            i <= width,
            r@.len() == i,
            le_bytes_value(r@) + pow256(i as nat) * (cur as int) == x as int,
            (x as int) < pow256(width as nat),
        decreases width - i,
    {
        let b: u8 = (cur % 256) as u8;
        let next: u64 = cur / 256;
        proof {
            lemma_fundamental_div_mod(cur as int, 256);
            lemma_le_bytes_value_push(r@, b);
            assert(pow256((i + 1) as nat) == 256 * pow256(i as nat));
            assert(pow256(i as nat) * (cur as int)
                == pow256(i as nat) * (b as int) + (256 * pow256(i as nat)) * (next as int))
                by (nonlinear_arith)
                requires
                    cur as int == 256 * (next as int) + b as int,
            ;
        }
        r.push(b);
        cur = next;
        i = i + 1;
    }
    proof {
        lemma_le_bytes_value_nonneg(r@);
        lemma_pow256_pos(width as nat);
        if cur > 0 {
            assert(pow256(width as nat) * (cur as int) >= pow256(width as nat))
                by (nonlinear_arith)
                requires
                    pow256(width as nat) >= 1,
                    cur as int >= 1,
            ;
        }
    }
    r
}

/// A product decomposed as `m*q + r` reduces to `r` modulo `m`.
pub proof fn lemma_mul_vanish_mod(x: int, y: int, q: int, r: int, m: int)
    requires
        1 < m,
        x * y == m * q + r,
    ensures
        (x * y) % m == r % m,
{
    vstd::arithmetic::div_mod::lemma_mod_multiples_vanish(q, r, m);
}

/// One step of the extended Euclidean congruence bookkeeping: if `r0` and
/// `r1` are congruent to `s0*a` and `s1*a`, the next remainder `r0 - q*r1`
/// is congruent to `(s0 - q*s1)*a`.
proof fn lemma_inv_step(a: int, m: int, r0: int, r1: int, q: int, s0: int, s1: int, s2: int)
    requires
        1 < m,
        congruent(r0, s0 * a, m),
        congruent(r1, s1 * a, m),
        congruent(s2, s0 - q * s1, m),
    ensures
        congruent(r0 - q * r1, s2 * a, m),
{
    // q * r1 ~ q * (s1 * a)
    lemma_mul_mod_noop_general(q, r1, m);
    lemma_mul_mod_noop_general(q, s1 * a, m);
    assert(congruent(q * r1, q * (s1 * a), m));
    // r0 - q*r1 ~ s0*a - q*(s1*a)
    lemma_sub_mod_noop(r0, q * r1, m);
    lemma_sub_mod_noop(s0 * a, q * (s1 * a), m);
    assert(congruent(r0 - q * r1, s0 * a - q * (s1 * a), m));
    // s0*a - q*(s1*a) == (s0 - q*s1) * a
    assert(s0 * a - q * (s1 * a) == (s0 - q * s1) * a) by (nonlinear_arith);
    // (s0 - q*s1) * a ~ s2 * a
    lemma_mul_mod_noop_general(s0 - q * s1, a, m);
    lemma_mul_mod_noop_general(s2, a, m);
}

/// The modular inverse of `a` modulo `m`, by the extended Euclidean
/// algorithm.  Returns `Some` exactly when `a` and `m` are coprime, so for a
/// prime modulus every nonzero argument is invertible.
pub fn inv_mod(a: u64, m: u64) -> (r: Option<u64>)
    requires
        1 < m,
        a < m,
    ensures
        r matches Some(x) ==> x < m && (a as int * x as int) % (m as int) == 1,
        r is Some <==> gcd(m as nat, a as nat) == 1,
{
    let mut r0: u64 = m;
    let mut r1: u64 = a;
    let mut s0: u64 = 0;
    let mut s1: u64 = 1;
    proof {
        lemma_small_mod(0nat, m as nat);
        lemma_small_mod(a as nat, m as nat);
    }
    while r1 != 0
        invariant
            1 < m,
            0 < r0,
            r1 < r0,
            r0 <= m,
            s0 < m,
            s1 < m,
            congruent(r0 as int, s0 as int * a as int, m as int),
            congruent(r1 as int, s1 as int * a as int, m as int),
            gcd(r0 as nat, r1 as nat) == gcd(m as nat, a as nat),
        decreases r1,
    {
        let q: u64 = r0 / r1;
        let r2: u64 = r0 % r1;
        let qm: u64 = q % m;
        let s2: u64 = sub_mod(s0, mul_mod(qm, s1, m), m);
        proof {
            lemma_fundamental_div_mod(r0 as int, r1 as int);
            let mi = m as int;
            let qs1 = q as int * s1 as int;
            // qm * s1 ~ q * s1, since qm == q % m
            lemma_mul_mod_noop_left(q as int, s1 as int, mi);
            assert((qm as int * s1 as int) % mi == qs1 % mi);
            // s2 == (s0 - (qm*s1) % m) % m ~ s0 - q * s1
            lemma_small_mod(s0 as nat, m as nat);
            lemma_sub_mod_noop(s0 as int, qm as int * s1 as int, mi);
            lemma_sub_mod_noop(s0 as int, qs1, mi);
            assert((s0 as int - (qm as int * s1 as int) % mi) % mi == (s0 as int - qs1) % mi);
            lemma_small_mod(s2 as nat, m as nat);
            assert(congruent(s2 as int, s0 as int - q as int * s1 as int, m as int));
            lemma_inv_step(
                a as int,
                m as int,
                r0 as int,
                r1 as int,
                q as int,
                s0 as int,
                s1 as int,
                s2 as int,
            );
            assert(r2 as int == r0 - q * r1);
        }
        r0 = r1;
        r1 = r2;
        s0 = s1;
        s1 = s2;
    }
    if r0 == 1 {
        proof {
            // 1 ~ s0 * a, and 1 reduces to itself inside [0, m)
            lemma_small_mod(1nat, m as nat);
            assert((s0 as int * a as int) % (m as int) == 1);
            assert(a as int * s0 as int == s0 as int * a as int) by (nonlinear_arith);
        }
        Some(s0)
    } else {
        None
    }
}

} // verus!
