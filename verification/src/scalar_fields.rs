//! The scalar fields of the supported curves.
//!
//! Each type describes one prime field by its modulus, given as 64-bit
//! limbs, and produces the canonical 32-byte little-endian encodings that
//! the export header needs: the modulus itself and the field maximum
//! (`modulus - 1`, the additive inverse of one).

use vstd::prelude::*;
use crate::field::{le_bytes_value, limb_base, pow256, to_le_bytes};

verus! {

/// The scalar field of the BLS12-381 curve.
#[derive(Clone, Copy, PartialEq, Eq, Structural, Debug)]
pub struct Bls12_381;

/// The scalar field of the BN-256 curve.
#[derive(Clone, Copy, PartialEq, Eq, Structural, Debug)]
pub struct Bn256;

/// The value of a least-significant-first 64-bit limb sequence.
pub open spec fn ls_limbs_value(s: Seq<u64>) -> int
    decreases s.len(),
{
    if s.len() == 0 {
        0
    } else {
        s[0] + limb_base() * ls_limbs_value(s.drop_first())
    }
}

/// The BLS12-381 scalar-field modulus.
pub open spec fn bls12_381_modulus() -> int {
    52435875175126190479447740508185965837690552500527637822603658699938581184513int
}

/// The BN-256 scalar-field modulus.
pub open spec fn bn256_modulus() -> int {
    21888242871839275222246405745257275088548364400416034343698204186575808495617int
}

/// Concatenating byte strings stacks their values by place value.
proof fn lemma_le_bytes_value_concat(s1: Seq<u8>, s2: Seq<u8>)
    ensures
        le_bytes_value(s1 + s2) == le_bytes_value(s1) + pow256(s1.len()) * le_bytes_value(s2),
    decreases s1.len(),
{
    if s1.len() == 0 {
        assert(s1 + s2 =~= s2);
        assert(pow256(0) == 1);
    } else {
        assert((s1 + s2).drop_first() =~= s1.drop_first() + s2);
        assert((s1 + s2)[0] == s1[0]);
        lemma_le_bytes_value_concat(s1.drop_first(), s2);
        let rest = le_bytes_value(s1.drop_first());
        let p = pow256((s1.len() - 1) as nat);
        let v2 = le_bytes_value(s2);
        assert(le_bytes_value(s1 + s2) == s1[0] + 256 * (rest + p * v2));
        assert(256 * (rest + p * v2) == 256 * rest + 256 * p * v2) by (nonlinear_arith);
        assert(256 * p * v2 == pow256(s1.len()) * v2) by (nonlinear_arith)
            requires
                pow256(s1.len()) == 256 * p,
        ;
    }
}

/// Encode least-significant-first limbs as little-endian bytes, eight bytes
/// per limb.
pub fn limbs_to_le_bytes(limbs: &Vec<u64>) -> (r: Vec<u8>)
    ensures
        r@.len() == 8 * limbs@.len(),
        le_bytes_value(r@) == ls_limbs_value(limbs@),
{
    let mut r: Vec<u8> = Vec::new();
    let mut i: usize = 0;
    proof {
        assert(r@ =~= Seq::<u8>::empty());
        assert(limbs@.take(0) =~= Seq::<u64>::empty());
    }
    while i < limbs.len()
        invariant
            i <= limbs@.len(),
            r@.len() == 8 * i,
            le_bytes_value(r@) == ls_limbs_value(limbs@.take(i as int)),
        decreases limbs@.len() - i,
    {
        proof {
            assert(pow256(8) == limb_base()) by {
                assert(pow256(8) == 256 * pow256(7));
                assert(pow256(7) == 256 * pow256(6));
                assert(pow256(6) == 256 * pow256(5));
                assert(pow256(5) == 256 * pow256(4));
                assert(pow256(4) == 256 * pow256(3));
                assert(pow256(3) == 256 * pow256(2));
                assert(pow256(2) == 256 * pow256(1));
                assert(pow256(1) == 256 * pow256(0));
            }
        }
        let chunk = to_le_bytes(limbs[i], 8);
        let ghost pre = r@;
        let ghost ch = chunk@;
        let mut c = chunk;
        r.append(&mut c);
        proof {
            assert(r@ =~= pre + ch);
            lemma_le_bytes_value_concat(pre, ch);
            // the new prefix appends this limb above the previous ones
            lemma_ls_limbs_take_step(limbs@, i as int);
            assert(pow256(pre.len()) == pow256_mul_limb(i as nat));
            assert(le_bytes_value(r@) == ls_limbs_value(limbs@.take(i as int))
                + pow256_mul_limb(i as nat) * (limbs@[i as int] as int));
        }
        i = i + 1;
    }
    proof {
        assert(limbs@.take(limbs@.len() as int) =~= limbs@);
    }
    r
}

/// `pow256(8*i)`: the place value of limb `i`.
pub open spec fn pow256_mul_limb(i: nat) -> int {
    pow256(8 * i)
}

/// Appending one limb at the high end adds its value at the next limb
/// place.
proof fn lemma_ls_limbs_take_step(s: Seq<u64>, i: int)
    requires
        0 <= i < s.len(),
    ensures
        ls_limbs_value(s.take(i + 1)) == ls_limbs_value(s.take(i)) + pow256_mul_limb(i as nat) * (
        s[i] as int),
        pow256(8 * (i as nat)) == pow256_mul_limb(i as nat),
    decreases i,
{
    if i == 0 {
        assert(s.take(1).drop_first() =~= Seq::<u64>::empty());
        assert(s.take(0) =~= Seq::<u64>::empty());
        assert(s.take(1)[0] == s[0]);
        assert(pow256(0) == 1);
    } else {
        assert(s.take(i + 1).drop_first() =~= s.drop_first().take(i));
        assert(s.take(i).drop_first() =~= s.drop_first().take(i - 1));
        assert(s.take(i + 1)[0] == s[0]);
        assert(s.take(i)[0] == s[0]);
        lemma_ls_limbs_take_step(s.drop_first(), i - 1);
        assert(s.drop_first()[i - 1] == s[i]);
        let b: int = limb_base();
        let prev = ls_limbs_value(s.drop_first().take(i - 1));
        let p = pow256_mul_limb((i - 1) as nat);
        assert(ls_limbs_value(s.take(i + 1)) == s[0] + b * (prev + p * (s[i] as int)));
        assert(b * (prev + p * (s[i] as int)) == b * prev + b * p * (s[i] as int))
            by (nonlinear_arith);
        assert(pow256(8 * (i as nat)) == b * pow256(8 * ((i - 1) as nat))) by {
            lemma_pow256_unfold8((8 * ((i - 1) as nat)) as nat);
            assert(8 * (i as nat) == 8 * ((i - 1) as nat) + 8);
        }
        assert(b * p * (s[i] as int) == pow256_mul_limb(i as nat) * (s[i] as int))
            by (nonlinear_arith)
            requires
                pow256_mul_limb(i as nat) == b * p,
        ;
    }
}

/// `pow256(n + 8) == 2^64 * pow256(n)`.
proof fn lemma_pow256_unfold8(n: nat)
    ensures
        pow256(n + 8) == limb_base() * pow256(n),
{
    assert(pow256(n + 8) == 256 * pow256(n + 7));
    assert(pow256(n + 7) == 256 * pow256(n + 6));
    assert(pow256(n + 6) == 256 * pow256(n + 5));
    assert(pow256(n + 5) == 256 * pow256(n + 4));
    assert(pow256(n + 4) == 256 * pow256(n + 3));
    assert(pow256(n + 3) == 256 * pow256(n + 2));
    assert(pow256(n + 2) == 256 * pow256(n + 1));
    assert(pow256(n + 1) == 256 * pow256(n));
    assert(256 * (256 * (256 * (256 * (256 * (256 * (256 * (256 * pow256(n))))))))
        == limb_base() * pow256(n)) by (nonlinear_arith);
}

impl Bls12_381 {
    /// The modulus in canonical 32-byte little-endian form.
    pub fn modulus_le_bytes() -> (r: Vec<u8>)
        ensures
            r@.len() == 32,
            le_bytes_value(r@) == bls12_381_modulus(),
    {
        let mut limbs: Vec<u64> = Vec::new();
        limbs.push(0xffffffff00000001u64);
        limbs.push(0x53bda402fffe5bfeu64);
        limbs.push(0x3339d80809a1d805u64);
        limbs.push(0x73eda753299d7d48u64);
        proof {
            lemma_four_limbs(limbs@);
        }
        limbs_to_le_bytes(&limbs)
    }

    /// The field maximum, `modulus - 1`: the canonical encoding of the
    /// additive inverse of one, used as the export header marker.
    pub fn field_maximum() -> (r: Vec<u8>)
        ensures
            r@.len() == 32,
            le_bytes_value(r@) == bls12_381_modulus() - 1,
    {
        let mut limbs: Vec<u64> = Vec::new();
        limbs.push(0xffffffff00000000u64);
        limbs.push(0x53bda402fffe5bfeu64);
        limbs.push(0x3339d80809a1d805u64);
        limbs.push(0x73eda753299d7d48u64);
        proof {
            lemma_four_limbs(limbs@);
        }
        limbs_to_le_bytes(&limbs)
    }
}

impl Bn256 {
    /// The modulus in canonical 32-byte little-endian form.
    pub fn modulus_le_bytes() -> (r: Vec<u8>)
        ensures
            r@.len() == 32,
            le_bytes_value(r@) == bn256_modulus(),
    {
        let mut limbs: Vec<u64> = Vec::new();
        limbs.push(0x43e1f593f0000001u64);
        limbs.push(0x2833e84879b97091u64);
        limbs.push(0xb85045b68181585du64);
        limbs.push(0x30644e72e131a029u64);
        proof {
            lemma_four_limbs(limbs@);
        }
        limbs_to_le_bytes(&limbs)
    }

    /// The field maximum, `modulus - 1`.
    pub fn field_maximum() -> (r: Vec<u8>)
        ensures
            r@.len() == 32,
            le_bytes_value(r@) == bn256_modulus() - 1,
    {
        let mut limbs: Vec<u64> = Vec::new();
        limbs.push(0x43e1f593f0000000u64);
        limbs.push(0x2833e84879b97091u64);
        limbs.push(0xb85045b68181585du64);
        limbs.push(0x30644e72e131a029u64);
        proof {
            lemma_four_limbs(limbs@);
        }
        limbs_to_le_bytes(&limbs)
    }
}

/// Evaluate a four-limb value by unfolding the place-value recursion.
proof fn lemma_four_limbs(s: Seq<u64>)
    requires
        s.len() == 4,
    ensures
        ls_limbs_value(s) == s[0] + limb_base() * (s[1] + limb_base() * (s[2] + limb_base() * (
        s[3] as int))),
{
    let t1 = s.drop_first();
    let t2 = t1.drop_first();
    let t3 = t2.drop_first();
    assert(t3.drop_first() =~= Seq::<u64>::empty());
    assert(t1[0] == s[1] && t2[0] == s[2] && t3[0] == s[3]);
    assert(ls_limbs_value(Seq::<u64>::empty()) == 0);
    assert(ls_limbs_value(t3) == s[3] + limb_base() * ls_limbs_value(t3.drop_first()));
    assert(limb_base() * 0 == 0);
    assert(ls_limbs_value(t3) == s[3] as int);
    assert(ls_limbs_value(t2) == s[2] + limb_base() * ls_limbs_value(t3));
    assert(ls_limbs_value(t1) == s[1] + limb_base() * ls_limbs_value(t2));
    assert(ls_limbs_value(s) == s[0] + limb_base() * ls_limbs_value(t1));
}

} // verus!
