//! Field elements of the BLS12-381 scalar field.
//!
//! A [`Fe`] holds the canonical residue of a scalar as four 64-bit limbs,
//! little-endian. Its mathematical value is the spec function [`Fe::val`],
//! and every well-formed element satisfies `0 <= val < field_order()`.
//! The three ring operations are delegated to `ark-ff`'s implementation of
//! the field; everything else about an element is verified.

use ark_bls12_381::Fr;
use ark_ff::BigInt;
use ark_ff::PrimeField;
use vstd::arithmetic::div_mod::lemma_add_mod_noop;
use vstd::arithmetic::div_mod::lemma_mod_bound;
use vstd::arithmetic::div_mod::lemma_mod_twice;
use vstd::arithmetic::div_mod::lemma_mul_mod_noop_general;
use vstd::arithmetic::div_mod::lemma_small_mod;
use vstd::prelude::*;

verus! {

/// The order of the BLS12-381 scalar field: a prime of 255 bits.
pub open spec fn field_order() -> int {
    52435875175126190479447740508185965837690552500527637822603658699938581184513int
}

/// Addition in the field model: the integers modulo `field_order()`.
pub open spec fn fadd(a: int, b: int) -> int {
    (a + b) % field_order()
}

/// Multiplication in the field model.
pub open spec fn fmul(a: int, b: int) -> int {
    (a * b) % field_order()
}

/// `b` raised to the power `e` in the field model. `pow_mod(b, 0) == 1`
/// for every `b`, including `0`.
pub open spec fn pow_mod(b: int, e: nat) -> int
    decreases e,
{
    if e == 0 {
        1
    } else {
        (b * pow_mod(b, (e - 1) as nat)) % field_order()
    }
}

/// A scalar of the BLS12-381 scalar field, stored as the canonical
/// (fully reduced) residue in four little-endian 64-bit limbs.
#[derive(Clone, Copy, Debug, PartialEq, Eq, Structural)]
pub struct Fe {
    l0: u64,
    l1: u64,
    l2: u64,
    l3: u64,
}

impl Fe {
    /// The integer this element stands for.
    pub closed spec fn val(self) -> int {
        self.l0 + self.l1 * 0x1_0000_0000_0000_0000int
            + self.l2 * 0x1_0000_0000_0000_0000_0000_0000_0000_0000int
            + self.l3 * 0x1_0000_0000_0000_0000_0000_0000_0000_0000_0000_0000_0000_0000int
    }

    /// A well-formed element is a canonical residue.
    pub open spec fn wf(self) -> bool {
        0 <= self.val() < field_order()
    }

    /// The additive identity.
    pub fn zero() -> (r: Fe)
        ensures
            r.wf(),
            r.val() == 0,
    {
        Fe { l0: 0, l1: 0, l2: 0, l3: 0 }
    }

    /// The multiplicative identity.
    pub fn one() -> (r: Fe)
        ensures
            r.wf(),
            r.val() == 1,
    {
        Fe { l0: 1, l1: 0, l2: 0, l3: 0 }
    }

    /// The element standing for `n`. Every `u64` is below the field order,
    /// so no reduction happens.
    pub fn from_u64(n: u64) -> (r: Fe)
        ensures
            r.wf(),
            r.val() == n,
    {
        Fe { l0: n, l1: 0, l2: 0, l3: 0 }
    }

    /// Rebuilds an element from little-endian limbs, refusing a value at or
    /// above the field order.
    pub fn from_limbs(l0: u64, l1: u64, l2: u64, l3: u64) -> (r: Option<Fe>)
        ensures
            match r {
                Some(f) => f.wf() && f.val() == l0 + l1 * 0x1_0000_0000_0000_0000int
                    + l2 * 0x1_0000_0000_0000_0000_0000_0000_0000_0000int
                    + l3 * 0x1_0000_0000_0000_0000_0000_0000_0000_0000_0000_0000_0000_0000,
                None => l0 + l1 * 0x1_0000_0000_0000_0000int
                    + l2 * 0x1_0000_0000_0000_0000_0000_0000_0000_0000int
                    + l3 * 0x1_0000_0000_0000_0000_0000_0000_0000_0000_0000_0000_0000_0000int
                    >= field_order(),
            },
    {
        let below: bool = if l3 != 0x73ed_a753_299d_7d48 {
            l3 < 0x73ed_a753_299d_7d48
        } else if l2 != 0x3339_d808_09a1_d805 {
            l2 < 0x3339_d808_09a1_d805
        } else if l1 != 0x53bd_a402_fffe_5bfe {
            l1 < 0x53bd_a402_fffe_5bfe
        } else {
            l0 < 0xffff_ffff_0000_0001
        };
        if below {
            Some(Fe { l0, l1, l2, l3 })
        } else {
            None
        }
    }

    /// The canonical residue as little-endian limbs.
    pub fn limbs(&self) -> (r: (u64, u64, u64, u64))
        ensures
            r.0 + r.1 * 0x1_0000_0000_0000_0000int
                + r.2 * 0x1_0000_0000_0000_0000_0000_0000_0000_0000int
                + r.3 * 0x1_0000_0000_0000_0000_0000_0000_0000_0000_0000_0000_0000_0000int
                == self.val(),
    {
        (self.l0, self.l1, self.l2, self.l3)
    }

    /// Field addition. Relies on `ark_ff`'s `Add` for `ark_bls12_381::Fr`,
    /// which adds residues modulo the field order; `from_bigint` and
    /// `into_bigint` convert between canonical limbs and field elements.
    #[verifier::external_body]
    pub fn add(&self, other: &Fe) -> (r: Fe)
        requires
            self.wf(),
            other.wf(),
        ensures
            r.wf(),
            r.val() == fadd(self.val(), other.val()),
    {
        let a = Fr::from_bigint(BigInt([self.l0, self.l1, self.l2, self.l3])).unwrap();
        let b = Fr::from_bigint(BigInt([other.l0, other.l1, other.l2, other.l3])).unwrap();
        let c = (a + b).into_bigint().0;
        Fe { l0: c[0], l1: c[1], l2: c[2], l3: c[3] }
    }

    /// Field subtraction. Relies on `ark_ff`'s `Sub` for `ark_bls12_381::Fr`,
    /// which subtracts residues modulo the field order.
    #[verifier::external_body]
    pub fn sub(&self, other: &Fe) -> (r: Fe)
        requires
            self.wf(),
            other.wf(),
        ensures
            r.wf(),
            r.val() == (self.val() + field_order() - other.val()) % field_order(),
    {
        let a = Fr::from_bigint(BigInt([self.l0, self.l1, self.l2, self.l3])).unwrap();
        let b = Fr::from_bigint(BigInt([other.l0, other.l1, other.l2, other.l3])).unwrap();
        let c = (a - b).into_bigint().0;
        Fe { l0: c[0], l1: c[1], l2: c[2], l3: c[3] }
    }

    /// Field multiplication. Relies on `ark_ff`'s `Mul` for
    /// `ark_bls12_381::Fr`, which multiplies residues modulo the field order.
    #[verifier::external_body]
    pub fn mul(&self, other: &Fe) -> (r: Fe)
        requires
            self.wf(),
            other.wf(),
        ensures
            r.wf(),
            r.val() == fmul(self.val(), other.val()),
    {
        let a = Fr::from_bigint(BigInt([self.l0, self.l1, self.l2, self.l3])).unwrap();
        let b = Fr::from_bigint(BigInt([other.l0, other.l1, other.l2, other.l3])).unwrap();
        let c = (a * b).into_bigint().0;
        Fe { l0: c[0], l1: c[1], l2: c[2], l3: c[3] }
    }

    /// `self` raised to the power `e`.
    pub fn pow(&self, e: usize) -> (r: Fe)
        requires
            self.wf(),
        ensures
            r.wf(),
            r.val() == pow_mod(self.val(), e as nat),
    {
        let mut r = Fe::one();
        let mut i: usize = 0;
        while i < e
            invariant
                self.wf(),
                r.wf(),
                r.val() == pow_mod(self.val(), i as nat),
                i <= e,
            decreases e - i,
        {
            r = r.mul(self);
            proof {
                lemma_mul_mod_noop_general(self.val(), pow_mod(self.val(), i as nat), field_order());
                vstd::arithmetic::mul::lemma_mul_is_commutative(
                    r.val(),
                    pow_mod(self.val(), i as nat),
                );
            }
            i = i + 1;
        }
        r
    }
}

/// The values of a sequence of field elements.
pub open spec fn vals(s: Seq<Fe>) -> Seq<int> {
    s.map_values(|f: Fe| f.val())
}

/// All elements of a sequence of field elements are well formed.
pub open spec fn all_wf(s: Seq<Fe>) -> bool {
    forall|i: int| 0 <= i < s.len() ==> (#[trigger] s[i]).wf()
}

/// Shuffling a modulus out of the left factor of a reduced product.
pub proof fn lemma_mul_mod_left(a: int, b: int)
    ensures
        (a % field_order()) * b % field_order() == a * b % field_order(),
{
    lemma_mul_mod_noop_general(a, b, field_order());
}

/// Shuffling a modulus out of the left summand of a reduced sum.
pub proof fn lemma_add_mod_left(a: int, b: int)
    ensures
        ((a % field_order()) + b) % field_order() == (a + b) % field_order(),
{
    lemma_add_mod_noop(a, b, field_order());
    lemma_mod_twice(a, field_order());
}

/// Shuffling a modulus out of the right summand of a reduced sum.
pub proof fn lemma_add_mod_right(a: int, b: int)
    ensures
        (a + (b % field_order())) % field_order() == (a + b) % field_order(),
{
    lemma_add_mod_noop(a, b, field_order());
    lemma_mod_twice(b, field_order());
}

/// A reduced value is its own remainder.
pub proof fn lemma_mod_small(a: int)
    requires
        0 <= a < field_order(),
    ensures
        a % field_order() == a,
{
    lemma_small_mod(a as nat, field_order() as nat);
}

/// Remainders modulo the field order lie in `[0, field_order())`.
pub proof fn lemma_mod_range(a: int)
    ensures
        0 <= a % field_order() < field_order(),
{
    lemma_mod_bound(a, field_order());
}

/// One raised to any power is one.
pub proof fn lemma_pow_mod_one(e: nat)
    ensures
        pow_mod(1, e) == 1,
    decreases e,
{
    if e > 0 {
        lemma_pow_mod_one((e - 1) as nat);
        lemma_mod_small(1);
    }
}

/// Zero raised to a positive power is zero.
pub proof fn lemma_pow_mod_zero(e: nat)
    requires
        e >= 1,
    ensures
        pow_mod(0, e) == 0,
{
    lemma_mod_small(0);
}

/// Powers in the field model are the value one or a reduced value.
pub proof fn lemma_pow_mod_range(b: int, e: nat)
    ensures
        0 <= pow_mod(b, e) < field_order(),
{
    if e == 0 {
    } else {
        lemma_mod_range(b * pow_mod(b, (e - 1) as nat));
    }
}

/// Redistributing the reductions in a product of four factors: pulling a
/// freshly reduced factor `g` across an accumulated reduced product.
pub proof fn lemma_mul_mod_shuffle(a: int, b: int, g: int, f: int)
    ensures
        ((a * g % field_order()) * b % field_order()) * f % field_order() == (a * b
            % field_order()) * (g * f % field_order()) % field_order(),
{
    lemma_mul_mod_noop_general(a * g, b, field_order());
    lemma_mul_mod_noop_general(a * g * b, f, field_order());
    lemma_mul_mod_noop_general(a * b, g * f, field_order());
    assert(a * g * b * f == (a * b) * (g * f)) by (nonlinear_arith);
}

/// Pulling one factor out of a reduced product: the workhorse for loops
/// that accumulate a product one reduced factor at a time.
pub proof fn lemma_mul_mod_3(a: int, b: int, c: int)
    ensures
        (a * b % field_order()) * c % field_order() == a * (b * c % field_order()) % field_order(),
{
    lemma_mul_mod_noop_general(a * b, c, field_order());
    vstd::arithmetic::mul::lemma_mul_is_associative(a, b, c);
    lemma_mul_mod_noop_general(a, b * c, field_order());
}

} // verus!
