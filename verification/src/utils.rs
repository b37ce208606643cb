//! Boolean-hypercube enumeration.
//!
//! Assignments of `m` variables to 0 and 1 are numbered `0 .. 2^m`, the
//! variable with the lowest index carried in the lowest bit. [`bits_le`]
//! is the assignment a number stands for; [`partial_sums`] and
//! [`round_sum`] fold a polynomial's values over the assignments with
//! field addition, exactly in that numbering order.

use crate::field::Fe;
use crate::field::all_wf;
use crate::field::field_order;
use crate::field::lemma_add_mod_left;
use crate::field::lemma_add_mod_right;
use crate::field::lemma_mod_small;
use crate::field::vals;
use crate::poly::MultivariatePolynomial;
use vstd::arithmetic::div_mod::lemma_div_denominator;
use vstd::arithmetic::power2::lemma_pow2_pos;
use vstd::arithmetic::power2::lemma_pow2_strictly_increases;
use vstd::arithmetic::power2::lemma_pow2_unfold;
use vstd::arithmetic::power2::lemma2_to64;
use vstd::arithmetic::power2::lemma2_to64_rest;
use vstd::arithmetic::power2::pow2;
use vstd::prelude::*;

verus! {

/// The `j`-th bit of `i`, as the field value 0 or 1.
pub open spec fn bit_at(i: nat, j: nat) -> int {
    if (i / pow2(j)) % 2 == 1 {
        1
    } else {
        0
    }
}

/// The boolean assignment numbered `i` of `m` variables, least significant
/// bit first.
pub open spec fn bits_le(i: nat, m: nat) -> Seq<int> {
    Seq::new(m, |j: int| bit_at(i, j as nat))
}

/// The field sum of `p` at the points `prefix + bits_le(i, m)` over
/// `i < cnt`.
pub open spec fn partial_sums(
    p: MultivariatePolynomial,
    prefix: Seq<int>,
    m: nat,
    cnt: nat,
) -> int
    decreases cnt,
{
    if cnt == 0 {
        0
    } else {
        (partial_sums(p, prefix, m, (cnt - 1) as nat) + p.eval(
            prefix + bits_le((cnt - 1) as nat, m),
        )) % field_order()
    }
}

/// The field sum of `p` over every boolean assignment of `m` trailing
/// variables appended to `prefix`.
pub open spec fn round_sum(p: MultivariatePolynomial, prefix: Seq<int>, m: nat) -> int {
    partial_sums(p, prefix, m, pow2(m))
}

/// Partial sums are reduced values.
pub proof fn lemma_partial_sums_range(p: MultivariatePolynomial, prefix: Seq<int>, m: nat, cnt: nat)
    ensures
        0 <= partial_sums(p, prefix, m, cnt) < field_order(),
{
    if cnt == 0 {
    } else {
        crate::field::lemma_mod_range(
            partial_sums(p, prefix, m, (cnt - 1) as nat) + p.eval(
                prefix + bits_le((cnt - 1) as nat, m),
            ),
        );
    }
}

/// The assignment numbered `2 * t + x` of `m + 1` variables is the
/// assignment numbered `t` of `m` variables with the bit `x` prepended for
/// the new first variable.
proof fn lemma_bits_le_even_odd(t: nat, x: nat, m: nat)
    requires
        x == 0 || x == 1,
    ensures
        bits_le(2 * t + x, m + 1) == seq![x as int] + bits_le(t, m),
{
    lemma2_to64();
    assert forall|j: int| 0 <= j < m + 1 implies bits_le(2 * t + x, m + 1)[j] == (seq![x as int]
        + bits_le(t, m))[j] by {
        if j == 0 {
            assert(pow2(0) == 1);
            assert((2 * t + x) as int / 1 == 2 * t + x);
            assert((2 * t + x) % 2 == x);
        } else {
            lemma_pow2_unfold(j as nat);
            lemma_pow2_pos((j - 1) as nat);
            lemma_div_denominator((2 * t + x) as int, 2, pow2((j - 1) as nat) as int);
            assert((2 * t + x) as int / 2 == t as int);
            assert(bit_at((2 * t + x) as nat, j as nat) == bit_at(t, (j - 1) as nat));
        }
    }
    assert(bits_le(2 * t + x, m + 1) =~= seq![x as int] + bits_le(t, m));
}

/// Splitting the enumeration of `m + 1` variables on the first variable:
/// the first `2 * cnt` assignments pair up, even numbers binding the new
/// variable to 0 and odd numbers to 1.
proof fn lemma_partial_sums_split(p: MultivariatePolynomial, prefix: Seq<int>, m: nat, cnt: nat)
    ensures
        partial_sums(p, prefix, m + 1, 2 * cnt) == (partial_sums(p, prefix.push(0), m, cnt)
            + partial_sums(p, prefix.push(1), m, cnt)) % field_order(),
    decreases cnt,
{
    if cnt == 0 {
        lemma_mod_small(0);
    } else {
        let t = (cnt - 1) as nat;
        lemma_partial_sums_split(p, prefix, m, t);
        lemma_bits_le_even_odd(t, 0, m);
        lemma_bits_le_even_odd(t, 1, m);
        assert(prefix + (seq![0int] + bits_le(t, m)) =~= prefix.push(0) + bits_le(t, m));
        assert(prefix + (seq![1int] + bits_le(t, m)) =~= prefix.push(1) + bits_le(t, m));
        let a = partial_sums(p, prefix, m + 1, 2 * t);
        let e0 = p.eval(prefix.push(0) + bits_le(t, m));
        let e1 = p.eval(prefix.push(1) + bits_le(t, m));
        let s0 = partial_sums(p, prefix.push(0), m, t);
        let s1 = partial_sums(p, prefix.push(1), m, t);
        let b = partial_sums(p, prefix, m + 1, (2 * cnt - 1) as nat);
        assert(partial_sums(p, prefix, m + 1, 2 * cnt) == (b + p.eval(
            prefix + bits_le((2 * cnt - 1) as nat, m + 1),
        )) % field_order());
        assert(b == (a + p.eval(prefix + bits_le((2 * cnt - 2) as nat, m + 1)))
            % field_order());
        assert((2 * cnt - 2) as nat == 2 * t && (2 * cnt - 1) as nat == 2 * t + 1);
        assert(partial_sums(p, prefix, m + 1, 2 * cnt) == ((a + e0) % field_order() + e1)
            % field_order());
        lemma_add_mod_left(a + e0, e1);
        lemma_add_mod_left(a, e0 + e1);
        lemma_add_mod_left(s0 + s1, e0 + e1);
        lemma_add_mod_left(s0 + e0, (s1 + e1) % field_order());
        lemma_add_mod_right(s0 + e0, s1 + e1);
    }
}

/// Round consistency: the round polynomial evaluated at 0 plus the round
/// polynomial evaluated at 1, in the field, equals the sum claimed entering
/// the round. By the contracts of `Prover::init_poly_sum` and
/// `Prover::next_unipoly`, both the opening claim (`prefix` empty) and a
/// previous round polynomial at its challenge (`prefix` the challenges
/// bound so far) are the right-hand side `round_sum(p, prefix, m + 1)`.
pub proof fn lemma_round_consistency(p: MultivariatePolynomial, prefix: Seq<int>, m: nat)
    ensures
        (round_sum(p, prefix.push(0), m) + round_sum(p, prefix.push(1), m)) % field_order()
            == round_sum(p, prefix, m + 1),
{
    lemma_pow2_unfold(m + 1);
    lemma_partial_sums_split(p, prefix, m, pow2(m));
}

/// Final consistency: a round sum over no trailing variables is the one
/// evaluation of the polynomial at the prefix itself. With every variable
/// bound, the last round polynomial evaluated at the last challenge is
/// therefore exactly what `Prover::evaluate` returns.
pub proof fn lemma_final_consistency(p: MultivariatePolynomial, prefix: Seq<int>)
    ensures
        round_sum(p, prefix, 0) == p.eval(prefix),
{
    lemma2_to64();
    assert(pow2(0) == 1);
    assert(prefix + bits_le(0, 0) =~= prefix);
    assert(partial_sums(p, prefix, 0, 0) == 0);
    assert(partial_sums(p, prefix, 0, 1) == (0 + p.eval(prefix + bits_le(0, 0)))
        % field_order());
    crate::poly::lemma_terms_val_range(p.terms@, prefix);
    lemma_mod_small(p.eval(prefix));
}

/// `2^e` as a machine word.
pub(crate) fn pow2_u64(e: u8) -> (r: u64)
    requires
        e < 64,
    ensures
        r == pow2(e as nat),
{
    let mut p: u64 = 1;
    let mut j: u8 = 0;
    proof {
        lemma2_to64();
        lemma2_to64_rest();
    }
    while j < e
        invariant
            j <= e,
            e < 64,
            p == pow2(j as nat),
        decreases e - j,
    {
        proof {
            if (j as nat) + 1 < 64 {
                lemma_pow2_strictly_increases((j + 1) as nat, 64);
            }
            lemma_pow2_unfold((j + 1) as nat);
            lemma2_to64_rest();
        }
        p = p * 2;
        j = j + 1;
    }
    p
}

/// The assignment numbered `i` of `size` variables, as field elements.
fn assignment_row(i: u64, size: u8) -> (r: Vec<Fe>)
    requires
        size < 64,
    ensures
        r@.len() == size,
        all_wf(r@),
        vals(r@) == bits_le(i as nat, size as nat),
{
    let mut row: Vec<Fe> = Vec::new();
    let mut j: u8 = 0;
    while j < size
        invariant
            j <= size,
            size < 64,
            row@.len() == j,
            all_wf(row@),
            forall|t: int| 0 <= t < j ==> (#[trigger] row@[t]).val() == bit_at(i as nat, t as nat),
        decreases size - j,
    {
        let p = pow2_u64(j);
        proof {
            lemma_pow2_pos(j as nat);
        }
        let b = (i / p) % 2;
        if b == 1 {
            row.push(Fe::one());
        } else {
            row.push(Fe::zero());
        }
        j = j + 1;
    }
    proof {
        assert(vals(row@) =~= bits_le(i as nat, size as nat));
    }
    row
}

/// Every boolean assignment of `size` variables, in numbering order.
pub fn binary_inputs(size: u8) -> (r: Vec<Vec<Fe>>)
    requires
        size < 64,
    ensures
        r@.len() == pow2(size as nat),
        forall|i: int| 0 <= i < r@.len() ==> (#[trigger] r@[i])@.len() == size,
        forall|i: int| 0 <= i < r@.len() ==> all_wf((#[trigger] r@[i])@),
        forall|i: int|
            0 <= i < r@.len() ==> vals((#[trigger] r@[i])@) == bits_le(i as nat, size as nat),
{
    let count = pow2_u64(size);
    let mut r: Vec<Vec<Fe>> = Vec::new();
    let mut i: u64 = 0;
    while i < count
        invariant
            size < 64,
            count == pow2(size as nat),
            i <= count,
            r@.len() == i,
            forall|t: int| 0 <= t < i ==> (#[trigger] r@[t])@.len() == size,
            forall|t: int| 0 <= t < i ==> all_wf((#[trigger] r@[t])@),
            forall|t: int|
                0 <= t < i ==> vals((#[trigger] r@[t])@) == bits_le(t as nat, size as nat),
        decreases count - i,
    {
        let row = assignment_row(i, size);
        r.push(row);
        i = i + 1;
    }
    r
}

/// The sum of the polynomial's values over every boolean assignment of all
/// of its variables: the prover's opening claim.
pub fn sum_binary_evals(polynomial: &MultivariatePolynomial) -> (r: Fe)
    requires
        polynomial.wf(),
        polynomial.num_vars < 64,
    ensures
        r.wf(),
        r.val() == round_sum(*polynomial, Seq::empty(), polynomial.num_vars as nat),
{
    let ghost m: nat = polynomial.num_vars as nat;
    let inputs = binary_inputs(polynomial.num_vars as u8);
    let mut acc = Fe::zero();
    let mut i: usize = 0;
    while i < inputs.len()
        invariant
            polynomial.wf(),
            polynomial.num_vars < 64,
            m == polynomial.num_vars as nat,
            inputs@.len() == pow2(m),
            forall|t: int| 0 <= t < inputs@.len() ==> (#[trigger] inputs@[t])@.len() == m,
            forall|t: int| 0 <= t < inputs@.len() ==> all_wf((#[trigger] inputs@[t])@),
            forall|t: int|
                0 <= t < inputs@.len() ==> vals((#[trigger] inputs@[t])@) == bits_le(t as nat, m),
            i <= inputs@.len(),
            acc.wf(),
            acc.val() == partial_sums(*polynomial, Seq::empty(), m, i as nat),
        decreases inputs@.len() - i,
    {
        let v = polynomial.evaluate(&inputs[i]);
        proof {
            assert(Seq::<int>::empty() + bits_le(i as nat, m) =~= bits_le(i as nat, m));
        }
        acc = acc.add(&v);
        i = i + 1;
    }
    acc
}

} // verus!
