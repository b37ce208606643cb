//! Sparse polynomial representations.
//!
//! A [`Term`] is one monomial: a coefficient together with the nonzero
//! exponents of the variables it mentions. A [`MultivariatePolynomial`] is a
//! declared variable count and a list of terms; building one validates every
//! variable index eagerly. A [`UnivariatePolynomial`] is a sparse
//! exponent-to-coefficient map in one variable, with at most one entry per
//! exponent.
//!
//! The spec-level meaning of each representation is its evaluation in the
//! field model: [`factors`], [`term_val`], [`terms_val`] and [`uni_val`].

use crate::errors::BuildError;
use crate::field::Fe;
use crate::field::field_order;
use crate::field::lemma_add_mod_left;
use crate::field::lemma_add_mod_right;
use crate::field::lemma_mod_small;
use crate::field::lemma_mul_mod_3;
use crate::field::lemma_mul_mod_left;
use crate::field::pow_mod;
use crate::field::vals;
use vstd::prelude::*;

verus! {

/// One monomial: `coeff * prod_j point[powers[j].0] ^ powers[j].1`.
#[derive(Debug)]
pub struct Term {
    pub coeff: Fe,
    pub powers: Vec<(usize, usize)>,
}

/// Exponent lists are kept normalized: each variable below the declared
/// count, each exponent at least one, and no variable listed twice.
pub open spec fn powers_wf(powers: Seq<(usize, usize)>, num_vars: int) -> bool {
    (forall|j: int|
        0 <= j < powers.len() ==> (#[trigger] powers[j]).0 < num_vars && powers[j].1 >= 1)
        && (forall|j: int, k: int|
        0 <= j < k < powers.len() ==> (#[trigger] powers[j]).0 != (#[trigger] powers[k]).0)
}

/// The product of the listed powers of `point`'s entries, in the field model.
pub open spec fn factors(powers: Seq<(usize, usize)>, point: Seq<int>) -> int
    decreases powers.len(),
{
    if powers.len() == 0 {
        1
    } else {
        (pow_mod(point[powers[0].0 as int], powers[0].1 as nat) * factors(
            powers.drop_first(),
            point,
        )) % field_order()
    }
}

/// The value of one term at `point`.
pub open spec fn term_val(t: Term, point: Seq<int>) -> int {
    t.coeff.val() * factors(t.powers@, point) % field_order()
}

/// The value of a sum of terms at `point`.
pub open spec fn terms_val(terms: Seq<Term>, point: Seq<int>) -> int
    decreases terms.len(),
{
    if terms.len() == 0 {
        0
    } else {
        (terms_val(terms.drop_last(), point) + term_val(terms.last(), point)) % field_order()
    }
}

/// The total exponent of variable `v` in an exponent list (summing
/// duplicates, ignoring other variables).
pub open spec fn degree_of(powers: Seq<(usize, usize)>, v: int) -> int
    decreases powers.len(),
{
    if powers.len() == 0 {
        0
    } else {
        degree_of(powers.drop_last(), v) + if powers.last().0 == v {
            powers.last().1 as int
        } else {
            0
        }
    }
}

/// The sum of every exponent in a raw exponent list.
pub open spec fn exp_sum(powers: Seq<(usize, usize)>) -> int
    decreases powers.len(),
{
    if powers.len() == 0 {
        0
    } else {
        exp_sum(powers.drop_last()) + powers.last().1
    }
}

proof fn lemma_degree_bounds(s: Seq<(usize, usize)>, v: int)
    ensures
        0 <= degree_of(s, v) <= exp_sum(s),
    decreases s.len(),
{
    if s.len() > 0 {
        lemma_degree_bounds(s.drop_last(), v);
    }
}

proof fn lemma_exp_sum_take(s: Seq<(usize, usize)>, j: int)
    requires
        0 <= j <= s.len(),
    ensures
        exp_sum(s.take(j)) <= exp_sum(s),
    decreases s.len() - j,
{
    if j == s.len() {
        assert(s.take(j) =~= s);
    } else {
        assert(s.take(j + 1).drop_last() =~= s.take(j));
        assert(s.take(j + 1).last() == s[j]);
        lemma_exp_sum_take(s, j + 1);
    }
}

proof fn lemma_degree_absent(s: Seq<(usize, usize)>, v: int)
    requires
        forall|j: int| 0 <= j < s.len() ==> (#[trigger] s[j]).0 != v,
    ensures
        degree_of(s, v) == 0,
    decreases s.len(),
{
    if s.len() > 0 {
        assert(forall|j: int|
            0 <= j < s.drop_last().len() ==> (#[trigger] s.drop_last()[j]).0 != v);
        lemma_degree_absent(s.drop_last(), v);
    }
}

/// In a duplicate-free exponent list the total exponent of the variable at
/// `idx` is exactly the listed one.
proof fn lemma_degree_at_index(s: Seq<(usize, usize)>, idx: int)
    requires
        0 <= idx < s.len(),
        forall|j: int, k: int|
            0 <= j < k < s.len() ==> (#[trigger] s[j]).0 != (#[trigger] s[k]).0,
    ensures
        degree_of(s, s[idx].0 as int) == s[idx].1,
    decreases s.len(),
{
    let v = s[idx].0 as int;
    if idx == s.len() - 1 {
        assert(forall|j: int|
            0 <= j < s.drop_last().len() ==> (#[trigger] s.drop_last()[j]).0 != s[idx].0);
        lemma_degree_absent(s.drop_last(), v);
    } else {
        lemma_degree_at_index(s.drop_last(), idx);
        assert(s.last().0 != s[idx].0);
    }
}

/// Replacing the entry at `idx` by one with the same variable shifts only
/// that variable's total exponent, by the difference of the two exponents.
proof fn lemma_degree_update(s: Seq<(usize, usize)>, idx: int, q: (usize, usize), v: int)
    requires
        0 <= idx < s.len(),
        q.0 == s[idx].0,
    ensures
        degree_of(s.update(idx, q), v) == degree_of(s, v) + if v == q.0 {
            q.1 - s[idx].1
        } else {
            0
        },
    decreases s.len(),
{
    if idx == s.len() - 1 {
        assert(s.update(idx, q).drop_last() =~= s.drop_last());
        assert(s.update(idx, q).last() == q);
    } else {
        assert(s.update(idx, q).drop_last() =~= s.drop_last().update(idx, q));
        assert(s.update(idx, q).last() == s.last());
        lemma_degree_update(s.drop_last(), idx, q, v);
    }
}

/// A power of a sum of exponents is the reduced product of the two powers.
proof fn lemma_pow_mod_adds(x: int, e1: nat, e2: nat)
    ensures
        pow_mod(x, e1 + e2) == (pow_mod(x, e1) * pow_mod(x, e2)) % field_order(),
    decreases e1,
{
    if e1 == 0 {
        crate::field::lemma_pow_mod_range(x, e2);
        lemma_mod_small(pow_mod(x, e2));
    } else {
        lemma_pow_mod_adds(x, (e1 - 1) as nat, e2);
        lemma_mul_mod_3(x, pow_mod(x, (e1 - 1) as nat), pow_mod(x, e2));
    }
}

/// Appending one entry multiplies the factor product by that entry's power.
proof fn lemma_factors_push(s: Seq<(usize, usize)>, p: (usize, usize), point: Seq<int>)
    ensures
        factors(s.push(p), point) == (factors(s, point) * pow_mod(
            point[p.0 as int],
            p.1 as nat,
        )) % field_order(),
    decreases s.len(),
{
    let q = pow_mod(point[p.0 as int], p.1 as nat);
    if s.len() == 0 {
        assert(s.push(p).drop_first() =~= Seq::<(usize, usize)>::empty());
        assert(s.push(p)[0] == p);
        assert(factors(s, point) == 1);
        assert(factors(s.push(p).drop_first(), point) == 1);
        assert(factors(s.push(p), point) == (q * 1) % field_order());
        assert((q * 1) % field_order() == (1 * q) % field_order());
    } else {
        assert(s.push(p).drop_first() =~= s.drop_first().push(p));
        assert(s.push(p)[0] == s[0]);
        lemma_factors_push(s.drop_first(), p, point);
        let g0 = pow_mod(point[s[0].0 as int], s[0].1 as nat);
        assert(factors(s.push(p), point) == (g0 * factors(s.push(p).drop_first(), point))
            % field_order());
        assert(factors(s.push(p).drop_first(), point) == (factors(s.drop_first(), point) * q)
            % field_order());
        assert(factors(s, point) == (g0 * factors(s.drop_first(), point)) % field_order());
        lemma_mul_mod_3(g0, factors(s.drop_first(), point), q);
    }
}

/// Raising the exponent of the entry at `idx` multiplies the factor product
/// by that variable's power of the increase.
proof fn lemma_factors_update(s: Seq<(usize, usize)>, idx: int, q: (usize, usize), point: Seq<int>)
    requires
        0 <= idx < s.len(),
        q.0 == s[idx].0,
        q.1 >= s[idx].1,
    ensures
        factors(s.update(idx, q), point) == (factors(s, point) * pow_mod(
            point[q.0 as int],
            (q.1 - s[idx].1) as nat,
        )) % field_order(),
    decreases s.len(),
{
    let x = point[q.0 as int];
    let d = (q.1 - s[idx].1) as nat;
    let pd = pow_mod(x, d);
    if idx == 0 {
        assert(s.update(0, q).drop_first() =~= s.drop_first());
        assert(s.update(0, q)[0] == q);
        let pe = pow_mod(x, s[0].1 as nat);
        let f = factors(s.drop_first(), point);
        lemma_pow_mod_adds(x, s[0].1 as nat, d);
        assert(pow_mod(x, q.1 as nat) == (pe * pd) % field_order());
        lemma_mul_mod_left(pe * pd, f);
        lemma_mul_mod_left(pe * f, pd);
        assert(pe * pd * f == pe * f * pd) by (nonlinear_arith);
    } else {
        assert(s.update(idx, q).drop_first() =~= s.drop_first().update(idx - 1, q));
        assert(s.update(idx, q)[0] == s[0]);
        assert(s.drop_first()[idx - 1] == s[idx]);
        lemma_factors_update(s.drop_first(), idx - 1, q, point);
        let g0 = pow_mod(point[s[0].0 as int], s[0].1 as nat);
        lemma_mul_mod_3(g0, factors(s.drop_first(), point), pd);
    }
}

/// Factor products are the value one or a reduced value.
pub proof fn lemma_factors_range(powers: Seq<(usize, usize)>, point: Seq<int>)
    ensures
        0 <= factors(powers, point) < field_order(),
{
    if powers.len() == 0 {
    } else {
        crate::field::lemma_mod_range(
            pow_mod(point[powers[0].0 as int], powers[0].1 as nat) * factors(
                powers.drop_first(),
                point,
            ),
        );
    }
}

/// Term sums are reduced values.
pub proof fn lemma_terms_val_range(terms: Seq<Term>, point: Seq<int>)
    ensures
        0 <= terms_val(terms, point) < field_order(),
{
    if terms.len() == 0 {
    } else {
        crate::field::lemma_mod_range(
            terms_val(terms.drop_last(), point) + term_val(terms.last(), point),
        );
    }
}

/// The index of `var` in an exponent list, if it is listed.
fn find_var(acc: &Vec<(usize, usize)>, var: usize) -> (r: Option<usize>)
    ensures
        match r {
            Some(ix) => ix < acc@.len() && acc@[ix as int].0 == var,
            None => forall|j: int| 0 <= j < acc@.len() ==> (#[trigger] acc@[j]).0 != var,
        },
{
    let mut ix: usize = 0;
    while ix < acc.len()
        invariant
            ix <= acc@.len(),
            forall|j: int| 0 <= j < ix ==> (#[trigger] acc@[j]).0 != var,
        decreases acc@.len() - ix,
    {
        if acc[ix].0 == var {
            return Some(ix);
        }
        ix = ix + 1;
    }
    None
}

impl Term {
    /// A term is well formed for a variable count when its coefficient is
    /// canonical and its exponent list is normalized for that count.
    pub open spec fn wf(self, num_vars: int) -> bool {
        self.coeff.wf() && powers_wf(self.powers@, num_vars)
    }

    /// Normalizes one raw monomial description: zero exponents are dropped,
    /// duplicate mentions of a variable are merged by adding exponents, and
    /// any variable index at or above `num_vars` fails the build.
    pub fn build(coeff: Fe, raw: &Vec<(usize, usize)>, num_vars: usize) -> (r: Result<
        Term,
        BuildError,
    >)
        requires
            coeff.wf(),
            exp_sum(raw@) <= usize::MAX,
        ensures
            match r {
                Ok(t) => t.wf(num_vars as int) && t.coeff == coeff && (forall|point: Seq<int>|
                    #[trigger] term_val(t, point) == coeff.val() * factors(raw@, point)
                        % field_order()) && (forall|j: int|
                    0 <= j < raw@.len() ==> (#[trigger] raw@[j]).0 < num_vars),
                Err(e) => e == BuildError::VariableIndexOutOfBounds && exists|j: int|
                    0 <= j < raw@.len() && (#[trigger] raw@[j]).0 >= num_vars,
            },
    {
        let mut acc: Vec<(usize, usize)> = Vec::new();
        let mut j: usize = 0;
        while j < raw.len()
            invariant
                j <= raw@.len(),
                coeff.wf(),
                exp_sum(raw@) <= usize::MAX,
                powers_wf(acc@, num_vars as int),
                forall|v: int| degree_of(acc@, v) == degree_of(raw@.take(j as int), v),
                forall|point: Seq<int>|
                    #[trigger] factors(acc@, point) == factors(raw@.take(j as int), point),
                forall|jj: int| 0 <= jj < j ==> (#[trigger] raw@[jj]).0 < num_vars,
            decreases raw@.len() - j,
        {
            let (var, exp) = raw[j];
            if var >= num_vars {
                proof {
                    assert(raw@[j as int].0 >= num_vars);
                }
                return Err(BuildError::VariableIndexOutOfBounds);
            }
            proof {
                assert(raw@.take(j + 1).drop_last() =~= raw@.take(j as int));
                assert(raw@.take(j + 1).last() == raw@[j as int]);
            }
            if exp > 0 {
                let ghost acc0 = acc@;
                match find_var(&acc, var) {
                    Some(ix) => {
                        let pair = acc[ix];
                        proof {
                            lemma_degree_at_index(acc0, ix as int);
                            lemma_degree_bounds(raw@.take(j + 1), var as int);
                            lemma_exp_sum_take(raw@, j + 1);
                            assert(degree_of(raw@.take(j + 1), var as int) == degree_of(
                                raw@.take(j as int),
                                var as int,
                            ) + exp);
                        }
                        let merged: usize = pair.1 + exp;
                        acc[ix] = (pair.0, merged);
                        proof {
                            assert(acc@ =~= acc0.update(ix as int, (pair.0, merged)));
                            assert forall|v: int|
                                degree_of(acc@, v) == degree_of(raw@.take(j + 1), v) by {
                                lemma_degree_update(acc0, ix as int, (pair.0, merged), v);
                                assert(degree_of(raw@.take(j + 1), v) == degree_of(
                                    raw@.take(j as int),
                                    v,
                                ) + if raw@[j as int].0 == v {
                                    exp as int
                                } else {
                                    0
                                });
                            }
                            assert forall|point: Seq<int>|
                                #[trigger] factors(acc@, point) == factors(
                                    raw@.take(j + 1),
                                    point,
                                ) by {
                                assert(raw@.take(j + 1) =~= raw@.take(j as int).push(
                                    raw@[j as int],
                                ));
                                lemma_factors_update(acc0, ix as int, (pair.0, merged), point);
                                lemma_factors_push(raw@.take(j as int), raw@[j as int], point);
                            }
                        }
                    },
                    None => {
                        acc.push((var, exp));
                        proof {
                            assert(acc@.drop_last() =~= acc0);
                            assert(acc@.last() == (var, exp));
                            assert forall|point: Seq<int>|
                                #[trigger] factors(acc@, point) == factors(
                                    raw@.take(j + 1),
                                    point,
                                ) by {
                                assert(acc@ =~= acc0.push((var, exp)));
                                assert(raw@.take(j + 1) =~= raw@.take(j as int).push(
                                    raw@[j as int],
                                ));
                                lemma_factors_push(acc0, (var, exp), point);
                                lemma_factors_push(raw@.take(j as int), raw@[j as int], point);
                            }
                            assert forall|v: int|
                                degree_of(acc@, v) == degree_of(raw@.take(j + 1), v) by {
                                assert(degree_of(acc@, v) == degree_of(acc0, v) + if var == v {
                                    exp as int
                                } else {
                                    0
                                });
                                assert(degree_of(raw@.take(j + 1), v) == degree_of(
                                    raw@.take(j as int),
                                    v,
                                ) + if raw@[j as int].0 == v {
                                    exp as int
                                } else {
                                    0
                                });
                            }
                        }
                    },
                }
            } else {
                proof {
                    assert forall|v: int|
                        degree_of(acc@, v) == degree_of(raw@.take(j + 1), v) by {
                        assert(degree_of(raw@.take(j + 1), v) == degree_of(
                            raw@.take(j as int),
                            v,
                        ) + if raw@[j as int].0 == v {
                            0int
                        } else {
                            0int
                        });
                    }
                    assert forall|point: Seq<int>|
                        #[trigger] factors(acc@, point) == factors(raw@.take(j + 1), point) by {
                        assert(raw@.take(j + 1) =~= raw@.take(j as int).push(raw@[j as int]));
                        lemma_factors_push(raw@.take(j as int), raw@[j as int], point);
                        lemma_factors_range(raw@.take(j as int), point);
                        lemma_mod_small(factors(raw@.take(j as int), point));
                    }
                }
            }
            j = j + 1;
        }
        proof {
            assert(raw@.take(raw@.len() as int) =~= raw@);
        }
        Ok(Term { coeff, powers: acc })
    }
}

/// The value of one term at `point`, computed with field operations.
fn term_value(t: &Term, point: &Vec<Fe>) -> (r: Fe)
    requires
        t.coeff.wf(),
        crate::field::all_wf(point@),
        forall|j: int| 0 <= j < t.powers@.len() ==> (#[trigger] t.powers@[j]).0 < point@.len(),
    ensures
        r.wf(),
        r.val() == term_val(*t, vals(point@)),
{
    let ghost pt = vals(point@);
    let mut prod = t.coeff;
    let mut j: usize = 0;
    proof {
        assert(t.powers@.skip(0) =~= t.powers@);
    }
    while j < t.powers.len()
        invariant
            j <= t.powers@.len(),
            t.coeff.wf(),
            crate::field::all_wf(point@),
            forall|k: int| 0 <= k < t.powers@.len() ==> (#[trigger] t.powers@[k]).0 < point@.len(),
            pt == vals(point@),
            prod.wf(),
            prod.val() * factors(t.powers@.skip(j as int), pt) % field_order() == term_val(
                *t,
                pt,
            ),
        decreases t.powers@.len() - j,
    {
        let (var, exp) = t.powers[j];
        let f = point[var].pow(exp);
        proof {
            assert(pt[var as int] == point@[var as int].val());
            assert(t.powers@.skip(j as int).drop_first() =~= t.powers@.skip(j + 1));
            assert(t.powers@.skip(j as int)[0] == t.powers@[j as int]);
            lemma_mul_mod_3(
                prod.val(),
                pow_mod(pt[var as int], exp as nat),
                factors(t.powers@.skip(j + 1), pt),
            );
        }
        prod = prod.mul(&f);
        j = j + 1;
    }
    proof {
        assert(t.powers@.skip(t.powers@.len() as int) =~= Seq::<(usize, usize)>::empty());
        lemma_mod_small(prod.val());
    }
    prod
}

/// A sparse multivariate polynomial: a declared variable count and the terms
/// of a weighted sum of monomials over variables `0 .. num_vars`.
#[derive(Debug)]
pub struct MultivariatePolynomial {
    pub num_vars: usize,
    pub terms: Vec<Term>,
}

impl MultivariatePolynomial {
    /// Every term is normalized against the declared variable count.
    pub open spec fn wf(self) -> bool {
        forall|i: int|
            0 <= i < self.terms@.len() ==> (#[trigger] self.terms@[i]).wf(self.num_vars as int)
    }

    /// The value of the polynomial at `point`, in the field model.
    pub open spec fn eval(self, point: Seq<int>) -> int {
        terms_val(self.terms@, point)
    }

    /// Builds a polynomial over `num_vars` variables from weighted raw
    /// monomials. Every variable index of every monomial must lie below
    /// `num_vars`; otherwise nothing is built and the variable-bounds error
    /// is returned.
    pub fn build(num_vars: usize, terms: Vec<(Fe, Vec<(usize, usize)>)>) -> (r: Result<
        MultivariatePolynomial,
        BuildError,
    >)
        requires
            forall|i: int| 0 <= i < terms@.len() ==> (#[trigger] terms@[i]).0.wf(),
            forall|i: int| 0 <= i < terms@.len() ==> exp_sum((#[trigger] terms@[i]).1@) <= usize::MAX,
        ensures
            match r {
                Ok(p) => p.wf() && p.num_vars == num_vars && p.terms@.len() == terms@.len() && (
                forall|i: int|
                    0 <= i < terms@.len() ==> (#[trigger] p.terms@[i]).coeff == terms@[i].0) && (
                forall|i: int, point: Seq<int>|
                    0 <= i < terms@.len() ==> #[trigger] term_val(p.terms@[i], point)
                        == terms@[i].0.val() * factors(terms@[i].1@, point) % field_order()) && (
                forall|i: int, jj: int|
                    0 <= i < terms@.len() && 0 <= jj < terms@[i].1@.len() ==> (#[trigger] terms@[i].1@[jj]).0
                        < num_vars),
                Err(e) => e == BuildError::VariableIndexOutOfBounds && exists|i: int, jj: int|
                    0 <= i < terms@.len() && 0 <= jj < terms@[i].1@.len() && (#[trigger] terms@[i].1@[jj]).0
                        >= num_vars,
            },
    {
        let mut out: Vec<Term> = Vec::new();
        let mut i: usize = 0;
        while i < terms.len()
            invariant
                i <= terms@.len(),
                forall|k: int| 0 <= k < terms@.len() ==> (#[trigger] terms@[k]).0.wf(),
                forall|k: int|
                    0 <= k < terms@.len() ==> exp_sum((#[trigger] terms@[k]).1@) <= usize::MAX,
                out@.len() == i,
                forall|k: int|
                    0 <= k < i ==> (#[trigger] out@[k]).wf(num_vars as int),
                forall|k: int| 0 <= k < i ==> (#[trigger] out@[k]).coeff == terms@[k].0,
                forall|k: int, point: Seq<int>|
                    0 <= k < i ==> #[trigger] term_val(out@[k], point) == terms@[k].0.val()
                        * factors(terms@[k].1@, point) % field_order(),
                forall|k: int, jj: int|
                    0 <= k < i && 0 <= jj < terms@[k].1@.len() ==> (#[trigger] terms@[k].1@[jj]).0
                        < num_vars,
            decreases terms@.len() - i,
        {
            let coeff = terms[i].0;
            match Term::build(coeff, &terms[i].1, num_vars) {
                Ok(t) => {
                    out.push(t);
                },
                Err(e) => {
                    return Err(e);
                },
            }
            i = i + 1;
        }
        Ok(MultivariatePolynomial { num_vars, terms: out })
    }

    /// Full evaluation of the polynomial at a point, one value per variable.
    pub fn evaluate(&self, point: &Vec<Fe>) -> (r: Fe)
        requires
            self.wf(),
            point@.len() == self.num_vars,
            crate::field::all_wf(point@),
        ensures
            r.wf(),
            r.val() == self.eval(vals(point@)),
    {
        let mut acc = Fe::zero();
        let mut i: usize = 0;
        proof {
            assert(self.terms@.take(0) =~= Seq::<Term>::empty());
        }
        while i < self.terms.len()
            invariant
                i <= self.terms@.len(),
                self.wf(),
                point@.len() == self.num_vars,
                crate::field::all_wf(point@),
                acc.wf(),
                acc.val() == terms_val(self.terms@.take(i as int), vals(point@)),
            decreases self.terms@.len() - i,
        {
            let tv = term_value(&self.terms[i], point);
            proof {
                assert(self.terms@.take(i + 1).drop_last() =~= self.terms@.take(i as int));
                assert(self.terms@.take(i + 1).last() == self.terms@[i as int]);
            }
            acc = acc.add(&tv);
            i = i + 1;
        }
        proof {
            assert(self.terms@.take(self.terms@.len() as int) =~= self.terms@);
        }
        acc
    }
}

/// The value at `x` of a sparse exponent-to-coefficient list.
pub open spec fn uni_val(s: Seq<(usize, Fe)>, x: int) -> int
    decreases s.len(),
{
    if s.len() == 0 {
        0
    } else {
        (uni_val(s.drop_last(), x) + s.last().1.val() * pow_mod(x, s.last().0 as nat))
            % field_order()
    }
}

/// A sparse univariate polynomial: a list of `(exponent, coefficient)`
/// entries with at most one entry per exponent.
#[derive(Debug)]
pub struct UnivariatePolynomial {
    pub coeffs: Vec<(usize, Fe)>,
}

/// Adding `d * pow_mod(x, s[j].0)` to the coefficient at `j` adds the same
/// amount to the polynomial's value at every `x`.
proof fn lemma_uni_update(s: Seq<(usize, Fe)>, j: int, c2: Fe, d: int, x: int)
    requires
        0 <= j < s.len(),
        c2.val() == (s[j].1.val() + d) % field_order(),
    ensures
        uni_val(s.update(j, (s[j].0, c2)), x) == (uni_val(s, x) + d * pow_mod(x, s[j].0 as nat))
            % field_order(),
    decreases s.len(),
{
    let p = pow_mod(x, s[j].0 as nat);
    if j == s.len() - 1 {
        assert(s.update(j, (s[j].0, c2)).drop_last() =~= s.drop_last());
        assert(s.update(j, (s[j].0, c2)).last() == (s[j].0, c2));
        let u = uni_val(s.drop_last(), x);
        let oldc = s[j].1.val();
        assert(c2.val() * p % field_order() == (oldc + d) * p % field_order()) by {
            lemma_mul_mod_left(oldc + d, p);
        }
        assert((u + c2.val() * p) % field_order() == (u + (oldc + d) * p) % field_order()) by {
            lemma_add_mod_right(u, c2.val() * p);
            lemma_add_mod_right(u, (oldc + d) * p);
        }
        assert((oldc + d) * p == oldc * p + d * p) by {
            vstd::arithmetic::mul::lemma_mul_is_distributive_add_other_way(p, oldc, d);
        }
        assert(((u + oldc * p) % field_order() + d * p) % field_order() == (u + oldc * p + d * p)
            % field_order()) by {
            lemma_add_mod_left(u + oldc * p, d * p);
        }
    } else {
        assert(s.update(j, (s[j].0, c2)).drop_last() =~= s.drop_last().update(j, (s[j].0, c2)));
        assert(s.update(j, (s[j].0, c2)).last() == s.last());
        lemma_uni_update(s.drop_last(), j, c2, d, x);
        let a = uni_val(s.drop_last(), x);
        let l = s.last().1.val() * pow_mod(x, s.last().0 as nat);
        assert(((a + d * p) % field_order() + l) % field_order() == (a + d * p + l)
            % field_order()) by {
            lemma_add_mod_left(a + d * p, l);
        }
        assert(((a + l) % field_order() + d * p) % field_order() == (a + l + d * p)
            % field_order()) by {
            lemma_add_mod_left(a + l, d * p);
        }
    }
}

impl UnivariatePolynomial {
    /// Coefficients are canonical and no exponent is listed twice.
    pub open spec fn wf(self) -> bool {
        (forall|i: int| 0 <= i < self.coeffs@.len() ==> (#[trigger] self.coeffs@[i]).1.wf())
            && (forall|i: int, k: int|
            0 <= i < k < self.coeffs@.len() ==> (#[trigger] self.coeffs@[i]).0
                != (#[trigger] self.coeffs@[k]).0)
    }

    /// The value of the polynomial at `x`, in the field model.
    pub open spec fn eval_spec(self, x: int) -> int {
        uni_val(self.coeffs@, x)
    }

    /// The zero polynomial.
    pub fn empty() -> (r: UnivariatePolynomial)
        ensures
            r.wf(),
            r.coeffs@.len() == 0,
            forall|x: int| r.eval_spec(x) == 0,
    {
        UnivariatePolynomial { coeffs: Vec::new() }
    }

    /// Adds `c * X^e` to the polynomial, merging with an existing entry for
    /// the exponent `e` rather than duplicating it.
    pub fn add_term(&mut self, e: usize, c: Fe)
        requires
            old(self).wf(),
            c.wf(),
        ensures
            final(self).wf(),
            forall|x: int|
                #[trigger] uni_val(final(self).coeffs@, x) == (uni_val(old(self).coeffs@, x)
                    + c.val() * pow_mod(x, e as nat)) % field_order(),
    {
        let mut ix: usize = 0;
        while ix < self.coeffs.len()
            invariant
                ix <= self.coeffs@.len(),
                old(self).wf(),
                c.wf(),
                self.coeffs@ == old(self).coeffs@,
                forall|k: int| 0 <= k < ix ==> (#[trigger] self.coeffs@[k]).0 != e,
            decreases self.coeffs@.len() - ix,
        {
            if self.coeffs[ix].0 == e {
                let ghost s0 = self.coeffs@;
                let pair = self.coeffs[ix];
                let c2 = pair.1.add(&c);
                self.coeffs[ix] = (pair.0, c2);
                proof {
                    assert(self.coeffs@ =~= s0.update(ix as int, (s0[ix as int].0, c2)));
                    assert(self.wf());
                    assert forall|x: int|
                        #[trigger] uni_val(self.coeffs@, x) == (uni_val(s0, x) + c.val() * pow_mod(
                            x,
                            e as nat,
                        )) % field_order() by {
                        lemma_uni_update(s0, ix as int, c2, c.val(), x);
                    }
                }
                return ;
            }
            ix = ix + 1;
        }
        let ghost s0 = self.coeffs@;
        self.coeffs.push((e, c));
        proof {
            assert(self.coeffs@.drop_last() =~= s0);
            assert(self.coeffs@.last() == (e, c));
            assert(self.wf());
        }
    }

    /// The value of the polynomial at `x`, computed with field operations.
    pub fn evaluate(&self, x: &Fe) -> (r: Fe)
        requires
            self.wf(),
            x.wf(),
        ensures
            r.wf(),
            r.val() == self.eval_spec(x.val()),
    {
        let mut acc = Fe::zero();
        let mut i: usize = 0;
        proof {
            assert(self.coeffs@.take(0) =~= Seq::<(usize, Fe)>::empty());
        }
        while i < self.coeffs.len()
            invariant
                i <= self.coeffs@.len(),
                self.wf(),
                x.wf(),
                acc.wf(),
                acc.val() == uni_val(self.coeffs@.take(i as int), x.val()),
            decreases self.coeffs@.len() - i,
        {
            let (e, c) = self.coeffs[i];
            let f = c.mul(&x.pow(e));
            proof {
                assert(self.coeffs@.take(i + 1).drop_last() =~= self.coeffs@.take(i as int));
                assert(self.coeffs@.take(i + 1).last() == self.coeffs@[i as int]);
                lemma_add_mod_right(
                    uni_val(self.coeffs@.take(i as int), x.val()),
                    c.val() * pow_mod(x.val(), e as nat),
                );
            }
            acc = acc.add(&f);
            i = i + 1;
        }
        proof {
            assert(self.coeffs@.take(self.coeffs@.len() as int) =~= self.coeffs@);
        }
        acc
    }
}

} // verus!
