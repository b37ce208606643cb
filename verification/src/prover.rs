//! The sum-check prover.
//!
//! A [`Prover`] owns an immutable multivariate polynomial and the ordered
//! challenges received so far. It announces the opening claim
//! ([`Prover::init_poly_sum`]), produces one univariate round polynomial per
//! unbound variable ([`Prover::next_unipoly`]), accepts one challenge per
//! round ([`Prover::register_challenge`]), and once every variable is bound
//! evaluates the polynomial at the challenge point ([`Prover::evaluate`]).

use crate::errors::ProtocolError;
use crate::field::Fe;
use crate::field::all_wf;
use crate::field::field_order;
use crate::field::lemma_add_mod_left;
use crate::field::lemma_add_mod_right;
use crate::field::lemma_mod_range;
use crate::field::lemma_mod_small;
use crate::field::lemma_mul_mod_3;
use crate::field::lemma_mul_mod_shuffle;
use crate::field::lemma_pow_mod_one;
use crate::field::lemma_pow_mod_zero;
use crate::field::pow_mod;
use crate::field::vals;
use crate::poly::MultivariatePolynomial;
use crate::poly::Term;
use crate::poly::UnivariatePolynomial;
use crate::poly::factors;
use crate::poly::lemma_factors_range;
use crate::poly::term_val;
use crate::poly::uni_val;
use crate::poly::terms_val;
use crate::utils::bits_le;
use crate::utils::lemma_partial_sums_range;
use crate::utils::partial_sums;
use crate::utils::pow2_u64;
use crate::utils::round_sum;
use vstd::arithmetic::mul::lemma_mul_basics;
use vstd::arithmetic::power2::lemma_pow2_pos;
use vstd::arithmetic::power2::pow2;
use vstd::prelude::*;

verus! {

/// The coefficient and bound-variable exponent that one term contributes to
/// the round polynomial, for the boolean assignment numbered `i` of the
/// `m_exp` trailing variables: every already-bound variable is replaced by
/// its challenge, every trailing variable by its bit, and the exponent of
/// the variable being solved for (index `challenges.len()`) is reported
/// separately.
fn term_round_contribution(term: &Term, challenges: &Vec<Fe>, i: u64, m_exp: usize) -> (r: (
    Fe,
    usize,
))
    requires
        term.wf((challenges@.len() + 1 + m_exp) as int),
        all_wf(challenges@),
        m_exp < 64,
    ensures
        r.0.wf(),
        forall|x: int|
            #[trigger] (r.0.val() * pow_mod(x, r.1 as nat)) % field_order() == term_val(
                *term,
                vals(challenges@).push(x) + bits_le(i as nat, m_exp as nat),
            ),
{
    let k = challenges.len();
    let ghost m: nat = m_exp as nat;
    let ghost chals = vals(challenges@);
    let mut prod: Fe = term.coeff;
    let mut power: usize = 0;
    let mut j: usize = 0;
    let mut vanished = false;
    proof {
        assert(term.powers@.skip(0) =~= term.powers@);
        assert forall|x: int|
            #[trigger] term_val(*term, chals.push(x) + bits_le(i as nat, m)) == ((prod.val()
                * pow_mod(x, power as nat)) % field_order()) * factors(
                term.powers@.skip(0),
                chals.push(x) + bits_le(i as nat, m),
            ) % field_order() by {
            lemma_mod_small(prod.val());
        }
    }
    while j < term.powers.len() && !vanished
        invariant
            j <= term.powers@.len(),
            k == challenges@.len(),
            m == m_exp as nat,
            m_exp < 64,
            chals == vals(challenges@),
            term.wf((k + 1 + m_exp) as int),
            all_wf(challenges@),
            prod.wf(),
            !vanished ==> ((forall|jj: int|
                0 <= jj < j ==> (#[trigger] term.powers@[jj]).0 != k) ==> power == 0),
            !vanished ==> (forall|x: int|
                #[trigger] term_val(*term, chals.push(x) + bits_le(i as nat, m)) == ((prod.val()
                    * pow_mod(x, power as nat)) % field_order()) * factors(
                    term.powers@.skip(j as int),
                    chals.push(x) + bits_le(i as nat, m),
                ) % field_order()),
            vanished ==> prod.val() == 0 && (forall|x: int|
                #[trigger] term_val(*term, chals.push(x) + bits_le(i as nat, m)) == 0),
        decreases term.powers@.len() - j,
    {
        let (var, exp) = term.powers[j];
        proof {
            assert(term.powers@.skip(j as int)[0] == term.powers@[j as int]);
            assert(term.powers@.skip(j as int).drop_first() =~= term.powers@.skip(j + 1));
        }
        if var == k {
            proof {
                assert forall|jj: int| 0 <= jj < j implies (#[trigger] term.powers@[jj]).0
                    != k by {
                    assert(term.powers@[jj].0 != term.powers@[j as int].0);
                }
            }
            power = exp;
            proof {
                assert forall|x: int|
                    #[trigger] term_val(*term, chals.push(x) + bits_le(i as nat, m)) == ((
                    prod.val() * pow_mod(x, power as nat)) % field_order()) * factors(
                        term.powers@.skip(j + 1),
                        chals.push(x) + bits_le(i as nat, m),
                    ) % field_order() by {
                    let pt = chals.push(x) + bits_le(i as nat, m);
                    assert(pt[k as int] == x);
                    lemma_mul_mod_3(
                        prod.val(),
                        pow_mod(x, exp as nat),
                        factors(term.powers@.skip(j + 1), pt),
                    );
                    lemma_mod_small(prod.val());
                }
            }
        } else if var < k {
            let f = challenges[var].pow(exp);
            let ghost oldprod = prod;
            prod = prod.mul(&f);
            proof {
                assert forall|x: int|
                    #[trigger] term_val(*term, chals.push(x) + bits_le(i as nat, m)) == ((
                    prod.val() * pow_mod(x, power as nat)) % field_order()) * factors(
                        term.powers@.skip(j + 1),
                        chals.push(x) + bits_le(i as nat, m),
                    ) % field_order() by {
                    let pt = chals.push(x) + bits_le(i as nat, m);
                    assert(pt[var as int] == chals[var as int]);
                    assert(chals[var as int] == challenges@[var as int].val());
                    lemma_mul_mod_shuffle(
                        oldprod.val(),
                        pow_mod(x, power as nat),
                        pow_mod(pt[var as int], exp as nat),
                        factors(term.powers@.skip(j + 1), pt),
                    );
                }
            }
        } else {
            let pos = var - k - 1;
            let p2 = pow2_u64(pos as u8);
            proof {
                lemma_pow2_pos(pos as nat);
            }
            let b = (i / p2) % 2;
            if b == 0 {
                let ghost oldprod = prod;
                prod = Fe::zero();
                vanished = true;
                proof {
                    assert forall|x: int|
                        #[trigger] term_val(*term, chals.push(x) + bits_le(i as nat, m))
                            == 0 by {
                        let pt = chals.push(x) + bits_le(i as nat, m);
                        assert(pt[var as int] == bits_le(i as nat, m)[pos as int]);
                        assert(pt[var as int] == 0);
                        lemma_pow_mod_zero(exp as nat);
                        lemma_mul_basics(factors(term.powers@.skip(j + 1), pt));
                        lemma_mod_small(0);
                        assert(factors(term.powers@.skip(j as int), pt) == 0);
                        lemma_mul_basics(
                            (oldprod.val() * pow_mod(x, power as nat)) % field_order(),
                        );
                    }
                }
            } else {
                proof {
                    assert forall|x: int|
                        #[trigger] term_val(*term, chals.push(x) + bits_le(i as nat, m)) == ((
                        prod.val() * pow_mod(x, power as nat)) % field_order()) * factors(
                            term.powers@.skip(j + 1),
                            chals.push(x) + bits_le(i as nat, m),
                        ) % field_order() by {
                        let pt = chals.push(x) + bits_le(i as nat, m);
                        assert(pt[var as int] == bits_le(i as nat, m)[pos as int]);
                        assert(pt[var as int] == 1);
                        lemma_pow_mod_one(exp as nat);
                        lemma_factors_range(term.powers@.skip(j + 1), pt);
                        lemma_mod_small(factors(term.powers@.skip(j + 1), pt));
                    }
                }
            }
        }
        j = j + 1;
    }
    proof {
        if vanished {
            assert forall|x: int|
                #[trigger] (prod.val() * pow_mod(x, power as nat)) % field_order() == term_val(
                    *term,
                    chals.push(x) + bits_le(i as nat, m),
                ) by {
                lemma_mod_small(0);
            }
        } else {
            assert(term.powers@.skip(term.powers@.len() as int) =~= Seq::<(usize, usize)>::empty());
            assert forall|x: int|
                #[trigger] (prod.val() * pow_mod(x, power as nat)) % field_order() == term_val(
                    *term,
                    chals.push(x) + bits_le(i as nat, m),
                ) by {
                let c = (prod.val() * pow_mod(x, power as nat)) % field_order();
                lemma_mod_range(prod.val() * pow_mod(x, power as nat));
                lemma_mod_small(c);
            }
        }
    }
    (prod, power)
}

/// The sum-check prover: an immutable polynomial and the ordered challenges
/// bound so far, at most one per variable.
pub struct Prover {
    /// Original polynomial known to the prover.
    pub poly: MultivariatePolynomial,
    /// Challenges sent by the verifier, in round order.
    pub r_vec: Vec<Fe>,
}

impl Prover {
    /// The prover's invariant: a valid polynomial and no more challenges
    /// than variables.
    pub open spec fn wf(self) -> bool {
        self.poly.wf() && self.r_vec@.len() <= self.poly.num_vars && all_wf(self.r_vec@)
    }

    /// A fresh prover in round zero.
    pub fn new(poly: MultivariatePolynomial) -> (r: Prover)
        requires
            poly.wf(),
        ensures
            r.wf(),
            r.poly == poly,
            r.r_vec@.len() == 0,
    {
        Prover { poly, r_vec: Vec::new() }
    }

    /// The opening claim: the sum of the polynomial over the whole boolean
    /// hypercube. Exponential in the variable count by nature; this is the
    /// protocol's baseline cost, not a target of optimization. The variable
    /// count must fit the 64-bit enumeration index.
    pub fn init_poly_sum(&self) -> (r: Fe)
        requires
            self.wf(),
            self.poly.num_vars < 64,
        ensures
            r.wf(),
            r.val() == round_sum(self.poly, Seq::empty(), self.poly.num_vars as nat),
    {
        crate::utils::sum_binary_evals(&self.poly)
    }

    /// The round polynomial `g_k` for the next unbound variable
    /// `k = r_vec.len()`: at every point `x` it equals the sum of the
    /// polynomial over the boolean assignments of the trailing variables,
    /// with the bound variables at their challenges and variable `k` at `x`.
    /// Refused once every variable is bound. The variable count must fit
    /// the 64-bit enumeration index.
    pub fn next_unipoly(&self) -> (r: Result<UnivariatePolynomial, ProtocolError>)
        requires
            self.wf(),
            self.poly.num_vars < 64,
        ensures
            match r {
                Ok(u) => u.wf() && self.r_vec@.len() < self.poly.num_vars && (forall|x: int|
                    #[trigger] u.eval_spec(x) == round_sum(
                        self.poly,
                        vals(self.r_vec@).push(x),
                        (self.poly.num_vars - self.r_vec@.len() - 1) as nat,
                    )),
                Err(e) => e == ProtocolError::RoundsExhausted && self.r_vec@.len()
                    == self.poly.num_vars,
            },
    {
        let k = self.r_vec.len();
        if k >= self.poly.num_vars {
            return Err(ProtocolError::RoundsExhausted);
        }
        let m_exp = self.poly.num_vars - k - 1;
        let ghost m: nat = m_exp as nat;
        let ghost chals = vals(self.r_vec@);
        let count = pow2_u64(m_exp as u8);
        let mut uni = UnivariatePolynomial::empty();
        let mut i: u64 = 0;
        while i < count
            invariant
                self.wf(),
                self.poly.num_vars < 64,
                k == self.r_vec@.len(),
                k < self.poly.num_vars,
                m_exp == self.poly.num_vars - k - 1,
                m == m_exp as nat,
                chals == vals(self.r_vec@),
                count == pow2(m),
                i <= count,
                uni.wf(),
                forall|x: int|
                    #[trigger] uni_val(uni.coeffs@, x) == partial_sums(
                        self.poly,
                        chals.push(x),
                        m,
                        i as nat,
                    ),
            decreases count - i,
        {
            proof {
                assert(self.poly.terms@.take(0) =~= Seq::<Term>::empty());
                assert forall|x: int|
                    #[trigger] uni_val(uni.coeffs@, x) == (partial_sums(
                        self.poly,
                        chals.push(x),
                        m,
                        i as nat,
                    ) + terms_val(
                        self.poly.terms@.take(0),
                        chals.push(x) + bits_le(i as nat, m),
                    )) % field_order() by {
                    lemma_partial_sums_range(self.poly, chals.push(x), m, i as nat);
                    lemma_mod_small(partial_sums(self.poly, chals.push(x), m, i as nat));
                }
            }
            let mut t: usize = 0;
            while t < self.poly.terms.len()
                invariant
                    self.wf(),
                    self.poly.num_vars < 64,
                    k == self.r_vec@.len(),
                    k < self.poly.num_vars,
                    m_exp == self.poly.num_vars - k - 1,
                    m == m_exp as nat,
                    chals == vals(self.r_vec@),
                    t <= self.poly.terms@.len(),
                    uni.wf(),
                    forall|x: int|
                        #[trigger] uni_val(uni.coeffs@, x) == (partial_sums(
                            self.poly,
                            chals.push(x),
                            m,
                            i as nat,
                        ) + terms_val(
                            self.poly.terms@.take(t as int),
                            chals.push(x) + bits_le(i as nat, m),
                        )) % field_order(),
                decreases self.poly.terms@.len() - t,
            {
                let (prod, power) = term_round_contribution(
                    &self.poly.terms[t],
                    &self.r_vec,
                    i,
                    m_exp,
                );
                let ghost olduni = uni.coeffs@;
                uni.add_term(power, prod);
                proof {
                    assert(self.poly.terms@.take(t + 1).drop_last() =~= self.poly.terms@.take(
                        t as int,
                    ));
                    assert(self.poly.terms@.take(t + 1).last() == self.poly.terms@[t as int]);
                    assert forall|x: int|
                        #[trigger] uni_val(uni.coeffs@, x) == (partial_sums(
                            self.poly,
                            chals.push(x),
                            m,
                            i as nat,
                        ) + terms_val(
                            self.poly.terms@.take(t + 1),
                            chals.push(x) + bits_le(i as nat, m),
                        )) % field_order() by {
                        let pt = chals.push(x) + bits_le(i as nat, m);
                        let ps = partial_sums(self.poly, chals.push(x), m, i as nat);
                        let tv = terms_val(self.poly.terms@.take(t as int), pt);
                        let cc = prod.val() * pow_mod(x, power as nat);
                        assert(cc % field_order() == term_val(self.poly.terms@[t as int], pt));
                        assert(uni_val(uni.coeffs@, x) == (uni_val(olduni, x) + cc)
                            % field_order());
                        assert(uni_val(olduni, x) == (ps + tv) % field_order());
                        lemma_add_mod_left(ps + tv, cc);
                        lemma_add_mod_right(ps + tv, cc);
                        lemma_add_mod_right(ps, tv + term_val(self.poly.terms@[t as int], pt));
                    }
                }
                t = t + 1;
            }
            proof {
                assert(self.poly.terms@.take(self.poly.terms@.len() as int) =~= self.poly.terms@);
                assert forall|x: int|
                    #[trigger] uni_val(uni.coeffs@, x) == partial_sums(
                        self.poly,
                        chals.push(x),
                        m,
                        (i + 1) as nat,
                    ) by {
                    assert(uni_val(uni.coeffs@, x) == (partial_sums(
                        self.poly,
                        chals.push(x),
                        m,
                        i as nat,
                    ) + self.poly.eval(chals.push(x) + bits_le(i as nat, m))) % field_order());
                }
            }
            i = i + 1;
        }
        proof {
            assert forall|x: int|
                #[trigger] uni.eval_spec(x) == round_sum(
                    self.poly,
                    vals(self.r_vec@).push(x),
                    (self.poly.num_vars - self.r_vec@.len() - 1) as nat,
                ) by {
                assert(uni_val(uni.coeffs@, x) == partial_sums(
                    self.poly,
                    chals.push(x),
                    m,
                    pow2(m),
                ));
            }
        }
        Ok(uni)
    }

    /// Full evaluation of the polynomial at the challenge point. Owed
    /// exactly when every variable is bound.
    pub fn evaluate(&self) -> (r: Result<Fe, ProtocolError>)
        requires
            self.wf(),
        ensures
            match r {
                Ok(v) => self.r_vec@.len() == self.poly.num_vars && v.wf() && v.val()
                    == self.poly.eval(vals(self.r_vec@)),
                Err(e) => e == ProtocolError::RoundsIncomplete && self.r_vec@.len()
                    < self.poly.num_vars,
            },
    {
        if self.r_vec.len() == self.poly.num_vars {
            Ok(self.poly.evaluate(&self.r_vec))
        } else {
            Err(ProtocolError::RoundsIncomplete)
        }
    }

    /// Binds the next variable to `challenge`. Refused once every variable
    /// is bound; the prover is then left unchanged.
    pub fn register_challenge(&mut self, challenge: Fe) -> (r: Result<(), ProtocolError>)
        requires
            old(self).wf(),
            challenge.wf(),
        ensures
            final(self).wf(),
            match r {
                Ok(()) => old(self).r_vec@.len() < old(self).poly.num_vars && final(self).poly
                    == old(self).poly && final(self).r_vec@ == old(self).r_vec@.push(challenge),
                Err(e) => e == ProtocolError::RoundsExhausted && old(self).r_vec@.len() == old(
                    self,
                ).poly.num_vars && *final(self) == *old(self),
            },
    {
        if self.r_vec.len() < self.poly.num_vars {
            self.r_vec.push(challenge);
            Ok(())
        } else {
            Err(ProtocolError::RoundsExhausted)
        }
    }
}

} // verus!
