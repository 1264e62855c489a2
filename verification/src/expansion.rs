//! Powers of a binomial, expanded by the binomial theorem.

use crate::binomial::{binomial, binomial_fits, lemma_binomial_positive, BinomialIter};
use crate::polynomial::{
    add_all, all_fit, all_wf, distinct_exponents, lemma_add_all_distinct, monomials, normal,
    Polynomial,
};
use crate::rational::{
    lemma_lowest, lemma_plus_value, lemma_results_wf, lemma_same_value,
    lemma_same_value_transitive, lemma_times_integer_value, lemma_zero_value, same_value, Rat,
};
use crate::term::{Monomial, Term};
use vstd::arithmetic::power::{lemma_pow_positive, pow};
use vstd::prelude::*;

verus! {

/// The term that `k` contributes to `(t0 + t1)^n`:
/// `t0^k * t1^(n - k) * C(n, k)`.
pub open spec fn contribution(t0: Monomial, t1: Monomial, n: int, k: int) -> Monomial {
    t0.power(k).times(t1.power(n - k)).scaled(binomial(n as nat, k as nat) as int)
}

/// The terms that `(t0 + t1)^n` is the sum of, for `k` from 0 to `n`: there
/// are `n + 1` of them, and none for a negative `n`.
pub open spec fn contributions(t0: Monomial, t1: Monomial, n: int) -> Seq<Monomial> {
    Seq::new(
        if n >= 0 {
            (n + 1) as nat
        } else {
            0nat
        },
        |k: int| contribution(t0, t1, n, k),
    )
}

/// The sum `(t0 + t1)^n` in normal form.
pub open spec fn expansion(t0: Monomial, t1: Monomial, n: int) -> Seq<Monomial> {
    add_all(Seq::empty(), contributions(t0, t1, n))
}

/// Whether the contribution of `k` can be formed within `isize`: the binomial
/// coefficient, the two powers, their product, and the product with the
/// coefficient.
pub open spec fn contribution_fits(t0: Monomial, t1: Monomial, n: int, k: int) -> bool {
    &&& binomial_fits(n, k)
    &&& t0.power_fits(k)
    &&& t1.power_fits(n - k)
    &&& t0.power(k).product_fits(t1.power(n - k))
    &&& t0.power(k).times(t1.power(n - k)).scaled_fits(binomial(n as nat, k as nat) as int)
}

/// Whether every contribution to `(t0 + t1)^n` can be formed within `isize`.
pub open spec fn contributions_fit(t0: Monomial, t1: Monomial, n: int) -> bool {
    &&& n < isize::MAX
    &&& forall|k: int| 0 <= k <= n ==> #[trigger] contribution_fits(t0, t1, n, k)
}

/// Whether `(t0 + t1)^n` can be expanded within `isize`: every contribution
/// can be formed, and they can be added up.
pub open spec fn expansion_fits(t0: Monomial, t1: Monomial, n: int) -> bool {
    contributions_fit(t0, t1, n) && all_fit(Seq::empty(), contributions(t0, t1, n))
}

/// The exponent `k * e0 + (n - k) * e1` of the contribution of `k`.
pub open spec fn contribution_exponent(e0: Rat, e1: Rat, n: int, k: int) -> Rat {
    e0.times(Rat::integer(k)).plus(e1.times(Rat::integer(n - k)))
}

/// A power of a number other than 0 is not 0.
proof fn lemma_pow_nonzero(b: int, e: nat)
    requires
        b != 0,
    ensures
        pow(b, e) != 0,
    decreases e,
{
    reveal(pow);
    if e > 0 {
        lemma_pow_nonzero(b, (e - 1) as nat);
        let rest = pow(b, (e - 1) as nat);
        assert(b * rest != 0) by (nonlinear_arith)
            requires
                b != 0,
                rest != 0,
        ;
    }
}

/// The value of the exponent of the contribution of `k`, over the product of
/// the two denominators.
proof fn lemma_exponent_value(e0: Rat, e1: Rat, n: int, k: int)
    requires
        e0.den > 0,
        e1.den > 0,
    ensures
        same_value(
            contribution_exponent(e0, e1, n, k),
            Rat { num: (e0.num * k) * e1.den + (e1.num * (n - k)) * e0.den, den: e0.den * e1.den },
        ),
        contribution_exponent(e0, e1, n, k).wf(),
        e0.den * e1.den > 0,
{
    let a = e0.times(Rat::integer(k));
    let b = e1.times(Rat::integer(n - k));
    lemma_times_integer_value(e0, k);
    lemma_times_integer_value(e1, n - k);
    lemma_results_wf(e0, Rat::integer(k));
    lemma_results_wf(e1, Rat::integer(n - k));
    lemma_plus_value(
        a,
        b,
        Rat { num: e0.num * k, den: e0.den },
        Rat { num: e1.num * (n - k), den: e1.den },
    );
    lemma_results_wf(a, b);
}

/// Where the two exponents of a binomial differ, the contributions of
/// different `k` have different exponents.
pub proof fn lemma_exponents_differ(e0: Rat, e1: Rat, n: int, j: int, k: int)
    requires
        e0.wf(),
        e1.wf(),
        e0 != e1,
        j != k,
    ensures
        contribution_exponent(e0, e1, n, j) != contribution_exponent(e0, e1, n, k),
{
    let at_j = contribution_exponent(e0, e1, n, j);
    let at_k = contribution_exponent(e0, e1, n, k);
    if at_j == at_k {
        let d = e0.den * e1.den;
        let nj = (e0.num * j) * e1.den + (e1.num * (n - j)) * e0.den;
        let nk = (e0.num * k) * e1.den + (e1.num * (n - k)) * e0.den;
        let vj = Rat { num: nj, den: d };
        let vk = Rat { num: nk, den: d };
        lemma_exponent_value(e0, e1, n, j);
        lemma_exponent_value(e0, e1, n, k);
        assert(same_value(vj, at_j));
        lemma_same_value_transitive(vj, at_j, vk);
        assert(nj == nk) by (nonlinear_arith)
            requires
                nj * d == nk * d,
                d > 0,
        ;
        let cross0 = e0.num * e1.den;
        let cross1 = e1.num * e0.den;
        assert(nj == cross0 * j + cross1 * (n - j)) by (nonlinear_arith)
            requires
                nj == (e0.num * j) * e1.den + (e1.num * (n - j)) * e0.den,
                cross0 == e0.num * e1.den,
                cross1 == e1.num * e0.den,
        ;
        assert(nk == cross0 * k + cross1 * (n - k)) by (nonlinear_arith)
            requires
                nk == (e0.num * k) * e1.den + (e1.num * (n - k)) * e0.den,
                cross0 == e0.num * e1.den,
                cross1 == e1.num * e0.den,
        ;
        assert(cross0 == cross1) by (nonlinear_arith)
            requires
                cross0 * j + cross1 * (n - j) == cross0 * k + cross1 * (n - k),
                j != k,
        ;
        lemma_same_value(e0, e1);
    }
}

/// The contributions to `(t0 + t1)^n` are terms in lowest terms, with the
/// exponents `k * e0 + (n - k) * e1`; none is 0 unless `t0` or `t1` is.
pub proof fn lemma_contribution(t0: Monomial, t1: Monomial, n: int, k: int)
    requires
        t0.wf(),
        t1.wf(),
        0 <= k <= n,
    ensures
        contribution(t0, t1, n, k).wf(),
        contribution(t0, t1, n, k).exponent == contribution_exponent(t0.exponent, t1.exponent, n, k),
        !t0.is_zero() && !t1.is_zero() ==> !contribution(t0, t1, n, k).is_zero(),
{
    let c0 = t0.coefficient;
    let c1 = t1.coefficient;
    let lower = c0.power(k);
    let upper = c1.power(n - k);
    let ways = binomial(n as nat, k as nat) as int;
    lemma_pow_positive(c0.den, k as nat);
    lemma_pow_positive(c1.den, (n - k) as nat);
    lemma_exponent_value(t0.exponent, t1.exponent, n, k);
    lemma_results_wf(lower, upper);
    let product = lower.times(upper);
    lemma_results_wf(product, Rat::integer(ways));
    if !t0.is_zero() && !t1.is_zero() {
        lemma_pow_nonzero(c0.num, k as nat);
        lemma_pow_nonzero(c1.num, (n - k) as nat);
        lemma_binomial_positive(n as nat, k as nat);
        assert(lower.den * upper.den > 0) by (nonlinear_arith)
            requires
                lower.den > 0,
                upper.den > 0,
        ;
        lemma_lowest(lower.num * upper.num, lower.den * upper.den);
        assert(lower.num * upper.num != 0) by (nonlinear_arith)
            requires
                lower.num != 0,
                upper.num != 0,
        ;
        lemma_zero_value(product, Rat { num: lower.num * upper.num, den: lower.den * upper.den });
        lemma_times_integer_value(product, ways);
        assert(product.num * ways != 0) by (nonlinear_arith)
            requires
                product.num != 0,
                ways > 0,
        ;
        lemma_zero_value(
            product.times(Rat::integer(ways)),
            Rat { num: product.num * ways, den: product.den },
        );
    }
}

/// The power `n` of a binomial whose two exponents differ: there are `n + 1`
/// contributions, the one of `k` with the exponent `k * e0 + (n - k) * e1`,
/// and no two with the same. Each contribution that is not 0 is a term of the
/// expansion, which has no other terms; so it has `n + 1` terms unless `t0`
/// or `t1` is 0. No two coefficients are added, so that the contributions can
/// always be added up.
pub proof fn lemma_expansion_terms(t0: Monomial, t1: Monomial, n: int)
    requires
        t0.wf(),
        t1.wf(),
        n >= 0,
        t0.exponent != t1.exponent,
    ensures
        contributions(t0, t1, n).len() == n + 1,
        forall|k: int|
            0 <= k <= n ==> (#[trigger] contributions(t0, t1, n)[k]).exponent == contribution_exponent(
                t0.exponent,
                t1.exponent,
                n,
                k,
            ),
        distinct_exponents(contributions(t0, t1, n)),
        normal(expansion(t0, t1, n)),
        forall|k: int|
            0 <= k <= n && !(#[trigger] contributions(t0, t1, n)[k]).is_zero() ==> expansion(
                t0,
                t1,
                n,
            ).contains(contributions(t0, t1, n)[k]),
        forall|m: Monomial| #[trigger]
            expansion(t0, t1, n).contains(m) ==> contributions(t0, t1, n).contains(m) && !m.is_zero(),
        !t0.is_zero() && !t1.is_zero() ==> expansion(t0, t1, n).len() == n + 1,
        all_fit(Seq::empty(), contributions(t0, t1, n)),
{
    let q = contributions(t0, t1, n);
    assert forall|k: int| 0 <= k <= n implies (#[trigger] q[k]).wf() && q[k].exponent
        == contribution_exponent(t0.exponent, t1.exponent, n, k) && (!t0.is_zero() && !t1.is_zero()
        ==> !q[k].is_zero()) by {
        lemma_contribution(t0, t1, n, k);
    }
    assert forall|i: int, j: int| 0 <= i < j < q.len() implies (#[trigger] q[i]).exponent != (
    #[trigger] q[j]).exponent by {
        lemma_exponents_differ(t0.exponent, t1.exponent, n, i, j);
    }
    lemma_add_all_distinct(q);
}

/// A binomial.
pub struct Binomial(pub Term, pub Term);

impl Binomial {
    /// Whether both terms are in lowest terms.
    pub open spec fn wf(&self) -> bool {
        self.0.wf() && self.1.wf()
    }

    /// The terms that the power `exp` of the binomial is the sum of, zero
    /// terms among them: `t0^k * t1^(exp - k) * C(exp, k)` for `k` from 0 to
    /// `exp`.
    pub fn contributions(&self, exp: isize) -> (terms: Vec<Term>)
        requires
            self.wf(),
            contributions_fit(self.0@, self.1@, exp as int),
        ensures
            all_wf(monomials(terms@)),
            monomials(terms@) == contributions(self.0@, self.1@, exp as int),
            exp >= 0 ==> terms@.len() == exp + 1,
    {
        let ghost all = contributions(self.0@, self.1@, exp as int);
        let mut terms: Vec<Term> = Vec::new();
        let mut coefficients = BinomialIter::new(exp);
        loop
            invariant_except_break
                self.wf(),
                contributions_fit(self.0@, self.1@, exp as int),
                all == contributions(self.0@, self.1@, exp as int),
                coefficients.n() == exp,
                coefficients.k() == terms@.len(),
                terms@.len() <= all.len(),
                forall|i: int|
                    0 <= i < terms@.len() ==> (#[trigger] terms@[i]).wf() && terms@[i]@ == all[i],
            ensures
                terms@.len() == all.len(),
                forall|i: int|
                    0 <= i < terms@.len() ==> (#[trigger] terms@[i]).wf() && terms@[i]@ == all[i],
            decreases all.len() - terms@.len(),
        {
            proof {
                if coefficients.k() <= exp {
                    assert(contribution_fits(self.0@, self.1@, exp as int, coefficients.k()));
                }
            }
            match coefficients.next() {
                Some((c, k)) => {
                    let term = self.0.pow(k).times(self.1.pow(exp - k)).scaled(c);
                    terms.push(term);
                },
                None => {
                    break ;
                },
            }
        }
        assert(monomials(terms@) =~= all);
        terms
    }

    /// Raises the binomial to a power and returns the resulting polynomial:
    /// the sum of the contributions, in normal form.
    pub fn expand(self, exp: isize) -> (p: Polynomial)
        requires
            self.wf(),
            expansion_fits(self.0@, self.1@, exp as int),
        ensures
            p.wf(),
            p@ == expansion(self.0@, self.1@, exp as int),
    {
        Polynomial::from_vec(self.contributions(exp))
    }
}

} // verus!
