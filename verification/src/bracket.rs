//! The Kauffman bracket polynomial of a knot, as the sum over its resolutions.

use crate::binomial::{
    binomial, binomial_sum, lemma_binomial_bound, lemma_binomial_row_sum, short_side,
};
use crate::expansion::{
    contribution, contribution_fits, contributions, contributions_fit, expansion, expansion_fits,
    lemma_contribution, lemma_expansion_terms, Binomial,
};
use crate::knot::{Diagram, Knot};
use crate::polynomial::{
    add_all, all_fit, all_wf, normal, products, times_term, times_term_fits, Polynomial,
};
use crate::rational::{lemma_integer_wf, lemma_whole_arithmetic};
use crate::resolution::{
    exponent_shift, lemma_shift_bounds, lemma_tally_bounds, loop_count, power_of_two,
};
use crate::term::{Monomial, Term};
use crate::weight::{
    is_whole, lemma_add_all_weight, lemma_weight_remove, size, weight, whole_terms,
};
use vstd::arithmetic::power::pow;
use vstd::arithmetic::power2::{
    lemma2_to64_rest, lemma_pow2_adds, lemma_pow2_pos, lemma_pow2_strictly_increases, pow2,
};
use vstd::prelude::*;

verus! {

/// What a resolution with `loops` loops and the exponent shift `shift`
/// contributes to the bracket polynomial:
/// `(-A^2 - A^-2)^(loops - 1) * A^shift`.
pub open spec fn state_polynomial(loops: int, shift: int) -> Seq<Monomial> {
    times_term(
        expansion(Monomial::whole(-1, 2), Monomial::whole(-1, -2), loops - 1),
        Monomial::whole(1, shift),
    )
}

/// Whether the contribution of such a resolution can be formed within `isize`.
pub open spec fn state_fits(loops: int, shift: int) -> bool {
    &&& expansion_fits(Monomial::whole(-1, 2), Monomial::whole(-1, -2), loops - 1)
    &&& times_term_fits(
        expansion(Monomial::whole(-1, 2), Monomial::whole(-1, -2), loops - 1),
        Monomial::whole(1, shift),
    )
}

/// The sum of the contributions of the first `count` resolutions.
pub open spec fn bracket_sum(d: Diagram, count: nat) -> Seq<Monomial>
    decreases count,
{
    if count == 0 {
        Seq::empty()
    } else {
        let n = (count - 1) as nat;
        add_all(bracket_sum(d, n), state_polynomial(loop_count(d, n), exponent_shift(d, n)))
    }
}

/// Whether the contributions of the first `count` resolutions can be formed
/// and added up within `isize`.
pub open spec fn bracket_fits(d: Diagram, count: nat) -> bool
    decreases count,
{
    count == 0 || {
        let n = (count - 1) as nat;
        &&& bracket_fits(d, n)
        &&& state_fits(loop_count(d, n), exponent_shift(d, n))
        &&& all_fit(bracket_sum(d, n), state_polynomial(loop_count(d, n), exponent_shift(d, n)))
    }
}

/// The bracket polynomial of a diagram: the sum over all its resolutions.
pub open spec fn bracket(d: Diagram) -> Seq<Monomial> {
    bracket_sum(d, pow2(d.crossings.len()))
}

/// The powers of 1 are 1, those of -1 are 1 or -1.
proof fn lemma_sign_power(k: nat)
    ensures
        pow(1, k) == 1,
        pow(-1, k) == 1 || pow(-1, k) == -1,
    decreases k,
{
    reveal(pow);
    if k > 0 {
        lemma_sign_power((k - 1) as nat);
    }
}

/// The contribution of `k` to `(-A^2 - A^-2)^m` is `C(m, k) A^(4k - 2m)`
/// with a sign, which is the result.
proof fn lemma_relation_contribution(m: int, k: int) -> (sign: int)
    requires
        0 <= k <= m,
    ensures
        sign == 1 || sign == -1,
        contribution(Monomial::whole(-1, 2), Monomial::whole(-1, -2), m, k) == Monomial::whole(
            sign * binomial(m as nat, k as nat),
            4 * k - 2 * m,
        ),
        Monomial::whole(-1, 2).power(k) == Monomial::whole(pow(-1, k as nat), 2 * k),
        Monomial::whole(-1, -2).power(m - k) == Monomial::whole(
            pow(-1, (m - k) as nat),
            -2 * (m - k),
        ),
        Monomial::whole(-1, 2).power(k).times(Monomial::whole(-1, -2).power(m - k))
            == Monomial::whole(sign, 4 * k - 2 * m),
{
    let ways = binomial(m as nat, k as nat) as int;
    let s0 = pow(-1, k as nat);
    let s1 = pow(-1, (m - k) as nat);
    lemma_sign_power(k as nat);
    lemma_sign_power((m - k) as nat);
    lemma_whole_arithmetic(2, k);
    lemma_whole_arithmetic(-2, m - k);
    lemma_whole_arithmetic(s0, s1);
    lemma_whole_arithmetic(2 * k, -2 * (m - k));
    lemma_whole_arithmetic(s0 * s1, ways);
    assert(s0 * s1 == 1 || s0 * s1 == -1) by (nonlinear_arith)
        requires
            s0 == 1 || s0 == -1,
            s1 == 1 || s1 == -1,
    ;
    s0 * s1
}

/// Terms that have the binomial coefficients of `m` as their sizes weigh the
/// sums of the coefficients.
proof fn lemma_sizes_sum(q: Seq<Monomial>, m: nat, j: nat)
    requires
        j <= q.len(),
        forall|k: int| 0 <= k < q.len() ==> size(#[trigger] q[k]) == binomial(m, k as nat),
    ensures
        weight(q.take(j as int)) == binomial_sum(m, j),
    decreases j,
{
    if j > 0 {
        lemma_sizes_sum(q, m, (j - 1) as nat);
        assert(q.take(j as int).drop_last() =~= q.take(j - 1));
        assert(q.take(j as int).last() == q[j - 1]);
    } else {
        assert(q.take(0) =~= Seq::<Monomial>::empty());
    }
}

/// The contribution of `k` to `(-A^2 - A^-2)^m` can be formed where
/// `(m + 1) * 2^m` is a value of `isize`: it is a whole term of the size
/// `C(m, k)`, with an exponent between `-2m` and `2m`.
proof fn lemma_relation_contribution_fits(m: int, k: int)
    requires
        0 <= k <= m <= 62,
        (m + 1) * pow2(m as nat) <= isize::MAX,
    ensures
        contribution_fits(Monomial::whole(-1, 2), Monomial::whole(-1, -2), m, k),
        contribution(Monomial::whole(-1, 2), Monomial::whole(-1, -2), m, k).wf(),
        is_whole(contribution(Monomial::whole(-1, 2), Monomial::whole(-1, -2), m, k)),
        size(contribution(Monomial::whole(-1, 2), Monomial::whole(-1, -2), m, k)) == binomial(
            m as nat,
            k as nat,
        ),
        -2 * m <= contribution(
            Monomial::whole(-1, 2),
            Monomial::whole(-1, -2),
            m,
            k,
        ).exponent.num <= 2 * m,
{
    let t0 = Monomial::whole(-1, 2);
    let t1 = Monomial::whole(-1, -2);
    let top = pow2(m as nat) as int;
    lemma_pow2_pos(m as nat);
    lemma_integer_wf(-1);
    lemma_integer_wf(2);
    lemma_integer_wf(-2);
    let sign = lemma_relation_contribution(m, k);
    let ways = binomial(m as nat, k as nat) as int;
    let short = short_side(m, k);
    lemma_binomial_bound(m as nat, k as nat);
    lemma_binomial_bound(m as nat, short as nat);
    lemma_sign_power(k as nat);
    lemma_sign_power((m - k) as nat);
    lemma_contribution(t0, t1, m, k);
    lemma_whole_arithmetic(2, k);
    lemma_whole_arithmetic(-2, m - k);
    lemma_whole_arithmetic(pow(-1, k as nat), pow(-1, (m - k) as nat));
    lemma_whole_arithmetic(2 * k, -2 * (m - k));
    lemma_whole_arithmetic(sign, ways);
    let few = binomial(m as nat, short as nat) as int;
    assert(few * short <= (m + 1) * top) by (nonlinear_arith)
        requires
            0 <= few <= top,
            0 <= short <= m,
    ;
    assert(top <= (m + 1) * top) by (nonlinear_arith)
        requires
            top > 0,
            m >= 0,
    ;
    assert(sign * ways == ways || sign * ways == -ways) by (nonlinear_arith)
        requires
            sign == 1 || sign == -1,
    ;
    assert(pow(-1, k as nat) * pow(-1, (m - k) as nat) == sign);
}

/// The contributions to `(-A^2 - A^-2)^m` can be formed where
/// `(m + 1) * 2^m` is a value of `isize`: they are whole terms, and weigh
/// `2^m` together.
proof fn lemma_relation_contributions(m: int)
    requires
        0 <= m <= 62,
        (m + 1) * pow2(m as nat) <= isize::MAX,
    ensures
        contributions_fit(Monomial::whole(-1, 2), Monomial::whole(-1, -2), m),
        all_wf(contributions(Monomial::whole(-1, 2), Monomial::whole(-1, -2), m)),
        whole_terms(contributions(Monomial::whole(-1, 2), Monomial::whole(-1, -2), m)),
        weight(contributions(Monomial::whole(-1, 2), Monomial::whole(-1, -2), m)) == pow2(m as nat),
        forall|k: int|
            0 <= k <= m ==> -2 * m <= (#[trigger] contributions(
                Monomial::whole(-1, 2),
                Monomial::whole(-1, -2),
                m,
            )[k]).exponent.num <= 2 * m,
{
    let t0 = Monomial::whole(-1, 2);
    let t1 = Monomial::whole(-1, -2);
    let q = contributions(t0, t1, m);
    assert forall|k: int| 0 <= k <= m implies #[trigger] contribution_fits(t0, t1, m, k) by {
        lemma_relation_contribution_fits(m, k);
    }
    assert forall|k: int| 0 <= k < q.len() implies (#[trigger] q[k]).wf() && is_whole(q[k]) && size(
        q[k],
    ) == binomial(m as nat, k as nat) && -2 * m <= q[k].exponent.num <= 2 * m by {
        lemma_relation_contribution_fits(m, k);
    }
    lemma_sizes_sum(q, m as nat, (m + 1) as nat);
    assert(q.take(m + 1) =~= q);
    lemma_binomial_row_sum(m as nat);
}

/// The terms of a polynomial of whole terms, multiplied by `A^shift`, are
/// whole terms of the same weight.
proof fn lemma_shifted_weight(p: Seq<Monomial>, shift: int)
    requires
        whole_terms(p),
        all_wf(p),
    ensures
        whole_terms(products(p, Monomial::whole(1, shift))),
        all_wf(products(p, Monomial::whole(1, shift))),
        weight(products(p, Monomial::whole(1, shift))) == weight(p),
        forall|i: int|
            0 <= i < p.len() ==> (#[trigger] products(p, Monomial::whole(1, shift))[i])
                == Monomial::whole(p[i].coefficient.num, p[i].exponent.num + shift),
    decreases p.len(),
{
    let t = Monomial::whole(1, shift);
    let q = products(p, t);
    assert forall|i: int| 0 <= i < p.len() implies (#[trigger] q[i]) == Monomial::whole(
        p[i].coefficient.num,
        p[i].exponent.num + shift,
    ) && q[i].wf() by {
        assert(is_whole(p[i]));
        lemma_whole_arithmetic(p[i].coefficient.num, 1);
        lemma_whole_arithmetic(p[i].exponent.num, shift);
        lemma_integer_wf(p[i].coefficient.num);
        lemma_integer_wf(p[i].exponent.num + shift);
        assert(p[i].coefficient.num * 1 == p[i].coefficient.num);
    }
    if p.len() > 0 {
        let before = p.drop_last();
        assert forall|i: int| 0 <= i < before.len() implies is_whole(#[trigger] before[i])
            && before[i].wf() by {
            assert(before[i] == p[i]);
        }
        lemma_shifted_weight(before, shift);
        assert(q.drop_last() =~= products(before, t));
        assert(q.last() == q[p.len() - 1]);
    }
}

/// The contribution of a resolution can be formed where `loops * 2^(loops - 1)`
/// is a value of `isize`: it is a polynomial of whole terms that weighs
/// `2^(loops - 1)` at most.
pub proof fn lemma_state_polynomial(loops: int, shift: int)
    requires
        1 <= loops <= 63,
        loops * pow2((loops - 1) as nat) <= isize::MAX,
        -128 <= shift <= 128,
    ensures
        state_fits(loops, shift),
        normal(state_polynomial(loops, shift)),
        whole_terms(state_polynomial(loops, shift)),
        weight(state_polynomial(loops, shift)) <= pow2((loops - 1) as nat),
{
    let m = loops - 1;
    let t0 = Monomial::whole(-1, 2);
    let t1 = Monomial::whole(-1, -2);
    let q = contributions(t0, t1, m);
    let grown = expansion(t0, t1, m);
    let by = Monomial::whole(1, shift);
    lemma_integer_wf(-1);
    lemma_integer_wf(2);
    lemma_integer_wf(-2);
    lemma_integer_wf(1);
    lemma_integer_wf(shift);
    let top = pow2(m as nat) as int;
    lemma_pow2_pos(m as nat);
    assert(top <= loops * top) by (nonlinear_arith)
        requires
            top > 0,
            loops >= 1,
    ;
    assert(isize::MAX >= 0x7fff_ffff);
    lemma_relation_contributions(m);
    lemma_expansion_terms(t0, t1, m);
    assert(normal(Seq::<Monomial>::empty()));
    assert(weight(Seq::<Monomial>::empty()) == 0);
    lemma_add_all_weight(Seq::empty(), q);
    assert(all_wf(grown));
    lemma_shifted_weight(grown, shift);
    let moved = products(grown, by);
    assert forall|i: int| 0 <= i < grown.len() implies (#[trigger] grown[i]).product_fits(by) by {
        assert(grown.contains(grown[i]));
        let k = choose|k: int| 0 <= k < q.len() && q[k] == grown[i];
        assert(-2 * m <= q[k].exponent.num <= 2 * m);
        assert(is_whole(grown[i]));
        lemma_whole_arithmetic(grown[i].coefficient.num, 1);
        lemma_whole_arithmetic(grown[i].exponent.num, shift);
        lemma_weight_remove(grown, i);
        assert(grown[i].coefficient.num * 1 == grown[i].coefficient.num);
    }
    lemma_add_all_weight(Seq::empty(), moved);
}

/// Whether the knot is small enough for its bracket polynomial to be summed
/// up within `isize`: with `n` crossings and `r` regions, `r * 2^(n + r)` is
/// a value of `isize`.
pub open spec fn bracket_bound(d: Diagram) -> bool {
    d.regions * pow2(d.crossings.len() + d.regions) <= isize::MAX
}

/// The bracket polynomial of a knot that is small enough can be summed up
/// within `isize`: the sum of the first `count` resolutions has whole terms
/// and weighs `count * 2^(r - 2)` at most.
pub proof fn lemma_bracket_sum(d: Diagram, count: nat)
    requires
        d.wf(),
        bracket_bound(d),
        count <= pow2(d.crossings.len()),
    ensures
        bracket_fits(d, count),
        normal(bracket_sum(d, count)),
        whole_terms(bracket_sum(d, count)),
        weight(bracket_sum(d, count)) <= count * pow2((d.regions - 2) as nat),
        d.crossings.len() + d.regions <= 62,
    decreases count,
{
    let crossings = d.crossings.len();
    let regions = d.regions;
    let all = pow2(crossings + regions) as int;
    let each = pow2((regions - 2) as nat) as int;
    assert(regions == 2 + crossings + crate::diagram::missing_below(
        d.columns(),
        crate::diagram::top_column(d.columns()),
    ));
    lemma_pow2_pos(crossings + regions);
    assert(all <= regions * all) by (nonlinear_arith)
        requires
            regions >= 1,
            all > 0,
    ;
    lemma2_to64_rest();
    if crossings + regions >= 63 {
        if crossings + regions > 63 {
            lemma_pow2_strictly_increases(63, crossings + regions);
        }
    }
    if count > 0 {
        let n = (count - 1) as nat;
        let loops = loop_count(d, n);
        let shift = exponent_shift(d, n);
        lemma_bracket_sum(d, n);
        lemma_tally_bounds(d, n, crossings);
        lemma_shift_bounds(n, crossings);
        let m = (loops - 1) as nat;
        let part = pow2(m) as int;
        lemma_pow2_pos(m);
        if m < crossings + regions {
            lemma_pow2_strictly_increases(m, crossings + regions);
        }
        assert(loops * part <= regions * all) by (nonlinear_arith)
            requires
                0 < loops <= regions,
                0 < part <= all,
        ;
        lemma_state_polynomial(loops, shift);
        if m < regions - 2 {
            lemma_pow2_strictly_increases(m, (regions - 2) as nat);
        }
        lemma_pow2_adds(crossings, (regions - 2) as nat);
        if crossings + regions - 2 < crossings + regions {
            lemma_pow2_strictly_increases((crossings + regions - 2) as nat, crossings + regions);
        }
        let full = pow2(crossings) as int;
        assert(count * each <= full * each) by (nonlinear_arith)
            requires
                count <= full,
                each >= 0,
        ;
        assert(n * each + each == count * each) by (nonlinear_arith)
            requires
                n + 1 == count,
        ;
        lemma_add_all_weight(bracket_sum(d, n), state_polynomial(loops, shift));
    } else {
        assert(count * each == 0) by (nonlinear_arith)
            requires
                count == 0,
        ;
    }
}

/// What a resolution with `loops` loops and the exponent shift `shift`
/// contributes to the bracket polynomial.
pub fn state_polynomial_of(loops: usize, shift: i16) -> (p: Polynomial)
    requires
        loops <= isize::MAX,
        state_fits(loops as int, shift as int),
    ensures
        p.wf(),
        p@ == state_polynomial(loops as int, shift as int),
{
    let relation = Binomial(Term::new(-1, 2), Term::new(-1, -2));
    relation.expand(loops as isize - 1).times(Term::new(1, shift as isize))
}

impl Knot {
    /// Whether the knot is small enough for its bracket polynomial to be
    /// summed up within `isize`.
    pub fn within_bracket_bound(&self) -> (small: bool)
        requires
            self.wf(),
        ensures
            small == bracket_bound(self@),
    {
        let crossings = self.num_crossings();
        let regions = self.num_regions();
        let ghost product = pow2(self@.crossings.len() + self@.regions) as int;
        proof {
            lemma2_to64_rest();
            lemma_pow2_pos(self@.crossings.len() + self@.regions);
            assert(self@.regions >= 3);
            assert(product <= self@.regions * product) by (nonlinear_arith)
                requires
                    self@.regions >= 1,
                    product > 0,
            ;
            if self@.crossings.len() + self@.regions > 63 {
                lemma_pow2_strictly_increases(63, self@.crossings.len() + self@.regions);
            }
        }
        if crossings >= 64 || regions >= 64 {
            return false;
        }
        let total = crossings + regions;
        let all = power_of_two(total);
        if all > isize::MAX as u128 {
            return false;
        }
        proof {
            assert(regions * all <= 64 * 0x8000_0000_0000_0000) by (nonlinear_arith)
                requires
                    regions < 64,
                    all <= 0x7fff_ffff_ffff_ffff,
            ;
        }
        (regions as u128) * all <= isize::MAX as u128
    }

    /// Computes the bracket polynomial of the knot where the knot is small
    /// enough for the sum to stay within `isize`, and says so where it is not.
    pub fn checked_bracket_polynomial(&self) -> (p: Option<Polynomial>)
        requires
            self.wf(),
        ensures
            p is Some <==> bracket_bound(self@),
            p matches Some(q) ==> q.wf() && q@ == bracket(self@),
    {
        if self.within_bracket_bound() {
            proof {
                lemma_bracket_sum(self@, pow2(self@.crossings.len()));
            }
            Some(self.bracket_polynomial())
        } else {
            None
        }
    }

    /// Computes the bracket polynomial of the knot: the sum, over every
    /// resolution, of `(-A^2 - A^-2)^(loops - 1) * A^shift`.
    pub fn bracket_polynomial(&self) -> (p: Polynomial)
        requires
            self.wf(),
            self@.crossings.len() < 128,
            self@.regions <= isize::MAX,
            bracket_fits(self@, pow2(self@.crossings.len())),
        ensures
            p.wf(),
            p@ == bracket(self@),
    {
        let states = self.resolutions();
        let mut p = Polynomial::zero();
        let mut n: usize = 0;
        while n < states.len()
            invariant
                n <= states@.len(),
                states@.len() == pow2(self@.crossings.len()),
                self@.regions <= isize::MAX,
                bracket_fits(self@, states@.len()),
                forall|m: int|
                    0 <= m < states@.len() ==> {
                        &&& (#[trigger] states@[m]).0 == loop_count(self@, m as nat)
                        &&& states@[m].1 == exponent_shift(self@, m as nat)
                    },
                p.wf(),
                p@ == bracket_sum(self@, n as nat),
            decreases states@.len() - n,
        {
            let (loops, shift) = states[n];
            proof {
                lemma_bracket_fits_prefix(self@, states@.len(), (n + 1) as nat);
                lemma_tally_bounds(self@, n as nat, self@.crossings.len());
            }
            p.add_polynomial(state_polynomial_of(loops, shift));
            n += 1;
        }
        p
    }
}

/// Where the first resolutions can be added up, fewer of them can.
pub proof fn lemma_bracket_fits_prefix(d: Diagram, count: nat, fewer: nat)
    requires
        bracket_fits(d, count),
        fewer <= count,
    ensures
        bracket_fits(d, fewer),
    decreases count - fewer,
{
    if fewer < count {
        lemma_bracket_fits_prefix(d, (count - 1) as nat, fewer);
    }
}

} // verus!
