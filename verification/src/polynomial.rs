//! Sparse polynomials in one variable, with rational coefficients and
//! exponents, kept sorted by exponent and free of zero terms.

use crate::rational::{
    lemma_integer_wf, lemma_less_or_same, lemma_less_transitive, lemma_plus_cancels,
    lemma_plus_zero, lemma_results_wf, Rat,
};
use crate::term::Monomial;

pub use crate::binomial::{binomial_coefficient, BinomialIter};
pub use crate::expansion::Binomial;
pub use crate::rational::Rational;
pub use crate::term::Term;
use vstd::prelude::*;
use vstd::std_specs::iter::IteratorSpec;
use vstd::string::StringExecFns;

verus! {

/// Whether some term of `p` has the exponent `e`.
pub open spec fn has_exponent(p: Seq<Monomial>, e: Rat) -> bool {
    exists|i: int| 0 <= i < p.len() && (#[trigger] p[i]).exponent == e
}

/// The place of the term of `p` with the exponent `e`.
pub open spec fn index_of(p: Seq<Monomial>, e: Rat) -> int {
    choose|i: int| 0 <= i < p.len() && (#[trigger] p[i]).exponent == e
}

/// Whether `i` is where a term with the exponent `e` belongs in `p`: after
/// the terms with smaller exponents, before the others.
pub open spec fn is_place(p: Seq<Monomial>, e: Rat, i: int) -> bool {
    &&& 0 <= i <= p.len()
    &&& forall|j: int| 0 <= j < i ==> (#[trigger] p[j]).exponent.less(e)
    &&& forall|j: int| i <= j < p.len() ==> !(#[trigger] p[j]).exponent.less(e)
}

/// Where a term with the exponent `e` belongs in `p`.
pub open spec fn place(p: Seq<Monomial>, e: Rat) -> int {
    choose|i: int| is_place(p, e, i)
}

/// Whether the exponents of `p` go strictly up.
pub open spec fn ascending(p: Seq<Monomial>) -> bool {
    forall|i: int, j: int|
        0 <= i < j < p.len() ==> (#[trigger] p[i]).exponent.less((#[trigger] p[j]).exponent)
}

/// Whether `p` is a polynomial in normal form: its terms are sorted by
/// exponent, none occurs twice, and no coefficient is 0.
pub open spec fn normal(p: Seq<Monomial>) -> bool {
    &&& ascending(p)
    &&& forall|i: int| 0 <= i < p.len() ==> (#[trigger] p[i]).wf() && !p[i].is_zero()
}

/// The coefficient that `p` has at the exponent `e`: 0 where it has no term.
pub open spec fn coefficient_at(p: Seq<Monomial>, e: Rat) -> Rat {
    if has_exponent(p, e) {
        p[index_of(p, e)].coefficient
    } else {
        Rat::integer(0)
    }
}

/// The polynomial `p` with the term `t` added: nothing changes for a zero
/// term; a term of the same exponent takes the sum of the coefficients, and
/// leaves where that is 0; else `t` goes to its place.
pub open spec fn add_term(p: Seq<Monomial>, t: Monomial) -> Seq<Monomial> {
    if t.is_zero() {
        p
    } else if has_exponent(p, t.exponent) {
        let i = index_of(p, t.exponent);
        let sum = p[i].coefficient.plus(t.coefficient);
        if sum.is_zero() {
            p.remove(i)
        } else {
            p.update(i, Monomial { coefficient: sum, exponent: p[i].exponent })
        }
    } else {
        p.insert(place(p, t.exponent), t)
    }
}

/// Whether `t` can be added to `p` within `isize`: where a term of the same
/// exponent is there, the two coefficients can be added.
pub open spec fn term_fits(p: Seq<Monomial>, t: Monomial) -> bool {
    !t.is_zero() && has_exponent(p, t.exponent) ==> p[index_of(p, t.exponent)].coefficient.sum_fits(
        t.coefficient,
    )
}

/// The polynomial `p` with the terms of `q` added one after the other.
pub open spec fn add_all(p: Seq<Monomial>, q: Seq<Monomial>) -> Seq<Monomial>
    decreases q.len(),
{
    if q.len() == 0 {
        p
    } else {
        add_term(add_all(p, q.drop_last()), q.last())
    }
}

/// Whether the terms of `q` can be added to `p` one after the other within
/// `isize`.
pub open spec fn all_fit(p: Seq<Monomial>, q: Seq<Monomial>) -> bool
    decreases q.len(),
{
    q.len() == 0 || (all_fit(p, q.drop_last()) && term_fits(add_all(p, q.drop_last()), q.last()))
}

/// Whether all of `q` are terms in lowest terms.
pub open spec fn all_wf(q: Seq<Monomial>) -> bool {
    forall|i: int| 0 <= i < q.len() ==> (#[trigger] q[i]).wf()
}

/// In a polynomial in normal form one term at most has a given exponent.
pub proof fn lemma_index_of(p: Seq<Monomial>, e: Rat, i: int)
    requires
        normal(p),
        0 <= i < p.len(),
        p[i].exponent == e,
    ensures
        has_exponent(p, e),
        index_of(p, e) == i,
{
    let k = index_of(p, e);
    if k < i {
        assert(p[k].exponent.less(p[i].exponent));
    }
    if i < k {
        assert(p[i].exponent.less(p[k].exponent));
    }
}

/// A term belongs at one place only.
pub proof fn lemma_place(p: Seq<Monomial>, e: Rat, i: int)
    requires
        is_place(p, e, i),
    ensures
        place(p, e) == i,
{
    let k = place(p, e);
    if k < i {
        assert(p[k].exponent.less(e));
    }
    if i < k {
        assert(p[i].exponent.less(e));
    }
}

/// Adding a term to a polynomial in normal form gives one in normal form.
pub proof fn lemma_add_term_normal(p: Seq<Monomial>, t: Monomial)
    requires
        normal(p),
        t.wf(),
    ensures
        normal(add_term(p, t)),
{
    let e = t.exponent;
    let r = add_term(p, t);
    if t.is_zero() {
    } else if has_exponent(p, e) {
        let i = index_of(p, e);
        lemma_results_wf(p[i].coefficient, t.coefficient);
        assert forall|a: int, b: int| 0 <= a < b < r.len() implies (#[trigger] r[a]).exponent.less(
            (#[trigger] r[b]).exponent,
        ) by {
            if p[i].coefficient.plus(t.coefficient).is_zero() {
                let a0 = if a < i { a } else { a + 1 };
                let b0 = if b < i { b } else { b + 1 };
                assert(r[a] == p[a0] && r[b] == p[b0]);
            } else {
                assert(r[a].exponent == p[a].exponent && r[b].exponent == p[b].exponent);
            }
        }
        assert forall|a: int| 0 <= a < r.len() implies (#[trigger] r[a]).wf() && !r[a].is_zero() by {
            if p[i].coefficient.plus(t.coefficient).is_zero() {
                let a0 = if a < i { a } else { a + 1 };
                assert(r[a] == p[a0]);
            } else if a != i {
                assert(r[a] == p[a]);
            }
        }
    } else {
        lemma_place_exists(p, e);
        let i = place(p, e);
        assert forall|a: int| 0 <= a < r.len() implies (#[trigger] r[a]).wf() && !r[a].is_zero() by {
            if a < i {
                assert(r[a] == p[a]);
            } else if a > i {
                assert(r[a] == p[a - 1]);
            }
        }
        assert forall|a: int, b: int| 0 <= a < b < r.len() implies (#[trigger] r[a]).exponent.less(
            (#[trigger] r[b]).exponent,
        ) by {
            let a0 = if a < i { a } else { a - 1 };
            let b0 = if b < i { b } else { b - 1 };
            if a != i {
                assert(r[a] == p[a0]);
            }
            if b != i {
                assert(r[b] == p[b0]);
            }
            if b == i {
                assert(p[a0].exponent.less(e));
            }
            if a == i {
                assert(!p[b0].exponent.less(e));
                lemma_less_or_same(p[b0].exponent, e);
                assert(p[b0].exponent != e);
            }
        }
    }
}

/// In a polynomial in normal form every exponent has its place.
pub proof fn lemma_place_exists(p: Seq<Monomial>, e: Rat)
    requires
        normal(p),
        e.wf(),
    ensures
        is_place(p, e, place(p, e)),
    decreases p.len(),
{
    if p.len() == 0 {
        assert(is_place(p, e, 0));
    } else if p.last().exponent.less(e) {
        assert forall|j: int| 0 <= j < p.len() implies (#[trigger] p[j]).exponent.less(e) by {
            if j < p.len() - 1 {
                assert(p[j].exponent.less(p[p.len() - 1].exponent));
                lemma_less_transitive(p[j].exponent, p.last().exponent, e);
            }
        }
        assert(is_place(p, e, p.len() as int));
    } else {
        let q = p.drop_last();
        assert forall|a: int, b: int| 0 <= a < b < q.len() implies (#[trigger] q[a]).exponent.less(
            (#[trigger] q[b]).exponent,
        ) by {
            assert(q[a] == p[a] && q[b] == p[b]);
        }
        assert forall|a: int| 0 <= a < q.len() implies (#[trigger] q[a]).wf() && !q[a].is_zero() by {
            assert(q[a] == p[a]);
        }
        lemma_place_exists(q, e);
        let i = place(q, e);
        assert forall|j: int| 0 <= j < i implies (#[trigger] p[j]).exponent.less(e) by {
            assert(q[j] == p[j]);
        }
        assert forall|j: int| i <= j < p.len() implies !(#[trigger] p[j]).exponent.less(e) by {
            if j < q.len() {
                assert(q[j] == p[j]);
            }
        }
        assert(is_place(p, e, i));
    }
}

/// Adding a term to a polynomial adds its coefficient to the coefficient at
/// its exponent, and leaves the coefficients at all other exponents.
pub proof fn lemma_add_term_coefficients(p: Seq<Monomial>, t: Monomial, e: Rat)
    requires
        normal(p),
        t.wf(),
    ensures
        coefficient_at(add_term(p, t), e) == if e == t.exponent {
            coefficient_at(p, e).plus(t.coefficient)
        } else {
            coefficient_at(p, e)
        },
{
    let r = add_term(p, t);
    let at_p = coefficient_at(p, e);
    lemma_add_term_normal(p, t);
    lemma_integer_wf(0);
    if has_exponent(p, e) {
        let k = index_of(p, e);
        assert(p[k].wf());
    }
    if t.is_zero() {
        lemma_plus_zero(at_p, t.coefficient);
    } else if has_exponent(p, t.exponent) {
        let i = index_of(p, t.exponent);
        let sum = p[i].coefficient.plus(t.coefficient);
        lemma_results_wf(p[i].coefficient, t.coefficient);
        if sum.is_zero() {
            lemma_plus_zero(sum, sum);
            if has_exponent(r, e) {
                let k = index_of(r, e);
                let k0 = if k < i {
                    k
                } else {
                    k + 1
                };
                assert(r[k] == p[k0]);
                lemma_index_of(p, e, k0);
            }
            if has_exponent(p, e) && e != t.exponent {
                let k0 = index_of(p, e);
                let k = if k0 < i {
                    k0
                } else {
                    k0 - 1
                };
                assert(r[k] == p[k0]);
                lemma_index_of(r, e, k);
            }
        } else {
            if e == t.exponent {
                lemma_index_of(r, e, i);
            } else {
                if has_exponent(r, e) {
                    let k = index_of(r, e);
                    assert(r[k] == p[k]);
                    lemma_index_of(p, e, k);
                }
                if has_exponent(p, e) {
                    let k = index_of(p, e);
                    assert(r[k] == p[k]);
                    lemma_index_of(r, e, k);
                }
            }
        }
    } else {
        lemma_place_exists(p, t.exponent);
        let at = place(p, t.exponent);
        assert(r[at] == t);
        if e == t.exponent {
            lemma_index_of(r, e, at);
            lemma_plus_zero(t.coefficient, Rat::integer(0));
        } else {
            if has_exponent(r, e) {
                let k = index_of(r, e);
                let k0 = if k < at {
                    k
                } else {
                    k - 1
                };
                assert(r[k] == p[k0]);
                lemma_index_of(p, e, k0);
            }
            if has_exponent(p, e) {
                let k0 = index_of(p, e);
                let k = if k0 < at {
                    k0
                } else {
                    k0 + 1
                };
                assert(r[k] == p[k0]);
                lemma_index_of(r, e, k);
            }
        }
    }
}

/// Whether no two terms of `q` have the same exponent.
pub open spec fn distinct_exponents(q: Seq<Monomial>) -> bool {
    forall|i: int, j: int|
        0 <= i < j < q.len() ==> (#[trigger] q[i]).exponent != (#[trigger] q[j]).exponent
}

/// Whether no term of `q` is 0.
pub open spec fn none_zero(q: Seq<Monomial>) -> bool {
    forall|i: int| 0 <= i < q.len() ==> !(#[trigger] q[i]).is_zero()
}

/// The sum of terms with different exponents holds each of them that is not
/// 0, and nothing else: no two terms fall into one.
pub proof fn lemma_add_all_distinct(q: Seq<Monomial>)
    requires
        all_wf(q),
        distinct_exponents(q),
    ensures
        normal(add_all(Seq::empty(), q)),
        add_all(Seq::empty(), q).len() <= q.len(),
        none_zero(q) ==> add_all(Seq::empty(), q).len() == q.len(),
        all_fit(Seq::empty(), q),
        forall|i: int|
            0 <= i < q.len() && !(#[trigger] q[i]).is_zero() ==> add_all(Seq::empty(), q).contains(q[i]),
        forall|m: Monomial| #[trigger]
            add_all(Seq::empty(), q).contains(m) ==> q.contains(m) && !m.is_zero(),
    decreases q.len(),
{
    let r = add_all(Seq::<Monomial>::empty(), q);
    if q.len() > 0 {
        let before = q.drop_last();
        let t = q.last();
        let e = t.exponent;
        assert forall|i: int| 0 <= i < before.len() implies (#[trigger] before[i]).wf() by {
            assert(before[i] == q[i]);
        }
        assert forall|i: int, j: int| 0 <= i < j < before.len() implies (#[trigger] before[i]).exponent
            != (#[trigger] before[j]).exponent by {
            assert(before[i] == q[i] && before[j] == q[j]);
        }
        lemma_add_all_distinct(before);
        let p = add_all(Seq::<Monomial>::empty(), before);
        lemma_add_term_normal(p, t);
        if none_zero(q) {
            assert forall|i: int| 0 <= i < before.len() implies !(#[trigger] before[i]).is_zero() by {
                assert(before[i] == q[i]);
            }
        }
        if has_exponent(p, e) {
            let k = index_of(p, e);
            assert(p.contains(p[k]));
            let i = choose|i: int| 0 <= i < before.len() && before[i] == p[k];
            assert(q[i].exponent != q[q.len() - 1].exponent);
        }
        if t.is_zero() {
            assert forall|i: int| 0 <= i < q.len() && !(#[trigger] q[i]).is_zero() implies r.contains(
                q[i],
            ) by {
                assert(before[i] == q[i]);
            }
            assert forall|m: Monomial| #[trigger] r.contains(m) implies q.contains(m) && !m.is_zero() by {
                let i = choose|i: int| 0 <= i < before.len() && before[i] == m;
                assert(q[i] == m);
            }
        } else {
            lemma_place_exists(p, e);
            let at = place(p, e);
            assert(r == p.insert(at, t));
            assert(r[at] == t);
            assert forall|i: int| 0 <= i < q.len() && !(#[trigger] q[i]).is_zero() implies r.contains(
                q[i],
            ) by {
                if i < q.len() - 1 {
                    assert(before[i] == q[i]);
                    let k = choose|k: int| 0 <= k < p.len() && p[k] == q[i];
                    if k < at {
                        assert(r[k] == p[k]);
                    } else {
                        assert(r[k + 1] == p[k]);
                    }
                }
            }
            assert forall|m: Monomial| #[trigger] r.contains(m) implies q.contains(m) && !m.is_zero() by {
                let k = choose|k: int| 0 <= k < r.len() && r[k] == m;
                if k == at {
                    assert(q[q.len() - 1] == m);
                } else {
                    let k0 = if k < at {
                        k
                    } else {
                        k - 1
                    };
                    assert(p[k0] == m);
                    assert(p.contains(m));
                    let i = choose|i: int| 0 <= i < before.len() && before[i] == m;
                    assert(q[i] == m);
                }
            }
        }
    }
}

/// The products of the terms of a polynomial in normal form with one term
/// have different exponents, so that they can always be added up.
pub proof fn lemma_products_distinct(p: Seq<Monomial>, t: Monomial)
    requires
        normal(p),
        t.wf(),
    ensures
        all_wf(products(p, t)),
        distinct_exponents(products(p, t)),
        all_fit(Seq::empty(), products(p, t)),
        normal(times_term(p, t)),
{
    let q = products(p, t);
    assert forall|i: int| 0 <= i < q.len() implies (#[trigger] q[i]).wf() by {
        assert(p[i].wf());
        lemma_results_wf(p[i].coefficient, t.coefficient);
        lemma_results_wf(p[i].exponent, t.exponent);
    }
    assert forall|i: int, j: int| 0 <= i < j < q.len() implies (#[trigger] q[i]).exponent != (
    #[trigger] q[j]).exponent by {
        assert(p[i].exponent.less(p[j].exponent));
        assert(p[i].wf() && p[j].wf());
        if q[i].exponent == q[j].exponent {
            lemma_plus_cancels(p[i].exponent, p[j].exponent, t.exponent);
        }
    }
    lemma_add_all_distinct(q);
}

/// Adding terms one after the other to a polynomial in normal form gives one
/// in normal form.
pub proof fn lemma_add_all_normal(p: Seq<Monomial>, q: Seq<Monomial>)
    requires
        normal(p),
        all_wf(q),
    ensures
        normal(add_all(p, q)),
    decreases q.len(),
{
    if q.len() > 0 {
        assert forall|i: int| 0 <= i < q.drop_last().len() implies (#[trigger] q.drop_last()[i]).wf() by {
            assert(q.drop_last()[i] == q[i]);
        }
        lemma_add_all_normal(p, q.drop_last());
        lemma_add_term_normal(add_all(p, q.drop_last()), q.last());
    }
}

/// What the terms of a list stand for.
pub open spec fn monomials(terms: Seq<Term>) -> Seq<Monomial> {
    terms.map_values(|t: Term| t@)
}

/// The terms of `p`, each multiplied by `t`.
pub open spec fn products(p: Seq<Monomial>, t: Monomial) -> Seq<Monomial> {
    p.map_values(|m: Monomial| m.times(t))
}

/// The polynomial `p` multiplied by the term `t`: the sum of the products.
pub open spec fn times_term(p: Seq<Monomial>, t: Monomial) -> Seq<Monomial> {
    add_all(Seq::empty(), products(p, t))
}

/// Whether `p` can be multiplied by `t` within `isize`: each product can be
/// formed. No two products have the same exponent, so that no coefficients
/// are added.
pub open spec fn times_term_fits(p: Seq<Monomial>, t: Monomial) -> bool {
    forall|i: int| 0 <= i < p.len() ==> (#[trigger] p[i]).product_fits(t)
}

/// The text of a polynomial: its terms from the highest exponent to the
/// lowest, with ` + ` between them.
pub open spec fn text(p: Seq<Monomial>) -> Seq<char>
    decreases p.len(),
{
    if p.len() == 0 {
        Seq::empty()
    } else if p.len() == 1 {
        p[0].text()
    } else {
        p.last().text() + " + "@ + text(p.drop_last())
    }
}

/// What is still to be written once the terms from place `i` up are.
spec fn text_left(p: Seq<Monomial>, i: int) -> Seq<char> {
    if i > 0 {
        " + "@ + text(p.take(i))
    } else {
        Seq::empty()
    }
}

/// What the polynomials of a list stand for.
pub open spec fn polynomial_views(polynomials: Seq<Polynomial>) -> Seq<Seq<Monomial>> {
    polynomials.map_values(|p: Polynomial| p@)
}

/// The sum of a list of polynomials, added one after the other to 0.
pub open spec fn sum_all(ps: Seq<Seq<Monomial>>) -> Seq<Monomial>
    decreases ps.len(),
{
    if ps.len() == 0 {
        Seq::empty()
    } else {
        add_all(sum_all(ps.drop_last()), ps.last())
    }
}

/// Whether a list of polynomials can be added up within `isize`.
pub open spec fn sum_fits(ps: Seq<Seq<Monomial>>) -> bool
    decreases ps.len(),
{
    ps.len() == 0 || (sum_fits(ps.drop_last()) && all_fit(sum_all(ps.drop_last()), ps.last()))
}

/// Where polynomials can be added up, the first of them can.
pub proof fn lemma_sum_fits_prefix(ps: Seq<Seq<Monomial>>, n: int)
    requires
        sum_fits(ps),
        0 <= n <= ps.len(),
    ensures
        sum_fits(ps.take(n)),
    decreases ps.len() - n,
{
    if n < ps.len() {
        lemma_sum_fits_prefix(ps.drop_last(), n);
        assert(ps.drop_last().take(n) =~= ps.take(n));
    } else {
        assert(ps.take(n) =~= ps);
    }
}

/// Where terms can be added one after the other, the first of them can.
pub proof fn lemma_all_fit_prefix(p: Seq<Monomial>, q: Seq<Monomial>, n: int)
    requires
        all_fit(p, q),
        0 <= n <= q.len(),
    ensures
        all_fit(p, q.take(n)),
    decreases q.len() - n,
{
    if n < q.len() {
        lemma_all_fit_prefix(p, q.drop_last(), n);
        assert(q.drop_last().take(n) =~= q.take(n));
    } else {
        assert(q.take(n) =~= q);
    }
}

/// A polynomial with one variable, represented by `A` in this documentation.
#[derive(Debug, PartialEq, Eq)]
pub struct Polynomial(Vec<Term>);

impl View for Polynomial {
    type V = Seq<Monomial>;

    closed spec fn view(&self) -> Seq<Monomial> {
        self.0@.map_values(|t: Term| t@)
    }
}

impl Polynomial {
    /// Whether the polynomial is in normal form.
    pub open spec fn wf(&self) -> bool {
        normal(self@)
    }

    /// Creates a polynomial that is equal to 0.
    pub fn zero() -> (p: Self)
        ensures
            p.wf(),
            p@ == Seq::<Monomial>::empty(),
    {
        let p = Polynomial(Vec::new());
        assert(p@ =~= Seq::<Monomial>::empty());
        p
    }

    /// Adds a term to the polynomial, which stays in normal form: the place
    /// of the exponent is found by binary search; a term that is there takes
    /// the sum of the coefficients, or leaves if that is 0; else the new term
    /// is put in at its place.
    pub fn add_term(&mut self, rhs: Term)
        requires
            old(self).wf(),
            rhs.wf(),
            term_fits(old(self)@, rhs@),
        ensures
            final(self).wf(),
            final(self)@ == add_term(old(self)@, rhs@),
    {
        let ghost p = self@;
        let ghost e = rhs@.exponent;
        proof {
            lemma_add_term_normal(p, rhs@);
        }
        if rhs.is_zero() {
            return ;
        }
        let mut low: usize = 0;
        let mut high: usize = self.0.len();
        while low < high
            invariant
                low <= high <= self.0.len(),
                self@ == p,
                p == old(self)@,
                p.len() == self.0.len(),
                normal(p),
                rhs.wf(),
                e == rhs@.exponent,
                !rhs@.is_zero(),
                term_fits(p, rhs@),
                normal(add_term(p, rhs@)),
                forall|j: int| 0 <= j < low ==> (#[trigger] p[j]).exponent.less(e),
                forall|j: int| high <= j < p.len() ==> e.less((#[trigger] p[j]).exponent),
            decreases high - low,
        {
            let middle = low + (high - low) / 2;
            let probe = self.0[middle];
            assert(probe@ == p[middle as int]);
            if probe.exponent.less(rhs.exponent) {
                proof {
                    assert forall|j: int| 0 <= j < middle + 1 implies (#[trigger] p[j]).exponent.less(
                        e,
                    ) by {
                        if j < middle {
                            assert(p[j].exponent.less(p[middle as int].exponent));
                            lemma_less_transitive(p[j].exponent, p[middle as int].exponent, e);
                        }
                    }
                }
                low = middle + 1;
            } else if rhs.exponent.less(probe.exponent) {
                proof {
                    assert forall|j: int| middle <= j < p.len() implies e.less(
                        (#[trigger] p[j]).exponent,
                    ) by {
                        if j > middle {
                            assert(p[middle as int].exponent.less(p[j].exponent));
                            lemma_less_transitive(e, p[middle as int].exponent, p[j].exponent);
                        }
                    }
                }
                high = middle;
            } else {
                proof {
                    lemma_less_or_same(probe@.exponent, e);
                    lemma_index_of(p, e, middle as int);
                }
                let old = self.0.remove(middle);
                let sum = old.coefficient.plus(rhs.coefficient);
                if !sum.is_zero() {
                    // The term is put together by hand: adding two terms gives a polynomial.
                    self.0.insert(middle, Term { coefficient: sum, exponent: old.exponent });
                    assert(self@ =~= add_term(p, rhs@));
                } else {
                    assert(self@ =~= add_term(p, rhs@));
                }
                return ;
            }
        }
        proof {
            assert forall|j: int| low <= j < p.len() implies !(#[trigger] p[j]).exponent.less(e) by {
                lemma_less_or_same(p[j].exponent, e);
            }
            assert(is_place(p, e, low as int));
            lemma_place(p, e, low as int);
            if has_exponent(p, e) {
                let i = index_of(p, e);
                lemma_less_or_same(p[i].exponent, e);
                assert(p[i].exponent.less(e) || e.less(p[i].exponent));
            }
        }
        self.0.insert(low, rhs);
        assert(self@ =~= add_term(p, rhs@));
    }

    /// Adds the terms of a list to the polynomial, one after the other.
    fn absorb(&mut self, terms: &Vec<Term>)
        requires
            old(self).wf(),
            all_wf(monomials(terms@)),
            all_fit(old(self)@, monomials(terms@)),
        ensures
            final(self).wf(),
            final(self)@ == add_all(old(self)@, monomials(terms@)),
    {
        let ghost start = self@;
        let ghost q = monomials(terms@);
        let mut i: usize = 0;
        assert(q.take(0) =~= Seq::<Monomial>::empty());
        while i < terms.len()
            invariant
                i <= terms.len(),
                q == monomials(terms@),
                all_wf(q),
                all_fit(start, q),
                self.wf(),
                self@ == add_all(start, q.take(i as int)),
            decreases terms.len() - i,
        {
            let term = terms[i];
            proof {
                lemma_all_fit_prefix(start, q, i + 1);
                assert(q.take(i + 1).drop_last() =~= q.take(i as int));
                assert(q.take(i + 1).last() == q[i as int]);
                assert(term@ == q[i as int]);
            }
            self.add_term(term);
            i += 1;
        }
        proof {
            assert(q.take(q.len() as int) =~= q);
        }
    }

    /// Creates a polynomial from a list of `Term`s: their sum in normal form.
    pub fn from_vec(terms: Vec<Term>) -> (p: Self)
        requires
            all_wf(monomials(terms@)),
            all_fit(Seq::empty(), monomials(terms@)),
        ensures
            p.wf(),
            p@ == add_all(Seq::empty(), monomials(terms@)),
    {
        let mut p = Polynomial::zero();
        p.absorb(&terms);
        p
    }

    /// Creates the polynomial that is one term.
    pub fn from_term(term: Term) -> (p: Self)
        requires
            term.wf(),
        ensures
            p.wf(),
            p@ == add_term(Seq::empty(), term@),
    {
        let mut p = Polynomial::zero();
        p.add_term(term);
        p
    }

    /// Returns an iterator over the terms of the polynomial, from the lowest
    /// exponent up.
    pub fn iter(&self) -> (iter: std::slice::Iter<'_, Term>)
        ensures
            monomials(iter.remaining().unref()) == self@,
    {
        let iter = self.0.iter();
        assert(monomials(iter.remaining().unref()) =~= self@);
        iter
    }

    /// Returns the terms of the polynomial, from the lowest exponent up.
    pub fn terms(&self) -> (terms: Vec<Term>)
        ensures
            monomials(terms@) == self@,
    {
        let terms = self.0.clone();
        assert(monomials(terms@) =~= self@);
        terms
    }

    /// The polynomial as text: the terms from the highest exponent to the
    /// lowest, joined by ` + `.
    pub fn to_string(&self) -> (written: String)
        requires
            self.wf(),
        ensures
            written@ == text(self@),
    {
        let ghost p = self@;
        let mut written = String::new();
        let mut i: usize = self.0.len();
        if i == 0 {
            return written;
        }
        i -= 1;
        let first = self.0[i];
        assert(first@ == p[i as int]);
        let part = first.to_string();
        written.append(part.as_str());
        proof {
            assert(p.take(i as int) =~= p.drop_last());
            assert(written@ =~= p.last().text());
            assert(text(p) =~= written@ + text_left(p, i as int));
        }
        while i > 0
            invariant
                i < self.0.len(),
                p == self@,
                self.wf(),
                text(p) == written@ + text_left(p, i as int),
            decreases i,
        {
            i -= 1;
            let term = self.0[i];
            assert(term@ == p[i as int]);
            let ghost before = written@;
            let part = term.to_string();
            written.append(" + ");
            written.append(part.as_str());
            proof {
                let q = p.take(i + 1);
                assert(q.last() == p[i as int]);
                assert(q.drop_last() =~= p.take(i as int));
                assert(q.len() == 1 ==> q[0] == p[i as int]);
                assert(written@ =~= before + " + "@ + p[i as int].text());
                assert(text(p) =~= written@ + text_left(p, i as int));
            }
        }
        assert(written@ =~= written@ + text_left(p, 0));
        written
    }

    /// Removes all of the `Term`s equal to zero from the polynomial. A
    /// polynomial in normal form holds none, so nothing is left to remove.
    pub fn remove_zero_terms(&mut self)
        requires
            old(self).wf(),
        ensures
            final(self).wf(),
            final(self)@ == old(self)@,
    {
    }

    /// The sum of the polynomial and a term.
    pub fn plus_term(self, rhs: Term) -> (p: Polynomial)
        requires
            self.wf(),
            rhs.wf(),
            term_fits(self@, rhs@),
        ensures
            p.wf(),
            p@ == add_term(self@, rhs@),
    {
        let mut p = self;
        p.add_term(rhs);
        p
    }

    /// The sum of two polynomials: the terms of the second are added to the
    /// first one after the other.
    pub fn plus(self, rhs: Polynomial) -> (p: Polynomial)
        requires
            self.wf(),
            rhs.wf(),
            all_fit(self@, rhs@),
        ensures
            p.wf(),
            p@ == add_all(self@, rhs@),
    {
        let mut p = self;
        p.add_polynomial(rhs);
        p
    }

    /// Adds a polynomial to this one, term by term.
    pub fn add_polynomial(&mut self, rhs: Polynomial)
        requires
            old(self).wf(),
            rhs.wf(),
            all_fit(old(self)@, rhs@),
        ensures
            final(self).wf(),
            final(self)@ == add_all(old(self)@, rhs@),
    {
        assert(monomials(rhs.0@) =~= rhs@);
        self.absorb(&rhs.0);
    }

    /// The sum of a list of polynomials: 0 where the list is empty.
    pub fn sum(polynomials: &Vec<Polynomial>) -> (p: Polynomial)
        requires
            forall|i: int| 0 <= i < polynomials@.len() ==> (#[trigger] polynomials@[i]).wf(),
            sum_fits(polynomial_views(polynomials@)),
        ensures
            p.wf(),
            p@ == sum_all(polynomial_views(polynomials@)),
    {
        let ghost ps = polynomial_views(polynomials@);
        let mut p = Polynomial::zero();
        let mut i: usize = 0;
        assert(ps.take(0) =~= Seq::<Seq<Monomial>>::empty());
        while i < polynomials.len()
            invariant
                i <= polynomials.len(),
                ps == polynomial_views(polynomials@),
                forall|k: int| 0 <= k < polynomials@.len() ==> (#[trigger] polynomials@[k]).wf(),
                sum_fits(ps),
                p.wf(),
                p@ == sum_all(ps.take(i as int)),
            decreases polynomials.len() - i,
        {
            proof {
                lemma_sum_fits_prefix(ps, i + 1);
                assert(ps.take(i + 1).drop_last() =~= ps.take(i as int));
                assert(ps.take(i + 1).last() == polynomials@[i as int]@);
                assert(polynomials@[i as int].wf());
                assert(monomials(polynomials@[i as int].0@) =~= polynomials@[i as int]@);
            }
            p.absorb(&polynomials[i].0);
            i += 1;
        }
        proof {
            assert(ps.take(ps.len() as int) =~= ps);
        }
        p
    }

    /// The product of the polynomial and a term: each term is multiplied,
    /// and the products are added up.
    pub fn times(self, rhs: Term) -> (p: Polynomial)
        requires
            self.wf(),
            rhs.wf(),
            times_term_fits(self@, rhs@),
        ensures
            p.wf(),
            p@ == times_term(self@, rhs@),
    {
        let ghost q = products(self@, rhs@);
        proof {
            lemma_products_distinct(self@, rhs@);
        }
        let mut scaled: Vec<Term> = Vec::new();
        let mut i: usize = 0;
        while i < self.0.len()
            invariant
                i <= self.0.len(),
                self.wf(),
                rhs.wf(),
                times_term_fits(self@, rhs@),
                q == products(self@, rhs@),
                scaled@.len() == i,
                forall|k: int| 0 <= k < i ==> (#[trigger] scaled@[k]).wf() && scaled@[k]@ == q[k],
            decreases self.0.len() - i,
        {
            let term = self.0[i];
            assert(term@ == self@[i as int]);
            scaled.push(term.times(rhs));
            i += 1;
        }
        assert(monomials(scaled@) =~= q);
        Polynomial::from_vec(scaled)
    }
}

// The operators `+` and `*` that give a polynomial. What they return is
// stated by the operator functions themselves, over the terms of the result;
// the spec functions of the operator traits are left without a meaning.

impl vstd::std_specs::ops::MulSpecImpl<Term> for Polynomial {
    open spec fn obeys_mul_spec() -> bool {
        false
    }

    open spec fn mul_req(self, rhs: Term) -> bool {
        self.wf() && rhs.wf() && times_term_fits(self@, rhs@)
    }

    open spec fn mul_spec(self, rhs: Term) -> Polynomial {
        arbitrary()
    }
}

impl std::ops::Mul<Term> for Polynomial {
    type Output = Polynomial;

    /// The product of the polynomial and a term.
    fn mul(self, rhs: Term) -> (p: Polynomial)
        ensures
            p.wf(),
            p@ == times_term(self@, rhs@),
    {
        self.times(rhs)
    }
}

impl vstd::std_specs::ops::AddSpecImpl<Term> for Polynomial {
    open spec fn obeys_add_spec() -> bool {
        false
    }

    open spec fn add_req(self, rhs: Term) -> bool {
        self.wf() && rhs.wf() && term_fits(self@, rhs@)
    }

    open spec fn add_spec(self, rhs: Term) -> Polynomial {
        arbitrary()
    }
}

impl std::ops::Add<Term> for Polynomial {
    type Output = Polynomial;

    /// The sum of the polynomial and a term.
    fn add(self, rhs: Term) -> (p: Polynomial)
        ensures
            p.wf(),
            p@ == add_term(self@, rhs@),
    {
        self.plus_term(rhs)
    }
}

impl vstd::std_specs::ops::AddSpecImpl<Polynomial> for Polynomial {
    open spec fn obeys_add_spec() -> bool {
        false
    }

    open spec fn add_req(self, rhs: Polynomial) -> bool {
        self.wf() && rhs.wf() && all_fit(self@, rhs@)
    }

    open spec fn add_spec(self, rhs: Polynomial) -> Polynomial {
        arbitrary()
    }
}

impl std::ops::Add<Polynomial> for Polynomial {
    type Output = Polynomial;

    /// The sum of two polynomials.
    fn add(self, rhs: Polynomial) -> (p: Polynomial)
        ensures
            p.wf(),
            p@ == add_all(self@, rhs@),
    {
        self.plus(rhs)
    }
}

impl vstd::std_specs::ops::AddSpecImpl<Term> for Term {
    open spec fn obeys_add_spec() -> bool {
        false
    }

    open spec fn add_req(self, rhs: Term) -> bool {
        self.wf() && rhs.wf() && term_fits(add_term(Seq::empty(), self@), rhs@)
    }

    open spec fn add_spec(self, rhs: Term) -> Polynomial {
        arbitrary()
    }
}

impl std::ops::Add<Term> for Term {
    type Output = Polynomial;

    /// The sum of two terms, as a polynomial.
    fn add(self, rhs: Term) -> (p: Polynomial)
        ensures
            p.wf(),
            p@ == add_term(add_term(Seq::empty(), self@), rhs@),
    {
        self.plus(rhs)
    }
}

impl Term {
    /// The sum of two terms, as a polynomial.
    pub fn plus(self, rhs: Term) -> (p: Polynomial)
        requires
            self.wf(),
            rhs.wf(),
            term_fits(add_term(Seq::empty(), self@), rhs@),
        ensures
            p.wf(),
            p@ == add_term(add_term(Seq::empty(), self@), rhs@),
    {
        let mut p = Polynomial::from_term(self);
        p.add_term(rhs);
        p
    }
}

} // verus!
