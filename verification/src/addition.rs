//! Why polynomials can be added in any order: a polynomial in normal form is
//! known by its coefficients, and the coefficients of a sum are the sums of
//! the coefficients.

use crate::polynomial::{
    add_all, all_wf, coefficient_at, has_exponent, index_of, lemma_add_all_normal,
    lemma_add_term_coefficients, lemma_index_of, normal,
};
use crate::rational::{
    lemma_integer_wf, lemma_less_transitive, lemma_plus_associates, lemma_plus_commutes,
    lemma_plus_zero, Rat,
};
use crate::term::Monomial;
use vstd::prelude::*;

verus! {

/// Whether two polynomials have the same coefficient at every exponent.
pub open spec fn same_coefficients(p: Seq<Monomial>, q: Seq<Monomial>) -> bool {
    forall|e: Rat| #[trigger] coefficient_at(p, e) == coefficient_at(q, e)
}

/// A polynomial in normal form has the coefficient of each of its terms at
/// the exponent of the term, which is not 0, and a fraction in lowest terms
/// at every exponent.
pub proof fn lemma_coefficient_of_term(p: Seq<Monomial>, i: int)
    requires
        normal(p),
        0 <= i < p.len(),
    ensures
        has_exponent(p, p[i].exponent),
        coefficient_at(p, p[i].exponent) == p[i].coefficient,
        !p[i].coefficient.is_zero(),
{
    lemma_index_of(p, p[i].exponent, i);
}

/// The coefficients of a polynomial in normal form are fractions in lowest
/// terms.
pub proof fn lemma_coefficient_wf(p: Seq<Monomial>, e: Rat)
    requires
        normal(p),
    ensures
        coefficient_at(p, e).wf(),
{
    lemma_integer_wf(0);
    if has_exponent(p, e) {
        assert(p[index_of(p, e)].wf());
    }
}

/// A polynomial in normal form without its last term is in normal form, and
/// has lost the coefficient at the exponent of that term only.
proof fn lemma_without_last(p: Seq<Monomial>, e: Rat)
    requires
        normal(p),
        p.len() > 0,
    ensures
        normal(p.drop_last()),
        coefficient_at(p.drop_last(), e) == if e == p.last().exponent {
            Rat::integer(0)
        } else {
            coefficient_at(p, e)
        },
{
    let before = p.drop_last();
    let last = p.len() - 1;
    assert forall|i: int, j: int| 0 <= i < j < before.len() implies (#[trigger] before[i]).exponent.less(
        (#[trigger] before[j]).exponent,
    ) by {
        assert(before[i] == p[i] && before[j] == p[j]);
    }
    assert forall|i: int| 0 <= i < before.len() implies (#[trigger] before[i]).wf()
        && !before[i].is_zero() by {
        assert(before[i] == p[i]);
    }
    if has_exponent(before, e) {
        let k = index_of(before, e);
        assert(before[k] == p[k]);
        lemma_index_of(p, e, k);
        assert(p[k].exponent.less(p[last].exponent));
    }
    if has_exponent(p, e) && e != p.last().exponent {
        let k = index_of(p, e);
        assert(before[k] == p[k]);
        lemma_index_of(before, e, k);
    }
}

/// Two polynomials in normal form with the same coefficients are the same.
pub proof fn lemma_same_coefficients(p: Seq<Monomial>, q: Seq<Monomial>)
    requires
        normal(p),
        normal(q),
        same_coefficients(p, q),
    ensures
        p == q,
    decreases p.len(),
{
    if p.len() == 0 {
        if q.len() > 0 {
            lemma_coefficient_of_term(q, 0);
            assert(coefficient_at(p, q[0].exponent) == coefficient_at(q, q[0].exponent));
        }
        assert(p =~= q);
    } else {
        let t = p.last();
        let e = t.exponent;
        lemma_coefficient_of_term(p, p.len() - 1);
        assert(coefficient_at(p, e) == coefficient_at(q, e));
        let j = index_of(q, e);
        assert(has_exponent(q, e));
        if j < q.len() - 1 {
            // a later term of `q` would have to be a term of `p` after the last
            let u = q.last();
            assert(q[j].exponent.less(q[q.len() - 1].exponent));
            lemma_coefficient_of_term(q, q.len() - 1);
            assert(coefficient_at(p, u.exponent) == coefficient_at(q, u.exponent));
            let i = index_of(p, u.exponent);
            assert(has_exponent(p, u.exponent));
            if i < p.len() - 1 {
                assert(p[i].exponent.less(p[p.len() - 1].exponent));
                lemma_less_transitive(p[i].exponent, e, u.exponent);
            }
        }
        assert(q.last() == t);
        assert forall|x: Rat| #[trigger]
            coefficient_at(p.drop_last(), x) == coefficient_at(q.drop_last(), x) by {
            lemma_without_last(p, x);
            lemma_without_last(q, x);
            assert(coefficient_at(p, x) == coefficient_at(q, x));
        }
        lemma_without_last(p, e);
        lemma_without_last(q, e);
        lemma_same_coefficients(p.drop_last(), q.drop_last());
        assert(p =~= p.drop_last().push(t));
        assert(q =~= q.drop_last().push(t));
    }
}

/// The coefficients of a sum of two polynomials are the sums of their
/// coefficients.
pub proof fn lemma_coefficients_of_sum(p: Seq<Monomial>, q: Seq<Monomial>, e: Rat)
    requires
        normal(p),
        normal(q),
    ensures
        normal(add_all(p, q)),
        coefficient_at(add_all(p, q), e) == coefficient_at(p, e).plus(coefficient_at(q, e)),
    decreases q.len(),
{
    lemma_coefficient_wf(p, e);
    lemma_integer_wf(0);
    assert(all_wf(q));
    lemma_add_all_normal(p, q);
    if q.len() == 0 {
        lemma_plus_zero(coefficient_at(p, e), Rat::integer(0));
    } else {
        let before = q.drop_last();
        let t = q.last();
        lemma_without_last(q, e);
        lemma_coefficients_of_sum(p, before, e);
        lemma_add_term_coefficients(add_all(p, before), t, e);
        lemma_coefficient_of_term(q, q.len() - 1);
        if e == t.exponent {
            lemma_plus_zero(coefficient_at(p, e), Rat::integer(0));
        }
    }
}

/// Adding 0 to a polynomial, or a polynomial to 0, gives the polynomial.
pub proof fn lemma_add_zero(p: Seq<Monomial>)
    requires
        normal(p),
    ensures
        add_all(p, Seq::empty()) == p,
        add_all(Seq::empty(), p) == p,
{
    let zero = Seq::<Monomial>::empty();
    assert(normal(zero));
    assert forall|e: Rat| #[trigger] coefficient_at(add_all(zero, p), e) == coefficient_at(p, e) by {
        lemma_coefficients_of_sum(zero, p, e);
        lemma_coefficient_wf(p, e);
        lemma_integer_wf(0);
        lemma_plus_zero(coefficient_at(p, e), Rat::integer(0));
    }
    lemma_coefficients_of_sum(zero, p, Rat::integer(0));
    lemma_same_coefficients(add_all(zero, p), p);
}

/// Polynomial addition is commutative.
pub proof fn lemma_add_commutes(p: Seq<Monomial>, q: Seq<Monomial>)
    requires
        normal(p),
        normal(q),
    ensures
        add_all(p, q) == add_all(q, p),
{
    assert forall|e: Rat| #[trigger]
        coefficient_at(add_all(p, q), e) == coefficient_at(add_all(q, p), e) by {
        lemma_coefficients_of_sum(p, q, e);
        lemma_coefficients_of_sum(q, p, e);
        lemma_plus_commutes(coefficient_at(p, e), coefficient_at(q, e));
    }
    lemma_coefficients_of_sum(p, q, Rat::integer(0));
    lemma_coefficients_of_sum(q, p, Rat::integer(0));
    lemma_same_coefficients(add_all(p, q), add_all(q, p));
}

/// Polynomial addition is associative.
pub proof fn lemma_add_associates(p: Seq<Monomial>, q: Seq<Monomial>, r: Seq<Monomial>)
    requires
        normal(p),
        normal(q),
        normal(r),
    ensures
        add_all(add_all(p, q), r) == add_all(p, add_all(q, r)),
{
    let zero = Rat::integer(0);
    lemma_coefficients_of_sum(p, q, zero);
    lemma_coefficients_of_sum(q, r, zero);
    lemma_coefficients_of_sum(add_all(p, q), r, zero);
    lemma_coefficients_of_sum(p, add_all(q, r), zero);
    assert forall|e: Rat| #[trigger]
        coefficient_at(add_all(add_all(p, q), r), e) == coefficient_at(
            add_all(p, add_all(q, r)),
            e,
        ) by {
        lemma_coefficients_of_sum(p, q, e);
        lemma_coefficients_of_sum(q, r, e);
        lemma_coefficients_of_sum(add_all(p, q), r, e);
        lemma_coefficients_of_sum(p, add_all(q, r), e);
        lemma_coefficient_wf(p, e);
        lemma_coefficient_wf(q, e);
        lemma_coefficient_wf(r, e);
        lemma_plus_associates(coefficient_at(p, e), coefficient_at(q, e), coefficient_at(r, e));
    }
    lemma_same_coefficients(add_all(add_all(p, q), r), add_all(p, add_all(q, r)));
}

} // verus!
