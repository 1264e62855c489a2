//! Polynomials with whole coefficients and exponents, and a bound on the
//! size of their coefficients: the sum of the sizes never grows by more than
//! what is added.

use crate::lowest_terms::magnitude;
use crate::polynomial::{
    add_all, add_term, all_fit, all_wf, has_exponent, index_of, lemma_add_term_normal, normal,
    place, lemma_place_exists, term_fits,
};
use crate::rational::lemma_whole_arithmetic;
use crate::term::Monomial;
use vstd::prelude::*;

verus! {

/// Whether coefficient and exponent of the term are whole numbers.
pub open spec fn is_whole(t: Monomial) -> bool {
    t.coefficient.den == 1 && t.exponent.den == 1
}

/// Whether all coefficients and exponents of `p` are whole numbers.
pub open spec fn whole_terms(p: Seq<Monomial>) -> bool {
    forall|i: int| 0 <= i < p.len() ==> is_whole(#[trigger] p[i])
}

/// The size of the coefficient of a term.
pub open spec fn size(t: Monomial) -> nat {
    magnitude(t.coefficient.num)
}

/// The sum of the sizes of the coefficients of `p`.
pub open spec fn weight(p: Seq<Monomial>) -> nat
    decreases p.len(),
{
    if p.len() == 0 {
        0
    } else {
        weight(p.drop_last()) + size(p.last())
    }
}

/// A term put in adds its size to the weight.
pub proof fn lemma_weight_insert(p: Seq<Monomial>, i: int, t: Monomial)
    requires
        0 <= i <= p.len(),
    ensures
        weight(p.insert(i, t)) == weight(p) + size(t),
    decreases p.len() - i,
{
    let r = p.insert(i, t);
    if i == p.len() {
        assert(r.drop_last() =~= p);
    } else {
        assert(r.drop_last() =~= p.drop_last().insert(i, t));
        assert(r.last() == p.last());
        lemma_weight_insert(p.drop_last(), i, t);
    }
}

/// A term taken out takes its size from the weight.
pub proof fn lemma_weight_remove(p: Seq<Monomial>, i: int)
    requires
        0 <= i < p.len(),
    ensures
        weight(p.remove(i)) + size(p[i]) == weight(p),
    decreases p.len() - i,
{
    let r = p.remove(i);
    if i == p.len() - 1 {
        assert(r =~= p.drop_last());
    } else {
        assert(r.drop_last() =~= p.drop_last().remove(i));
        assert(r.last() == p.last());
        lemma_weight_remove(p.drop_last(), i);
    }
}

/// A term replaced changes the weight by the difference of the sizes.
pub proof fn lemma_weight_update(p: Seq<Monomial>, i: int, t: Monomial)
    requires
        0 <= i < p.len(),
    ensures
        weight(p.update(i, t)) + size(p[i]) == weight(p) + size(t),
    decreases p.len() - i,
{
    let r = p.update(i, t);
    if i == p.len() - 1 {
        assert(r.drop_last() =~= p.drop_last());
    } else {
        assert(r.drop_last() =~= p.drop_last().update(i, t));
        assert(r.last() == p.last());
        lemma_weight_update(p.drop_last(), i, t);
    }
}

/// Adding a whole term to a polynomial of whole terms forms no number larger
/// than the weight and the size of the term together, and leaves a polynomial
/// of whole terms that weighs no more than both.
pub proof fn lemma_add_term_weight(p: Seq<Monomial>, t: Monomial)
    requires
        normal(p),
        whole_terms(p),
        t.wf(),
        is_whole(t),
        weight(p) + size(t) <= isize::MAX,
    ensures
        term_fits(p, t),
        normal(add_term(p, t)),
        whole_terms(add_term(p, t)),
        weight(add_term(p, t)) <= weight(p) + size(t),
{
    let r = add_term(p, t);
    lemma_add_term_normal(p, t);
    if t.is_zero() {
    } else if has_exponent(p, t.exponent) {
        let i = index_of(p, t.exponent);
        let a = p[i].coefficient.num;
        let b = t.coefficient.num;
        assert(is_whole(p[i]));
        lemma_whole_arithmetic(a, b);
        lemma_weight_remove(p, i);
        let sum = p[i].coefficient.plus(t.coefficient);
        if sum.is_zero() {
            assert forall|k: int| 0 <= k < r.len() implies is_whole(#[trigger] r[k]) by {
                let k0 = if k < i {
                    k
                } else {
                    k + 1
                };
                assert(r[k] == p[k0]);
            }
        } else {
            let merged = Monomial { coefficient: sum, exponent: p[i].exponent };
            lemma_weight_update(p, i, merged);
            assert forall|k: int| 0 <= k < r.len() implies is_whole(#[trigger] r[k]) by {
                if k != i {
                    assert(r[k] == p[k]);
                }
            }
        }
    } else {
        lemma_place_exists(p, t.exponent);
        let at = place(p, t.exponent);
        lemma_weight_insert(p, at, t);
        assert forall|k: int| 0 <= k < r.len() implies is_whole(#[trigger] r[k]) by {
            if k < at {
                assert(r[k] == p[k]);
            } else if k > at {
                assert(r[k] == p[k - 1]);
            }
        }
    }
}

/// Adding whole terms one after the other to a polynomial of whole terms
/// forms no number larger than the two weights together, and leaves a
/// polynomial of whole terms that weighs no more than both.
pub proof fn lemma_add_all_weight(p: Seq<Monomial>, q: Seq<Monomial>)
    requires
        normal(p),
        whole_terms(p),
        all_wf(q),
        whole_terms(q),
        weight(p) + weight(q) <= isize::MAX,
    ensures
        all_fit(p, q),
        normal(add_all(p, q)),
        whole_terms(add_all(p, q)),
        weight(add_all(p, q)) <= weight(p) + weight(q),
    decreases q.len(),
{
    if q.len() > 0 {
        let before = q.drop_last();
        assert forall|i: int| 0 <= i < before.len() implies (#[trigger] before[i]).wf() && is_whole(
            before[i],
        ) by {
            assert(before[i] == q[i]);
        }
        lemma_add_all_weight(p, before);
        lemma_add_term_weight(add_all(p, before), q.last());
    }
}

} // verus!
