use knot_solver::polynomial::{
    binomial_coefficient, Binomial, BinomialIter, Polynomial, Rational, Term,
};
use knot_solver::Knot;
use std::cmp::Ordering;

fn coefficients(n: isize) -> Vec<isize> {
    let mut iter = BinomialIter::new(n);
    let mut all = Vec::new();
    while let Some(item) = iter.next() {
        all.push(item.0);
    }
    all
}

#[test]
fn mod_basics() {
    assert_eq!(binomial_coefficient(0, 0), 1);
    assert_eq!(binomial_coefficient(1, 0), 1);
    assert_eq!(binomial_coefficient(1, 1), 1);
    assert_eq!(binomial_coefficient(2, 1), 2);
    assert_eq!(binomial_coefficient(3, 1), 3);
    assert_eq!(binomial_coefficient(4, 2), 6);
}

#[test]
fn mod_iter() {
    assert_eq!(coefficients(0), vec![1]);
    assert_eq!(coefficients(1), vec![1, 1]);
    assert_eq!(coefficients(2), vec![1, 2, 1]);
    assert_eq!(coefficients(3), vec![1, 3, 3, 1]);
    assert_eq!(coefficients(4), vec![1, 4, 6, 4, 1]);
    assert_eq!(coefficients(5), vec![1, 5, 10, 10, 5, 1]);
}

#[test]
fn mod_expand() {
    assert_eq!(
        Polynomial::from_vec(vec![Term::new(1, 4), Term::new(2, 3), Term::new(1, 2)]),
        Binomial(Term::new(1, 1), Term::new(1, 2)).expand(2)
    );

    assert_eq!(
        Polynomial::from_vec(vec![
            Term::new(8, 3),
            Term::new(36, 6),
            Term::new(54, 9),
            Term::new(27, 12)
        ]),
        Binomial(Term::new(2, 1), Term::new(3, 4)).expand(3)
    );
}

#[test]
fn mod_display() {
    let t1 = Term::new(3, 5);
    assert_eq!("3A^5", t1.to_string());

    let t1 = Term::new(7, 9);
    assert_eq!("7A^9", t1.to_string());

    assert_eq!(
        "3A^4",
        Polynomial::from_vec(vec![Term::new(3, 4)]).to_string()
    );
    assert_eq!(
        "3A^4 + 4A^3",
        Polynomial::from_vec(vec![Term::new(3, 4), Term::new(4, 3)]).to_string()
    );
    assert_eq!(
        "3A^4 + 4A^3",
        Polynomial::from_vec(vec![Term::new(4, 3), Term::new(3, 4)]).to_string()
    );

    assert_eq!(
        "3A^4 + 4A^3",
        (Polynomial::from_term(Term::new(3, 4)) + Polynomial::from_term(Term::new(4, 3)))
            .to_string()
    );
}

#[test]
fn mod_pow() {
    assert_eq!(Term::new(4, 6), Term::new(2, 3).pow(2));
    assert_eq!(Term::new(3, 2), Term::new(3, 2).pow(1));
    assert_eq!(Term::new(1, 3), Term::new(1, 1).pow(3));
    assert_eq!(Term::new(8, 9), Term::new(2, 3).pow(3));
}

#[test]
fn mod_mul() {
    assert_eq!(Term::new(3, 6) * Term::new(6, 3), Term::new(18, 9));
    assert_eq!(Term::new(4, 7) * Term::new(1, 1), Term::new(4, 8));
    assert_eq!(Term::new(2, 2) * Term::new(5, 5), Term::new(10, 7));
    assert_eq!(Term::new(8, 23) * Term::new(20, 7), Term::new(160, 30));
}

#[test]
fn mod_add() {
    assert_eq!(
        Term::new(3, 4) + Term::new(4, 5),
        Polynomial::from_vec(vec![Term::new(3, 4), Term::new(4, 5)])
    );

    assert_eq!(
        Term::new(3, 4) + Term::new(4, 4),
        Polynomial::from_vec(vec![Term::new(7, 4)])
    );
}

#[test]
fn mod_is_zero() {
    assert!(Term::new(0, 1).is_zero());
    assert!(Term::new(0, -1).is_zero());
}

#[test]
fn macro_create() {
    assert_eq!(Term::new(3, 3), Term::new(3, 3));
    assert_eq!(Term::new(-1, -3), Term::new(-1, -3));
    assert_eq!(Term::new(3, 13), Term::new(3, 13));
    assert_eq!(Term::new(-30, 56), Term::new(-30, 56));
}

#[test]
fn mod_add_term() {
    assert_eq!(
        Polynomial::from_term(Term::new(3, 4)) + Polynomial::from_term(Term::new(4, 3)),
        Polynomial::from_vec(vec![Term::new(3, 4), Term::new(4, 3)])
    );

    assert_eq!(
        Polynomial::from_vec(vec![Term::new(3, 4), Term::new(4, 3)])
            + Polynomial::from_term(Term::new(4, 3)),
        Polynomial::from_vec(vec![Term::new(3, 4), Term::new(8, 3)])
    );
}

#[test]
fn mod_add_polynomial() {
    assert_eq!(
        Polynomial::from_vec(vec![Term::new(3, 4), Term::new(4, 3)])
            + Polynomial::from_vec(vec![Term::new(3, 4), Term::new(4, 3)]),
        Polynomial::from_vec(vec![Term::new(6, 4), Term::new(8, 3)])
    );

    assert_eq!(
        Polynomial::from_vec(vec![Term::new(3, 4), Term::new(4, 3)])
            + Polynomial::from_vec(vec![Term::new(3, 7), Term::new(4, 22)]),
        Polynomial::from_vec(vec![
            Term::new(3, 4),
            Term::new(4, 3),
            Term::new(3, 7),
            Term::new(4, 22)
        ])
    );
}

#[test]
fn binomial_rows_are_symmetric_and_sum_to_powers_of_two() {
    for n in 0..=20isize {
        let row = coefficients(n);
        assert_eq!(row.len() as isize, n + 1);
        assert_eq!(row.iter().sum::<isize>(), 1 << n);
        for k in 0..=n {
            assert_eq!(binomial_coefficient(n, k), binomial_coefficient(n, n - k));
            assert_eq!(row[k as usize], binomial_coefficient(n, k));
        }
    }
    assert_eq!(binomial_coefficient(10, 3), 120);
    assert_eq!(binomial_coefficient(52, 5), 2598960);
}

#[test]
fn binomial_outside_the_triangle_is_the_empty_product() {
    assert_eq!(binomial_coefficient(3, 5), 1);
    assert_eq!(binomial_coefficient(3, -1), 1);
    assert_eq!(binomial_coefficient(-2, 1), 1);
    assert_eq!(coefficients(-1), Vec::<isize>::new());
}

#[test]
fn like_terms_are_fused() {
    let mut p = Polynomial::from_term(Term::new(3, 4));
    p.add_term(Term::new(4, 4));
    assert_eq!(p.terms(), vec![Term::new(7, 4)]);

    let mut p = Polynomial::from_term(Term::new(3, 4));
    p.add_term(Term::new(-3, 4));
    assert_eq!(p.terms(), Vec::<Term>::new());
    assert_eq!(p, Polynomial::zero());
    assert_eq!(p.to_string(), "");
}

#[test]
fn terms_are_kept_in_order() {
    let mut p = Polynomial::zero();
    for (c, e) in [(1, 5), (2, -1), (3, 3), (4, 0), (5, 9), (6, -7), (7, 3)] {
        p.add_term(Term::new(c, e));
    }
    assert_eq!(
        p.terms(),
        vec![
            Term::new(6, -7),
            Term::new(2, -1),
            Term::new(4, 0),
            Term::new(10, 3),
            Term::new(1, 5),
            Term::new(5, 9)
        ]
    );
    p.add_term(Term::new(0, 100));
    assert_eq!(p.terms().len(), 6);
    p.remove_zero_terms();
    assert_eq!(p.terms().len(), 6);
}

#[test]
fn from_vec_drops_zero_terms_and_sums_equal_exponents() {
    let p = Polynomial::from_vec(vec![
        Term::new(0, 8),
        Term::new(2, 1),
        Term::new(5, 1),
        Term::new(1, 0),
        Term::new(-1, 0),
    ]);
    assert_eq!(p.terms(), vec![Term::new(7, 1)]);
    assert_eq!(Polynomial::from_vec(Vec::new()), Polynomial::zero());
}

#[test]
fn polynomial_times_term() {
    let p = Polynomial::from_vec(vec![Term::new(3, 4), Term::new(4, 3)]);
    assert_eq!(
        p * Term::new(2, 5),
        Polynomial::from_vec(vec![Term::new(6, 9), Term::new(8, 8)])
    );
    let p = Polynomial::from_vec(vec![Term::new(3, 4), Term::new(4, 3)]);
    assert_eq!(p.times(Term::zero()), Polynomial::zero());
    let p = Polynomial::from_term(Term::new(3, 4)) + Term::new(1, 1);
    assert_eq!(p.to_string(), "3A^4 + 1A^1");
    let p = Polynomial::from_term(Term::new(3, 4)).plus_term(Term::new(-3, 4));
    assert_eq!(p, Polynomial::zero());
}

#[test]
fn methods_and_operators_agree() {
    let a = Term::new(3, 4);
    let b = Term::new(-2, 7);
    assert_eq!(a * b, a.times(b));
    assert_eq!(a * 5, a.scaled(5));
    assert_eq!(a * 5, Term::new(15, 4));
    assert_eq!(a + b, a.plus(b));
    assert_eq!(
        Polynomial::from_term(a) + Polynomial::from_term(b),
        Polynomial::from_term(a).plus(Polynomial::from_term(b))
    );
    let mut sum = Polynomial::from_term(a);
    sum.add_polynomial(Polynomial::from_term(b));
    assert_eq!(sum, a + b);
}

#[test]
fn expansion_has_a_term_for_every_k() {
    let binomial = Binomial(Term::new(2, 1), Term::new(3, 4));
    let terms = binomial.contributions(3);
    assert_eq!(
        terms,
        vec![
            Term::new(27, 12),
            Term::new(54, 9),
            Term::new(36, 6),
            Term::new(8, 3)
        ]
    );
    // equal exponents fall into one term
    let same = Binomial(Term::new(1, 2), Term::new(1, 2));
    assert_eq!(same.contributions(4).len(), 5);
    let same = Binomial(Term::new(1, 2), Term::new(1, 2));
    assert_eq!(same.expand(4), Polynomial::from_term(Term::new(16, 8)));
    // opposite terms cancel
    let cancel = Binomial(Term::new(1, 1), Term::new(-1, 1));
    assert_eq!(cancel.expand(3), Polynomial::zero());
    // the power 0 is 1, a negative power has no terms
    assert_eq!(
        Binomial(Term::new(5, 1), Term::new(7, 2)).expand(0),
        Polynomial::from_term(Term::one())
    );
    assert_eq!(
        Binomial(Term::new(5, 1), Term::new(7, 2)).expand(-1),
        Polynomial::zero()
    );
}

#[test]
fn rationals_are_reduced() {
    let half = Rational::new(2, 4);
    assert_eq!((half.numer(), half.denom()), (1, 2));
    let minus = Rational::new(3, -6);
    assert_eq!((minus.numer(), minus.denom()), (-1, 2));
    let zero = Rational::new(0, -5);
    assert_eq!((zero.numer(), zero.denom()), (0, 1));
    assert!(zero.is_zero());
    assert!(Rational::new(7, 7).is_one());
    assert_eq!(Rational::from_integer(4), Rational::new(8, 2));
}

#[test]
fn rational_arithmetic() {
    let half = Rational::new(1, 2);
    let third = Rational::new(1, 3);
    assert_eq!(half.plus(third), Rational::new(5, 6));
    assert_eq!(half.plus(half), Rational::from_integer(1));
    assert_eq!(half.times(third), Rational::new(1, 6));
    assert_eq!(Rational::new(2, 3).times(Rational::new(3, 4)), half);
    assert_eq!(Rational::new(-2, 3).power(3), Rational::new(-8, 27));
    assert_eq!(Rational::new(-2, 3).power(-2), Rational::new(9, 4));
    assert_eq!(Rational::new(-2, 3).power(-3), Rational::new(-27, 8));
    assert_eq!(Rational::new(5, 3).power(0), Rational::from_integer(1));
    assert!(third.less(half));
    assert!(!half.less(third));
    assert!(!half.less(half));
    assert!(Rational::new(-1, 2).less(Rational::new(-1, 3)));
}

#[test]
fn rational_text() {
    assert_eq!(Rational::from_integer(0).to_string(), "0");
    assert_eq!(Rational::from_integer(-12).to_string(), "-12");
    assert_eq!(Rational::new(5, 6).to_string(), "5/6");
    assert_eq!(Rational::new(1, -2).to_string(), "-1/2");
    assert_eq!(Rational::from_integer(1000).to_string(), "1000");
}

#[test]
fn terms_with_fractions() {
    let t = Term::from_rationals(Rational::new(1, 2), Rational::new(3, 2));
    assert_eq!(t.to_string(), "1/2A^3/2");
    assert_eq!(
        t.pow(2),
        Term::from_rationals(Rational::new(1, 4), Rational::from_integer(3))
    );
    assert_eq!(
        t.times(t),
        Term::from_rationals(Rational::new(1, 4), Rational::from_integer(3))
    );
    assert_eq!(
        t.scaled(6),
        Term::from_rationals(Rational::from_integer(3), Rational::new(3, 2))
    );
    assert_eq!(t.coefficient(), Rational::new(1, 2));
    assert_eq!(t.exponent(), Rational::new(3, 2));
    let mut p = Polynomial::from_term(t);
    p.add_term(Term::new(1, 1));
    p.add_term(Term::new(1, 2));
    p.add_term(Term::from_rationals(Rational::new(1, 3), Rational::new(3, 2)));
    assert_eq!(p.to_string(), "1A^2 + 5/6A^3/2 + 1A^1");
}

#[test]
fn zero_and_one() {
    assert!(Term::zero().is_zero());
    assert!(!Term::zero().is_one());
    assert!(Term::one().is_one());
    assert!(!Term::new(1, 1).is_one());
    assert!(!Term::new(2, 0).is_one());
    assert_eq!(Term::one(), Term::new(1, 0));
}

#[test]
fn exponents_are_compared() {
    assert_eq!(
        Term::new(9, 1).compare_exponent(&Term::new(1, 2)),
        Ordering::Less
    );
    assert_eq!(
        Term::new(1, 2).compare_exponent(&Term::new(9, 1)),
        Ordering::Greater
    );
    assert_eq!(
        Term::new(9, 2).compare_exponent(&Term::new(1, 2)),
        Ordering::Equal
    );
}

#[test]
fn terms_are_iterated_from_the_lowest_exponent() {
    let p = Polynomial::from_vec(vec![Term::new(4, 3), Term::new(3, 4), Term::new(1, -2)]);
    let up: Vec<String> = p.iter().map(|t| t.to_string()).collect();
    assert_eq!(up, vec!["1A^-2", "4A^3", "3A^4"]);
    let down: Vec<String> = p.iter().rev().map(|t| t.to_string()).collect();
    assert_eq!(down.join(" + "), p.to_string());
    assert_eq!(Polynomial::zero().iter().count(), 0);
}

#[test]
fn polynomials_are_summed() {
    let parts = vec![
        Polynomial::from_term(Term::new(1, 1)),
        Polynomial::from_vec(vec![Term::new(2, 1), Term::new(5, 0)]),
        Polynomial::from_term(Term::new(-3, 1)),
    ];
    assert_eq!(Polynomial::sum(&parts), Polynomial::from_term(Term::new(5, 0)));
    assert_eq!(Polynomial::sum(&Vec::new()), Polynomial::zero());
}

#[test]
fn small_knots_are_within_the_bound() {
    let knot = Knot::from_str("abAB").unwrap();
    assert!(knot.within_bracket_bound());
    assert_eq!(
        knot.checked_bracket_polynomial(),
        Some(knot.bracket_polynomial())
    );
    // sixty crossings are beyond any machine integer
    let long: String = std::iter::repeat('a').take(60).collect();
    let knot = Knot::from_str(&long).unwrap();
    assert!(!knot.within_bracket_bound());
    assert_eq!(knot.checked_bracket_polynomial(), None);
}
