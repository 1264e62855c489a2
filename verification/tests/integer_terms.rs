use knot_solver::polynomial::{
    binomial_coefficient, Binomial, BinomialIter, Polynomial, Term,
};

fn row(n: isize) -> Vec<isize> {
    let mut iter = BinomialIter::new(n);
    let mut all = Vec::new();
    while let Some((coefficient, _)) = iter.next() {
        all.push(coefficient);
    }
    all
}

#[test]
fn polynomial_basics() {
    assert_eq!(binomial_coefficient(0, 0), 1);
    assert_eq!(binomial_coefficient(1, 0), 1);
    assert_eq!(binomial_coefficient(1, 1), 1);
    assert_eq!(binomial_coefficient(2, 1), 2);
    assert_eq!(binomial_coefficient(3, 1), 3);
    assert_eq!(binomial_coefficient(4, 2), 6);
}

#[test]
fn polynomial_iter() {
    assert_eq!(row(0), vec![1]);
    assert_eq!(row(1), vec![1, 1]);
    assert_eq!(row(2), vec![1, 2, 1]);
    assert_eq!(row(3), vec![1, 3, 3, 1]);
    assert_eq!(row(4), vec![1, 4, 6, 4, 1]);
    assert_eq!(row(5), vec![1, 5, 10, 10, 5, 1]);
}

#[test]
fn polynomial_expand() {
    assert_eq!(
        Polynomial::from_vec(vec![Term::new(1, 4), Term::new(2, 3), Term::new(1, 2)]),
        Binomial(Term::new(1, 1), Term::new(1, 2)).expand(2)
    );

    assert_eq!(
        Polynomial::from_vec(vec![
            Term::new(8, 3),
            Term::new(36, 6),
            Term::new(54, 9),
            Term::new(27, 12)
        ]),
        Binomial(Term::new(2, 1), Term::new(3, 4)).expand(3)
    );
}

#[test]
fn polynomial_display() {
    let t1 = Term::new(3, 5);
    assert_eq!("3A^5", t1.to_string());

    let t1 = Term::new(7, 9);
    assert_eq!("7A^9", t1.to_string());

    assert_eq!(
        "3A^4",
        Polynomial::from_vec(vec![Term::new(3, 4)]).to_string()
    );
    assert_eq!(
        "3A^4 + 4A^3",
        Polynomial::from_vec(vec![Term::new(3, 4), Term::new(4, 3)]).to_string()
    );
    assert_eq!(
        "3A^4 + 4A^3",
        Polynomial::from_vec(vec![Term::new(4, 3), Term::new(3, 4)]).to_string()
    );

    assert_eq!(
        "3A^4 + 4A^3",
        (Polynomial::from_term(Term::new(3, 4)) + Polynomial::from_term(Term::new(4, 3)))
            .to_string()
    );
}

#[test]
fn polynomial_pow() {
    assert_eq!(Term::new(4, 6), Term::new(2, 3).pow(2));
    assert_eq!(Term::new(3, 2), Term::new(3, 2).pow(1));
    assert_eq!(Term::new(1, 3), Term::new(1, 1).pow(3));
    assert_eq!(Term::new(8, 9), Term::new(2, 3).pow(3));
}

#[test]
fn polynomial_mul() {
    assert_eq!(Term::new(3, 6) * Term::new(6, 3), Term::new(18, 9));
    assert_eq!(Term::new(4, 7) * Term::new(1, 1), Term::new(4, 8));
    assert_eq!(Term::new(2, 2) * Term::new(5, 5), Term::new(10, 7));
    assert_eq!(Term::new(8, 23) * Term::new(20, 7), Term::new(160, 30));
}

#[test]
fn polynomial_add() {
    assert_eq!(
        Term::new(3, 4) + Term::new(4, 5),
        Polynomial::from_vec(vec![Term::new(3, 4), Term::new(4, 5)])
    );

    assert_eq!(
        Term::new(3, 4) + Term::new(4, 4),
        Polynomial::from_vec(vec![Term::new(7, 4)])
    );
}

#[test]
fn polynomial_is_zero() {
    assert!(Term::new(0, 1).is_zero());
    assert!(Term::new(0, -1).is_zero());
}

#[test]
fn polynomial_add_term() {
    assert_eq!(
        Polynomial::from_term(Term::new(3, 4)) + Polynomial::from_term(Term::new(4, 3)),
        Polynomial::from_vec(vec![Term::new(3, 4), Term::new(4, 3)])
    );

    assert_eq!(
        Polynomial::from_vec(vec![Term::new(3, 4), Term::new(4, 3)])
            + Polynomial::from_term(Term::new(4, 3)),
        Polynomial::from_vec(vec![Term::new(3, 4), Term::new(8, 3)])
    );
}

#[test]
fn polynomial_add_polynomial() {
    assert_eq!(
        Polynomial::from_vec(vec![Term::new(3, 4), Term::new(4, 3)])
            + Polynomial::from_vec(vec![Term::new(3, 4), Term::new(4, 3)]),
        Polynomial::from_vec(vec![Term::new(6, 4), Term::new(8, 3)])
    );

    assert_eq!(
        Polynomial::from_vec(vec![Term::new(3, 4), Term::new(4, 3)])
            + Polynomial::from_vec(vec![Term::new(3, 7), Term::new(4, 22)]),
        Polynomial::from_vec(vec![
            Term::new(3, 4),
            Term::new(4, 3),
            Term::new(3, 7),
            Term::new(4, 22)
        ])
    );
}
