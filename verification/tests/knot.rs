use knot_solver::polynomial::{Binomial, Polynomial, Term};
use knot_solver::{Knot, KnotParseError, RegionCounter};

fn unknots(v: Vec<(usize, i16)>) -> Vec<usize> {
    v.iter().map(|r| r.0).collect()
}

fn sorted_unknots(word: &str) -> Vec<usize> {
    let knot = Knot::from_str(word).unwrap();
    let mut resolutions = unknots(knot.resolutions());
    resolutions.sort();
    resolutions
}

#[test]
fn it_works() {
    assert_eq!(2 + 2, 4);
}

#[test]
fn lib_basics() {
    // region counter
    let mut counter = RegionCounter::new(7);
    assert_eq!(7, counter.current_count());

    // Combining a region with itself at the beginning should have no effect.
    counter.combine(1, 1);
    assert_eq!(7, counter.current_count());
    counter.combine(2, 2);
    assert_eq!(7, counter.current_count());
    counter.combine(3, 3);
    assert_eq!(7, counter.current_count());

    // Combining two uncombined regions should decrement the count.
    counter.combine(1, 2);
    assert_eq!(6, counter.current_count());

    // Combining regions that have already been combined should have no effect
    counter.combine(1, 2);
    assert_eq!(6, counter.current_count());

    // Combining two uncombined regions should decrement the count.
    counter.combine(3, 4);
    assert_eq!(5, counter.current_count());

    counter.combine(4, 5);
    assert_eq!(4, counter.current_count());

    // Combining regions that have already been combined should have no effect
    counter.combine(4, 5);
    assert_eq!(4, counter.current_count());

    counter.combine(4, 1);
    assert_eq!(3, counter.current_count());

    counter.combine(5, 2);
    assert_eq!(3, counter.current_count());

    // knot parsing
    let _knot = Knot::from_str("aaabacbadehfg").unwrap();

    let a = Knot::from_str("a").unwrap();
    assert_eq!(a.num_regions(), 3);

    let abb = Knot::from_str("abb").unwrap();
    assert_eq!(abb.num_regions(), 5);

    let abbaabb = Knot::from_str("abbaabb").unwrap();
    assert_eq!(abbaabb.num_regions(), 9);

    let abc_b = Knot::from_str("abcB").unwrap();
    assert_eq!(abc_b.num_regions(), 6);

    // resolving
    let knot = Knot::from_str("abc").unwrap();
    let mut resolutions = unknots(knot.resolutions());
    resolutions.sort();
    assert_eq!(resolutions, vec![1, 2, 2, 2, 3, 3, 3, 4]);

    let knot = Knot::from_str("acb").unwrap();
    let mut resolutions = unknots(knot.resolutions());
    resolutions.sort();
    assert_eq!(resolutions, vec![1, 2, 2, 2, 3, 3, 3, 4]);

    let mut s = String::new();
    for _ in 0..10 {
        s.push('a');
    }
    let knot = Knot::from_str(&s).unwrap();
    let resolutions = unknots(knot.resolutions());
    assert_eq!(resolutions.len(), 1024);

    // polynomial generation
    println!(
        "a: {}",
        Knot::from_str("a").unwrap().bracket_polynomial().to_string()
    );
    println!(
        "A: {}",
        Knot::from_str("A").unwrap().bracket_polynomial().to_string()
    );
    println!(
        "trefoil: {}",
        Knot::from_str("aaa").unwrap().bracket_polynomial().to_string()
    );
}

#[test]
fn lib_missing_columns() {
    // knot parsing
    let ac = Knot::from_str("ac").unwrap();
    assert_eq!(ac.num_regions(), 5);

    let ace = Knot::from_str("ace").unwrap();
    assert_eq!(ace.num_regions(), 7);

    let acd = Knot::from_str("acd").unwrap();
    assert_eq!(acd.num_regions(), 6);

    let bc = Knot::from_str("bc").unwrap();
    assert_eq!(bc.num_regions(), 5);

    let b = Knot::from_str("b").unwrap();
    assert_eq!(b.num_regions(), 4);

    // resolving
    assert_eq!(sorted_unknots("b"), vec![2, 3]);
    assert_eq!(sorted_unknots("bc"), vec![2, 3, 3, 4]);
    assert_eq!(sorted_unknots("bd"), vec![3, 4, 4, 5]);
}

#[test]
fn region_counter_bridges_two_groups_once() {
    let mut counter = RegionCounter::new(7);
    counter.combine(1, 2);
    counter.combine(3, 4);
    counter.combine(4, 5);
    assert_eq!(4, counter.current_count());
    // {1, 2} and {3, 4, 5} become one group: one region less, not two
    counter.combine(4, 1);
    assert_eq!(3, counter.current_count());
    // every pair of the five is joined now
    counter.combine(2, 3);
    counter.combine(5, 1);
    assert_eq!(3, counter.current_count());
    counter.combine(6, 5);
    assert_eq!(2, counter.current_count());
}

#[test]
fn region_counts_of_braid_words() {
    for (word, regions) in [
        ("a", 3),
        ("abb", 5),
        ("abbaabb", 9),
        ("abcB", 6),
        ("b", 4),
        ("bc", 5),
        ("z", 28),
        ("AaAa", 6),
    ] {
        let knot = Knot::from_str(word).unwrap();
        assert_eq!(knot.num_regions(), regions, "{}", word);
        assert_eq!(knot.num_crossings(), word.len());
    }
}

#[test]
fn crossings_have_their_regions() {
    // a b b: column 0, then two crossings in column 1
    let knot = Knot::from_str("abB").unwrap();
    let first = knot.crossing(0);
    assert_eq!(
        (first.top, first.bottom, first.left, first.right, first.column),
        (2, 2, 0, 4, 0)
    );
    let second = knot.crossing(1);
    assert_eq!(
        (second.top, second.bottom, second.left, second.right, second.column),
        (4, 3, 2, 1, 1)
    );
    let third = knot.crossing(2);
    assert_eq!(
        (third.top, third.bottom, third.left, third.right, third.column),
        (3, 4, 2, 1, 1)
    );
    assert_eq!(first.orientation, knot_solver::diagram::Orientation::Positive);
    assert_eq!(third.orientation, knot_solver::diagram::Orientation::Negative);
}

#[test]
fn missing_column_joins_its_neighbours() {
    // a c: column 1 holds no crossing and is one region, number 4
    let knot = Knot::from_str("ac").unwrap();
    let a = knot.crossing(0);
    let c = knot.crossing(1);
    assert_eq!((a.top, a.bottom, a.left, a.right), (2, 2, 0, 4));
    assert_eq!((c.top, c.bottom, c.left, c.right), (3, 3, 4, 1));
}

#[test]
fn invalid_characters_are_all_reported() {
    match Knot::from_str("a1b") {
        Err(KnotParseError::InvalidCharacter(bad)) => assert_eq!(bad, vec!['1']),
        Ok(_) => panic!("a1b is no braid word"),
    }
    match Knot::from_str("a-b c?") {
        Err(KnotParseError::InvalidCharacter(bad)) => assert_eq!(bad, vec!['-', ' ', '?']),
        Ok(_) => panic!("a-b c? is no braid word"),
    }
    match Knot::from_str("\u{e9}") {
        Err(KnotParseError::InvalidCharacter(bad)) => assert_eq!(bad, vec!['\u{e9}']),
        Ok(_) => panic!("a letter outside ASCII is no crossing"),
    }
}

#[test]
fn resolutions_come_in_counting_order() {
    let knot = Knot::from_str("a").unwrap();
    assert_eq!(knot.resolutions(), vec![(2, -1), (1, 1)]);
    let knot = Knot::from_str("A").unwrap();
    assert_eq!(knot.resolutions(), vec![(1, -1), (2, 1)]);
    let knot = Knot::from_str("ab").unwrap();
    assert_eq!(knot.resolutions(), vec![(3, -2), (2, 0), (2, 0), (1, 2)]);
    assert_eq!(knot.resolution(2), (2, 0));
    // bits beyond the crossings are not looked at
    assert_eq!(knot.resolution(6), (2, 0));
}

#[test]
fn rotation_keeps_the_loop_counts() {
    assert_eq!(sorted_unknots("abc"), vec![1, 2, 2, 2, 3, 3, 3, 4]);
    assert_eq!(sorted_unknots("acb"), sorted_unknots("abc"));
    assert_eq!(sorted_unknots("bca"), sorted_unknots("abc"));
}

#[test]
fn bracket_of_one_crossing() {
    // a single positive crossing: -A^-3; a negative one: -A^3
    let a = Knot::from_str("a").unwrap().bracket_polynomial();
    assert_eq!(a, Polynomial::from_term(Term::new(-1, -3)));
    assert_eq!(a.to_string(), "-1A^-3");
    // the two smoothings of the crossing: two loops with A^-1, one loop with A
    let two_loops = Binomial(Term::new(-1, 2), Term::new(-1, -2)).expand(1);
    let one_loop = Binomial(Term::new(-1, 2), Term::new(-1, -2)).expand(0);
    let relation = two_loops * Term::new(1, -1) + one_loop * Term::new(1, 1);
    assert_eq!(a, relation);
    let b = Knot::from_str("A").unwrap().bracket_polynomial();
    assert_eq!(b, Polynomial::from_term(Term::new(-1, 3)));
}

#[test]
fn bracket_of_the_trefoil() {
    let trefoil = Knot::from_str("aaa").unwrap().bracket_polynomial();
    assert_eq!(
        trefoil,
        Polynomial::from_vec(vec![Term::new(1, 7), Term::new(-1, 3), Term::new(-1, -5)])
    );
    assert_eq!(trefoil.to_string(), "1A^7 + -1A^3 + -1A^-5");
}

fn sides(word: &str) -> Vec<(usize, usize, usize, usize, u8)> {
    let knot = Knot::from_str(word).unwrap();
    (0..knot.num_crossings())
        .map(|i| {
            let c = knot.crossing(i);
            (c.top, c.bottom, c.left, c.right, c.column)
        })
        .collect()
}

#[test]
fn diagrams_of_braid_words() {
    assert_eq!(sides("a"), vec![(2, 2, 0, 1, 0)]);
    assert_eq!(sides("ab"), vec![(2, 2, 0, 3, 0), (3, 3, 2, 1, 1)]);
    assert_eq!(sides("bd"), vec![(2, 2, 4, 5, 1), (3, 3, 5, 1, 3)]);
    assert_eq!(sides("e"), vec![(2, 2, 6, 1, 4)]);
    assert_eq!(sides("zz"), vec![(3, 2, 28, 1, 25), (2, 3, 28, 1, 25)]);
    assert_eq!(
        sides("cAb"),
        vec![(2, 2, 4, 1, 2), (3, 3, 0, 4, 0), (4, 4, 3, 2, 1)]
    );
    assert_eq!(
        sides("abcB"),
        vec![
            (2, 2, 0, 5, 0),
            (5, 3, 2, 4, 1),
            (4, 4, 3, 1, 2),
            (3, 5, 2, 4, 1)
        ]
    );
    assert_eq!(
        sides("dcba"),
        vec![
            (2, 2, 3, 1, 3),
            (3, 3, 4, 2, 2),
            (4, 4, 5, 3, 1),
            (5, 5, 0, 4, 0)
        ]
    );
    assert_eq!(
        sides("abbaabb"),
        vec![
            (6, 2, 0, 8, 0),
            (8, 3, 2, 1, 1),
            (3, 4, 2, 1, 1),
            (2, 5, 0, 4, 0),
            (5, 6, 0, 4, 0),
            (4, 7, 6, 1, 1),
            (7, 8, 6, 1, 1)
        ]
    );
    assert_eq!(
        sides("aaabacbadehfg"),
        vec![
            (9, 2, 0, 8, 0),
            (2, 3, 0, 8, 0),
            (3, 4, 0, 8, 0),
            (8, 5, 4, 7, 1),
            (4, 6, 0, 5, 0),
            (7, 7, 5, 10, 2),
            (5, 8, 6, 7, 1),
            (6, 9, 0, 8, 0),
            (10, 10, 7, 11, 3),
            (11, 11, 10, 13, 4),
            (12, 12, 14, 1, 7),
            (13, 13, 11, 14, 5),
            (14, 14, 13, 12, 6)
        ]
    );
    assert_eq!(Knot::from_str("aaabacbadehfg").unwrap().num_regions(), 15);
}

#[test]
fn resolutions_of_braid_words() {
    assert_eq!(
        Knot::from_str("aB").unwrap().resolutions(),
        vec![(2, -2), (1, 0), (3, 0), (2, 2)]
    );
    assert_eq!(
        Knot::from_str("ac").unwrap().resolutions(),
        vec![(4, -2), (3, 0), (3, 0), (2, 2)]
    );
    assert_eq!(
        Knot::from_str("abB").unwrap().resolutions(),
        vec![
            (2, -3),
            (1, -1),
            (3, -1),
            (2, 1),
            (3, -1),
            (2, 1),
            (2, 1),
            (1, 3)
        ]
    );
    assert_eq!(
        Knot::from_str("aBaB").unwrap().resolutions(),
        vec![
            (3, -4),
            (2, -2),
            (2, -2),
            (1, 0),
            (2, -2),
            (1, 0),
            (1, 0),
            (2, 2),
            (2, -2),
            (1, 0),
            (3, 0),
            (2, 2),
            (1, 0),
            (2, 2),
            (2, 2),
            (3, 4)
        ]
    );
}

#[test]
fn brackets_of_braid_words() {
    for (word, bracket) in [
        ("ab", "1A^-6"),
        ("aB", "1A^0"),
        ("abB", "1A^-1 + 1A^-5"),
        ("ac", "-1A^-4 + -1A^-8"),
        ("bd", "1A^-2 + 2A^-6 + 1A^-10"),
        ("abcB", "-1A^-4 + -1A^-8"),
        ("cAb", "-1A^-3"),
        ("BaCd", "1A^0"),
        ("abab", "-1A^4 + 1A^0 + 1A^-8"),
        ("aBaB", "1A^8 + -1A^4 + 1A^0 + -1A^-4 + 1A^-8"),
        ("dcba", "1A^-12"),
        ("e", "-1A^5 + -4A^1 + -6A^-3 + -4A^-7 + -1A^-11"),
        ("abbaabb", "-1A^9 + 1A^5 + 1A^-3 + 1A^-11"),
        ("aaBBccDD", "1A^16 + 4A^8 + 6A^0 + 4A^-8 + 1A^-16"),
    ] {
        let knot = Knot::from_str(word).unwrap();
        let polynomial = knot.checked_bracket_polynomial();
        assert_eq!(polynomial.unwrap().to_string(), bracket, "{}", word);
    }
}
