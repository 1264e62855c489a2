//! Greatest common divisors, and why a fraction has one form in lowest terms.

use vstd::arithmetic::div_mod::{lemma_div_multiples_vanish, lemma_fundamental_div_mod};
use vstd::arithmetic::mul::{lemma_mul_is_associative, lemma_mul_is_commutative};
use vstd::arithmetic::power::pow;
use vstd::prelude::*;

verus! {

/// The size of `x` without its sign.
pub open spec fn magnitude(x: int) -> nat {
    if x < 0 {
        (-x) as nat
    } else {
        x as nat
    }
}

/// The greatest common divisor, by Euclid's algorithm.
pub open spec fn gcd(a: nat, b: nat) -> nat
    decreases b,
{
    if b == 0 {
        a
    } else {
        gcd(b, a % b)
    }
}

/// The greatest common divisor is positive unless both numbers are 0.
pub proof fn lemma_gcd_positive(a: nat, b: nat)
    requires
        a > 0 || b > 0,
    ensures
        gcd(a, b) > 0,
    decreases b,
{
    if b != 0 {
        lemma_gcd_positive(b, a % b);
    }
}

/// The greatest common divisor divides both numbers: the result holds the
/// two quotients.
pub proof fn lemma_gcd_divides(a: nat, b: nat) -> (k: (int, int))
    ensures
        a == gcd(a, b) * k.0,
        b == gcd(a, b) * k.1,
    decreases b,
{
    let g = gcd(a, b) as int;
    if b == 0 {
        assert(a == g * 1);
        assert(b == g * 0);
        (1, 0)
    } else {
        let (kb, kr) = lemma_gcd_divides(b, a % b);
        lemma_fundamental_div_mod(a as int, b as int);
        let q = a as int / b as int;
        assert(a == g * (kb * q + kr)) by (nonlinear_arith)
            requires
                a == b * q + (a % b),
                b == g * kb,
                (a % b) as int == g * kr,
        ;
        (kb * q + kr, kb)
    }
}

/// Bezout: the greatest common divisor is a combination of both numbers, with
/// the two factors that the result holds.
pub proof fn lemma_bezout(a: nat, b: nat) -> (f: (int, int))
    ensures
        a * f.0 + b * f.1 == gcd(a, b),
    decreases b,
{
    if b == 0 {
        assert(a * 1 + b * 0 == a) by (nonlinear_arith);
        (1, 0)
    } else {
        let (x, y) = lemma_bezout(b, a % b);
        lemma_fundamental_div_mod(a as int, b as int);
        let q = a as int / b as int;
        let g = gcd(a, b) as int;
        assert(a * y + b * (x - q * y) == g) by (nonlinear_arith)
            requires
                a == b * q + (a % b),
                b * x + (a % b) * y == g,
        ;
        (y, x - q * y)
    }
}

/// Two numbers with a combination that gives 1 have no common divisor but 1.
pub proof fn lemma_combination_coprime(a: nat, b: nat, x: int, y: int)
    requires
        a * x + b * y == 1,
    ensures
        gcd(a, b) == 1,
{
    let g = gcd(a, b) as int;
    let (ka, kb) = lemma_gcd_divides(a, b);
    if a == 0 && b == 0 {
        assert(a * x + b * y == 0) by (nonlinear_arith)
            requires
                a == 0,
                b == 0,
        ;
    }
    lemma_gcd_positive(a, b);
    let k = ka * x + kb * y;
    assert(g * k == 1) by (nonlinear_arith)
        requires
            a * x + b * y == 1,
            a == g * ka,
            b == g * kb,
            k == ka * x + kb * y,
    ;
    assert(g == 1) by (nonlinear_arith)
        requires
            g > 0,
            g * k == 1,
    ;
}

/// Dividing two numbers by their greatest common divisor leaves no common
/// divisor but 1, and nothing over.
pub proof fn lemma_quotients_coprime(a: nat, b: nat)
    requires
        a > 0 || b > 0,
    ensures
        gcd(a / gcd(a, b), b / gcd(a, b)) == 1,
        a == gcd(a, b) * (a / gcd(a, b)),
        b == gcd(a, b) * (b / gcd(a, b)),
{
    let g = gcd(a, b) as int;
    lemma_gcd_positive(a, b);
    let (ka, kb) = lemma_gcd_divides(a, b);
    lemma_div_multiples_vanish(ka, g);
    lemma_div_multiples_vanish(kb, g);
    assert(ka >= 0 && kb >= 0) by (nonlinear_arith)
        requires
            a == g * ka,
            b == g * kb,
            g > 0,
            a >= 0,
            b >= 0,
    ;
    let (x, y) = lemma_bezout(a, b);
    assert(ka * x + kb * y == 1) by (nonlinear_arith)
        requires
            a * x + b * y == g,
            a == g * ka,
            b == g * kb,
            g > 0,
    ;
    lemma_combination_coprime(ka as nat, kb as nat, x, y);
}

/// Two products of two factors, multiplied, are the products of the first
/// and of the second factors, multiplied.
pub proof fn lemma_products_swap(p: int, q: int, r: int, s: int)
    ensures
        (p * q) * (r * s) == (p * r) * (q * s),
{
    lemma_mul_is_associative(p, q, r * s);
    lemma_mul_is_associative(q, r, s);
    lemma_mul_is_commutative(q, r);
    lemma_mul_is_associative(r, q, s);
    lemma_mul_is_associative(p, r, q * s);
}

/// Two numbers without a common divisor have none in the other order.
pub proof fn lemma_coprime_symmetric(a: nat, b: nat)
    requires
        gcd(a, b) == 1,
    ensures
        gcd(b, a) == 1,
{
    let (x, y) = lemma_bezout(a, b);
    lemma_combination_coprime(b, a, y, x);
}

/// A product of two numbers that have no divisor in common with a third has
/// none in common with it.
pub proof fn lemma_coprime_product(a: nat, b: nat, c: nat)
    requires
        gcd(a, c) == 1,
        gcd(b, c) == 1,
    ensures
        gcd(a * b, c) == 1,
{
    let (x, y) = lemma_bezout(a, c);
    let (u, v) = lemma_bezout(b, c);
    let p = a * x;
    let q = c * y;
    let r = b * u;
    let t = c * v;
    let first = p + q;
    let second = r + t;
    let rest = p * v + y * r + y * t;
    assert(first * second == p * r + p * t + q * r + q * t) by (nonlinear_arith)
        requires
            first == p + q,
            second == r + t,
    ;
    lemma_products_swap(a as int, x, b as int, u);
    assert(p * t == c * (p * v)) by (nonlinear_arith)
        requires
            t == c * v,
    ;
    assert(q * r == c * (y * r)) by (nonlinear_arith)
        requires
            q == c * y,
    ;
    assert(q * t == c * (y * t)) by (nonlinear_arith)
        requires
            q == c * y,
    ;
    assert(c * rest == c * (p * v) + c * (y * r) + c * (y * t)) by (nonlinear_arith)
        requires
            rest == p * v + y * r + y * t,
    ;
    assert(first * second == (a * b) * (x * u) + c * rest);
    assert(first * second == 1) by (nonlinear_arith)
        requires
            first == 1,
            second == 1,
    ;
    lemma_combination_coprime(a * b, c, x * u, rest);
}

/// The sizes without sign of a power and of its base: the one is the power
/// of the other.
pub proof fn lemma_magnitude_power(n: int, k: nat)
    ensures
        magnitude(pow(n, k)) == pow(magnitude(n) as int, k),
    decreases k,
{
    reveal(pow);
    if k > 0 {
        lemma_magnitude_power(n, (k - 1) as nat);
        let rest = pow(n, (k - 1) as nat);
        assert(magnitude(n * rest) == magnitude(n) * magnitude(rest)) by (nonlinear_arith);
    }
}

/// Powers of two numbers without a common divisor have none.
pub proof fn lemma_coprime_powers(a: nat, c: nat, k: nat)
    requires
        gcd(a, c) == 1,
    ensures
        pow(a as int, k) >= 0,
        pow(c as int, k) >= 0,
        gcd(pow(a as int, k) as nat, pow(c as int, k) as nat) == 1,
{
    lemma_coprime_power(a, c, k);
    lemma_coprime_symmetric(pow(a as int, k) as nat, c);
    lemma_coprime_power(c, pow(a as int, k) as nat, k);
    lemma_coprime_symmetric(pow(c as int, k) as nat, pow(a as int, k) as nat);
}

/// A power of a number that has no divisor in common with another has none
/// in common with it.
proof fn lemma_coprime_power(a: nat, c: nat, k: nat)
    requires
        gcd(a, c) == 1,
    ensures
        pow(a as int, k) >= 0,
        gcd(pow(a as int, k) as nat, c) == 1,
    decreases k,
{
    reveal(pow);
    if k == 0 {
        lemma_combination_coprime(1, c, 1, 0);
    } else {
        lemma_coprime_power(a, c, (k - 1) as nat);
        let rest = pow(a as int, (k - 1) as nat);
        assert(a * rest >= 0) by (nonlinear_arith)
            requires
                a >= 0,
                rest >= 0,
        ;
        lemma_coprime_product(a, rest as nat, c);
    }
}

/// A positive number that divides another and is divided by it equals it.
proof fn lemma_divide_each_other(a: int, b: int, k: int, m: int)
    requires
        a > 0,
        b > 0,
        b == a * k,
        a == b * m,
    ensures
        a == b,
{
    assert(a == b) by (nonlinear_arith)
        requires
            a > 0,
            b > 0,
            b == a * k,
            a == b * m,
    ;
}

/// Where `n1 / d1` is in lowest terms and equals `n2 / d2`, `d1` divides `d2`.
proof fn lemma_denominator_divides(n1: int, d1: int, n2: int, d2: int) -> (k: int)
    requires
        d1 > 0,
        d2 > 0,
        gcd(magnitude(n1), d1 as nat) == 1,
        n1 * d2 == n2 * d1,
    ensures
        d2 == d1 * k,
{
    let m = magnitude(n1);
    let (x, y) = lemma_bezout(m, d1 as nat);
    assert(m * x + d1 * y == 1);
    if n1 < 0 {
        let k = d2 * y - n2 * x;
        assert(d2 == d1 * k) by (nonlinear_arith)
            requires
                (-n1) * x + d1 * y == 1,
                n1 * d2 == n2 * d1,
                k == d2 * y - n2 * x,
        ;
        k
    } else {
        let k = d2 * y + n2 * x;
        assert(d2 == d1 * k) by (nonlinear_arith)
            requires
                n1 * x + d1 * y == 1,
                n1 * d2 == n2 * d1,
                k == d2 * y + n2 * x,
        ;
        k
    }
}

/// Two fractions in lowest terms with positive denominators that have the
/// same value are the same fraction.
pub proof fn lemma_lowest_terms_unique(n1: int, d1: int, n2: int, d2: int)
    requires
        d1 > 0,
        d2 > 0,
        gcd(magnitude(n1), d1 as nat) == 1,
        gcd(magnitude(n2), d2 as nat) == 1,
        n1 * d2 == n2 * d1,
    ensures
        n1 == n2,
        d1 == d2,
{
    let k = lemma_denominator_divides(n1, d1, n2, d2);
    let m = lemma_denominator_divides(n2, d2, n1, d1);
    lemma_divide_each_other(d1, d2, k, m);
    assert(n1 == n2) by (nonlinear_arith)
        requires
            n1 * d2 == n2 * d1,
            d1 == d2,
            d1 > 0,
    ;
}

} // verus!
