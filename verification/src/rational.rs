//! Exact fractions of machine integers, kept in lowest terms.
//!
//! The arithmetic itself is done by the `num` crate. A `Rational` holds the
//! numerator and the denominator as plain integers; what the operations
//! return is stated over `Rat`, a fraction of unbounded integers.

use crate::lowest_terms::{
    gcd, lemma_combination_coprime, lemma_coprime_powers, lemma_coprime_symmetric,
    lemma_gcd_positive, lemma_lowest_terms_unique, lemma_magnitude_power, lemma_products_swap,
    lemma_quotients_coprime, magnitude,
};
use num::rational::Ratio;
use vstd::arithmetic::div_mod::lemma_div_multiples_vanish;
use vstd::arithmetic::mul::{lemma_mul_is_associative, lemma_mul_is_commutative};
use vstd::arithmetic::power::{lemma_pow_positive, pow};
use vstd::prelude::*;

verus! {

/// A fraction of two integers.
pub struct Rat {
    pub num: int,
    pub den: int,
}

/// Whether `x` is a value of `isize`.
pub open spec fn in_isize(x: int) -> bool {
    isize::MIN <= x <= isize::MAX
}

/// The least common multiple of two positive numbers, as a product of one of
/// them with what the other has beyond their greatest common divisor.
pub open spec fn lcm(a: int, b: int) -> int {
    a * (b / (gcd(a as nat, b as nat) as int))
}

impl Rat {
    /// Whether the fraction is in lowest terms, with a positive denominator.
    pub open spec fn wf(self) -> bool {
        self.den > 0 && gcd(magnitude(self.num), self.den as nat) == 1
    }

    /// Whether numerator and denominator are values of `isize`.
    pub open spec fn fits(self) -> bool {
        in_isize(self.num) && 0 < self.den <= isize::MAX
    }

    /// The whole number `i`.
    pub open spec fn integer(i: int) -> Rat {
        Rat { num: i, den: 1 }
    }

    /// The fraction `n / d` in lowest terms, for `d != 0`.
    pub open spec fn lowest(n: int, d: int) -> Rat {
        let g = gcd(magnitude(n), magnitude(d)) as int;
        if d > 0 {
            Rat { num: n / g, den: d / g }
        } else {
            Rat { num: (-n) / g, den: (-d) / g }
        }
    }

    /// Whether the fraction is 0.
    pub open spec fn is_zero(self) -> bool {
        self.num == 0
    }

    /// Whether the fraction is 1.
    pub open spec fn is_one(self) -> bool {
        self.num == self.den
    }

    /// The sum of two fractions.
    pub open spec fn plus(self, other: Rat) -> Rat {
        Rat::lowest(self.num * other.den + other.num * self.den, self.den * other.den)
    }

    /// The product of two fractions.
    pub open spec fn times(self, other: Rat) -> Rat {
        Rat::lowest(self.num * other.num, self.den * other.den)
    }

    /// The fraction raised to the power `k`. A negative power is the power of
    /// the reciprocal, which has the sign in its numerator.
    pub open spec fn power(self, k: int) -> Rat {
        if k >= 0 {
            Rat { num: pow(self.num, k as nat), den: pow(self.den, k as nat) }
        } else if pow(self.num, (-k) as nat) > 0 {
            Rat { num: pow(self.den, (-k) as nat), den: pow(self.num, (-k) as nat) }
        } else {
            Rat { num: -pow(self.den, (-k) as nat), den: -pow(self.num, (-k) as nat) }
        }
    }

    /// Whether this fraction is smaller than the other, both with positive
    /// denominators.
    pub open spec fn less(self, other: Rat) -> bool {
        self.num * other.den < other.num * self.den
    }

    /// The text of the fraction: the numerator alone for a whole number,
    /// else numerator and denominator with `/` between them.
    pub open spec fn text(self) -> Seq<char> {
        if self.den == 1 {
            integer_text(self.num)
        } else {
            integer_text(self.num) + seq!['/'] + integer_text(self.den)
        }
    }

    /// Whether the two fractions can be added within `isize`: with equal
    /// denominators the sum of the numerators fits; else the least common
    /// denominator, both numerators brought to it, and their sum fit.
    pub open spec fn sum_fits(self, other: Rat) -> bool {
        if self.den == other.den {
            in_isize(self.num + other.num)
        } else {
            let l = lcm(self.den, other.den);
            &&& in_isize(l)
            &&& in_isize(self.num * (l / self.den))
            &&& in_isize(other.num * (l / other.den))
            &&& in_isize(self.num * (l / self.den) + other.num * (l / other.den))
        }
    }

    /// Whether the two fractions can be multiplied within `isize`: the
    /// product in lowest terms fits.
    pub open spec fn product_fits(self, other: Rat) -> bool {
        self.times(other).fits()
    }

    /// Whether the power `k` can be taken within `isize`: the power fits; for
    /// a negative `k`, the power of the denominator fits before it becomes the
    /// numerator, and no power of 0 is inverted.
    pub open spec fn power_fits(self, k: int) -> bool {
        &&& self.power(k).fits()
        &&& k < 0 ==> self.num != 0 && pow(self.den, (-k) as nat) <= isize::MAX
    }
}

/// The character of the decimal digit `d`.
pub open spec fn digit(d: int) -> char {
    ((48 + d) as u8) as char
}

/// The decimal digits of `n`, the highest first.
pub open spec fn digits(n: nat) -> Seq<char>
    decreases n,
{
    if n < 10 {
        seq![digit(n as int)]
    } else {
        digits(n / 10).push(digit((n % 10) as int))
    }
}

/// The decimal text of the integer `i`, with `-` before a negative one.
pub open spec fn integer_text(i: int) -> Seq<char> {
    if i < 0 {
        seq!['-'] + digits((-i) as nat)
    } else {
        digits(i as nat)
    }
}

/// A fraction in lowest terms is what it was.
pub proof fn lemma_lowest_of_wf(r: Rat)
    requires
        r.wf(),
    ensures
        Rat::lowest(r.num, r.den) == r,
{
    assert(r.num / 1 == r.num);
    assert(r.den / 1 == r.den);
}

/// A fraction brought to lowest terms is in lowest terms, and has the value
/// that it had.
pub proof fn lemma_lowest(n: int, d: int)
    requires
        d != 0,
    ensures
        Rat::lowest(n, d).wf(),
        Rat::lowest(n, d).num * d == n * Rat::lowest(n, d).den,
{
    let a = magnitude(n);
    let b = magnitude(d);
    let g = gcd(a, b) as int;
    lemma_gcd_positive(a, b);
    lemma_quotients_coprime(a, b);
    let qa = a as int / g;
    let qb = b as int / g;
    let r = Rat::lowest(n, d);
    assert(qb > 0) by (nonlinear_arith)
        requires
            b == g * qb,
            b > 0,
            g > 0,
    ;
    assert(qa >= 0) by (nonlinear_arith)
        requires
            a == g * qa,
            a >= 0,
            g > 0,
    ;
    // the numerator of the result is `qa` with a sign
    let top = if d > 0 {
        n
    } else {
        -n
    };
    if top >= 0 {
        assert(top == a);
        assert(r.num == qa);
    } else {
        assert(top == g * (-qa)) by (nonlinear_arith)
            requires
                a == g * qa,
                top == -a,
        ;
        lemma_div_multiples_vanish(-qa, g);
        assert(r.num == -qa);
    }
    assert(r.den == qb);
    assert(magnitude(r.num) == qa);
    assert(r.num * d == n * r.den) by (nonlinear_arith)
        requires
            a == g * qa,
            b == g * qb,
            r.den == qb,
            r.num == qa || r.num == -qa,
            (r.num == qa) <==> ((d > 0 && n >= 0) || (d < 0 && n <= 0)) || qa == 0,
            a == n || a == -n,
            a >= 0,
            b == d || b == -d,
            b > 0,
            (a == n) <==> n >= 0,
            (b == d) <==> d > 0,
            g > 0,
    ;
}

/// Two fractions in lowest terms with the same value are the same.
pub proof fn lemma_same_value(a: Rat, b: Rat)
    requires
        a.wf(),
        b.wf(),
        a.num * b.den == b.num * a.den,
    ensures
        a == b,
{
    lemma_lowest_terms_unique(a.num, a.den, b.num, b.den);
}

/// Of two different fractions in lowest terms one is smaller than the other.
pub proof fn lemma_less_or_same(a: Rat, b: Rat)
    requires
        a.wf(),
        b.wf(),
    ensures
        a == b || a.less(b) || b.less(a),
        !(a.less(b) && b.less(a)),
        !a.less(a),
{
    if a.num * b.den == b.num * a.den {
        lemma_same_value(a, b);
    }
}

/// The order of fractions is transitive.
pub proof fn lemma_less_transitive(a: Rat, b: Rat, c: Rat)
    requires
        a.den > 0,
        b.den > 0,
        c.den > 0,
        a.less(b),
        b.less(c),
    ensures
        a.less(c),
{
    assert(a.num * c.den < c.num * a.den) by (nonlinear_arith)
        requires
            a.den > 0,
            b.den > 0,
            c.den > 0,
            a.num * b.den < b.num * a.den,
            b.num * c.den < c.num * b.den,
    ;
}

/// Whether two fractions with positive denominators have the same value.
pub open spec fn same_value(a: Rat, b: Rat) -> bool {
    a.num * b.den == b.num * a.den
}

/// Fractions that have the value of a third have the same value.
pub proof fn lemma_same_value_transitive(a: Rat, b: Rat, c: Rat)
    requires
        a.den > 0,
        b.den > 0,
        c.den > 0,
        same_value(a, b),
        same_value(b, c),
    ensures
        same_value(a, c),
{
    let left = a.num * c.den;
    let right = c.num * a.den;
    assert(left * b.den == right * b.den) by (nonlinear_arith)
        requires
            a.num * b.den == b.num * a.den,
            b.num * c.den == c.num * b.den,
            left == a.num * c.den,
            right == c.num * a.den,
    ;
    assert(left == right) by (nonlinear_arith)
        requires
            left * b.den == right * b.den,
            b.den > 0,
    ;
}

/// The value of a sum is the sum of the values, over the product of the
/// denominators.
pub proof fn lemma_plus_value(a: Rat, b: Rat, x: Rat, y: Rat)
    requires
        a.den > 0,
        b.den > 0,
        x.den > 0,
        y.den > 0,
        same_value(a, x),
        same_value(b, y),
    ensures
        same_value(a.plus(b), Rat { num: x.num * y.den + y.num * x.den, den: x.den * y.den }),
        x.den * y.den > 0,
{
    let n = a.num * b.den + b.num * a.den;
    let d = a.den * b.den;
    let m = x.num * y.den + y.num * x.den;
    let e = x.den * y.den;
    assert(d > 0 && e > 0) by (nonlinear_arith)
        requires
            d == a.den * b.den,
            e == x.den * y.den,
            a.den > 0,
            b.den > 0,
            x.den > 0,
            y.den > 0,
    ;
    lemma_lowest(n, d);
    let r = a.plus(b);
    // both sides are the same sums of products of four factors
    lemma_products_swap(a.num, b.den, x.den, y.den);
    lemma_products_swap(b.num, a.den, y.den, x.den);
    lemma_products_swap(x.num, y.den, a.den, b.den);
    lemma_products_swap(y.num, x.den, b.den, a.den);
    let t1 = (a.num * b.den) * (x.den * y.den);
    let t2 = (b.num * a.den) * (y.den * x.den);
    let u1 = (x.num * y.den) * (a.den * b.den);
    let u2 = (y.num * x.den) * (b.den * a.den);
    assert(x.den * y.den == y.den * x.den && a.den * b.den == b.den * a.den) by (nonlinear_arith);
    assert(n * e == t1 + t2) by (nonlinear_arith)
        requires
            n == a.num * b.den + b.num * a.den,
            t1 == (a.num * b.den) * e,
            t2 == (b.num * a.den) * e,
    ;
    assert(m * d == u1 + u2) by (nonlinear_arith)
        requires
            m == x.num * y.den + y.num * x.den,
            u1 == (x.num * y.den) * d,
            u2 == (y.num * x.den) * d,
    ;
    assert(t1 == u1) by (nonlinear_arith)
        requires
            t1 == (a.num * x.den) * (b.den * y.den),
            u1 == (x.num * a.den) * (y.den * b.den),
            a.num * x.den == x.num * a.den,
    ;
    assert(t2 == u2) by (nonlinear_arith)
        requires
            t2 == (b.num * y.den) * (a.den * x.den),
            u2 == (y.num * b.den) * (x.den * a.den),
            b.num * y.den == y.num * b.den,
    ;
    assert(n * e == m * d);
    assert((r.num * e) * d == (m * r.den) * d) by (nonlinear_arith)
        requires
            r.num * d == n * r.den,
            n * e == m * d,
    ;
    assert(r.num * e == m * r.den) by (nonlinear_arith)
        requires
            (r.num * e) * d == (m * r.den) * d,
            d > 0,
    ;
}

/// The value of a fraction times a whole number.
pub proof fn lemma_times_integer_value(a: Rat, k: int)
    requires
        a.den > 0,
    ensures
        same_value(a.times(Rat::integer(k)), Rat { num: a.num * k, den: a.den }),
{
    assert(a.den * 1 == a.den) by (nonlinear_arith);
    lemma_lowest(a.num * k, a.den);
}

/// A fraction in lowest terms is 0 only if it has the value of a fraction
/// with the numerator 0.
pub proof fn lemma_zero_value(a: Rat, b: Rat)
    requires
        a.den > 0,
        b.den > 0,
        same_value(a, b),
    ensures
        a.num == 0 <==> b.num == 0,
{
    assert(a.num == 0 <==> b.num == 0) by (nonlinear_arith)
        requires
            a.num * b.den == b.num * a.den,
            a.den > 0,
            b.den > 0,
    ;
}

/// Sums and products of fractions are in lowest terms.
pub proof fn lemma_results_wf(a: Rat, b: Rat)
    requires
        a.den > 0,
        b.den > 0,
    ensures
        a.plus(b).wf(),
        a.times(b).wf(),
{
    assert(a.den * b.den > 0) by (nonlinear_arith)
        requires
            a.den > 0,
            b.den > 0,
    ;
    lemma_lowest(a.num * b.den + b.num * a.den, a.den * b.den);
    lemma_lowest(a.num * b.num, a.den * b.den);
}

/// The whole number `n` over 1 is in lowest terms as it is.
pub proof fn lemma_lowest_whole(n: int)
    ensures
        Rat::lowest(n, 1) == Rat::integer(n),
{
    lemma_integer_wf(n);
    lemma_lowest_of_wf(Rat::integer(n));
}

/// Sums and products of whole numbers are the whole numbers that they are.
pub proof fn lemma_whole_arithmetic(a: int, b: int)
    ensures
        Rat::integer(a).plus(Rat::integer(b)) == Rat::integer(a + b),
        Rat::integer(a).times(Rat::integer(b)) == Rat::integer(a * b),
        Rat::integer(a).sum_fits(Rat::integer(b)) == in_isize(a + b),
        Rat::integer(a).product_fits(Rat::integer(b)) == in_isize(a * b),
{
    lemma_lowest_whole(a + b);
    lemma_lowest_whole(a * b);
    assert(a * 1 + b * 1 == a + b);
    assert(1int * 1int == 1int);
}

/// A fraction in lowest terms that is 0 is the whole number 0, and adding it
/// changes nothing.
pub proof fn lemma_plus_zero(a: Rat, zero: Rat)
    requires
        a.wf(),
        zero.wf(),
        zero.is_zero(),
    ensures
        zero == Rat::integer(0),
        a.plus(zero) == a,
        zero.plus(a) == a,
{
    assert(gcd(0, zero.den as nat) == zero.den) by {
        reveal_with_fuel(gcd, 3);
    }
    lemma_lowest_of_wf(a);
    assert(a.num * 1 + 0 * a.den == a.num);
    assert(0 * a.den + a.num * 1 == a.num);
    assert(a.den * 1 == a.den);
    assert(1 * a.den == a.den);
}

/// The sum of two fractions is the same in either order.
pub proof fn lemma_plus_commutes(a: Rat, b: Rat)
    ensures
        a.plus(b) == b.plus(a),
{
    lemma_mul_is_commutative(a.den, b.den);
}

/// The sum of three fractions is the same however they are grouped.
pub proof fn lemma_plus_associates(a: Rat, b: Rat, c: Rat)
    requires
        a.den > 0,
        b.den > 0,
        c.den > 0,
    ensures
        a.plus(b).plus(c) == a.plus(b.plus(c)),
{
    let ab = a.plus(b);
    let bc = b.plus(c);
    let left = ab.plus(c);
    let right = a.plus(bc);
    lemma_results_wf(a, b);
    lemma_results_wf(b, c);
    lemma_results_wf(ab, c);
    lemma_results_wf(a, bc);
    // the sums of two, before they are brought to lowest terms
    let x = Rat { num: a.num * b.den + b.num * a.den, den: a.den * b.den };
    let y = Rat { num: b.num * c.den + c.num * b.den, den: b.den * c.den };
    lemma_plus_value(a, b, a, b);
    lemma_plus_value(b, c, b, c);
    // the sums of three
    let u = Rat { num: x.num * c.den + c.num * x.den, den: x.den * c.den };
    let v = Rat { num: a.num * y.den + y.num * a.den, den: a.den * y.den };
    lemma_plus_value(ab, c, x, c);
    lemma_plus_value(a, bc, a, y);
    lemma_mul_is_associative(a.den, b.den, c.den);
    let ad = a.den;
    let bd = b.den;
    let cd = c.den;
    let an = a.num;
    let bn = b.num;
    let cn = c.num;
    assert((an * bd + bn * ad) * cd == an * (bd * cd) + (bn * cd) * ad) by (nonlinear_arith);
    assert(cn * (ad * bd) == (cn * bd) * ad) by (nonlinear_arith);
    assert((bn * cd + cn * bd) * ad == (bn * cd) * ad + (cn * bd) * ad) by (nonlinear_arith);
    assert(u == v);
    assert(same_value(u, right));
    lemma_same_value_transitive(left, u, right);
    lemma_same_value(left, right);
}

/// Two fractions in lowest terms that give the same sum with a third are the
/// same.
pub proof fn lemma_plus_cancels(a: Rat, b: Rat, c: Rat)
    requires
        a.wf(),
        b.wf(),
        c.den > 0,
        a.plus(c) == b.plus(c),
    ensures
        a == b,
{
    let sum = a.plus(c);
    lemma_results_wf(a, c);
    let x = Rat { num: a.num * c.den + c.num * a.den, den: a.den * c.den };
    let y = Rat { num: b.num * c.den + c.num * b.den, den: b.den * c.den };
    lemma_plus_value(a, c, a, c);
    lemma_plus_value(b, c, b, c);
    assert(same_value(x, sum));
    lemma_same_value_transitive(x, sum, y);
    // x.num * y.den == y.num * x.den, sorted by the factors of `c`
    let square = c.den * c.den;
    let mixed = c.num * c.den;
    let both = a.den * b.den;
    lemma_products_swap(a.num, c.den, b.den, c.den);
    lemma_products_swap(c.num, a.den, c.den, b.den);
    lemma_products_swap(b.num, c.den, a.den, c.den);
    lemma_products_swap(c.num, b.den, c.den, a.den);
    lemma_mul_is_commutative(b.den, c.den);
    lemma_mul_is_commutative(a.den, c.den);
    lemma_mul_is_commutative(a.den, b.den);
    let first = a.num * c.den;
    let second = c.num * a.den;
    let third = b.num * c.den;
    let fourth = c.num * b.den;
    assert(x.num * y.den == first * y.den + second * y.den) by (nonlinear_arith)
        requires
            x.num == first + second,
    ;
    assert(y.num * x.den == third * x.den + fourth * x.den) by (nonlinear_arith)
        requires
            y.num == third + fourth,
    ;
    let left = a.num * b.den;
    let right = b.num * a.den;
    assert(left * square + mixed * both == right * square + mixed * both);
    assert(left == right) by (nonlinear_arith)
        requires
            left * square == right * square,
            square == c.den * c.den,
            c.den > 0,
    ;
    lemma_same_value(a, b);
}

/// A power of a fraction in lowest terms is in lowest terms.
pub proof fn lemma_power_wf(a: Rat, k: int)
    requires
        a.wf(),
        k < 0 ==> a.num != 0,
    ensures
        a.power(k).wf(),
{
    let e = if k >= 0 {
        k as nat
    } else {
        (-k) as nat
    };
    let top = pow(a.num, e);
    let bottom = pow(a.den, e);
    lemma_magnitude_power(a.num, e);
    lemma_coprime_powers(magnitude(a.num), a.den as nat, e);
    lemma_pow_positive(a.den, e);
    if k < 0 {
        lemma_pow_positive(magnitude(a.num) as int, e);
        lemma_coprime_symmetric(magnitude(top), bottom as nat);
    }
}

/// A whole number is a fraction in lowest terms.
pub proof fn lemma_integer_wf(i: int)
    ensures
        Rat::integer(i).wf(),
{
    lemma_combination_coprime(magnitude(i), 1, 0, 1);
}

/// One term consisting of a numerator and a denominator: a rational number in
/// lowest terms.
#[derive(Copy, Clone, Debug, PartialEq, Eq, Structural)]
pub struct Rational {
    pub numer: isize,
    pub denom: isize,
}

impl View for Rational {
    type V = Rat;

    open spec fn view(&self) -> Rat {
        Rat { num: self.numer as int, den: self.denom as int }
    }
}

/// `Ratio::new` of `num`: the fraction in lowest terms with a positive
/// denominator. It panics on a zero denominator, and overflows where the
/// signs have to be turned and a part is the least value of `isize`.
#[verifier::external_body]
fn ratio_new(numer: isize, denom: isize) -> (r: Rational)
    requires
        denom != 0,
        Rat::lowest(numer as int, denom as int).fits(),
    ensures
        r@ == Rat::lowest(numer as int, denom as int),
{
    let q = Ratio::new(numer, denom);
    Rational { numer: *q.numer(), denom: *q.denom() }
}

/// The `+` of `num` on two `Ratio`s in lowest terms: their sum in lowest
/// terms. It brings both to the least common denominator, unless they share
/// one, and adds the numerators; each of these steps has to fit.
#[verifier::external_body]
fn ratio_add(a: Rational, b: Rational) -> (r: Rational)
    requires
        a@.wf(),
        b@.wf(),
        a@.sum_fits(b@),
    ensures
        r@ == a@.plus(b@),
{
    let q = Ratio::new_raw(a.numer, a.denom) + Ratio::new_raw(b.numer, b.denom);
    Rational { numer: *q.numer(), denom: *q.denom() }
}

/// The `*` of `num` on two `Ratio`s in lowest terms: their product in lowest
/// terms. It cancels crosswise before it multiplies, so that the two products
/// it forms are the parts of the result.
#[verifier::external_body]
fn ratio_mul(a: Rational, b: Rational) -> (r: Rational)
    requires
        a@.wf(),
        b@.wf(),
        a@.product_fits(b@),
    ensures
        r@ == a@.times(b@),
{
    let q = Ratio::new_raw(a.numer, a.denom) * Ratio::new_raw(b.numer, b.denom);
    Rational { numer: *q.numer(), denom: *q.denom() }
}

/// `Ratio::pow` of `num` on a `Ratio` in lowest terms: the powers of numerator
/// and denominator, turned over for a negative exponent, with the sign kept in
/// the numerator. Both powers are formed before they are turned over, and
/// have to fit. It panics where 0 is to be inverted.
#[verifier::external_body]
fn ratio_pow(a: Rational, exponent: i32) -> (r: Rational)
    requires
        a@.wf(),
        a@.power_fits(exponent as int),
    ensures
        r@ == a@.power(exponent as int),
{
    let q = Ratio::new_raw(a.numer, a.denom).pow(exponent);
    Rational { numer: *q.numer(), denom: *q.denom() }
}

/// The `<` of `num` on two `Ratio`s with positive denominators: whether the
/// first is the smaller number.
#[verifier::external_body]
fn ratio_lt(a: Rational, b: Rational) -> (less: bool)
    requires
        a@.wf(),
        b@.wf(),
    ensures
        less == a@.less(b@),
{
    Ratio::new_raw(a.numer, a.denom) < Ratio::new_raw(b.numer, b.denom)
}

/// The `Display` of `num` for a `Ratio` with a positive denominator: the
/// numerator in decimal digits, followed by `/` and the denominator unless
/// that is 1.
#[verifier::external_body]
fn ratio_text(a: Rational) -> (text: String)
    requires
        a@.wf(),
    ensures
        text@ == a@.text(),
{
    format!("{}", Ratio::new_raw(a.numer, a.denom))
}

impl Rational {
    /// Whether the number is in lowest terms, with a positive denominator.
    pub open spec fn wf(&self) -> bool {
        self@.wf()
    }

    /// Creates the rational number `numer / denom`, in lowest terms.
    pub fn new(numer: isize, denom: isize) -> (r: Self)
        requires
            denom != 0,
            Rat::lowest(numer as int, denom as int).fits(),
        ensures
            r.wf(),
            r@ == Rat::lowest(numer as int, denom as int),
    {
        proof {
            lemma_lowest(numer as int, denom as int);
        }
        ratio_new(numer, denom)
    }

    /// Creates the rational number that is the integer `t`.
    pub fn from_integer(t: isize) -> (r: Self)
        ensures
            r.wf(),
            r@ == Rat::integer(t as int),
    {
        proof {
            lemma_integer_wf(t as int);
        }
        Rational { numer: t, denom: 1 }
    }

    /// Returns the numerator.
    pub fn numer(&self) -> (n: isize)
        ensures
            n == self@.num,
    {
        self.numer
    }

    /// Returns the denominator.
    pub fn denom(&self) -> (d: isize)
        ensures
            d == self@.den,
    {
        self.denom
    }

    /// Returns whether the number is 0.
    pub fn is_zero(&self) -> (zero: bool)
        ensures
            zero == self@.is_zero(),
    {
        self.numer == 0
    }

    /// Returns whether the number is 1.
    pub fn is_one(&self) -> (one: bool)
        ensures
            one == self@.is_one(),
    {
        self.numer == self.denom
    }

    /// The sum of two rational numbers.
    pub fn plus(self, other: Rational) -> (r: Rational)
        requires
            self.wf(),
            other.wf(),
            self@.sum_fits(other@),
        ensures
            r.wf(),
            r@ == self@.plus(other@),
    {
        proof {
            lemma_results_wf(self@, other@);
        }
        ratio_add(self, other)
    }

    /// The product of two rational numbers.
    pub fn times(self, other: Rational) -> (r: Rational)
        requires
            self.wf(),
            other.wf(),
            self@.product_fits(other@),
        ensures
            r.wf(),
            r@ == self@.times(other@),
    {
        proof {
            lemma_results_wf(self@, other@);
        }
        ratio_mul(self, other)
    }

    /// The number raised to the power `exponent`.
    pub fn power(self, exponent: i32) -> (r: Rational)
        requires
            self.wf(),
            self@.power_fits(exponent as int),
        ensures
            r.wf(),
            r@ == self@.power(exponent as int),
    {
        proof {
            lemma_power_wf(self@, exponent as int);
        }
        ratio_pow(self, exponent)
    }

    /// The number as text: `3`, `-1/2`.
    pub fn to_string(&self) -> (text: String)
        requires
            self.wf(),
        ensures
            text@ == self@.text(),
    {
        ratio_text(*self)
    }

    /// Whether this number is smaller than the other.
    pub fn less(self, other: Rational) -> (less: bool)
        requires
            self.wf(),
            other.wf(),
        ensures
            less == self@.less(other@),
    {
        ratio_lt(self, other)
    }
}

} // verus!
