//! Single terms `c A^e` of a polynomial in the variable `A`.

use crate::rational::{lemma_less_or_same, Rat, Rational};
use std::cmp::Ordering;
use vstd::prelude::*;
use vstd::string::StringExecFns;

verus! {

/// What a `Term` stands for: a coefficient and an exponent of the variable.
pub struct Monomial {
    pub coefficient: Rat,
    pub exponent: Rat,
}

impl Monomial {
    /// Whether coefficient and exponent are fractions in lowest terms.
    pub open spec fn wf(self) -> bool {
        self.coefficient.wf() && self.exponent.wf()
    }

    /// The term `c A^e` with whole numbers `c` and `e`.
    pub open spec fn whole(coefficient: int, exponent: int) -> Monomial {
        Monomial { coefficient: Rat::integer(coefficient), exponent: Rat::integer(exponent) }
    }

    /// Whether the term is 0.
    pub open spec fn is_zero(self) -> bool {
        self.coefficient.is_zero()
    }

    /// Whether the term is 1.
    pub open spec fn is_one(self) -> bool {
        self.exponent.is_zero() && self.coefficient.is_one()
    }

    /// The product of two terms: coefficients multiply, exponents add.
    pub open spec fn times(self, other: Monomial) -> Monomial {
        Monomial {
            coefficient: self.coefficient.times(other.coefficient),
            exponent: self.exponent.plus(other.exponent),
        }
    }

    /// The term multiplied by the whole number `k`: the exponent stays.
    pub open spec fn scaled(self, k: int) -> Monomial {
        Monomial {
            coefficient: self.coefficient.times(Rat::integer(k)),
            exponent: self.exponent,
        }
    }

    /// The term raised to the power `k`: the coefficient is raised, the
    /// exponent multiplied.
    pub open spec fn power(self, k: int) -> Monomial {
        Monomial {
            coefficient: self.coefficient.power(k),
            exponent: self.exponent.times(Rat::integer(k)),
        }
    }

    /// The text of the term: coefficient, `A^`, exponent.
    pub open spec fn text(self) -> Seq<char> {
        self.coefficient.text() + "A^"@ + self.exponent.text()
    }

    /// Whether the product of the two terms can be formed within `isize`.
    pub open spec fn product_fits(self, other: Monomial) -> bool {
        self.coefficient.product_fits(other.coefficient) && self.exponent.sum_fits(other.exponent)
    }

    /// Whether the term can be multiplied by `k` within `isize`.
    pub open spec fn scaled_fits(self, k: int) -> bool {
        self.coefficient.product_fits(Rat::integer(k))
    }

    /// Whether the power `k` of the term can be formed within `isize`, with
    /// an exponent that `i32` holds.
    pub open spec fn power_fits(self, k: int) -> bool {
        &&& i32::MIN <= k <= i32::MAX
        &&& self.coefficient.power_fits(k)
        &&& self.exponent.product_fits(Rat::integer(k))
    }
}

/// One term consisting of a rational number coefficient and a rational number
/// exponent for the variable `A`.
#[derive(Copy, Clone, Debug, PartialEq, Eq, Structural)]
pub struct Term {
    pub coefficient: Rational,
    pub exponent: Rational,
}

impl View for Term {
    type V = Monomial;

    open spec fn view(&self) -> Monomial {
        Monomial { coefficient: self.coefficient@, exponent: self.exponent@ }
    }
}

/// The term that stands for `m`, where the parts of `m` are values of `isize`.
pub open spec fn term_of(m: Monomial) -> Term {
    Term {
        coefficient: Rational { numer: m.coefficient.num as isize, denom: m.coefficient.den as isize },
        exponent: Rational { numer: m.exponent.num as isize, denom: m.exponent.den as isize },
    }
}

impl vstd::std_specs::ops::MulSpecImpl for Term {
    open spec fn obeys_mul_spec() -> bool {
        true
    }

    open spec fn mul_req(self, rhs: Term) -> bool {
        self.wf() && rhs.wf() && self@.product_fits(rhs@)
    }

    open spec fn mul_spec(self, rhs: Term) -> Term {
        term_of(self@.times(rhs@))
    }
}

impl std::ops::Mul for Term {
    type Output = Term;

    /// The product of two terms: coefficients multiply, exponents add.
    fn mul(self, rhs: Term) -> Term {
        self.times(rhs)
    }
}

impl vstd::std_specs::ops::MulSpecImpl<isize> for Term {
    open spec fn obeys_mul_spec() -> bool {
        true
    }

    open spec fn mul_req(self, rhs: isize) -> bool {
        self.wf() && self@.scaled_fits(rhs as int)
    }

    open spec fn mul_spec(self, rhs: isize) -> Term {
        term_of(self@.scaled(rhs as int))
    }
}

impl std::ops::Mul<isize> for Term {
    type Output = Term;

    /// The term multiplied by a whole number: the exponent is unchanged.
    fn mul(self, rhs: isize) -> Term {
        self.scaled(rhs)
    }
}

impl Term {
    /// Whether coefficient and exponent are in lowest terms.
    pub open spec fn wf(&self) -> bool {
        self@.wf()
    }

    /// Creates a new `Term` with the given whole coefficient and exponent.
    pub fn new(coefficient: isize, exponent: isize) -> (term: Self)
        ensures
            term.wf(),
            term@ == Monomial::whole(coefficient as int, exponent as int),
    {
        Term {
            coefficient: Rational::from_integer(coefficient),
            exponent: Rational::from_integer(exponent),
        }
    }

    /// Creates a new `Term` with the given rational coefficient and exponent.
    pub fn from_rationals(coefficient: Rational, exponent: Rational) -> (term: Self)
        requires
            coefficient.wf(),
            exponent.wf(),
        ensures
            term.wf(),
            term.coefficient == coefficient,
            term.exponent == exponent,
    {
        Term { coefficient, exponent }
    }

    /// Raises the `Term` to the given power.
    pub fn pow(&self, exponent: isize) -> (term: Self)
        requires
            self.wf(),
            self@.power_fits(exponent as int),
        ensures
            term.wf(),
            term@ == self@.power(exponent as int),
    {
        let by = Rational::from_integer(exponent);
        Term {
            coefficient: self.coefficient.power(exponent as i32),
            exponent: self.exponent.times(by),
        }
    }

    /// Returns whether this `Term` is equal to 0.
    pub fn is_zero(&self) -> (zero: bool)
        ensures
            zero == self@.is_zero(),
    {
        self.coefficient.is_zero()
    }

    /// Creates a `Term` that is equal to 0.
    pub fn zero() -> (term: Self)
        ensures
            term.wf(),
            term@ == Monomial::whole(0, 0),
    {
        Term::new(0, 0)
    }

    /// Returns whether this `Term` is equal to 1.
    pub fn is_one(&self) -> (one: bool)
        ensures
            one == self@.is_one(),
    {
        self.exponent.is_zero() && self.coefficient.is_one()
    }

    /// Creates a `Term` that is equal to 1.
    pub fn one() -> (term: Self)
        ensures
            term.wf(),
            term@ == Monomial::whole(1, 0),
    {
        Term::new(1, 0)
    }

    /// Returns the coefficient of the `Term`.
    pub fn coefficient(&self) -> (coefficient: Rational)
        ensures
            coefficient == self.coefficient,
    {
        self.coefficient
    }

    /// Returns the exponent of the `Term`.
    pub fn exponent(&self) -> (exponent: Rational)
        ensures
            exponent == self.exponent,
    {
        self.exponent
    }

    /// The product of two terms: coefficients multiply, exponents add.
    pub fn times(self, rhs: Term) -> (term: Term)
        requires
            self.wf(),
            rhs.wf(),
            self@.product_fits(rhs@),
        ensures
            term.wf(),
            term@ == self@.times(rhs@),
    {
        Term {
            coefficient: self.coefficient.times(rhs.coefficient),
            exponent: self.exponent.plus(rhs.exponent),
        }
    }

    /// The term multiplied by a whole number: the exponent is unchanged.
    pub fn scaled(self, rhs: isize) -> (term: Term)
        requires
            self.wf(),
            self@.scaled_fits(rhs as int),
        ensures
            term.wf(),
            term@ == self@.scaled(rhs as int),
    {
        Term {
            coefficient: self.coefficient.times(Rational::from_integer(rhs)),
            exponent: self.exponent,
        }
    }

    /// The term as text, such as `3A^5`.
    pub fn to_string(&self) -> (text: String)
        requires
            self.wf(),
        ensures
            text@ == self@.text(),
    {
        let mut text = self.coefficient.to_string();
        text.append("A^");
        let exponent = self.exponent.to_string();
        text.append(exponent.as_str());
        text
    }

    /// Compares just the exponents of the two `Term`s.
    pub fn compare_exponent(&self, other: &Term) -> (order: Ordering)
        requires
            self.wf(),
            other.wf(),
        ensures
            order is Less <==> self@.exponent.less(other@.exponent),
            order is Greater <==> other@.exponent.less(self@.exponent),
            order is Equal <==> self.exponent == other.exponent,
    {
        proof {
            lemma_less_or_same(self@.exponent, other@.exponent);
        }
        if self.exponent.less(other.exponent) {
            Ordering::Less
        } else if other.exponent.less(self.exponent) {
            Ordering::Greater
        } else {
            Ordering::Equal
        }
    }
}

} // verus!
