//! Binomial coefficients.

use vstd::arithmetic::div_mod::lemma_div_by_multiple;
use vstd::arithmetic::mul::lemma_mul_is_commutative;
use vstd::arithmetic::power2::{lemma2_to64, lemma_pow2_unfold, pow2};
use vstd::prelude::*;

verus! {

/// The number of ways to pick `k` of `n` things, by Pascal's rule.
pub open spec fn binomial(n: nat, k: nat) -> nat
    decreases n,
{
    if k == 0 {
        1
    } else if n == 0 {
        0
    } else {
        binomial((n - 1) as nat, (k - 1) as nat) + binomial((n - 1) as nat, k)
    }
}

/// The sum of the first `count` binomial coefficients of `n`.
pub open spec fn binomial_sum(n: nat, count: nat) -> nat
    decreases count,
{
    if count == 0 {
        0
    } else {
        binomial_sum(n, (count - 1) as nat) + binomial(n, (count - 1) as nat)
    }
}

/// The smaller of `k` and `n - k`: the number of factors that the
/// multiplicative formula takes.
pub open spec fn short_side(n: int, k: int) -> int {
    if k > n - k {
        n - k
    } else {
        k
    }
}

/// Whether the multiplicative formula for `binomial(n, k)` stays within
/// `isize`: its largest product is the result times the number of factors.
pub open spec fn binomial_fits(n: int, k: int) -> bool {
    0 <= k <= n ==> binomial(n as nat, short_side(n, k) as nat) * short_side(n, k) <= isize::MAX
}

/// There is no way to pick more than there is.
pub proof fn lemma_binomial_beyond(n: nat, k: nat)
    requires
        n < k,
    ensures
        binomial(n, k) == 0,
    decreases n,
{
    if n > 0 {
        lemma_binomial_beyond((n - 1) as nat, (k - 1) as nat);
        lemma_binomial_beyond((n - 1) as nat, k);
    }
}

/// There is one way to pick everything.
pub proof fn lemma_binomial_all(n: nat)
    ensures
        binomial(n, n) == 1,
    decreases n,
{
    if n > 0 {
        lemma_binomial_all((n - 1) as nat);
        lemma_binomial_beyond((n - 1) as nat, n);
    }
}

/// There is a way to pick `k` of `n` things where `k` is not beyond `n`.
pub proof fn lemma_binomial_positive(n: nat, k: nat)
    requires
        k <= n,
    ensures
        binomial(n, k) > 0,
    decreases n,
{
    if k > 0 && n > 0 {
        lemma_binomial_positive((n - 1) as nat, (k - 1) as nat);
    }
}

/// Binomial coefficients are symmetric: `C(n, k) == C(n, n - k)`.
pub proof fn lemma_binomial_symmetric(n: nat, k: nat)
    requires
        k <= n,
    ensures
        binomial(n, k) == binomial(n, (n - k) as nat),
    decreases n,
{
    if k == 0 || k == n {
        lemma_binomial_all(n);
    } else {
        lemma_binomial_symmetric((n - 1) as nat, (k - 1) as nat);
        lemma_binomial_symmetric((n - 1) as nat, k);
    }
}

/// The step of the multiplicative formula:
/// `(k + 1) * C(n, k + 1) == (n - k) * C(n, k)`.
pub proof fn lemma_binomial_step(n: nat, k: nat)
    ensures
        (k + 1) * binomial(n, k + 1) == (n - k) * binomial(n, k),
    decreases n,
{
    if n == 0 {
    } else if n <= k {
        lemma_binomial_beyond(n, k + 1);
        if n < k {
            lemma_binomial_beyond(n, k);
        } else {
            lemma_binomial_all(n);
        }
    } else {
        let m = (n - 1) as nat;
        let a = binomial(m, k) as int;
        let b = binomial(m, k + 1) as int;
        lemma_binomial_step(m, k);
        assert((k + 1) * b == (m - k) * a);
        if k == 0 {
            assert((k + 1) * (a + b) == (n - k) * a) by (nonlinear_arith)
                requires
                    (k + 1) * b == (m - k) * a,
                    a == 1,
                    k == 0,
                    m == n - 1,
            ;
        } else {
            let c = binomial(m, (k - 1) as nat) as int;
            lemma_binomial_step(m, (k - 1) as nat);
            assert(k * a == (m - (k - 1)) * c);
            assert((k + 1) * (a + b) == (n - k) * (c + a)) by (nonlinear_arith)
                requires
                    (k + 1) * b == (m - k) * a,
                    k * a == (m - (k - 1)) * c,
                    m == n - 1,
            ;
        }
    }
}

/// Up to the middle of a row, the products of the multiplicative formula grow.
pub proof fn lemma_binomial_products_grow(n: nat, j: nat, k: nat)
    requires
        j <= k,
        2 * k <= n,
    ensures
        binomial(n, j) * j <= binomial(n, k) * k,
    decreases k - j,
{
    if j < k {
        lemma_binomial_step(n, j);
        let a = binomial(n, j) as int;
        let b = binomial(n, j + 1) as int;
        assert(a * j <= b * (j + 1)) by (nonlinear_arith)
            requires
                (j + 1) * b == (n - j) * a,
                j + 1 <= n - j,
                a >= 0,
                j >= 0,
        ;
        lemma_binomial_products_grow(n, j + 1, k);
    }
}

/// Pascal's rule for the sums of two rows.
proof fn lemma_binomial_sum_rows(n: nat, count: nat)
    requires
        n > 0,
    ensures
        binomial_sum(n, count + 1) == binomial_sum((n - 1) as nat, count) + binomial_sum(
            (n - 1) as nat,
            count + 1,
        ),
    decreases count,
{
    if count > 0 {
        lemma_binomial_sum_rows(n, (count - 1) as nat);
    } else {
        assert(binomial_sum(n, 1) == binomial_sum(n, 0) + binomial(n, 0));
        assert(binomial_sum((n - 1) as nat, 1) == binomial_sum((n - 1) as nat, 0) + binomial(
            (n - 1) as nat,
            0,
        ));
    }
}

/// The binomial coefficients of `n` sum to `2^n`.
pub proof fn lemma_binomial_row_sum(n: nat)
    ensures
        binomial_sum(n, n + 1) == pow2(n),
    decreases n,
{
    if n == 0 {
        assert(binomial_sum(0, 1) == binomial_sum(0, 0) + binomial(0, 0));
        lemma2_to64();
    } else {
        let m = (n - 1) as nat;
        lemma_binomial_sum_rows(n, n);
        lemma_binomial_row_sum(m);
        lemma_binomial_beyond(m, n);
        assert(binomial_sum(m, n + 1) == binomial_sum(m, n) + binomial(m, n));
        lemma_pow2_unfold(n);
    }
}

/// A binomial coefficient is no larger than a sum that holds it.
proof fn lemma_binomial_in_sum(n: nat, k: nat, count: nat)
    requires
        k < count,
    ensures
        binomial(n, k) <= binomial_sum(n, count),
    decreases count,
{
    if k < count - 1 {
        lemma_binomial_in_sum(n, k, (count - 1) as nat);
    }
}

/// No binomial coefficient of `n` is larger than `2^n`.
pub proof fn lemma_binomial_bound(n: nat, k: nat)
    ensures
        binomial(n, k) <= pow2(n),
{
    if k <= n {
        lemma_binomial_in_sum(n, k, n + 1);
        lemma_binomial_row_sum(n);
    } else {
        lemma_binomial_beyond(n, k);
    }
}

/// Computes the binomial coefficient `C(n, k)` by the multiplicative formula,
/// over the smaller of `k` and `n - k` factors. Outside `0 <= k <= n` the
/// product is empty, and the result 1.
pub fn binomial_coefficient(n: isize, k: isize) -> (res: isize)
    requires
        binomial_fits(n as int, k as int),
    ensures
        0 <= k <= n ==> res == binomial(n as nat, k as nat),
        !(0 <= k <= n) ==> res == 1,
{
    if k < 0 || k > n {
        return 1;
    }
    let mut k = k;
    proof {
        lemma_binomial_symmetric(n as nat, k as nat);
    }
    if k > n - k {
        k = n - k;
    }
    let mut res: isize = 1;
    let mut i: isize = 0;
    while i < k
        invariant
            0 <= i <= k,
            2 * k <= n,
            res == binomial(n as nat, i as nat),
            binomial(n as nat, k as nat) * k <= isize::MAX,
        decreases k - i,
    {
        proof {
            lemma_binomial_step(n as nat, i as nat);
            lemma_binomial_products_grow(n as nat, (i + 1) as nat, k as nat);
            lemma_mul_is_commutative(i + 1, binomial(n as nat, (i + 1) as nat) as int);
            lemma_mul_is_commutative(n - i, res as int);
            lemma_div_by_multiple(binomial(n as nat, (i + 1) as nat) as int, i + 1);
        }
        res = res * (n - i);
        res = res / (i + 1);
        i += 1;
    }
    res
}

/// An iterator over the binomial coefficients for some `n`: it gives each
/// coefficient with its `k`, for `k` from 0 to `n`.
pub struct BinomialIter {
    n: isize,
    k: isize,
}

impl BinomialIter {
    /// The `n` whose coefficients are given.
    pub closed spec fn n(&self) -> int {
        self.n as int
    }

    /// The `k` of the coefficient that comes next.
    pub closed spec fn k(&self) -> int {
        self.k as int
    }

    /// Creates a new `BinomialIter` with the given `n`.
    pub fn new(n: isize) -> (iter: Self)
        ensures
            iter.n() == n,
            iter.k() == 0,
    {
        BinomialIter { n, k: 0 }
    }

    /// Gives the next coefficient with its `k`, or `None` after the last.
    pub fn next(&mut self) -> (item: Option<(isize, isize)>)
        requires
            0 <= old(self).k(),
            old(self).k() <= old(self).n() ==> old(self).k() < isize::MAX,
            binomial_fits(old(self).n(), old(self).k()),
        ensures
            final(self).n() == old(self).n(),
            old(self).k() <= old(self).n() ==> {
                &&& final(self).k() == old(self).k() + 1
                &&& item matches Some((coefficient, k))
                &&& coefficient == binomial(old(self).n() as nat, old(self).k() as nat)
                &&& k == old(self).k()
            },
            old(self).k() > old(self).n() ==> final(self).k() == old(self).k() && item is None,
    {
        if self.k <= self.n {
            let res = binomial_coefficient(self.n, self.k);
            self.k += 1;
            Some((res, self.k - 1))
        } else {
            None
        }
    }
}

} // verus!
