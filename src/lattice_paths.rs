//! The number of routes through a square grid, moving only right and down:
//! the central binomial coefficient, built as a product of fractions of
//! `num-rational`.

use vstd::prelude::*;

verus! {

use crate::permutation::fact;

/// Relies on `num_rational::Ratio::new` and `Ratio`'s `*`: the product of
/// `a.0 / a.1` and `b.0 / b.1` in lowest terms, with a positive
/// denominator. The cross-cancelled products that `*` forms are no larger
/// than `a.0 * b.0` and `a.1 * b.1`.
#[verifier::external_body]
fn ratio_product(a: (i64, i64), b: (i64, i64)) -> (r: (i64, i64))
    requires
        a.0 >= 0,
        a.1 > 0,
        b.0 >= 0,
        b.1 > 0,
        a.0 * b.0 <= i64::MAX,
        a.1 * b.1 <= i64::MAX,
    ensures
        r.1 > 0,
        r.0 * (a.1 * b.1) == (a.0 * b.0) * r.1,
{
    let product = num_rational::Rational64::new(a.0, a.1) * num_rational::Rational64::new(b.0, b.1);
    (*product.numer(), *product.denom())
}

proof fn lemma_same_quotient(n: int, d: int, m: int, q: int)
    requires
        n >= 0,
        d > 0,
        m >= 0,
        q > 0,
        n * q == m * d,
    ensures
        n / d == m / q,
{
    let x = n / d;
    vstd::arithmetic::div_mod::lemma_fundamental_div_mod(n, d);
    assert(0 <= n % d < d);
    assert(x * q <= m && m < (x + 1) * q) by (nonlinear_arith)
        requires
            n == d * x + n % d,
            0 <= n % d < d,
            n * q == m * d,
            d > 0,
            q > 0,
    ;
    assert((x + 1) * q == x * q + q) by (nonlinear_arith);
    vstd::arithmetic::div_mod::lemma_fundamental_div_mod_converse(m, q, x, m - x * q);
}

/// The number of routes from the top left to the bottom right corner of a
/// `width` by `width` grid, `(2 width)! / (width!)^2`. `None` when a step
/// would leave the range of `i64`.
pub fn solve(width: i64) -> (r: Option<i64>)
    requires
        0 <= width <= 1_000_000,
    ensures
        r matches Some(n) ==> n == fact((2 * width) as nat) / (fact(width as nat) * fact(width as nat)),
{
    let ghost w = width as nat;
    let mut acc: (i64, i64) = (1, 1);
    let mut i: i64 = 1;
    assert(fact(0) == 1);
    assert(1 * fact(0) * fact(w) == fact(w) * 1) by (nonlinear_arith)
        requires
            fact(0) == 1,
    ;
    assert(((w + 1 - 1) as nat) == w);
    while i <= width
        invariant
            1 <= i <= width + 1,
            width <= 1_000_000,
            w == width,
            acc.0 >= 0,
            acc.1 > 0,
            acc.0 * fact((i - 1) as nat) * fact(w) == fact((w + i - 1) as nat) * acc.1,
        decreases width + 1 - i,
    {
        let numer = match acc.0.checked_mul(width + i) {
            Some(n) => n,
            None => return None,
        };
        let denom = match acc.1.checked_mul(i) {
            Some(d) => d,
            None => return None,
        };
        let next = ratio_product(acc, (width + i, i));
        proof {
            let n = acc.0 as int;
            let d = acc.1 as int;
            let f = fact((i - 1) as nat) as int;
            let g = fact(w) as int;
            let h = fact((w + i - 1) as nat) as int;
            assert(fact(i as nat) == i * f);
            assert(d * i > 0) by (nonlinear_arith)
                requires
                    d > 0,
                    i > 0,
            ;
            assert(fact((w + i) as nat) == (w + i) * h);
            assert(next.0 * fact(i as nat) * g == fact((w + i) as nat) * next.1) by (nonlinear_arith)
                requires
                    next.0 * (d * i) == (n * (w + i)) * next.1,
                    n * f * g == h * d,
                    fact(i as nat) == i * f,
                    fact((w + i) as nat) == (w + i) * h,
                    d > 0,
                    i > 0,
            ;
            assert(next.0 >= 0) by (nonlinear_arith)
                requires
                    next.0 * (d * i) == (n * (w + i)) * next.1,
                    n >= 0,
                    w + i > 0,
                    d * i > 0,
                    next.1 > 0,
            ;
        }
        acc = next;
        i = i + 1;
    }
    proof {
        crate::permutation::lemma_fact_positive(w);
        assert(fact(w) * fact(w) > 0) by (nonlinear_arith)
            requires
                fact(w) >= 1,
        ;
        assert(acc.0 * (fact(w) * fact(w)) == fact(2 * w) * acc.1) by (nonlinear_arith)
            requires
                acc.0 * fact(w) * fact(w) == fact((w + w) as nat) * acc.1,
        ;
        lemma_same_quotient(acc.0 as int, acc.1 as int, fact(2 * w) as int, (fact(w) * fact(w)) as int);
    }
    // the integer part of the fraction, rounding towards zero
    Some(acc.0 / acc.1)
}

} // verus!
