//! Integer facts shared by the other modules: divisibility, primality and
//! powers, with the lemmas that connect them.

use vstd::prelude::*;

verus! {

use vstd::arithmetic::div_mod::{lemma_fundamental_div_mod, lemma_mod_multiples_basic};
use vstd::arithmetic::mul::{lemma_mul_is_associative, lemma_mul_is_commutative, lemma_mul_inequality};

/// `n` is a prime number: at least 2 and without a divisor strictly between 1 and `n`.
pub open spec fn is_prime(n: int) -> bool {
    n >= 2 && forall|d: int| 2 <= d < n ==> #[trigger] (n % d) != 0
}

/// `b` raised to the natural power `e`.
pub open spec fn power(b: int, e: nat) -> int
    decreases e,
{
    if e == 0 {
        1
    } else {
        b * power(b, (e - 1) as nat)
    }
}

/// Some prime below `m` divides `k`.
pub open spec fn has_prime_factor_below(k: int, m: int) -> bool {
    exists|p: int| 2 <= p < m && is_prime(p) && #[trigger] (k % p) == 0
}

/// A multiple of a multiple of `a` is a multiple of `a`.
pub proof fn lemma_divides_trans(a: int, b: int, c: int)
    requires
        a > 0,
        b > 0,
        b % a == 0,
        c % b == 0,
    ensures
        c % a == 0,
{
    lemma_fundamental_div_mod(b, a);
    lemma_fundamental_div_mod(c, b);
    let x = b / a;
    let y = c / b;
    assert(c == b * y);
    assert(b == a * x);
    lemma_mul_is_associative(a, x, y);
    lemma_mul_is_commutative(a, x * y);
    lemma_mod_multiples_basic(x * y, a);
}

/// `a * k` is a multiple of `a`.
pub proof fn lemma_multiple(a: int, k: int)
    requires
        a > 0,
    ensures
        (a * k) % a == 0,
{
    lemma_mul_is_commutative(a, k);
    lemma_mod_multiples_basic(k, a);
}

/// A positive multiple of `d` is at least `d`.
pub proof fn lemma_divisor_le(d: int, n: int)
    requires
        d > 0,
        n > 0,
        n % d == 0,
    ensures
        d <= n,
{
    lemma_fundamental_div_mod(n, d);
    let q = n / d;
    assert(n == d * q);
    if q <= 0 {
        assert(d * q <= 0) by (nonlinear_arith)
            requires
                d > 0,
                q <= 0,
        ;
    } else {
        lemma_mul_inequality(1, q, d);
        lemma_mul_is_commutative(q, d);
    }
}

/// Every integer of at least 2 has a prime divisor no larger than itself,
/// and one strictly smaller when it is not itself prime.
pub proof fn lemma_prime_factor_exists(n: int) -> (p: int)
    requires
        n >= 2,
    ensures
        is_prime(p),
        2 <= p <= n,
        n % p == 0,
        !is_prime(n) ==> p < n,
    decreases n,
{
    if is_prime(n) {
        assert(n % n == 0) by {
            lemma_multiple(n, 1);
        }
        n
    } else {
        let d = choose|d: int| 2 <= d < n && #[trigger] (n % d) == 0;
        let p = lemma_prime_factor_exists(d);
        lemma_divides_trans(p, d, n);
        p
    }
}

/// An integer of at least 2 without a prime divisor below it is prime.
pub proof fn lemma_prime_if_no_prime_factor(n: int)
    requires
        n >= 2,
        !has_prime_factor_below(n, n),
    ensures
        is_prime(n),
{
    if !is_prime(n) {
        let p = lemma_prime_factor_exists(n);
        assert(has_prime_factor_below(n, n));
    }
}

/// The product of a multiple of `a` and a multiple of `c` is a multiple of `a * c`.
pub proof fn lemma_mul_divides(a: int, b: int, c: int, d: int)
    requires
        a > 0,
        c > 0,
        b % a == 0,
        d % c == 0,
    ensures
        (b * d) % (a * c) == 0,
{
    lemma_fundamental_div_mod(b, a);
    lemma_fundamental_div_mod(d, c);
    let i = b / a;
    let j = d / c;
    assert(b * d == (a * c) * (i * j)) by (nonlinear_arith)
        requires
            b == a * i,
            d == c * j,
    ;
    assert(a * c > 0) by (nonlinear_arith)
        requires
            a > 0,
            c > 0,
    ;
    lemma_multiple(a * c, i * j);
}

/// Euclid's lemma: a prime that divides a product divides one of its factors.
pub proof fn lemma_euclid(p: int, a: int, b: int)
    requires
        is_prime(p),
        a >= 0,
        (a * b) % p == 0,
    ensures
        a % p == 0 || b % p == 0,
    decreases a,
{
    if a % p != 0 {
        lemma_fundamental_div_mod(a, p);
        let q = a / p;
        let r = a % p;
        assert(0 < r < p);
        assert(a * b == p * (q * b) + r * b) by (nonlinear_arith)
            requires
                a == p * q + r,
        ;
        vstd::arithmetic::div_mod::lemma_mod_multiples_vanish(q * b, r * b, p);
        assert((r * b) % p == 0);
        if r == 1 {
            assert(r * b == b) by (nonlinear_arith)
                requires
                    r == 1,
            ;
        } else {
            // r lies strictly between 1 and p, so it does not divide p
            assert(p % r != 0);
            lemma_fundamental_div_mod(p, r);
            let s = p / r;
            let t = p % r;
            assert(0 < t < r);
            lemma_fundamental_div_mod(r * b, p);
            let u = (r * b) / p;
            assert(r * b == p * u);
            assert(t * b == p * (b - s * u)) by (nonlinear_arith)
                requires
                    p == r * s + t,
                    r * b == p * u,
            ;
            lemma_multiple(p, b - s * u);
            lemma_euclid(p, t, b);
            assert(t % p == t) by {
                vstd::arithmetic::div_mod::lemma_small_mod(t as nat, p as nat);
            }
        }
    }
}

/// A prime that divides a power divides its base.
pub proof fn lemma_prime_divides_power(p: int, q: int, e: nat)
    requires
        is_prime(p),
        q >= 0,
        power(q, e) % p == 0,
    ensures
        q % p == 0,
    decreases e,
{
    if e == 0 {
        assert(power(q, e) == 1);
        assert(1int % p == 1) by {
            vstd::arithmetic::div_mod::lemma_small_mod(1, p as nat);
        }
    } else {
        lemma_power_nonneg(q, (e - 1) as nat);
        assert(power(q, e) == power(q, (e - 1) as nat) * q) by (nonlinear_arith)
            requires
                power(q, e) == q * power(q, (e - 1) as nat),
        ;
        lemma_euclid(p, power(q, (e - 1) as nat), q);
        if power(q, (e - 1) as nat) % p == 0 {
            lemma_prime_divides_power(p, q, (e - 1) as nat);
        }
    }
}

pub proof fn lemma_power_nonneg(b: int, e: nat)
    requires
        b >= 0,
    ensures
        power(b, e) >= 0,
    decreases e,
{
    if e > 0 {
        lemma_power_nonneg(b, (e - 1) as nat);
        assert(b * power(b, (e - 1) as nat) >= 0) by (nonlinear_arith)
            requires
                b >= 0,
                power(b, (e - 1) as nat) >= 0,
        ;
    }
}

/// Powers add their exponents: `b^i * b^j == b^(i + j)`.
pub proof fn lemma_power_add(b: int, i: nat, j: nat)
    ensures
        power(b, i) * power(b, j) == power(b, i + j),
    decreases i,
{
    if i > 0 {
        lemma_power_add(b, (i - 1) as nat, j);
        assert(((i - 1) as nat + j) as nat == (i + j - 1) as nat);
        assert(power(b, i) * power(b, j) == b * (power(b, (i - 1) as nat) * power(b, j))) by (nonlinear_arith)
            requires
                power(b, i) == b * power(b, (i - 1) as nat),
        ;
    }
}

/// A divisor of `p^e * m`, with `p` a prime that does not divide `m`, is
/// `p^f * y` for some `f <= e` and some divisor `y` of `m`.
pub proof fn lemma_split_divisor(p: int, e: nat, m: int, x: int) -> (r: (nat, int))
    requires
        is_prime(p),
        m >= 1,
        m % p != 0,
        x >= 1,
        (power(p, e) * m) % x == 0,
    ensures
        r.0 <= e,
        r.1 >= 1,
        m % r.1 == 0,
        x == power(p, r.0) * r.1,
    decreases e,
{
    if e == 0 {
        assert(power(p, 0) * m == m);
        assert(x == power(p, 0) * x);
        (0, x)
    } else {
        let n = power(p, e) * m;
        let n1 = power(p, (e - 1) as nat) * m;
        assert(n == p * n1) by (nonlinear_arith)
            requires
                n == power(p, e) * m,
                n1 == power(p, (e - 1) as nat) * m,
                power(p, e) == p * power(p, (e - 1) as nat),
        ;
        lemma_fundamental_div_mod(n, x);
        let k = n / x;
        assert(n == x * k);
        if x % p == 0 {
            lemma_fundamental_div_mod(x, p);
            let x1 = x / p;
            assert(x == p * x1);
            assert(x1 >= 1) by (nonlinear_arith)
                requires
                    x == p * x1,
                    x >= 1,
                    p >= 2,
            ;
            assert(n1 == x1 * k) by (nonlinear_arith)
                requires
                    n == p * n1,
                    n == x * k,
                    x == p * x1,
                    p >= 2,
            ;
            vstd::arithmetic::mul::lemma_mul_is_commutative(x1, k);
            lemma_multiple(x1, k);
            let (f, y) = lemma_split_divisor(p, (e - 1) as nat, m, x1);
            assert(x == power(p, f + 1) * y) by (nonlinear_arith)
                requires
                    x == p * x1,
                    x1 == power(p, f) * y,
                    power(p, f + 1) == p * power(p, f),
            ;
            ((f + 1) as nat, y)
        } else {
            // p divides x * k but not x, so it divides k
            assert(x >= 0);
            assert((x * k) % p == 0) by {
                lemma_multiple(p, n1);
            }
            lemma_euclid(p, x, k);
            lemma_fundamental_div_mod(k, p);
            let k1 = k / p;
            assert(n1 == x * k1) by (nonlinear_arith)
                requires
                    n == p * n1,
                    n == x * k,
                    k == p * k1,
                    p >= 2,
            ;
            lemma_multiple(x, k1);
            lemma_split_divisor(p, (e - 1) as nat, m, x)
        }
    }
}

/// A base of at least 2 raised to `e` exceeds `e`.
pub proof fn lemma_power_exceeds_exponent(b: int, e: nat)
    requires
        b >= 2,
    ensures
        power(b, e) > e,
    decreases e,
{
    if e > 0 {
        lemma_power_exceeds_exponent(b, (e - 1) as nat);
        assert(b * power(b, (e - 1) as nat) > e) by (nonlinear_arith)
            requires
                b >= 2,
                power(b, (e - 1) as nat) > e - 1,
                e >= 1,
        ;
    }
}

/// Powers of a positive base grow with the exponent.
pub proof fn lemma_power_le(b: int, i: nat, j: nat)
    requires
        b >= 1,
        i <= j,
    ensures
        power(b, i) <= power(b, j),
        power(b, j) % power(b, i) == 0,
{
    lemma_power_add(b, i, (j - i) as nat);
    lemma_power_positive(b, i);
    lemma_power_positive(b, (j - i) as nat);
    assert(power(b, i) <= power(b, i) * power(b, (j - i) as nat)) by (nonlinear_arith)
        requires
            power(b, i) >= 1,
            power(b, (j - i) as nat) >= 1,
    ;
    lemma_multiple(power(b, i), power(b, (j - i) as nat));
}

pub proof fn lemma_power_positive(b: int, e: nat)
    requires
        b >= 1,
    ensures
        power(b, e) >= 1,
    decreases e,
{
    if e > 0 {
        lemma_power_positive(b, (e - 1) as nat);
        assert(b * power(b, (e - 1) as nat) >= 1) by (nonlinear_arith)
            requires
                b >= 1,
                power(b, (e - 1) as nat) >= 1,
        ;
    }
}

} // verus!
