//! Trial-division factorization over a supplied list of primes, and the
//! divisors that a factorization spans.

use vstd::prelude::*;

verus! {

use crate::arith::{
    is_prime, lemma_divides_trans, lemma_divisor_le, lemma_euclid, lemma_mul_divides, lemma_multiple,
    lemma_power_exceeds_exponent, lemma_power_le, lemma_power_positive, lemma_prime_divides_power,
    lemma_prime_factor_exists, lemma_split_divisor, power,
};

/// The number that a list of (base, exponent) pairs stands for: the product
/// of `base^exponent` over the list.
pub open spec fn factorization_value(s: Seq<(usize, usize)>) -> int
    decreases s.len(),
{
    if s.len() == 0 {
        1
    } else {
        power(s[0].0 as int, s[0].1 as nat) * factorization_value(s.drop_first())
    }
}

/// A list of primes as the factorizer takes it: each one prime, strictly
/// ascending.
pub open spec fn is_prime_list(primes: Seq<usize>) -> bool {
    &&& forall|i: int| 0 <= i < primes.len() ==> is_prime(#[trigger] primes[i] as int)
    &&& forall|i: int, j: int| 0 <= i < j < primes.len() ==> primes[i] < primes[j]
}

/// The list holds every prime whose square is at most `n`.
pub open spec fn covers(primes: Seq<usize>, n: int) -> bool {
    forall|p: int| #[trigger] is_prime(p) && p * p <= n ==> primes.contains(p as usize)
}

/// A factorization in normal form: bases at least 2 and pairwise distinct,
/// exponents at least 1.
pub open spec fn is_normal_factorization(s: Seq<(usize, usize)>) -> bool {
    &&& forall|i: int| 0 <= i < s.len() ==> (#[trigger] s[i]).0 >= 2 && s[i].1 >= 1
    &&& forall|i: int, j: int| 0 <= i < s.len() && 0 <= j < s.len() && i != j ==> (#[trigger] s[i]).0 != (#[trigger] s[j]).0
}

/// Every base of the factorization is prime.
pub open spec fn has_prime_bases(s: Seq<(usize, usize)>) -> bool {
    forall|i: int| 0 <= i < s.len() ==> is_prime((#[trigger] s[i]).0 as int)
}

/// What the factorizer returns for `number` over `primes`: nothing below 2;
/// otherwise a normal factorization whose value is `number`, whose bases
/// come from `primes` but for a last one that no prime of `primes` divides,
/// and whose bases are all prime when `primes` covers `number`.
pub open spec fn factorizer_output(number: usize, primes: Seq<usize>, factors: Seq<(usize, usize)>) -> bool {
    &&& number < 2 ==> factors.len() == 0
    &&& number >= 2 ==> factorization_value(factors) == number
    &&& is_normal_factorization(factors)
    &&& forall|i: int|
        0 <= i < factors.len() ==> primes.contains((#[trigger] factors[i]).0) || (i == factors.len() - 1
            && forall|j: int| 0 <= j < primes.len() ==> factors[i].0 % (#[trigger] primes[j]) != 0)
    &&& covers(primes, number as int) ==> has_prime_bases(factors)
    &&& covers(primes, number as int) ==> forall|i: int, j: int|
        0 <= i < j < factors.len() ==> (#[trigger] factors[i]).0 < (#[trigger] factors[j]).0
}

/// What the divisor enumerator returns: every positive divisor of the value
/// of the factorization, each once.
pub open spec fn enumerator_output(factors: Seq<(usize, usize)>, divisors: Seq<usize>) -> bool {
    &&& divisors.no_duplicates()
    &&& forall|x: usize| #[trigger] divisors.contains(x) <==> is_divisor(x as int, factorization_value(factors))
}

/// `divisor` divides `number` (and is not zero).
pub fn divisible_by(number: usize, divisor: usize) -> (r: bool)
    requires
        divisor > 0,
    ensures
        r == (number % divisor == 0),
{
    number % divisor == 0
}

pub proof fn lemma_value_push(s: Seq<(usize, usize)>, x: (usize, usize))
    ensures
        factorization_value(s.push(x)) == factorization_value(s) * power(x.0 as int, x.1 as nat),
    decreases s.len(),
{
    if s.len() == 0 {
        assert(s.push(x).drop_first() =~= s);
        assert(s.push(x)[0] == x);
        assert(factorization_value(s) == 1);
        assert(factorization_value(s.push(x)) == power(x.0 as int, x.1 as nat) * factorization_value(s));
    } else {
        assert(s.push(x).drop_first() =~= s.drop_first().push(x));
        assert(s.push(x)[0] == s[0]);
        lemma_value_push(s.drop_first(), x);
        let a = power(s[0].0 as int, s[0].1 as nat);
        let b = factorization_value(s.drop_first());
        let c = power(x.0 as int, x.1 as nat);
        assert(a * (b * c) == (a * b) * c) by (nonlinear_arith);
    }
}

pub proof fn lemma_value_positive(s: Seq<(usize, usize)>)
    requires
        forall|i: int| 0 <= i < s.len() ==> (#[trigger] s[i]).0 >= 1,
    ensures
        factorization_value(s) >= 1,
    decreases s.len(),
{
    if s.len() > 0 {
        assert(s[0].0 >= 1);
        lemma_power_positive(s[0].0 as int, s[0].1 as nat);
        assert forall|i: int| 0 <= i < s.drop_first().len() implies (#[trigger] s.drop_first()[i]).0 >= 1 by {
            assert(s.drop_first()[i] == s[i + 1]);
        }
        lemma_value_positive(s.drop_first());
        let a = power(s[0].0 as int, s[0].1 as nat);
        let b = factorization_value(s.drop_first());
        assert(a * b >= 1) by (nonlinear_arith)
            requires
                a >= 1,
                b >= 1,
        ;
    }
}

/// A composite number has a prime divisor whose square is at most the number.
proof fn lemma_small_prime_factor(n: int) -> (p: int)
    requires
        n >= 2,
        !is_prime(n),
    ensures
        is_prime(p),
        p * p <= n,
        n % p == 0,
{
    let d = choose|d: int| 2 <= d < n && #[trigger] (n % d) == 0;
    vstd::arithmetic::div_mod::lemma_fundamental_div_mod(n, d);
    let e = n / d;
    assert(n == d * e);
    assert(e >= 2) by (nonlinear_arith)
        requires
            n == d * e,
            d < n,
            d >= 2,
    ;
    let small = if d <= e { d } else { e };
    assert(n % small == 0) by {
        if d <= e {
        } else {
            lemma_multiple(e, d);
            vstd::arithmetic::mul::lemma_mul_is_commutative(d, e);
        }
    }
    assert(small * small <= n) by (nonlinear_arith)
        requires
            n == d * e,
            small == d || small == e,
            small <= d,
            small <= e,
            small >= 2,
    ;
    let p = lemma_prime_factor_exists(small);
    lemma_divides_trans(p, small, n);
    assert(p * p <= small * small) by (nonlinear_arith)
        requires
            2 <= p <= small,
    ;
    p
}

/// Factorizes `number` by trial division over `primes`, dividing each prime
/// out as often as it goes, and returns the (prime, exponent) pairs. What is
/// left after the list is exhausted, if more than 1, is one last prime:
/// `primes` must hold every prime whose square is at most `number`, so no
/// composite leftover can be taken for a prime.
pub fn get_factors(number: usize, primes: &[usize]) -> (factors: Vec<(usize, usize)>)
    requires
        is_prime_list(primes@),
        covers(primes@, number as int),
    ensures
        factorizer_output(number, primes@, factors@),
{
    let mut factors: Vec<(usize, usize)> = Vec::new();
    if number < 2 {
        return factors;
    }
    let mut rest: usize = number;
    let mut i: usize = 0;
    while i < primes.len() && rest != 1
        invariant
            is_prime_list(primes@),
            0 <= i <= primes@.len(),
            1 <= rest <= number,
            number as int == factorization_value(factors@) * rest,
            forall|t: int| 0 <= t < factors@.len() ==> (#[trigger] factors@[t]).0 >= 2 && factors@[t].1 >= 1,
            forall|t: int, u: int| 0 <= t < u < factors@.len() ==> (#[trigger] factors@[t]).0 < (#[trigger] factors@[u]).0,
            forall|t: int| 0 <= t < factors@.len() ==> is_prime((#[trigger] factors@[t]).0 as int),
            forall|t: int| 0 <= t < factors@.len() ==> primes@.contains((#[trigger] factors@[t]).0),
            forall|t: int| 0 <= t < factors@.len() ==> rest % (#[trigger] factors@[t]).0 != 0,
            forall|j: int| 0 <= j < i ==> rest % (#[trigger] primes@[j]) != 0,
            factors@.len() > 0 ==> i > 0 && factors@[factors@.len() - 1].0 <= primes@[i - 1],
        decreases primes@.len() - i,
    {
        let prime = primes[i];
        assert(is_prime(primes@[i as int] as int));
        let ghost before = rest;
        let mut exponent: usize = 0;
        while divisible_by(rest, prime)
            invariant
                prime >= 2,
                1 <= rest <= before,
                before % rest == 0,
                exponent as int + rest as int <= before as int,
                before as int == power(prime as int, exponent as nat) * rest,
            decreases rest,
        {
            let ghost r0 = rest;
            let ghost q = rest / prime;
            proof {
                vstd::arithmetic::div_mod::lemma_fundamental_div_mod(r0 as int, prime as int);
                assert(r0 == prime * q);
                assert(q >= 1 && q < r0 && exponent + 1 + q <= exponent + r0) by (nonlinear_arith)
                    requires
                        r0 == prime * q,
                        prime >= 2,
                        r0 >= 1,
                ;
                assert(power(prime as int, (exponent + 1) as nat) * q == power(prime as int, exponent as nat) * r0)
                    by (nonlinear_arith)
                    requires
                        r0 == prime * q,
                        power(prime as int, (exponent + 1) as nat) == prime * power(prime as int, exponent as nat),
                ;
                lemma_multiple(q as int, prime as int);
                vstd::arithmetic::mul::lemma_mul_is_commutative(q as int, prime as int);
                lemma_divides_trans(q as int, r0 as int, before as int);
            }
            rest = rest / prime;
            exponent = exponent + 1;
        }
        proof {
            assert(power(prime as int, 0) == 1);
            if exponent == 0 {
                assert(power(prime as int, exponent as nat) == 1);
                assert(rest == before) by (nonlinear_arith)
                    requires
                        before as int == power(prime as int, exponent as nat) * rest,
                        power(prime as int, exponent as nat) == 1,
                ;
            }
            assert forall|t: int| 0 <= t < factors@.len() implies rest % (#[trigger] factors@[t]).0 != 0 by {
                if rest % factors@[t].0 == 0 {
                    lemma_divides_trans(factors@[t].0 as int, rest as int, before as int);
                }
            }
            assert forall|j: int| 0 <= j < i implies rest % (#[trigger] primes@[j]) != 0 by {
                assert(is_prime(primes@[j] as int));
                if rest % primes@[j] == 0 {
                    lemma_divides_trans(primes@[j] as int, rest as int, before as int);
                }
            }
        }
        if exponent > 0 {
            let ghost old_factors = factors@;
            proof {
                lemma_value_push(old_factors, (prime, exponent));
                assert(factorization_value(old_factors) * before == factorization_value(old_factors) * (power(
                    prime as int,
                    exponent as nat,
                ) * rest));
                assert(factorization_value(old_factors) * (power(prime as int, exponent as nat) * rest) == (
                factorization_value(old_factors) * power(prime as int, exponent as nat)) * rest) by (nonlinear_arith);
                if factors@.len() > 0 {
                    assert(primes@[i - 1] < primes@[i as int]);
                }
            }
            factors.push((prime, exponent));
            proof {
                assert(primes@[i as int] == prime);
                assert forall|t: int| 0 <= t < factors@.len() implies primes@.contains((#[trigger] factors@[t]).0) by {
                    if t < old_factors.len() {
                        assert(factors@[t] == old_factors[t]);
                    }
                }
            }
        }
        i = i + 1;
    }
    if rest > 1 {
        let ghost old_factors = factors@;
        proof {
            assert(factors@.push((rest, 1)) == old_factors.push((rest, 1)));
            lemma_value_push(old_factors, (rest, 1));
            assert(power(rest as int, 1) == rest * power(rest as int, 0));
            assert(power(rest as int, 0) == 1);
            assert(rest % rest == 0) by {
                lemma_multiple(rest as int, 1);
            }
            assert(i == primes@.len());
        }
        // what is left has no factor among the primes tried
        factors.push((rest, 1));
        proof {
            assert(factorization_value(factors@) == factorization_value(old_factors) * rest);
            assert forall|t: int, u: int| 0 <= t < factors@.len() && 0 <= u < factors@.len() && t != u implies (#[trigger] factors@[t]).0
                != (#[trigger] factors@[u]).0 by {
                if t < old_factors.len() && u < old_factors.len() {
                    if t < u {
                        assert(old_factors[t].0 < old_factors[u].0);
                    } else {
                        assert(old_factors[u].0 < old_factors[t].0);
                    }
                } else if t < old_factors.len() {
                    assert(rest % old_factors[t].0 != 0);
                } else {
                    assert(rest % old_factors[u].0 != 0);
                }
            }
            if covers(primes@, number as int) {
                if !is_prime(rest as int) {
                    let p = lemma_small_prime_factor(rest as int);
                    assert(p <= rest) by (nonlinear_arith)
                        requires
                            p * p <= rest,
                            p >= 2,
                    ;
                    assert(primes@.contains(p as usize));
                    let j = choose|j: int| 0 <= j < primes@.len() && primes@[j] == p as usize;
                    assert(rest % primes@[j] != 0);
                }
                // the leftover exceeds every base: a smaller prime leftover
                // would have a square below `number`, so it would be listed
                assert forall|t: int| 0 <= t < old_factors.len() implies (#[trigger] old_factors[t]).0 < rest by {
                    let q = old_factors[t].0 as int;
                    if q > rest {
                        assert forall|x: int| 0 <= x < old_factors.len() implies (#[trigger] old_factors[x]).0 >= 1 by {}
                        lemma_base_divides_value(old_factors, t);
                        lemma_value_positive(old_factors);
                        lemma_divisor_le(q, factorization_value(old_factors));
                        assert(rest * rest <= number) by (nonlinear_arith)
                            requires
                                number == factorization_value(old_factors) * rest,
                                q <= factorization_value(old_factors),
                                rest < q,
                                rest >= 0,
                        ;
                        assert(is_prime(rest as int));
                        assert(primes@.contains(rest));
                        let j = choose|j: int| 0 <= j < primes@.len() && primes@[j] == rest;
                        assert(rest % primes@[j] != 0);
                    }
                }
                assert forall|t: int, u: int| 0 <= t < u < factors@.len() implies (#[trigger] factors@[t]).0
                    < (#[trigger] factors@[u]).0 by {
                    if u < old_factors.len() {
                        assert(old_factors[t].0 < old_factors[u].0);
                    } else {
                        assert(old_factors[t].0 < rest);
                    }
                }
            }
            assert forall|t: int| 0 <= t < factors@.len() implies primes@.contains((#[trigger] factors@[t]).0) || (t
                == factors@.len() - 1 && forall|j: int| 0 <= j < primes@.len() ==> factors@[t].0 % (#[trigger] primes@[j]) != 0) by {
                if t < old_factors.len() {
                    assert(factors@[t] == old_factors[t]);
                }
            }
        }
    }
    proof {
        if rest == 1 {
            assert(factorization_value(factors@) * rest == factorization_value(factors@));
        }
    }
    factors
}

/// `x` is a positive divisor of `n`.
pub open spec fn is_divisor(x: int, n: int) -> bool {
    x >= 1 && n % x == 0
}

/// The bases of the factorization are pairwise distinct.
pub open spec fn distinct_bases(s: Seq<(usize, usize)>) -> bool {
    forall|i: int, j: int| 0 <= i < s.len() && 0 <= j < s.len() && i != j ==> (#[trigger] s[i]).0 != (#[trigger] s[j]).0
}

/// Each base with a positive exponent divides the value.
pub proof fn lemma_base_divides_value(s: Seq<(usize, usize)>, i: int)
    requires
        0 <= i < s.len(),
        forall|j: int| 0 <= j < s.len() ==> (#[trigger] s[j]).0 >= 1,
        s[i].1 >= 1,
    ensures
        factorization_value(s) % (s[i].0 as int) == 0,
    decreases s.len(),
{
    let b = s[0].0 as int;
    let rest = s.drop_first();
    assert forall|j: int| 0 <= j < rest.len() implies (#[trigger] rest[j]).0 >= 1 by {
        assert(rest[j] == s[j + 1]);
    }
    lemma_value_positive(rest);
    lemma_power_positive(b, s[0].1 as nat);
    if i == 0 {
        let e = s[0].1 as nat;
        assert(power(b, e) == b * power(b, (e - 1) as nat));
        lemma_multiple(b, power(b, (e - 1) as nat));
        lemma_multiple(power(b, e), factorization_value(rest));
        lemma_divides_trans(b, power(b, e), factorization_value(s));
    } else {
        assert(rest[i - 1] == s[i]);
        lemma_base_divides_value(rest, i - 1);
        vstd::arithmetic::mul::lemma_mul_is_commutative(power(b, s[0].1 as nat), factorization_value(rest));
        lemma_multiple(factorization_value(rest), power(b, s[0].1 as nat));
        lemma_divides_trans(s[i].0 as int, factorization_value(rest), factorization_value(s));
    }
}

/// A prime that is none of the (prime) bases does not divide the value.
pub proof fn lemma_prime_not_dividing_value(p: int, s: Seq<(usize, usize)>)
    requires
        is_prime(p),
        has_prime_bases(s),
        forall|i: int| 0 <= i < s.len() ==> (#[trigger] s[i]).0 != p,
    ensures
        factorization_value(s) % p != 0,
    decreases s.len(),
{
    if s.len() == 0 {
        vstd::arithmetic::div_mod::lemma_small_mod(1, p as nat);
    } else {
        let q = s[0].0 as int;
        let rest = s.drop_first();
        assert(is_prime(q));
        assert forall|i: int| 0 <= i < rest.len() implies is_prime((#[trigger] rest[i]).0 as int) && rest[i].0 != p by {
            assert(rest[i] == s[i + 1]);
        }
        lemma_prime_not_dividing_value(p, rest);
        crate::arith::lemma_power_nonneg(q, s[0].1 as nat);
        assert(factorization_value(s) == power(q, s[0].1 as nat) * factorization_value(rest));
        if factorization_value(s) % p == 0 {
            lemma_euclid(p, power(q, s[0].1 as nat), factorization_value(rest));
            lemma_prime_divides_power(p, q, s[0].1 as nat);
            lemma_divisor_le(p, q);
            assert(s[0].0 != p);
            assert(2 <= p < q);
            assert(q % p != 0);
        }
    }
}

proof fn lemma_suffix(s: Seq<(usize, usize)>, start: int)
    requires
        0 <= start < s.len(),
    ensures
        s.subrange(start, s.len() as int)[0] == s[start],
        s.subrange(start, s.len() as int).drop_first() =~= s.subrange(start + 1, s.len() as int),
{
}

/// Every divisor of the value of `factors[start..]`, each once, built by
/// multiplying the divisors of `factors[start + 1..]` by each power of the
/// first base.
fn divisors_from(factors: &[(usize, usize)], start: usize) -> (divisors: Vec<usize>)
    requires
        start <= factors@.len(),
        has_prime_bases(factors@),
        distinct_bases(factors@),
        factorization_value(factors@.subrange(start as int, factors@.len() as int)) <= usize::MAX,
    ensures
        divisors@.no_duplicates(),
        forall|x: usize|
            #[trigger] divisors@.contains(x) <==> is_divisor(
                x as int,
                factorization_value(factors@.subrange(start as int, factors@.len() as int)),
            ),
    decreases factors@.len() - start,
{
    let ghost suffix = factors@.subrange(start as int, factors@.len() as int);
    let mut divisors: Vec<usize> = Vec::new();
    if start == factors.len() {
        divisors.push(1);
        proof {
            assert(suffix.len() == 0);
            assert forall|x: usize| #[trigger] divisors@.contains(x) <==> is_divisor(x as int, 1) by {
                if is_divisor(x as int, 1) {
                    lemma_divisor_le(x as int, 1);
                    assert(divisors@[0] == x);
                }
            }
        }
        return divisors;
    }
    let (factor, count) = factors[start];
    let ghost rest_value = factorization_value(factors@.subrange(start + 1, factors@.len() as int));
    let ghost value = factorization_value(suffix);
    proof {
        lemma_suffix(factors@, start as int);
        assert(is_prime(factor as int));
        assert forall|i: int| 0 <= i < factors@.len() implies (#[trigger] factors@[i]).0 >= 1 by {
            assert(is_prime(factors@[i].0 as int));
        }
        let rest = factors@.subrange(start + 1, factors@.len() as int);
        assert forall|i: int| 0 <= i < rest.len() implies (#[trigger] rest[i]).0 >= 1 by {
            assert(rest[i] == factors@[start + 1 + i]);
            assert(is_prime(factors@[start + 1 + i].0 as int));
        }
        lemma_value_positive(rest);
        lemma_power_positive(factor as int, count as nat);
        assert(value == power(factor as int, count as nat) * rest_value);
        assert(rest_value <= value && power(factor as int, count as nat) <= value) by (nonlinear_arith)
            requires
                value == power(factor as int, count as nat) * rest_value,
                rest_value >= 1,
                power(factor as int, count as nat) >= 1,
        ;
        lemma_power_exceeds_exponent(factor as int, count as nat);
    }
    let rest_divisors = divisors_from(factors, start + 1);
    let mut multiplier: usize = 1;
    let mut k: usize = 0;
    while k <= count
        invariant
            k <= count + 1,
            count < usize::MAX,
            factor >= 2,
            value == power(factor as int, count as nat) * rest_value,
            value <= usize::MAX,
            rest_value >= 1,
            k <= count ==> multiplier == power(factor as int, k as nat),
            divisors@.no_duplicates(),
            forall|y: usize| #[trigger] divisors@.contains(y) ==> is_divisor(y as int, value),
            forall|f: nat, j: int|
                f < k && 0 <= j < rest_divisors@.len() ==> divisors@.contains(
                    #[trigger] scaled(rest_divisors@[j], factor as int, f),
                ),
            forall|x: usize| #[trigger] rest_divisors@.contains(x) <==> is_divisor(x as int, rest_value),
        decreases count + 1 - k,
    {
        let mut j: usize = 0;
        while j < rest_divisors.len()
            invariant
                j <= rest_divisors@.len(),
                k <= count,
                count < usize::MAX,
                factor >= 2,
                value == power(factor as int, count as nat) * rest_value,
                value <= usize::MAX,
                rest_value >= 1,
                multiplier == power(factor as int, k as nat),
                divisors@.no_duplicates(),
                forall|y: usize| #[trigger] divisors@.contains(y) ==> is_divisor(y as int, value),
                forall|f: nat, j2: int|
                    f < k && 0 <= j2 < rest_divisors@.len() ==> divisors@.contains(
                        #[trigger] scaled(rest_divisors@[j2], factor as int, f),
                    ),
                forall|j2: int|
                    0 <= j2 < j ==> divisors@.contains(#[trigger] scaled(rest_divisors@[j2], factor as int, k as nat)),
                forall|x: usize| #[trigger] rest_divisors@.contains(x) <==> is_divisor(x as int, rest_value),
            decreases rest_divisors@.len() - j,
        {
            let d = rest_divisors[j];
            proof {
                assert(rest_divisors@.contains(d));
                assert(is_divisor(d as int, rest_value));
                lemma_divisor_le(d as int, rest_value);
                lemma_power_le(factor as int, k as nat, count as nat);
                lemma_power_positive(factor as int, k as nat);
                assert(d * multiplier <= value) by (nonlinear_arith)
                    requires
                        1 <= d <= rest_value,
                        1 <= multiplier <= power(factor as int, count as nat),
                        value == power(factor as int, count as nat) * rest_value,
                ;
                lemma_mul_divides(d as int, rest_value, multiplier as int, power(factor as int, count as nat));
                assert(rest_value * power(factor as int, count as nat) == value) by (nonlinear_arith)
                    requires
                        value == power(factor as int, count as nat) * rest_value,
                ;
                assert(d * multiplier >= 1) by (nonlinear_arith)
                    requires
                        d >= 1,
                        multiplier >= 1,
                ;
            }
            let candidate = d * multiplier;
            assert(candidate == scaled(d, factor as int, k as nat));
            insert_new(&mut divisors, candidate);
            j = j + 1;
        }
        if k < count {
            proof {
                lemma_power_le(factor as int, (k + 1) as nat, count as nat);
                assert(power(factor as int, (k + 1) as nat) == factor * power(factor as int, k as nat));
                lemma_power_positive(factor as int, count as nat);
                assert(power(factor as int, count as nat) <= value) by (nonlinear_arith)
                    requires
                        value == power(factor as int, count as nat) * rest_value,
                        rest_value >= 1,
                        power(factor as int, count as nat) >= 1,
                ;
                lemma_power_positive(factor as int, count as nat);
            }
            multiplier = multiplier * factor;
        }
        k = k + 1;
    }
    proof {
        assert forall|x: usize| #[trigger] divisors@.contains(x) <==> is_divisor(x as int, value) by {
            if is_divisor(x as int, value) {
                crate::arith::lemma_power_nonneg(factor as int, count as nat);
                let others = factors@.subrange(start + 1, factors@.len() as int);
                assert forall|i: int| 0 <= i < others.len() implies is_prime((#[trigger] others[i]).0 as int)
                    && others[i].0 != factor by {
                    assert(others[i] == factors@[start + 1 + i]);
                }
                lemma_prime_not_dividing_value(factor as int, others);
                let (f, y) = lemma_split_divisor(factor as int, count as nat, rest_value, x as int);
                lemma_power_positive(factor as int, f);
                assert(y <= x) by (nonlinear_arith)
                    requires
                        x == power(factor as int, f) * y,
                        power(factor as int, f) >= 1,
                        y >= 1,
                ;
                assert(rest_divisors@.contains(y as usize));
                let j = choose|j: int| 0 <= j < rest_divisors@.len() && rest_divisors@[j] == y as usize;
                assert(y * power(factor as int, f) == x) by (nonlinear_arith)
                    requires
                        x == power(factor as int, f) * y,
                ;
                assert(f < k);
                assert(scaled(rest_divisors@[j], factor as int, f) == x);
                assert(divisors@.contains(scaled(rest_divisors@[j], factor as int, f)));
            }
        }
    }
    divisors
}

/// `d * b^f`, as a machine integer.
pub open spec fn scaled(d: usize, b: int, f: nat) -> usize {
    (d * power(b, f)) as usize
}

/// Adds `x` to `v` unless `v` already holds it.
pub(crate) fn insert_new(v: &mut Vec<usize>, x: usize)
    ensures
        forall|y: usize| #[trigger] final(v)@.contains(y) <==> (old(v)@.contains(y) || y == x),
        old(v)@.no_duplicates() ==> final(v)@.no_duplicates(),
{
    if !contains(v, x) {
        let ghost before = v@;
        v.push(x);
        proof {
            assert forall|y: usize| #[trigger] v@.contains(y) <==> (before.contains(y) || y == x) by {
                if before.contains(y) {
                    let i = choose|i: int| 0 <= i < before.len() && before[i] == y;
                    assert(v@[i] == y);
                }
                if y == x {
                    assert(v@[before.len() as int] == x);
                }
            }
        }
    }
}

/// Whether `v` holds `x`.
fn contains(v: &Vec<usize>, x: usize) -> (r: bool)
    ensures
        r == v@.contains(x),
{
    let mut i: usize = 0;
    while i < v.len()
        invariant
            i <= v@.len(),
            forall|j: int| 0 <= j < i ==> v@[j] != x,
        decreases v@.len() - i,
    {
        if v[i] == x {
            return true;
        }
        i = i + 1;
    }
    false
}

/// Every positive divisor of the number that a factorization into distinct
/// primes stands for, each once.
pub fn factors_to_divisors(factors: &[(usize, usize)]) -> (divisors: Vec<usize>)
    requires
        has_prime_bases(factors@),
        distinct_bases(factors@),
        factorization_value(factors@) <= usize::MAX,
    ensures
        enumerator_output(factors@, divisors@),
{
    assert(factors@.subrange(0, factors@.len() as int) =~= factors@);
    divisors_from(factors, 0)
}

} // verus!
