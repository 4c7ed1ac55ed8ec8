//! The first triangle number with more than a given number of divisors.

use vstd::prelude::*;

verus! {

use crate::arith::{lemma_power_exceeds_exponent, lemma_power_positive, power};
use crate::arith::is_prime;
use crate::factors::{factorization_value, factorizer_output, get_factors, is_prime_list, lemma_value_push};
use crate::primes::{lemma_primes_below_exact, primes_below};

/// The product of `exponent + 1` over a factorization: the number of
/// divisors of its value when its bases are distinct primes.
pub open spec fn exponent_product(s: Seq<(usize, usize)>) -> nat
    decreases s.len(),
{
    if s.len() == 0 {
        1
    } else {
        exponent_product(s.drop_last()) * (s.last().1 as nat + 1)
    }
}

/// The `k`-th triangle number, `1 + 2 + ... + k`.
pub open spec fn triangle(k: nat) -> nat
    decreases k,
{
    if k == 0 {
        0
    } else {
        triangle((k - 1) as nat) + k
    }
}

/// The number of divisors of `number`, from its factorization over
/// `primes`: the product of `exponent + 1` over the prime powers.
pub fn num_divisors(number: usize, primes: &[usize]) -> (r: usize)
    requires
        is_prime_list(primes@),
        crate::factors::covers(primes@, number as int),
    ensures
        exists|f: Seq<(usize, usize)>| factorizer_output(number, primes@, f) && r == exponent_product(f),
{
    let factors = get_factors(number, primes);
    let mut count: usize = 1;
    let mut i: usize = 0;
    proof {
        assert(factors@.take(0) =~= Seq::<(usize, usize)>::empty());
        if number < 2 {
            assert(factors@.len() == 0);
        }
    }
    while i < factors.len()
        invariant
            i <= factors@.len(),
            factorizer_output(number, primes@, factors@),
            number >= 2 ==> factorization_value(factors@) == number,
            number < 2 ==> factors@.len() == 0,
            count == exponent_product(factors@.take(i as int)),
            count <= factorization_value(factors@.take(i as int)),
            factorization_value(factors@.take(i as int)) <= factorization_value(factors@),
            factorization_value(factors@) <= usize::MAX,
        decreases factors@.len() - i,
    {
        let (base, exponent) = factors[i];
        proof {
            let init = factors@.take(i as int);
            assert(factors@.take(i + 1) =~= init.push((base, exponent)));
            assert(factors@.take(i + 1).drop_last() =~= init);
            assert(factors@[i as int].0 >= 2 && factors@[i as int].1 >= 1);
            lemma_value_push(init, (base, exponent));
            lemma_power_exceeds_exponent(base as int, exponent as nat);
            assert(count * (exponent + 1) <= factorization_value(init) * power(base as int, exponent as nat))
                by (nonlinear_arith)
                requires
                    count <= factorization_value(init),
                    exponent + 1 <= power(base as int, exponent as nat),
                    count >= 0,
            ;
            lemma_prefix_value_bound(factors@, i + 1);
            assert forall|j: int| 0 <= j < init.len() implies (#[trigger] init[j]).0 >= 1 by {
                assert(init[j] == factors@[j]);
            }
            crate::factors::lemma_value_positive(init);
            assert(power(base as int, exponent as nat) <= factorization_value(init) * power(base as int, exponent as nat))
                by (nonlinear_arith)
                requires
                    factorization_value(init) >= 1,
                    power(base as int, exponent as nat) >= 0,
            ;
        }
        count = count * (exponent + 1);
        i = i + 1;
    }
    assert(factors@.take(factors@.len() as int) =~= factors@);
    count
}

/// The value of a prefix of a factorization with bases of at least 2 is at
/// most the value of the whole.
pub proof fn lemma_prefix_value_bound(s: Seq<(usize, usize)>, i: int)
    requires
        0 <= i <= s.len(),
        forall|j: int| 0 <= j < s.len() ==> (#[trigger] s[j]).0 >= 2,
    ensures
        factorization_value(s.take(i)) <= factorization_value(s),
    decreases s.len() - i,
{
    if i < s.len() {
        lemma_prefix_value_bound(s, i + 1);
        let init = s.take(i);
        assert(s.take(i + 1) =~= init.push(s[i]));
        lemma_value_push(init, s[i]);
        lemma_power_positive(s[i].0 as int, s[i].1 as nat);
        assert forall|j: int| 0 <= j < init.len() implies (#[trigger] init[j]).0 >= 1 by {
            assert(init[j] == s[j]);
        }
        crate::factors::lemma_value_positive(init);
        assert(factorization_value(init) <= factorization_value(init) * power(s[i].0 as int, s[i].1 as nat))
            by (nonlinear_arith)
            requires
                factorization_value(init) >= 1,
                power(s[i].0 as int, s[i].1 as nat) >= 1,
        ;
    } else {
        assert(s.take(i) =~= s);
    }
}

/// The triangle numbers in order: each call to `next` gives the next one.
pub struct TriangleNumbers {
    pub number: usize,
    pub sum: usize,
}

impl TriangleNumbers {
    /// `sum` is the triangle number before `number`.
    pub open spec fn wf(&self) -> bool {
        self.number >= 1 && self.sum == triangle((self.number - 1) as nat)
    }

    pub fn new() -> (r: Self)
        ensures
            r.wf(),
            r.number == 1,
    {
        TriangleNumbers { number: 1, sum: 0 }
    }

    /// The next triangle number; `None`, with nothing changed, when it
    /// would exceed `usize::MAX`.
    pub fn next(&mut self) -> (r: Option<usize>)
        requires
            old(self).wf(),
        ensures
            final(self).wf(),
            r matches Some(t) ==> t == triangle(old(self).number as nat) && final(self).number == old(self).number + 1,
            r is None ==> *final(self) == *old(self),
    {
        if self.sum > usize::MAX - self.number || self.number == usize::MAX {
            return None;
        }
        self.sum = self.sum + self.number;
        self.number = self.number + 1;
        Some(self.sum)
    }
}

/// The first triangle number whose divisor count, from its factorization
/// over the primes below `100 * min_num_divisors`, exceeds
/// `min_num_divisors`. `None` if a triangle number reaches the square of
/// that bound (its factorization would not be certain) or leaves the range
/// of `usize` first.
pub fn solve(min_num_divisors: usize) -> (r: Option<usize>)
    requires
        min_num_divisors * 100 <= usize::MAX,
    ensures
        r matches Some(t) ==> exists|k: nat, f: Seq<(usize, usize)>|
            #[trigger] triangle(k) == t && factorizer_output(
                t,
                crate::primes::primes_below_spec((min_num_divisors * 100) as nat),
                f,
            ) && #[trigger] exponent_product(f) > min_num_divisors,
{
    proof {
        lemma_primes_below_exact((min_num_divisors * 100) as nat);
    }
    let primes = primes_below(min_num_divisors * 100);
    let mut triangles = TriangleNumbers::new();
    loop
        invariant
            triangles.wf(),
            is_prime_list(primes@),
            primes@ == crate::primes::primes_below_spec((min_num_divisors * 100) as nat),
            min_num_divisors * 100 <= usize::MAX,
        decreases usize::MAX - triangles.number,
    {
        let ghost k = triangles.number;
        match triangles.next() {
            Some(t) => {
                let bound = min_num_divisors * 100;
                if bound == 0 || t / bound >= bound {
                    return None;
                }
                proof {
                    crate::primes::lemma_primes_below_exact(bound as nat);
                    assert forall|p: int| #[trigger] is_prime(p) && p * p <= t implies primes@.contains(p as usize) by {
                        if p >= bound {
                            assert(p * p >= bound * bound) by (nonlinear_arith)
                                requires
                                    p >= bound,
                                    bound >= 0,
                            ;
                            vstd::arithmetic::div_mod::lemma_fundamental_div_mod(t as int, bound as int);
                            assert(t < bound * bound) by (nonlinear_arith)
                                requires
                                    t == bound * (t / bound) + t % bound,
                                    t / bound < bound,
                                    0 <= t % bound < bound,
                                    bound > 0,
                            ;
                        }
                    }
                }
                if num_divisors(t, primes.as_slice()) > min_num_divisors {
                    proof {
                        assert(triangle(k as nat) == t);
                    }
                    return Some(t);
                }
            },
            None => return None,
        }
    }
}

} // verus!
