//! The largest prime factor of a number.

use vstd::prelude::*;

verus! {

use crate::arith::{is_prime, lemma_divisor_le};
use crate::factors::{
    covers, factorization_value, get_factors, has_prime_bases, is_prime_list, lemma_base_divides_value,
    lemma_prime_not_dividing_value,
};
use crate::primes::{lemma_primes_below_exact, primes_below, primes_below_spec};
use crate::sqrt_expansion::{integer_sqrt, is_isqrt};

/// The largest prime factor of `number`, from its factorization over the
/// primes up to its square root.
pub fn solve(number: usize) -> (r: usize)
    requires
        number >= 2,
    ensures
        is_prime(r as int),
        number % r == 0,
        forall|p: int| is_prime(p) && #[trigger] (number as int % p) == 0 ==> p <= r,
{
    let root = integer_sqrt(number as u64) as usize;
    proof {
        assert(root * root <= number);
        if root >= 2 {
            assert(root + 1 <= root * root) by (nonlinear_arith)
                requires
                    root >= 2,
            ;
        }
        lemma_primes_below_exact((root + 1) as nat);
    }
    let primes = primes_below(root + 1);
    proof {
        assert forall|p: int| #[trigger] is_prime(p) && p * p <= number implies primes@.contains(p as usize) by {
            if p > root {
                assert(p * p >= (root + 1) * (root + 1)) by (nonlinear_arith)
                    requires
                        p >= root + 1,
                        root >= 0,
                ;
            }
        }
        assert(covers(primes@, number as int));
    }
    let factors = get_factors(number, primes.as_slice());
    proof {
        assert(has_prime_bases(factors@));
        assert(factorization_value(factors@) == number);
        if factors@.len() == 0 {
            assert(factorization_value(factors@) == 1);
        }
    }
    let mut largest: usize = factors[0].0;
    let ghost mut at: int = 0;
    let mut i: usize = 1;
    while i < factors.len()
        invariant
            1 <= i <= factors@.len(),
            0 <= at < factors@.len(),
            largest == factors@[at].0,
            forall|j: int| 0 <= j < i ==> (#[trigger] factors@[j]).0 <= largest,
        decreases factors@.len() - i,
    {
        if factors[i].0 > largest {
            largest = factors[i].0;
            proof {
                at = i as int;
            }
        }
        i = i + 1;
    }
    proof {
        assert forall|j: int| 0 <= j < factors@.len() implies (#[trigger] factors@[j]).0 >= 1 by {
            assert(is_prime(factors@[j].0 as int));
        }
        assert(is_prime(factors@[at].0 as int));
        lemma_base_divides_value(factors@, at);
        assert forall|p: int| is_prime(p) && #[trigger] (number as int % p) == 0 implies p <= largest by {
            if forall|j: int| 0 <= j < factors@.len() ==> (#[trigger] factors@[j]).0 != p {
                lemma_prime_not_dividing_value(p, factors@);
            }
        }
    }
    largest
}

} // verus!
