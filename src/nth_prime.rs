//! The n-th prime, by sieving ever larger ranges.

use vstd::prelude::*;

verus! {

use crate::arith::is_prime;
use crate::primes::{lemma_primes_below_exact, lemma_primes_below_prefix, primes_below, primes_below_spec};

/// The factor by which the sieved range grows.
pub const FACTOR: usize = 10;

/// A first bound to sieve below for the `nth` prime.
pub fn estimate_nth_prime(nth: usize) -> (r: usize)
    requires
        nth * FACTOR <= usize::MAX,
    ensures
        r == nth * FACTOR,
{
    nth * FACTOR
}

/// `p` is the `nth` prime (counting from 1): a prime with `nth - 1` primes
/// below it.
pub open spec fn is_nth_prime(p: nat, nth: nat) -> bool {
    is_prime(p as int) && primes_below_spec(p).len() + 1 == nth
}

proof fn lemma_primes_below_len_monotonic(a: nat, b: nat)
    requires
        a <= b,
    ensures
        primes_below_spec(a).len() <= primes_below_spec(b).len(),
    decreases b,
{
    if a < b {
        lemma_primes_below_len_monotonic(a, (b - 1) as nat);
    }
}

/// The `nth` prime, counting from 1, found by sieving below `10 * nth` and
/// growing the bound tenfold until the sieve holds it. `None` when the
/// bound would leave the range of `usize`.
pub fn nth_prime(nth: usize) -> (r: Option<usize>)
    requires
        nth >= 1,
        nth * FACTOR <= usize::MAX,
    ensures
        r matches Some(p) ==> is_nth_prime(p as nat, nth as nat),
        (exists|p: nat| #[trigger] is_nth_prime(p, nth as nat) && p * 10 <= usize::MAX) ==> r is Some,
{
    let mut limit = estimate_nth_prime(nth);
    while limit > 0
        invariant
            limit >= 10,
            nth >= 1,
        decreases usize::MAX - limit,
    {
        let primes = primes_below(limit);
        if nth - 1 < primes.len() {
            let p = primes[nth - 1];
            proof {
                lemma_primes_below_exact(limit as nat);
                lemma_primes_below_prefix(limit as nat, nth - 1);
                assert(primes_below_spec(p as nat).len() == nth - 1);
            }
            return Some(p);
        }
        limit = match limit.checked_mul(FACTOR) {
            Some(l) => l,
            None => {
                proof {
                    if exists|p: nat| #[trigger] is_nth_prime(p, nth as nat) && p * 10 <= usize::MAX {
                        let p = choose|p: nat| #[trigger] is_nth_prime(p, nth as nat) && p * 10 <= usize::MAX;
                        assert(p < limit);
                        assert(primes_below_spec(p + 1) == primes_below_spec(p).push(p as usize));
                        lemma_primes_below_len_monotonic(p + 1, limit as nat);
                    }
                }
                return None;
            },
        };
    }
    None
}

/// The `nth` prime.
pub fn solve(nth: usize) -> (r: Option<usize>)
    requires
        nth >= 1,
        nth * FACTOR <= usize::MAX,
    ensures
        r matches Some(p) ==> is_nth_prime(p as nat, nth as nat),
        (exists|p: nat| #[trigger] is_nth_prime(p, nth as nat) && p * 10 <= usize::MAX) ==> r is Some,
{
    nth_prime(nth)
}

} // verus!
