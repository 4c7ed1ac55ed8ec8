//! The sum of the primes below a bound.

use vstd::prelude::*;

verus! {

use crate::divisors::{lemma_seq_sum_prefix, seq_sum};
use crate::primes::{primes_below, primes_below_spec};

/// The sum of the primes below `limit`.
pub fn solve(limit: usize) -> (r: usize)
    requires
        seq_sum(primes_below_spec(limit as nat)) <= usize::MAX,
    ensures
        r == seq_sum(primes_below_spec(limit as nat)),
{
    let primes = primes_below(limit);
    let mut sum: usize = 0;
    let mut i: usize = 0;
    while i < primes.len()
        invariant
            i <= primes@.len(),
            primes@ == primes_below_spec(limit as nat),
            seq_sum(primes@) <= usize::MAX,
            sum == seq_sum(primes@.take(i as int)),
        decreases primes@.len() - i,
    {
        proof {
            assert(primes@.take(i + 1).drop_last() =~= primes@.take(i as int));
            lemma_seq_sum_prefix(primes@, i + 1);
        }
        sum = sum + primes[i];
        i = i + 1;
    }
    assert(primes@.take(primes@.len() as int) =~= primes@);
    sum
}

} // verus!
