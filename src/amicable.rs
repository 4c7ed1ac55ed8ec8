//! Amicable numbers: pairs of distinct numbers each the sum of the proper
//! divisors of the other.

use vstd::prelude::*;

verus! {

use crate::divisors::{proper_divisor_sum, sum_of_proper_divisors, sum_of_proper_divisors_naive};
use crate::factors::{covers, is_prime_list};
use crate::primes::{lemma_primes_below_exact, primes_below, primes_below_spec};
use crate::arith::is_prime;

/// `n` is amicable: the sum of its proper divisors differs from it and has
/// `n` as the sum of its own proper divisors.
pub open spec fn is_amicable(n: nat) -> bool {
    proper_divisor_sum(n) != n && proper_divisor_sum(proper_divisor_sum(n)) == n
}

/// The sum of the amicable numbers in `2..k` whose proper-divisor sum fits
/// in `usize`.
pub open spec fn amicable_sum_below(k: nat) -> nat
    decreases k,
{
    if k <= 2 {
        0
    } else {
        let n = (k - 1) as nat;
        amicable_sum_below(n) + if is_amicable(n) && proper_divisor_sum(n) <= usize::MAX {
            n
        } else {
            0
        }
    }
}

/// `sums` holds, for each index from 2 on, the sum of its proper divisors.
pub open spec fn is_sum_table(sums: Seq<usize>) -> bool {
    forall|i: int| 2 <= i < sums.len() ==> #[trigger] sums[i] == proper_divisor_sum(i as nat)
}

/// The proper-divisor sum of `number`, from the table where it reaches.
fn lookup_sum(number: usize, sums: &Vec<usize>) -> (r: Option<usize>)
    requires
        is_sum_table(sums@),
    ensures
        proper_divisor_sum(number as nat) <= usize::MAX ==> r == Some(proper_divisor_sum(number as nat) as usize),
        proper_divisor_sum(number as nat) > usize::MAX ==> r is None,
{
    if 2 <= number && number < sums.len() {
        Some(sums[number])
    } else {
        sum_of_proper_divisors_naive(number)
    }
}

/// Whether `number` is amicable, with `sums` for the proper-divisor sums it
/// covers (the others are computed). Sums beyond `usize::MAX` count as not
/// amicable.
pub fn is_amicable_number(number: usize, sums: &Vec<usize>) -> (r: bool)
    requires
        is_sum_table(sums@),
    ensures
        r == (is_amicable(number as nat) && proper_divisor_sum(number as nat) <= usize::MAX),
{
    let other = match lookup_sum(number, sums) {
        Some(o) => o,
        None => return false,
    };
    if number == other {
        return false;
    }
    match lookup_sum(other, sums) {
        Some(back) => back == number,
        None => false,
    }
}

/// The sum of the amicable numbers below `limit` whose proper-divisor sum
/// fits in `usize` (a partner beyond it is not followed). `None` when the
/// total exceeds `usize::MAX`.
pub fn solve(limit: usize) -> (r: Option<usize>)
    ensures
        r matches Some(t) ==> t == amicable_sum_below(limit as nat),
        r is None ==> amicable_sum_below(limit as nat) > usize::MAX,
{
    proof {
        lemma_primes_below_exact(limit as nat);
    }
    let primes = primes_below(limit);
    let mut sums: Vec<usize> = Vec::new();
    let mut number: usize = 0;
    while number < limit
        invariant
            number <= limit,
            sums@.len() == number,
            is_sum_table(sums@),
            primes@ == primes_below_spec(limit as nat),
            is_prime_list(primes@),
            forall|p: int| 0 <= p < limit && is_prime(p) ==> primes@.contains(p as usize),
        decreases limit - number,
    {
        if number < 2 {
            sums.push(0);
        } else {
            proof {
                assert forall|p: int| #[trigger] is_prime(p) && p * p <= number implies primes@.contains(p as usize) by {
                    if p >= number {
                        assert(p * p >= p * number) by (nonlinear_arith)
                            requires
                                p >= number,
                                number >= 0,
                        ;
                        assert(p * number > number) by (nonlinear_arith)
                            requires
                                p >= 2,
                                number >= 2,
                        ;
                    }
                }
                assert(covers(primes@, number as int));
            }
            match sum_of_proper_divisors(number, primes.as_slice()) {
                Some(s) => sums.push(s),
                // the table stops here; later numbers are summed directly
                None => break,
            }
        }
        number = number + 1;
    }
    let mut sum: usize = 0;
    let mut n: usize = 2;
    if limit < 2 {
        return Some(0);
    }
    while n < limit
        invariant
            2 <= n <= limit,
            is_sum_table(sums@),
            sum == amicable_sum_below(n as nat),
        decreases limit - n,
    {
        if is_amicable_number(n, &sums) {
            sum = match sum.checked_add(n) {
                Some(t) => t,
                None => {
                    proof {
                        lemma_amicable_sum_monotonic((n + 1) as nat, limit as nat);
                    }
                    return None;
                },
            };
        }
        n = n + 1;
    }
    Some(sum)
}

proof fn lemma_amicable_sum_monotonic(i: nat, j: nat)
    requires
        i <= j,
    ensures
        amicable_sum_below(i) <= amicable_sum_below(j),
    decreases j,
{
    if i < j {
        lemma_amicable_sum_monotonic(i, (j - 1) as nat);
    }
}

} // verus!
