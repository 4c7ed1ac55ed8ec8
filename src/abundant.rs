//! Abundant numbers (whose proper divisors sum to more than themselves) and
//! the numbers that are not a sum of two of them.

use vstd::prelude::*;

verus! {

use crate::arith::is_prime;
use crate::divisors::{proper_divisor_sum, sum_of_proper_divisors};
use crate::factors::{covers, is_prime_list};
use crate::primes::{lemma_primes_below_exact, primes_below, primes_below_spec};

/// Every integer above this bound is a sum of two abundant numbers.
pub const MAX_SUM_TWO_ABUNDANT_NUMS: usize = 28_123;

/// `n` is abundant.
pub open spec fn is_abundant_spec(n: nat) -> bool {
    n >= 1 && proper_divisor_sum(n) > n
}

/// `n` is the sum of two abundant numbers.
pub open spec fn is_sum_of_two_abundant(n: nat) -> bool {
    exists|a: nat| #[trigger] is_abundant_spec(a) && a < n && is_abundant_spec((n - a) as nat)
}

/// The sum of the numbers in `1..k` that are not the sum of two abundant
/// numbers.
pub open spec fn non_abundant_sum_below(k: nat) -> nat
    decreases k,
{
    if k <= 1 {
        0
    } else {
        let n = (k - 1) as nat;
        non_abundant_sum_below(n) + if is_sum_of_two_abundant(n) {
            0
        } else {
            n
        }
    }
}

/// The sum of the proper divisors of `num`; `None` when it exceeds
/// `usize::MAX`.
pub fn sum_of_divisors(num: usize, primes: &[usize]) -> (r: Option<usize>)
    requires
        1 <= num,
        is_prime_list(primes@),
        covers(primes@, num as int),
    ensures
        proper_divisor_sum(num as nat) <= usize::MAX ==> r == Some(proper_divisor_sum(num as nat) as usize),
        proper_divisor_sum(num as nat) > usize::MAX ==> r is None,
{
    sum_of_proper_divisors(num, primes)
}

/// Whether `num` is abundant.
pub fn is_abundant(num: usize, primes: &[usize]) -> (r: bool)
    requires
        1 <= num,
        is_prime_list(primes@),
        covers(primes@, num as int),
    ensures
        r == is_abundant_spec(num as nat),
{
    match sum_of_divisors(num, primes) {
        Some(sum) => sum > num,
        // a sum beyond `usize::MAX` exceeds `num`
        None => true,
    }
}

/// Whether `num` is the sum of two abundant numbers, given the abundant
/// numbers in ascending order and a table that says of each number below
/// its length whether it is abundant.
pub fn is_sum_of_abundant_nums(num: usize, abundant_nums_vec: &[usize], abundant_table: &Vec<bool>) -> (r: bool)
    requires
        num < abundant_table@.len(),
        forall|i: int| 0 <= i < abundant_table@.len() ==> #[trigger] abundant_table@[i] == is_abundant_spec(i as nat),
        forall|i: int, j: int| 0 <= i < j < abundant_nums_vec@.len() ==> abundant_nums_vec@[i] < abundant_nums_vec@[j],
        forall|a: nat| a < num && #[trigger] is_abundant_spec(a) ==> abundant_nums_vec@.contains(a as usize),
        forall|i: int| 0 <= i < abundant_nums_vec@.len() ==> is_abundant_spec(#[trigger] abundant_nums_vec@[i] as nat),
    ensures
        r == is_sum_of_two_abundant(num as nat),
{
    let mut i: usize = 0;
    while i < abundant_nums_vec.len() && abundant_nums_vec[i] < num
        invariant
            i <= abundant_nums_vec@.len(),
            num < abundant_table@.len(),
            forall|k: int| 0 <= k < abundant_table@.len() ==> #[trigger] abundant_table@[k] == is_abundant_spec(k as nat),
            forall|k: int, j: int| 0 <= k < j < abundant_nums_vec@.len() ==> abundant_nums_vec@[k] < abundant_nums_vec@[j],
            forall|k: int|
                0 <= k < i ==> abundant_nums_vec@[k] < num && !is_abundant_spec((num - #[trigger] abundant_nums_vec@[k]) as nat),
            forall|k: int| 0 <= k < abundant_nums_vec@.len() ==> is_abundant_spec(#[trigger] abundant_nums_vec@[k] as nat),
        decreases abundant_nums_vec@.len() - i,
    {
        let a = abundant_nums_vec[i];
        if abundant_table[num - a] {
            proof {
                assert(is_abundant_spec(a as nat));
                assert(is_abundant_spec((num - a) as nat));
            }
            return true;
        }
        i = i + 1;
    }
    proof {
        if is_sum_of_two_abundant(num as nat) {
            let a = choose|a: nat| #[trigger] is_abundant_spec(a) && a < num && is_abundant_spec((num - a) as nat);
            assert(abundant_nums_vec@.contains(a as usize));
            let k = choose|k: int| 0 <= k < abundant_nums_vec@.len() && abundant_nums_vec@[k] == a as usize;
            if k >= i {
                if i < abundant_nums_vec@.len() {
                    if k > i {
                        assert(abundant_nums_vec@[i as int] < abundant_nums_vec@[k]);
                    }
                }
            }
        }
    }
    false
}

/// The sum of the positive integers up to 28123 that are not the sum of two
/// abundant numbers.
pub fn solve() -> (r: usize)
    ensures
        r == non_abundant_sum_below((MAX_SUM_TWO_ABUNDANT_NUMS + 1) as nat),
{
    let limit = MAX_SUM_TWO_ABUNDANT_NUMS;
    proof {
        lemma_primes_below_exact(limit as nat);
    }
    let primes = primes_below(limit);
    let mut abundant_nums_vec: Vec<usize> = Vec::new();
    let mut abundant_table: Vec<bool> = Vec::new();
    abundant_table.push(false);
    let mut num: usize = 1;
    while num <= limit
        invariant
            1 <= num <= limit + 1,
            limit == MAX_SUM_TWO_ABUNDANT_NUMS,
            abundant_table@.len() == num,
            primes@ == primes_below_spec(limit as nat),
            is_prime_list(primes@),
            forall|p: int| 0 <= p < limit && is_prime(p) ==> primes@.contains(p as usize),
            forall|k: int| 0 <= k < abundant_table@.len() ==> #[trigger] abundant_table@[k] == is_abundant_spec(k as nat),
            forall|k: int, j: int| 0 <= k < j < abundant_nums_vec@.len() ==> abundant_nums_vec@[k] < abundant_nums_vec@[j],
            forall|k: int| 0 <= k < abundant_nums_vec@.len() ==> #[trigger] abundant_nums_vec@[k] < num,
            forall|a: nat| a < num && #[trigger] is_abundant_spec(a) ==> abundant_nums_vec@.contains(a as usize),
            forall|k: int| 0 <= k < abundant_nums_vec@.len() ==> is_abundant_spec(#[trigger] abundant_nums_vec@[k] as nat),
        decreases limit + 1 - num,
    {
        proof {
            assert forall|p: int| #[trigger] is_prime(p) && p * p <= num implies primes@.contains(p as usize) by {
                if p >= limit {
                    assert(p * p > num) by (nonlinear_arith)
                        requires
                            p >= limit,
                            limit == 28_123,
                            num <= limit,
                    ;
                }
            }
        }
        let abundant = is_abundant(num, primes.as_slice());
        abundant_table.push(abundant);
        if abundant {
            let ghost before = abundant_nums_vec@;
            abundant_nums_vec.push(num);
            proof {
                assert forall|a: nat| a < num + 1 && #[trigger] is_abundant_spec(a) implies abundant_nums_vec@.contains(
                    a as usize,
                ) by {
                    if a < num {
                        let k = choose|k: int| 0 <= k < before.len() && before[k] == a as usize;
                        assert(abundant_nums_vec@[k] == a as usize);
                    } else {
                        assert(abundant_nums_vec@[before.len() as int] == a as usize);
                    }
                }
            }
        }
        num = num + 1;
    }
    let mut sum: usize = 0;
    let mut n: usize = 1;
    while n <= limit
        invariant
            1 <= n <= limit + 1,
            limit == MAX_SUM_TWO_ABUNDANT_NUMS,
            abundant_table@.len() == limit + 1,
            forall|k: int| 0 <= k < abundant_table@.len() ==> #[trigger] abundant_table@[k] == is_abundant_spec(k as nat),
            forall|k: int, j: int| 0 <= k < j < abundant_nums_vec@.len() ==> abundant_nums_vec@[k] < abundant_nums_vec@[j],
            forall|a: nat| a < limit + 1 && #[trigger] is_abundant_spec(a) ==> abundant_nums_vec@.contains(a as usize),
            forall|k: int| 0 <= k < abundant_nums_vec@.len() ==> is_abundant_spec(#[trigger] abundant_nums_vec@[k] as nat),
            sum == non_abundant_sum_below(n as nat),
            2 * sum <= n * n,
        decreases limit + 1 - n,
    {
        proof {
            assert(n * n + 2 * n <= (n + 1) * (n + 1)) by (nonlinear_arith);
            assert((n + 1) * (n + 1) <= 28124 * 28124) by (nonlinear_arith)
                requires
                    n <= 28123,
            ;
        }
        if !is_sum_of_abundant_nums(n, abundant_nums_vec.as_slice(), &abundant_table) {
            sum = sum + n;
        }
        n = n + 1;
    }
    sum
}

} // verus!
