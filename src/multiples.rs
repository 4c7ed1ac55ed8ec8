//! Sums of the numbers below a limit that are multiples of any of a set of
//! divisors.

use vstd::prelude::*;

verus! {

/// Some value of `divisors` divides `num`.
pub open spec fn divisible_by_any_spec(num: u32, divisors: Seq<u32>) -> bool {
    exists|i: int| 0 <= i < divisors.len() && num % #[trigger] divisors[i] == 0
}

/// The sum of the numbers in `1..k` that some value of `divisors` divides.
pub open spec fn multiples_sum(divisors: Seq<u32>, k: nat) -> nat
    decreases k,
{
    if k <= 1 {
        0
    } else {
        let n = (k - 1) as nat;
        multiples_sum(divisors, n) + if n <= u32::MAX && divisible_by_any_spec(n as u32, divisors) {
            n
        } else {
            0
        }
    }
}

pub fn divisble_by(num: u32, divisor: u32) -> (r: bool)
    requires
        divisor != 0,
    ensures
        r == (num % divisor == 0),
{
    num % divisor == 0
}

pub fn divisble_by_any(num: u32, divisors: &[u32]) -> (r: bool)
    requires
        forall|i: int| 0 <= i < divisors@.len() ==> #[trigger] divisors@[i] != 0,
    ensures
        r == divisible_by_any_spec(num, divisors@),
{
    let mut i: usize = 0;
    while i < divisors.len()
        invariant
            i <= divisors@.len(),
            forall|j: int| 0 <= j < divisors@.len() ==> #[trigger] divisors@[j] != 0,
            forall|j: int| 0 <= j < i ==> num % #[trigger] divisors@[j] != 0,
        decreases divisors@.len() - i,
    {
        if divisble_by(num, divisors[i]) {
            return true;
        }
        i = i + 1;
    }
    false
}

/// The sum of the numbers below `limit` that some value of `divisors`
/// divides.
pub fn solve(divisors: &[u32], limit: u32) -> (r: u64)
    requires
        forall|i: int| 0 <= i < divisors@.len() ==> #[trigger] divisors@[i] != 0,
    ensures
        r == multiples_sum(divisors@, limit as nat),
{
    let mut sum: u64 = 0;
    let mut num: u32 = 1;
    if limit == 0 {
        return 0;
    }
    while num < limit
        invariant
            1 <= num <= limit,
            forall|i: int| 0 <= i < divisors@.len() ==> #[trigger] divisors@[i] != 0,
            sum == multiples_sum(divisors@, num as nat),
            sum <= num as int * num as int,
        decreases limit - num,
    {
        assert(num as int * num as int + num <= (num as int + 1) * (num as int + 1)) by (nonlinear_arith);
        assert((num as int + 1) * (num as int + 1) <= u64::MAX) by (nonlinear_arith)
            requires
                num < u32::MAX,
        ;
        if divisble_by_any(num, divisors) {
            sum = sum + num as u64;
        }
        num = num + 1;
    }
    sum
}

} // verus!
