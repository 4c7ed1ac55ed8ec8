//! The number of ways to make an amount from coins of given values.

use vstd::prelude::*;

verus! {

/// The coins of the British currency, in pence, largest first.
pub const COINS: [u32; 8] = [200, 100, 50, 20, 10, 5, 2, 1];

/// The amount to make: two pounds.
pub const TARGET: u32 = 200;

/// The number of ways to make `target` from any number of each coin of
/// `coins` (the order of the coins taken does not matter).
pub open spec fn ways(coins: Seq<u32>, target: nat) -> nat
    decreases coins.len(), 1nat, 0nat,
{
    if target == 0 {
        1
    } else if coins.len() == 0 || coins[0] == 0 {
        0
    } else {
        ways_using_first(coins, target, target / (coins[0] as nat) + 1)
    }
}

/// The ways to make `target` that take fewer than `k` of the first coin.
pub open spec fn ways_using_first(coins: Seq<u32>, target: nat, k: nat) -> nat
    decreases coins.len(), 0nat, k,
{
    if k == 0 || coins.len() == 0 {
        0
    } else {
        let n = (k - 1) as nat;
        ways_using_first(coins, target, n) + ways(coins.drop_first(), (target - n * coins[0]) as nat)
    }
}

proof fn lemma_ways_using_first_monotonic(coins: Seq<u32>, target: nat, j: nat, k: nat)
    requires
        j <= k,
    ensures
        ways_using_first(coins, target, j) <= ways_using_first(coins, target, k),
    decreases k,
{
    if j < k {
        lemma_ways_using_first_monotonic(coins, target, j, (k - 1) as nat);
    }
}

fn count_from(nums: &[u32], start: usize, target: u32) -> (r: usize)
    requires
        start <= nums@.len(),
        forall|i: int| 0 <= i < nums@.len() ==> #[trigger] nums@[i] > 0,
        ways(nums@.subrange(start as int, nums@.len() as int), target as nat) <= usize::MAX,
    ensures
        r == ways(nums@.subrange(start as int, nums@.len() as int), target as nat),
    decreases nums@.len() - start,
{
    let ghost coins = nums@.subrange(start as int, nums@.len() as int);
    if target == 0 {
        return 1;
    }
    let len = nums.len();
    if start == len {
        return 0;
    }
    let num = nums[start];
    assert(coins[0] == num);
    assert(coins.drop_first() =~= nums@.subrange(start + 1, nums@.len() as int));
    let times_num_fits = target / num;
    let mut total: usize = 0;
    let mut n: u32 = 0;
    while n <= times_num_fits
        invariant
            n <= times_num_fits + 1,
            times_num_fits == target / num,
            num > 0,
            start < len,
            len == nums@.len(),
            forall|i: int| 0 <= i < nums@.len() ==> #[trigger] nums@[i] > 0,
            coins == nums@.subrange(start as int, nums@.len() as int),
            coins[0] == num,
            coins.drop_first() == nums@.subrange(start + 1, nums@.len() as int),
            target > 0,
            ways(coins, target as nat) == ways_using_first(coins, target as nat, (times_num_fits + 1) as nat),
            ways(coins, target as nat) <= usize::MAX,
            total == ways_using_first(coins, target as nat, n as nat),
        decreases times_num_fits + 1 - n,
    {
        proof {
            lemma_ways_using_first_monotonic(coins, target as nat, (n + 1) as nat, (times_num_fits + 1) as nat);
            assert(n * num <= target) by (nonlinear_arith)
                requires
                    n <= times_num_fits,
                    times_num_fits == target / num,
                    num > 0,
            ;
        }
        let part = count_from(nums, start + 1, target - n * num);
        total = total + part;
        if n == times_num_fits {
            return total;
        }
        n = n + 1;
    }
    total
}

/// The number of ways to make `target` from any number of each coin of
/// `nums`.
pub fn num_possibilities(nums: &[u32], target: u32) -> (r: usize)
    requires
        forall|i: int| 0 <= i < nums@.len() ==> #[trigger] nums@[i] > 0,
        ways(nums@, target as nat) <= usize::MAX,
    ensures
        r == ways(nums@, target as nat),
{
    assert(nums@.subrange(0, nums@.len() as int) =~= nums@);
    count_from(nums, 0, target)
}

} // verus!
