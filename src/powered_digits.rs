//! Numbers that equal the sum of a power of their decimal digits.

use vstd::prelude::*;

verus! {

use crate::arith::{lemma_power_le, lemma_power_positive, power};

/// The sum of `digit^p` over the decimal digits of `num`.
pub open spec fn powered_digit_sum(num: nat, p: nat) -> nat
    decreases num,
{
    if num == 0 {
        0
    } else {
        powered_digit_sum(num / 10, p) + power((num % 10) as int, p) as nat
    }
}

/// The sum of the numbers in `2..k` that equal the sum of the `p`-th powers
/// of their digits.
pub open spec fn powered_numbers_sum(k: nat, p: nat) -> nat
    decreases k,
{
    if k <= 2 {
        0
    } else {
        let n = (k - 1) as nat;
        powered_numbers_sum(n, p) + if powered_digit_sum(n, p) == n {
            n
        } else {
            0
        }
    }
}

proof fn lemma_power_nat(b: int, e: nat)
    requires
        b >= 0,
    ensures
        power(b, e) >= 0,
{
    crate::arith::lemma_power_nonneg(b, e);
}

/// `base^exponent`, or `None` when it exceeds `u64::MAX`.
fn checked_power(base: u64, exponent: u32) -> (r: Option<u64>)
    ensures
        r matches Some(v) ==> v == power(base as int, exponent as nat),
        r is None ==> power(base as int, exponent as nat) > u64::MAX,
{
    let mut result: u64 = 1;
    let mut i: u32 = 0;
    while i < exponent
        invariant
            i <= exponent,
            result == power(base as int, i as nat),
        decreases exponent - i,
    {
        proof {
            assert(power(base as int, (i + 1) as nat) == power(base as int, i as nat) * base) by (nonlinear_arith)
                requires
                    power(base as int, (i + 1) as nat) == base * power(base as int, i as nat),
            ;
        }
        match result.checked_mul(base) {
            Some(v) => {
                result = v;
            },
            None => {
                proof {
                    if base == 0 {
                        assert(result as int * base as int == 0) by (nonlinear_arith)
                            requires
                                base == 0,
                        ;
                    }
                    lemma_power_le(base as int, (i + 1) as nat, exponent as nat);
                }
                return None;
            },
        }
        i = i + 1;
    }
    Some(result)
}

/// Whether `num` equals the sum of the `exponent`-th powers of its decimal
/// digits.
pub fn is_sum_of_powered_digits(num: u64, exponent: u32) -> (r: bool)
    ensures
        r == (powered_digit_sum(num as nat, exponent as nat) == num),
{
    let mut sum: u64 = 0;
    let mut rest: u64 = num;
    while rest > 0
        invariant
            sum + powered_digit_sum(rest as nat, exponent as nat) == powered_digit_sum(num as nat, exponent as nat),
        decreases rest,
    {
        let digit = rest % 10;
        proof {
            lemma_power_nat(digit as int, exponent as nat);
        }
        let term = match checked_power(digit, exponent) {
            Some(v) => v,
            None => return false,
        };
        sum = match sum.checked_add(term) {
            Some(s) => s,
            None => return false,
        };
        rest = rest / 10;
    }
    sum == num
}

/// The sum of the numbers from 2 below one million that equal the sum of
/// the `exponent`-th powers of their digits.
pub fn solve(exponent: u32) -> (r: u64)
    ensures
        r == powered_numbers_sum(1_000_000, exponent as nat),
{
    let mut sum: u64 = 0;
    let mut n: u64 = 2;
    while n < 1_000_000
        invariant
            2 <= n <= 1_000_000,
            sum == powered_numbers_sum(n as nat, exponent as nat),
            sum <= n * n,
        decreases 1_000_000 - n,
    {
        assert(n * n + n <= (n + 1) * (n + 1)) by (nonlinear_arith);
        assert(n * n <= 1_000_000_000_000) by (nonlinear_arith)
            requires
                n < 1_000_000,
        ;
        if is_sum_of_powered_digits(n, exponent) {
            sum = sum + n;
        }
        n = n + 1;
    }
    sum
}

} // verus!
