//! Large numbers held as their decimal digits, most significant first, with
//! the arithmetic on them done by `num-bigint`: digit sums of powers and
//! factorials, and the first Fibonacci number with a given number of digits.

use vstd::prelude::*;

verus! {

use crate::arith::power;
use crate::permutation::{digits_value, fact};

/// Each value of `s` is a decimal digit.
pub open spec fn is_digits(s: Seq<u8>) -> bool {
    forall|i: int| 0 <= i < s.len() ==> #[trigger] s[i] < 10
}

/// The sum of the decimal digits of `n`.
pub open spec fn digit_sum(n: nat) -> nat
    decreases n,
{
    if n == 0 {
        0
    } else {
        (n % 10) + digit_sum(n / 10)
    }
}

/// The sum of the values of `s`.
pub open spec fn digits_total(s: Seq<u8>) -> nat
    decreases s.len(),
{
    if s.len() == 0 {
        0
    } else {
        digits_total(s.drop_last()) + s.last() as nat
    }
}

/// The number of decimal digits of `n` (one for 0).
pub open spec fn decimal_len(n: nat) -> nat
    decreases n,
{
    if n < 10 {
        1
    } else {
        1 + decimal_len(n / 10)
    }
}

/// The `n`-th Fibonacci number: 1, 1, 2, 3, 5, ... from `n = 1`.
pub open spec fn fib(n: nat) -> nat
    decreases n,
{
    if n <= 2 {
        1
    } else {
        fib((n - 1) as nat) + fib((n - 2) as nat)
    }
}

/// Relies on `BigUint::pow` (and `to_radix_be` for the digits): the decimal
/// digits of `base^exponent`.
#[verifier::external_body]
fn big_pow_digits(base: u32, exponent: u32) -> (r: Vec<u8>)
    ensures
        is_digits(r@),
        digits_value(r@) == power(base as int, exponent as nat),
{
    num_bigint::BigUint::from(base).pow(exponent).to_radix_be(10)
}

/// Relies on the product of `num_iter::range_inclusive(1, num)` over
/// `BigUint` (and `to_radix_be` for the digits): the decimal digits of
/// `num!`.
#[verifier::external_body]
fn big_factorial_digits(num: u32) -> (r: Vec<u8>)
    ensures
        is_digits(r@),
        digits_value(r@) == fact(num as nat),
{
    let one = num_bigint::BigUint::from(1u32);
    let product: num_bigint::BigUint = num_iter::range_inclusive(one, num_bigint::BigUint::from(num)).product();
    product.to_radix_be(10)
}

/// Relies on `BigUint`'s `+` (with `from_radix_be` and `to_radix_be` for the
/// digits): the decimal digits of the sum.
#[verifier::external_body]
fn big_add_digits(a: &Vec<u8>, b: &Vec<u8>) -> (r: Vec<u8>)
    requires
        is_digits(a@),
        is_digits(b@),
    ensures
        is_digits(r@),
        digits_value(r@) == digits_value(a@) + digits_value(b@),
{
    let x = num_bigint::BigUint::from_radix_be(a, 10).unwrap_or_default();
    let y = num_bigint::BigUint::from_radix_be(b, 10).unwrap_or_default();
    (x + y).to_radix_be(10)
}

proof fn lemma_digit_sum_step(v: nat, d: nat)
    requires
        d < 10,
    ensures
        digit_sum(v * 10 + d) == digit_sum(v) + d,
        decimal_len(v * 10 + d) == if v == 0 {
            1
        } else {
            1 + decimal_len(v)
        },
{
    vstd::arithmetic::div_mod::lemma_fundamental_div_mod_converse((v * 10 + d) as int, 10, v as int, d as int);
    if v * 10 + d == 0 {
        assert(v == 0 && d == 0);
    }
}

proof fn lemma_digits_total(s: Seq<u8>)
    requires
        is_digits(s),
    ensures
        digits_total(s) == digit_sum(digits_value(s)),
    decreases s.len(),
{
    if s.len() > 0 {
        let init = s.drop_last();
        assert forall|i: int| 0 <= i < init.len() implies #[trigger] init[i] < 10 by {
            assert(init[i] == s[i]);
        }
        lemma_digits_total(init);
        assert(s.last() == s[s.len() - 1]);
        lemma_digit_sum_step(digits_value(init), s.last() as nat);
    }
}

proof fn lemma_digits_total_prefix(s: Seq<u8>, i: int)
    requires
        0 <= i <= s.len(),
    ensures
        digits_total(s.take(i)) <= digits_total(s),
    decreases s.len() - i,
{
    if i < s.len() {
        lemma_digits_total_prefix(s, i + 1);
        assert(s.take(i + 1).drop_last() =~= s.take(i));
    } else {
        assert(s.take(i) =~= s);
    }
}

pub proof fn lemma_digits_total_bound(s: Seq<u8>)
    requires
        is_digits(s),
    ensures
        digits_total(s) <= 9 * s.len(),
    decreases s.len(),
{
    if s.len() > 0 {
        let init = s.drop_last();
        assert forall|i: int| 0 <= i < init.len() implies #[trigger] init[i] < 10 by {
            assert(init[i] == s[i]);
        }
        lemma_digits_total_bound(init);
        assert(s.last() == s[s.len() - 1]);
    }
}

/// The sum of the values of `digits`.
pub fn sum_of_digits(digits: &Vec<u8>) -> (r: u64)
    requires
        digits_total(digits@) <= u64::MAX,
    ensures
        r == digits_total(digits@),
{
    let mut sum: u64 = 0;
    let mut i: usize = 0;
    while i < digits.len()
        invariant
            i <= digits@.len(),
            digits_total(digits@) <= u64::MAX,
            sum == digits_total(digits@.take(i as int)),
        decreases digits@.len() - i,
    {
        proof {
            assert(digits@.take(i + 1).drop_last() =~= digits@.take(i as int));
            lemma_digits_total_prefix(digits@, i + 1);
        }
        sum = sum + digits[i] as u64;
        i = i + 1;
    }
    assert(digits@.take(digits@.len() as int) =~= digits@);
    sum
}

/// The sum of the decimal digits of the number that `digits` write.
pub fn sum_digits(digits: &Vec<u8>) -> (r: u64)
    requires
        is_digits(digits@),
        digit_sum(digits_value(digits@)) <= u64::MAX,
    ensures
        r == digit_sum(digits_value(digits@)),
{
    proof {
        lemma_digits_total(digits@);
    }
    sum_of_digits(digits)
}

/// The digit sum of a number given by its digits, or `None` when there are
/// more than a billion digits.
pub fn checked_sum_digits(digits: &Vec<u8>) -> (r: Option<u64>)
    requires
        is_digits(digits@),
    ensures
        r matches Some(t) ==> t == digit_sum(digits_value(digits@)),
{
    if digits.len() > 1_000_000_000 {
        return None;
    }
    proof {
        lemma_digits_total_bound(digits@);
        lemma_digits_total(digits@);
    }
    Some(sum_digits(digits))
}

/// The sum of the decimal digits of `base^exponent`.
pub fn power_digit_sum(base: u32, exponent: u32) -> (r: u64)
    requires
        digit_sum(power(base as int, exponent as nat) as nat) <= u64::MAX,
    ensures
        r == digit_sum(power(base as int, exponent as nat) as nat),
{
    let digits = big_pow_digits(base, exponent);
    proof {
        lemma_digits_total(digits@);
    }
    sum_of_digits(&digits)
}

/// The sum of the decimal digits of `num!`.
pub fn factorial_digit_sum(num: u32) -> (r: u64)
    requires
        digit_sum(fact(num as nat)) <= u64::MAX,
    ensures
        r == digit_sum(fact(num as nat)),
{
    let digits = big_factorial_digits(num);
    proof {
        lemma_digits_total(digits@);
    }
    sum_of_digits(&digits)
}

proof fn lemma_skip_leading_zero(s: Seq<u8>)
    requires
        s.len() >= 1,
        s[0] == 0,
    ensures
        digits_value(s) == digits_value(s.drop_first()),
    decreases s.len(),
{
    if s.len() == 1 {
        assert(s.drop_last() =~= Seq::<u8>::empty());
        assert(s.drop_first() =~= Seq::<u8>::empty());
    } else {
        let init = s.drop_last();
        assert(init[0] == 0);
        lemma_skip_leading_zero(init);
        assert(s.drop_first().drop_last() =~= init.drop_first());
        assert(s.drop_first().last() == s.last());
    }
}

proof fn lemma_len_of_digits(s: Seq<u8>)
    requires
        is_digits(s),
        s.len() >= 1,
        s[0] != 0,
    ensures
        decimal_len(digits_value(s)) == s.len(),
        digits_value(s) >= 1,
    decreases s.len(),
{
    let init = s.drop_last();
    assert(s.last() == s[s.len() - 1]);
    assert(s.last() < 10);
    if s.len() == 1 {
        assert(init =~= Seq::<u8>::empty());
        lemma_digit_sum_step(0, s.last() as nat);
    } else {
        assert forall|i: int| 0 <= i < init.len() implies #[trigger] init[i] < 10 by {
            assert(init[i] == s[i]);
        }
        assert(init[0] == s[0]);
        lemma_len_of_digits(init);
        lemma_digit_sum_step(digits_value(init), s.last() as nat);
    }
}

/// The number of decimal digits of the number that `num` writes.
pub fn get_num_digits(num: &Vec<u8>) -> (r: usize)
    requires
        is_digits(num@),
    ensures
        r == decimal_len(digits_value(num@)),
{
    let mut start: usize = 0;
    assert(num@.skip(0) =~= num@);
    while start < num.len() && num[start] == 0
        invariant
            start <= num@.len(),
            is_digits(num@),
            digits_value(num@.skip(start as int)) == digits_value(num@),
        decreases num@.len() - start,
    {
        proof {
            lemma_skip_leading_zero(num@.skip(start as int));
            assert(num@.skip(start as int).drop_first() =~= num@.skip(start + 1));
        }
        start = start + 1;
    }
    if start == num.len() {
        proof {
            assert(num@.skip(start as int) =~= Seq::<u8>::empty());
        }
        return 1;
    }
    proof {
        let rest = num@.skip(start as int);
        assert forall|i: int| 0 <= i < rest.len() implies #[trigger] rest[i] < 10 by {
            assert(rest[i] == num@[start + i]);
        }
        lemma_len_of_digits(rest);
    }
    num.len() - start
}

/// The number of decimal digits of `n`, none for 0.
pub open spec fn digit_count(n: nat) -> nat {
    if n == 0 {
        0
    } else {
        decimal_len(n)
    }
}

/// The number of decimal digits of the number that `num` writes (none for
/// 0).
pub fn num_digits(num: &Vec<u8>) -> (r: usize)
    requires
        is_digits(num@),
    ensures
        r == digit_count(digits_value(num@)),
{
    let mut start: usize = 0;
    assert(num@.skip(0) =~= num@);
    while start < num.len() && num[start] == 0
        invariant
            start <= num@.len(),
            is_digits(num@),
            digits_value(num@.skip(start as int)) == digits_value(num@),
        decreases num@.len() - start,
    {
        proof {
            lemma_skip_leading_zero(num@.skip(start as int));
            assert(num@.skip(start as int).drop_first() =~= num@.skip(start + 1));
        }
        start = start + 1;
    }
    if start == num.len() {
        proof {
            assert(num@.skip(start as int) =~= Seq::<u8>::empty());
        }
        return 0;
    }
    proof {
        let rest = num@.skip(start as int);
        assert forall|i: int| 0 <= i < rest.len() implies #[trigger] rest[i] < 10 by {
            assert(rest[i] == num@[start + i]);
        }
        lemma_len_of_digits(rest);
    }
    num.len() - start
}

/// The powers `p`, from 0 up, of `base` are skipped while `p` is below the
/// number of digits of `base^p`; then those with exactly `p` digits follow.
pub open spec fn is_matching_run(base: nat, run: Seq<u32>) -> bool {
    exists|s: nat|
        {
            &&& forall|p: nat| p < s ==> p < #[trigger] digit_count(power(base as int, p) as nat)
            &&& s >= #[trigger] digit_count(power(base as int, s) as nat)
            &&& forall|i: int| 0 <= i < run.len() ==> #[trigger] run[i] == s + i && digit_count(
                power(base as int, (s + i) as nat) as nat,
            ) == s + i
            &&& digit_count(power(base as int, (s + run.len()) as nat) as nat) != s + run.len()
        }
}

/// The powers `p` of `base` whose value has exactly `p` digits, in the run
/// that follows the powers with more digits than their exponent. `None` if
/// the run does not end below the power 100.
pub fn get_matching_power_num_digits(base: u32) -> (r: Option<Vec<u32>>)
    ensures
        r matches Some(run) ==> is_matching_run(base as nat, run@),
{
    let mut p: u32 = 0;
    let mut digits = num_digits(&big_pow_digits(base, p));
    while (p as usize) < digits
        invariant
            p <= 100,
            digits == digit_count(power(base as int, p as nat) as nat),
            forall|q: nat| q < p ==> q < #[trigger] digit_count(power(base as int, q) as nat),
        decreases 100 - p,
    {
        if p == 100 {
            return None;
        }
        p = p + 1;
        digits = num_digits(&big_pow_digits(base, p));
    }
    let ghost s = p as nat;
    let mut run: Vec<u32> = Vec::new();
    while (p as usize) == digits
        invariant
            s <= p <= 100,
            digits == digit_count(power(base as int, p as nat) as nat),
            run@.len() == p - s,
            forall|i: int| 0 <= i < run@.len() ==> #[trigger] run@[i] == s + i && digit_count(
                power(base as int, (s + i) as nat) as nat,
            ) == s + i,
        decreases 100 - p,
    {
        if p == 100 {
            return None;
        }
        run.push(p);
        p = p + 1;
        digits = num_digits(&big_pow_digits(base, p));
    }
    Some(run)
}

/// The Fibonacci numbers in order, as decimal digits.
pub struct Fibonacci {
    pub prev: Vec<u8>,
    pub next: Vec<u8>,
    /// The index of `prev` among the Fibonacci numbers.
    pub index: Ghost<nat>,
}

impl Fibonacci {
    /// `prev` and `next` are the Fibonacci numbers `k` and `k + 1`.
    pub open spec fn at(&self, k: nat) -> bool {
        &&& k >= 1
        &&& self.index@ == k
        &&& is_digits(self.prev@)
        &&& is_digits(self.next@)
        &&& digits_value(self.prev@) == fib(k)
        &&& digits_value(self.next@) == fib(k + 1)
    }

    pub fn new() -> (r: Self)
        ensures
            r.at(1),
    {
        let mut prev: Vec<u8> = Vec::new();
        prev.push(1);
        let mut next: Vec<u8> = Vec::new();
        next.push(1);
        proof {
            assert(prev@.drop_last() =~= Seq::<u8>::empty());
            assert(next@.drop_last() =~= Seq::<u8>::empty());
            assert(digits_value(prev@) == digits_value(prev@.drop_last()) * 10 + 1);
            assert(digits_value(next@) == digits_value(next@.drop_last()) * 10 + 1);
            assert(fib(1) == 1 && fib(2) == 1);
        }
        Fibonacci { prev, next, index: Ghost(1) }
    }

    /// The current Fibonacci number; moves on to the next.
    pub fn next(&mut self) -> (r: Vec<u8>)
        requires
            old(self).at(old(self).index@),
        ensures
            final(self).at(old(self).index@ + 1),
            is_digits(r@),
            digits_value(r@) == fib(old(self).index@),
    {
        let sum = big_add_digits(&self.prev, &self.next);
        let mut current = sum;
        std::mem::swap(&mut current, &mut self.next);
        std::mem::swap(&mut current, &mut self.prev);
        self.index = Ghost(self.index@ + 1);
        current
    }
}

/// The index of the first Fibonacci number with `num_digits` digits or
/// more. `None` if it is not among the first `5 * num_digits + 10`.
pub fn solve(num_digits: usize) -> (r: Option<usize>)
    requires
        num_digits <= 1_000_000,
    ensures
        r matches Some(i) ==> i >= 1 && decimal_len(fib(i as nat)) >= num_digits && forall|k: nat|
            1 <= k < i ==> decimal_len(#[trigger] fib(k)) < num_digits,
{
    let mut fibonacci = Fibonacci::new();
    let mut index: usize = 1;
    let cap: usize = 5 * num_digits + 10;
    while index <= cap
        invariant
            1 <= index <= cap + 1,
            num_digits <= 1_000_000,
            cap == 5 * num_digits + 10,
            fibonacci.at(index as nat),
            forall|k: nat| 1 <= k < index ==> decimal_len(#[trigger] fib(k)) < num_digits,
        decreases cap + 1 - index,
    {
        let current = fibonacci.next();
        if get_num_digits(&current) >= num_digits {
            return Some(index);
        }
        index = index + 1;
    }
    None
}

} // verus!
