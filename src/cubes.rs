//! Cubes and the decimal digits they are made of.

use vstd::prelude::*;

verus! {

use crate::arith::{lemma_power_le, lemma_power_positive, power};
use vstd::multiset::Multiset;

/// The base of the digits counted.
pub const BASE: u64 = 10;

/// How often the decimal digit `d` occurs in `num` (0 has no digits).
pub open spec fn digit_count(num: nat, d: nat) -> nat
    decreases num,
{
    if num == 0 {
        0
    } else {
        digit_count(num / 10, d) + if num % 10 == d {
            1nat
        } else {
            0
        }
    }
}

#[verifier::external_type_specification]
#[verifier::external_body]
#[verifier::reject_recursive_types(T)]
#[verifier::reject_recursive_types(N)]
#[verifier::reject_recursive_types(S)]
pub struct ExCounter<T, N, S>(counter::Counter<T, N, S>);

/// What a counter of digits holds: each digit as often as it was counted.
pub uninterp spec fn counter_contents(c: counter::Counter<u8>) -> Multiset<u8>;

/// Relies on `Counter::new`: an empty counter.
#[verifier::external_body]
fn new_counter() -> (r: counter::Counter<u8>)
    ensures
        counter_contents(r) =~= Multiset::<u8>::empty(),
{
    counter::Counter::new()
}

/// Relies on `Counter`'s `IndexMut` (`counter[&digit] += 1`): counts
/// `digit` once more.
#[verifier::external_body]
fn count_digit(c: &mut counter::Counter<u8>, digit: u8)
    ensures
        counter_contents(*final(c)) =~= counter_contents(*old(c)).insert(digit),
{
    c[&digit] += 1;
}

/// Relies on `Counter`'s `Index` (`counter[&digit]`): how often `digit` was
/// counted, 0 for one never counted.
#[verifier::external_body]
fn digit_tally(c: &counter::Counter<u8>, digit: u8) -> (r: usize)
    ensures
        r == counter_contents(*c).count(digit),
{
    c[&digit]
}

/// `x` is the cube of a natural number.
pub open spec fn is_cube(x: int) -> bool {
    exists|n: int| n >= 0 && #[trigger] (n * n * n) == x
}

pub fn cube(num: u64) -> (r: u64)
    requires
        num * num * num <= u64::MAX,
    ensures
        r == num * num * num,
{
    assert(num * num <= num * num * num || num == 0) by (nonlinear_arith);
    num * num * num
}

/// `base` to the power `exponent`, by repeated multiplication.
pub fn int_pow(base: u64, exponent: u64) -> (r: u64)
    requires
        base >= 1,
        power(base as int, exponent as nat) <= u64::MAX,
    ensures
        r == power(base as int, exponent as nat),
{
    let mut result: u64 = 1;
    let mut i: u64 = 0;
    while i < exponent
        invariant
            i <= exponent,
            base >= 1,
            power(base as int, exponent as nat) <= u64::MAX,
            result == power(base as int, i as nat),
        decreases exponent - i,
    {
        proof {
            lemma_power_le(base as int, (i + 1) as nat, exponent as nat);
            assert(power(base as int, (i + 1) as nat) == power(base as int, i as nat) * base) by (nonlinear_arith)
                requires
                    power(base as int, (i + 1) as nat) == base * power(base as int, i as nat),
            ;
        }
        result = result * base;
        i = i + 1;
    }
    result
}

proof fn lemma_cube_monotonic(a: int, b: int)
    requires
        0 <= a < b,
    ensures
        a * a * a < b * b * b,
{
    assert(a * a * a < b * b * b) by (nonlinear_arith)
        requires
            0 <= a < b,
    ;
}

/// The cubes with `num_digits` decimal digits, ascending.
pub fn find_cubes(num_digits: u64) -> (cubes: Vec<u64>)
    requires
        1 <= num_digits <= 18,
    ensures
        forall|i: int, j: int| 0 <= i < j < cubes@.len() ==> cubes@[i] < cubes@[j],
        forall|x: u64|
            #[trigger] cubes@.contains(x) <==> (is_cube(x as int) && power(10, (num_digits - 1) as nat) <= x < power(
                10,
                num_digits as nat,
            )),
{
    proof {
        lemma_power_le(10, num_digits as nat, 18);
        lemma_power_le(10, (num_digits - 1) as nat, num_digits as nat);
        lemma_power_positive(10, (num_digits - 1) as nat);
        reveal_with_fuel(power, 19);
        assert(power(10, 18) == 1_000_000_000_000_000_000);
    }
    let min = int_pow(BASE, num_digits - 1);
    let max = int_pow(BASE, num_digits);
    let mut cubes: Vec<u64> = Vec::new();
    let mut n: u64 = 1;
    assert(1 * 1 * 1 == 1int);
    while cube(n) < max
        invariant
            1 <= n <= 1_000_001,
            n * n * n <= u64::MAX,
            1 <= min <= max <= 1_000_000_000_000_000_000,
            min == power(10, (num_digits - 1) as nat),
            max == power(10, num_digits as nat),
            forall|i: int, j: int| 0 <= i < j < cubes@.len() ==> cubes@[i] < cubes@[j],
            forall|i: int| 0 <= i < cubes@.len() ==> cubes@[i] < n * n * n,
            forall|x: u64|
                #[trigger] cubes@.contains(x) <==> (exists|m: int| 1 <= m < n && #[trigger] (m * m * m) == x) && min
                    <= x < max,
        decreases 1_000_001 - n,
    {
        let c = cube(n);
        proof {
            if n >= 1_000_000 {
                assert(n * n * n >= 1_000_000_000_000_000_000) by (nonlinear_arith)
                    requires
                        n >= 1_000_000,
                ;
            }
            assert((n + 1) * (n + 1) * (n + 1) <= u64::MAX) by (nonlinear_arith)
                requires
                    n < 1_000_000,
            ;
            lemma_cube_monotonic(n as int, n + 1);
        }
        let ghost before = cubes@;
        if c >= min {
            cubes.push(c);
        }
        proof {
            assert forall|x: u64|
                #[trigger] cubes@.contains(x) <==> (exists|m: int| 1 <= m < n + 1 && #[trigger] (m * m * m) == x) && min
                    <= x < max by {
                if cubes@.contains(x) {
                    let i = choose|i: int| 0 <= i < cubes@.len() && cubes@[i] == x;
                    if i < before.len() {
                        assert(before.contains(x));
                        let m = choose|m: int| 1 <= m < n && #[trigger] (m * m * m) == x;
                        assert(1 <= m < n + 1 && m * m * m == x);
                    } else {
                        assert(1 <= n < n + 1 && n * n * n == x);
                    }
                }
                if (exists|m: int| 1 <= m < n + 1 && #[trigger] (m * m * m) == x) && min <= x < max {
                    let m = choose|m: int| 1 <= m < n + 1 && #[trigger] (m * m * m) == x;
                    if m < n {
                        assert(before.contains(x));
                        let i = choose|i: int| 0 <= i < before.len() && before[i] == x;
                        assert(cubes@[i] == x);
                    } else {
                        assert(cubes@[cubes@.len() - 1] == x);
                    }
                }
            }
        }
        n = n + 1;
    }
    proof {
        assert forall|x: u64|
            #[trigger] cubes@.contains(x) <==> (is_cube(x as int) && min <= x < max) by {
            if is_cube(x as int) && min <= x < max {
                let m = choose|m: int| m >= 0 && #[trigger] (m * m * m) == x as int;
                if m > n {
                    lemma_cube_monotonic(n as int, m);
                }
                if m == 0 {
                    assert(m * m * m == 0) by (nonlinear_arith)
                        requires
                            m == 0,
                    ;
                }
                assert(1 <= m < n);
            }
            if cubes@.contains(x) {
                let m = choose|m: int| 1 <= m < n && #[trigger] (m * m * m) == x;
                assert(m >= 0 && m * m * m == x as int);
            }
        }
    }
    cubes
}

/// A counter of the decimal digits of `num`.
pub fn get_digits_counter(num: u64) -> (r: counter::Counter<u8>)
    ensures
        forall|d: u8| #[trigger] counter_contents(r).count(d) == digit_count(num as nat, d as nat),
{
    let mut digits = new_counter();
    let mut rest: u64 = num;
    while rest > 0
        invariant
            rest <= num,
            forall|d: u8|
                #[trigger] counter_contents(digits).count(d) + digit_count(rest as nat, d as nat) == digit_count(
                    num as nat,
                    d as nat,
                ),
        decreases rest,
    {
        let digit = (rest % BASE) as u8;
        let ghost before = counter_contents(digits);
        count_digit(&mut digits, digit);
        proof {
            assert forall|d: u8| #[trigger] counter_contents(digits).count(d) + digit_count((rest / 10) as nat, d as nat)
                == digit_count(num as nat, d as nat) by {
                assert(digit_count(rest as nat, d as nat) == digit_count((rest / 10) as nat, d as nat) + if rest % 10
                    == d {
                    1nat
                } else {
                    0
                });
                assert(before.count(d) + digit_count(rest as nat, d as nat) == digit_count(num as nat, d as nat));
            }
        }
        rest = rest / BASE;
    }
    proof {
        assert forall|d: u8| #[trigger] counter_contents(digits).count(d) == digit_count(num as nat, d as nat) by {
            assert(counter_contents(digits).count(d) + digit_count(0, d as nat) == digit_count(num as nat, d as nat));
        }
    }
    digits
}

/// How often each decimal digit occurs in `num`.
pub fn get_digits(num: u64) -> (counts: [u64; 10])
    ensures
        forall|d: int| 0 <= d < 10 ==> #[trigger] counts@[d] == digit_count(num as nat, d as nat),
{
    let digits_counter = get_digits_counter(num);
    let mut counts: [u64; 10] = [0, 0, 0, 0, 0, 0, 0, 0, 0, 0];
    let mut digit: usize = 0;
    while digit < 10
        invariant
            digit <= 10,
            forall|d: u8| #[trigger] counter_contents(digits_counter).count(d) == digit_count(num as nat, d as nat),
            forall|d: int| 0 <= d < digit ==> #[trigger] counts@[d] == digit_count(num as nat, d as nat),
        decreases 10 - digit,
    {
        let tally = digit_tally(&digits_counter, digit as u8);
        proof {
            assert(counter_contents(digits_counter).count(digit as u8) == digit_count(num as nat, digit as nat));
            lemma_digit_count_bound(num as nat, digit as nat);
        }
        counts[digit] = tally as u64;
        digit = digit + 1;
    }
    counts
}

proof fn lemma_digit_count_bound(num: nat, d: nat)
    ensures
        digit_count(num, d) <= num,
    decreases num,
{
    if num > 0 {
        lemma_digit_count_bound(num / 10, d);
    }
}

/// Whether two digit counts agree.
fn same_digits(a: &[u64; 10], b: &[u64; 10]) -> (r: bool)
    ensures
        r == (a@ == b@),
{
    let mut i: usize = 0;
    while i < 10
        invariant
            i <= 10,
            forall|j: int| 0 <= j < i ==> a@[j] == b@[j],
        decreases 10 - i,
    {
        if a[i] != b[i] {
            return false;
        }
        i = i + 1;
    }
    assert(a@ =~= b@);
    true
}

/// The first `num_permutations` cubes with `num_digits` digits that are made
/// of the same digits, found in ascending order of the cubes: the first
/// class of such cubes to reach that size. `None` when no class does, or
/// when `num_permutations` is 0.
pub fn find_cube_permutations(num_digits: u64, num_permutations: usize) -> (r: Option<Vec<u64>>)
    requires
        1 <= num_digits <= 18,
    ensures
        num_permutations == 0 ==> r is None,
        r matches Some(v) ==> {
            &&& v@.len() == num_permutations
            &&& forall|i: int, j: int| 0 <= i < j < v@.len() ==> v@[i] < v@[j]
            &&& forall|i: int|
                0 <= i < v@.len() ==> is_cube(v@[i] as int) && power(10, (num_digits - 1) as nat) <= #[trigger] v@[i]
                    < power(10, num_digits as nat)
            &&& forall|i: int, d: int|
                0 <= i < v@.len() && 0 <= d < 10 ==> #[trigger] digit_count(v@[i] as nat, d as nat) == digit_count(
                    v@[0] as nat,
                    d as nat,
                )
        },
{
    if num_permutations == 0 {
        return None;
    }
    let cubes = find_cubes(num_digits);
    let mut keys: Vec<[u64; 10]> = Vec::new();
    let mut t: usize = 0;
    while t < cubes.len()
        invariant
            t <= cubes@.len(),
            keys@.len() == t,
            forall|i: int, j: int| 0 <= i < j < cubes@.len() ==> cubes@[i] < cubes@[j],
            forall|x: u64|
                #[trigger] cubes@.contains(x) <==> (is_cube(x as int) && power(10, (num_digits - 1) as nat) <= x < power(
                    10,
                    num_digits as nat,
                )),
            forall|i: int, d: int|
                0 <= i < t && 0 <= d < 10 ==> #[trigger] keys@[i]@[d] == digit_count(cubes@[i] as nat, d as nat),
        decreases cubes@.len() - t,
    {
        let key = get_digits(cubes[t]);
        let mut members: Vec<u64> = Vec::new();
        let mut i: usize = 0;
        while i < t
            invariant
                i <= t,
                t < cubes@.len(),
                keys@.len() == t,
                forall|j: int, d: int|
                    0 <= j < t && 0 <= d < 10 ==> #[trigger] keys@[j]@[d] == digit_count(cubes@[j] as nat, d as nat),
                forall|d: int| 0 <= d < 10 ==> #[trigger] key@[d] == digit_count(cubes@[t as int] as nat, d as nat),
                members@.len() <= i,
                forall|a: int, b: int| 0 <= a < b < cubes@.len() ==> cubes@[a] < cubes@[b],
                forall|a: int, b: int| 0 <= a < b < members@.len() ==> members@[a] < members@[b],
                forall|a: int| 0 <= a < members@.len() ==> #[trigger] members@[a] < cubes@[i as int],
                forall|a: int| 0 <= a < members@.len() ==> cubes@.contains(#[trigger] members@[a]),
                forall|a: int, d: int|
                    0 <= a < members@.len() && 0 <= d < 10 ==> #[trigger] digit_count(members@[a] as nat, d as nat)
                        == key@[d],
            decreases t - i,
        {
            let ghost before = members@;
            if same_digits(&keys[i], &key) {
                members.push(cubes[i]);
                proof {
                    assert(cubes@.contains(cubes@[i as int]));
                    assert forall|d: int| 0 <= d < 10 implies #[trigger] digit_count(cubes@[i as int] as nat, d as nat)
                        == key@[d] by {
                        assert(keys@[i as int]@[d] == key@[d]);
                    }
                }
            }
            proof {
                assert(cubes@[i as int] < cubes@[i + 1]);
                assert forall|a: int| 0 <= a < members@.len() implies #[trigger] members@[a] < cubes@[i + 1] by {
                    if a < before.len() {
                        assert(before[a] < cubes@[i as int]);
                    }
                }
            }
            i = i + 1;
        }
        if members.len() + 1 == num_permutations {
            let ghost before = members@;
            members.push(cubes[t]);
            proof {
                assert(cubes@.contains(cubes@[t as int]));
                assert forall|a: int|
                    0 <= a < members@.len() implies is_cube(members@[a] as int) && power(10, (num_digits - 1) as nat)
                        <= #[trigger] members@[a] < power(10, num_digits as nat) by {
                    assert(cubes@.contains(members@[a]));
                }
                assert forall|a: int, d: int|
                    0 <= a < members@.len() && 0 <= d < 10 implies #[trigger] digit_count(members@[a] as nat, d as nat)
                        == digit_count(members@[0] as nat, d as nat) by {
                    assert(digit_count(members@[a] as nat, d as nat) == key@[d]);
                    assert(digit_count(members@[0] as nat, d as nat) == key@[d]);
                }
            }
            return Some(members);
        }
        keys.push(key);
        proof {
            assert forall|i: int, d: int| 0 <= i < t + 1 && 0 <= d < 10 implies #[trigger] keys@[i]@[d] == digit_count(
                cubes@[i] as nat,
                d as nat,
            ) by {
                if i == t {
                    assert(keys@[i] == key);
                }
            }
        }
        t = t + 1;
    }
    None
}

} // verus!
