//! The largest palindrome that is a product of two numbers of a given
//! number of digits.

use vstd::prelude::*;

verus! {

use crate::pandigital::decimal_digits;
use vstd::std_specs::iter::IteratorSpec;

/// `n` reads the same both ways in decimal.
pub open spec fn is_palindrome_number(n: nat) -> bool {
    decimal_digits(n) == decimal_digits(n).reverse()
}

/// `a * b` is a palindrome with `lo <= b <= a < hi`.
pub open spec fn is_palindrome_pair(a: nat, b: nat, lo: nat, hi: nat) -> bool {
    lo <= b <= a < hi && is_palindrome_number(a * b)
}

proof fn lemma_digits_step(n: nat)
    requires
        n > 0,
    ensures
        decimal_digits(n) =~= seq![n % 10].add(decimal_digits(n / 10)),
{
}

/// Whether `number` reads the same both ways in decimal.
pub fn number_is_palindrome(number: u32) -> (r: bool)
    ensures
        r == is_palindrome_number(number as nat),
{
    let mut digits: Vec<u32> = Vec::new();
    let mut rest: u32 = number;
    while rest > 0
        invariant
            digits@.map_values(|d: u32| d as nat).add(decimal_digits(rest as nat)) =~= decimal_digits(number as nat),
        decreases rest,
    {
        proof {
            lemma_digits_step(rest as nat);
            assert(digits@.push(rest % 10).map_values(|d: u32| d as nat) =~= digits@.map_values(|d: u32| d as nat).push(
                (rest % 10) as nat,
            ));
        }
        digits.push(rest % 10);
        rest = rest / 10;
    }
    let ghost s = decimal_digits(number as nat);
    assert(digits@.map_values(|d: u32| d as nat) =~= s);
    let n = digits.len();
    let mut i: usize = 0;
    while i < n / 2
        invariant
            n == digits@.len(),
            s == decimal_digits(number as nat),
            digits@.map_values(|d: u32| d as nat) == s,
            i <= n / 2,
            forall|j: int| 0 <= j < i ==> #[trigger] s[j] == s[n - 1 - j],
        decreases n / 2 - i,
    {
        if digits[i] != digits[n - 1 - i] {
            proof {
                assert(s[i as int] == digits@[i as int] as nat);
                assert(s[n - 1 - i] == digits@[n - 1 - i] as nat);
                assert(s[i as int] != s.reverse()[i as int]);
                assert(s != s.reverse());
            }
            return false;
        }
        i = i + 1;
    }
    proof {
        assert forall|j: int| 0 <= j < n implies s[j] == #[trigger] s.reverse()[j] by {
            if j >= n / 2 && n - 1 - j < n / 2 {
                assert(s[n - 1 - j] == s[n - 1 - (n - 1 - j)]);
            }
        }
        assert(s =~= s.reverse());
    }
    true
}

/// Whether `string` reads the same forwards and backwards, character by
/// character.
pub fn is_palindrome(string: &str) -> (r: bool)
    ensures
        r == (string@ == string@.reverse()),
{
    broadcast use vstd::string::group_string_axioms;
    let mut chars = string.chars();
    let mut v: Vec<char> = Vec::new();
    loop
        invariant
            v@.add(chars.remaining()) == string@,
            chars.obeys_prophetic_iter_laws(),
            chars.decrease() is Some,
        ensures
            v@ == string@,
        decreases chars.decrease()->0,
    {
        let ghost before = chars.remaining();
        match chars.next() {
            Some(c) => {
                v.push(c);
                assert(v@.add(chars.remaining()) =~= string@);
            },
            None => {
                assert(before.len() == 0);
                assert(v@ =~= string@);
                break;
            },
        }
    }
    assert(v@ =~= string@);
    let n = v.len();
    let mut i: usize = 0;
    while i < n / 2
        invariant
            n == v@.len(),
            v@ == string@,
            i <= n / 2,
            forall|j: int| 0 <= j < i ==> #[trigger] v@[j] == v@[n - 1 - j],
        decreases n / 2 - i,
    {
        if v[i] != v[n - 1 - i] {
            assert(v@[i as int] != v@.reverse()[i as int]);
            assert(v@ != v@.reverse());
            return false;
        }
        i = i + 1;
    }
    assert forall|j: int| 0 <= j < n implies v@[j] == #[trigger] v@.reverse()[j] by {
        if j >= n / 2 && n - 1 - j < n / 2 {
            assert(v@[n - 1 - j] == v@[n - 1 - (n - 1 - j)]);
        }
    }
    assert(v@ =~= v@.reverse());
    true
}

/// `10^k`
fn ten_to(k: u32) -> (r: u32)
    requires
        k <= 9,
    ensures
        r == crate::arith::power(10, k as nat),
{
    let mut r: u32 = 1;
    let mut i: u32 = 0;
    proof {
        reveal_with_fuel(crate::arith::power, 10);
        assert(crate::arith::power(10, 9) == 1_000_000_000);
    }
    while i < k
        invariant
            i <= k <= 9,
            r == crate::arith::power(10, i as nat),
            crate::arith::power(10, 9) == 1_000_000_000,
        decreases k - i,
    {
        proof {
            crate::arith::lemma_power_le(10, (i + 1) as nat, 9);
            assert(crate::arith::power(10, (i + 1) as nat) == 10 * crate::arith::power(10, i as nat));
        }
        r = r * 10;
        i = i + 1;
    }
    r
}

/// The largest palindrome that is the product of two numbers of
/// `num_digits` digits (`None` if there is none). With more than four
/// digits the products leave `u32`.
pub fn solve(num_digits: u32) -> (r: Option<u32>)
    requires
        1 <= num_digits <= 4,
    ensures
        ({
            let lo = crate::arith::power(10, (num_digits - 1) as nat) as nat;
            let hi = crate::arith::power(10, num_digits as nat) as nat;
            &&& r matches Some(m) ==> (exists|a: nat, b: nat| #[trigger] is_palindrome_pair(a, b, lo, hi) && a * b == m)
                && (forall|a: nat, b: nat| #[trigger] is_palindrome_pair(a, b, lo, hi) ==> a * b <= m)
            &&& r is None ==> forall|a: nat, b: nat| !#[trigger] is_palindrome_pair(a, b, lo, hi)
        }),
{
    let start = ten_to(num_digits - 1);
    let end = ten_to(num_digits);
    let ghost lo = start as nat;
    let ghost hi = end as nat;
    proof {
        crate::arith::lemma_power_le(10, (num_digits - 1) as nat, num_digits as nat);
        crate::arith::lemma_power_le(10, num_digits as nat, 4);
        crate::arith::lemma_power_positive(10, (num_digits - 1) as nat);
        reveal_with_fuel(crate::arith::power, 5);
        assert(crate::arith::power(10, 4) == 10000);
        assert(crate::arith::power(10, num_digits as nat) == 10 * crate::arith::power(10, (num_digits - 1) as nat));
    }
    let mut largest: Option<u32> = None;
    let mut num1: u32 = end;
    while num1 > start
        invariant
            1 <= start < end <= 10000,
            start <= num1 <= end,
            lo == start,
            hi == end,
            largest matches Some(m) ==> (exists|a: nat, b: nat| #[trigger] is_palindrome_pair(a, b, lo, hi) && a * b == m),
            forall|a: nat, b: nat| a >= num1 && #[trigger] is_palindrome_pair(a, b, lo, hi) ==> (largest matches Some(m)
                && a * b <= m),
        decreases num1,
    {
        num1 = num1 - 1;
        let mut num2: u32 = num1 + 1;
        while num2 > start
            invariant
                1 <= start <= num1 < end <= 10000,
                start <= num2 <= num1 + 1,
                lo == start,
                hi == end,
                largest matches Some(m) ==> (exists|a: nat, b: nat| #[trigger] is_palindrome_pair(a, b, lo, hi) && a * b
                    == m),
                forall|a: nat, b: nat|
                    (a > num1 || (a == num1 && b >= num2)) && #[trigger] is_palindrome_pair(a, b, lo, hi) ==> (largest matches Some(
                        m,
                    ) && a * b <= m),
            decreases num2,
        {
            num2 = num2 - 1;
            assert(num1 * num2 <= 10000 * 10000) by (nonlinear_arith)
                requires
                    num1 <= 10000,
                    num2 <= 10000,
            ;
            let product = num1 * num2;
            let skip = match largest {
                Some(l) => product < l,
                None => false,
            };
            if !skip && number_is_palindrome(product) {
                proof {
                    assert(is_palindrome_pair(num1 as nat, num2 as nat, lo, hi));
                }
                largest = Some(product);
            }
            proof {
                if is_palindrome_pair(num1 as nat, num2 as nat, lo, hi) {
                    assert(largest matches Some(m) && num1 * num2 <= m);
                }
            }
        }
    }
    proof {
        assert forall|a: nat, b: nat| #[trigger] is_palindrome_pair(a, b, lo, hi) implies (largest matches Some(m) && a
            * b <= m) by {
            assert(a >= num1);
        }
        assert(lo == crate::arith::power(10, (num_digits - 1) as nat) as nat);
        assert(hi == crate::arith::power(10, num_digits as nat) as nat);
        if largest is None {
            assert forall|a: nat, b: nat| !#[trigger] is_palindrome_pair(a, b, lo, hi) by {
                if is_palindrome_pair(a, b, lo, hi) {
                    assert(a >= num1);
                }
            }
        }
    }
    largest
}

} // verus!
