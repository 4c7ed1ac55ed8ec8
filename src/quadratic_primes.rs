//! Quadratics `n^2 + a*n + b` that give primes for many consecutive values
//! of `n`, checked against a sieve of the `primal` crate.

use vstd::prelude::*;

verus! {

use crate::arith::is_prime;

#[verifier::external_type_specification]
#[verifier::external_body]
pub struct ExSieve(primal::Sieve);

/// The largest number that a sieve knows about.
pub uninterp spec fn sieve_limit(sieve: primal::Sieve) -> nat;

/// Relies on `primal::Sieve::new`: the sieve knows about every number up to
/// `limit` (and perhaps a little further).
#[verifier::external_body]
fn new_sieve(limit: usize) -> (r: primal::Sieve)
    ensures
        sieve_limit(r) >= limit,
{
    primal::Sieve::new(limit)
}

/// Relies on `primal::Sieve::upper_bound`: the largest number the sieve
/// knows about.
#[verifier::external_body]
fn sieve_upper_bound(sieve: &primal::Sieve) -> (r: usize)
    ensures
        r == sieve_limit(*sieve),
{
    sieve.upper_bound()
}

/// Relies on `primal::Sieve::is_prime`: whether `n` is prime, for `n` up to
/// the sieve's upper bound (beyond it the call panics).
#[verifier::external_body]
fn sieve_is_prime(sieve: &primal::Sieve, n: usize) -> (r: bool)
    requires
        n <= sieve_limit(*sieve),
    ensures
        r == is_prime(n as int),
{
    sieve.is_prime(n)
}

/// The quadratic `n^2 + a*n + b`.
#[derive(Debug, Copy, Clone, Eq, PartialEq)]
pub struct Formula {
    pub a: i32,
    pub b: i32,
}

/// The value of `n^2 + a*n + b`.
pub open spec fn formula_value(a: int, b: int, n: int) -> int {
    n * n + a * n + b
}

/// Every value of the quadratic for `0 <= n < stop` is negative or prime.
pub open spec fn all_prime_before(a: int, b: int, stop: nat) -> bool {
    forall|n: nat| n < stop ==> formula_value(a, b, n as int) < 0 || is_prime(#[trigger] formula_value(a, b, n as int))
}

/// How many of the values for `0 <= n < stop` are not negative.
pub open spec fn nonnegative_count(a: int, b: int, stop: nat) -> nat
    decreases stop,
{
    if stop == 0 {
        0
    } else {
        nonnegative_count(a, b, (stop - 1) as nat) + if formula_value(a, b, stop - 1) >= 0 {
            1nat
        } else {
            0
        }
    }
}

/// `count` primes come before the first value that is neither negative nor
/// prime (negative values are passed over).
pub open spec fn is_prime_run(a: int, b: int, count: nat) -> bool {
    exists|stop: nat|
        {
            &&& all_prime_before(a, b, stop)
            &&& formula_value(a, b, stop as int) >= 0
            &&& !is_prime(formula_value(a, b, stop as int))
            &&& count == #[trigger] nonnegative_count(a, b, stop)
        }
}

impl Formula {
    pub fn from_tuple(pair: (i32, i32)) -> (r: Formula)
        ensures
            r.a == pair.0,
            r.b == pair.1,
    {
        Formula { a: pair.0, b: pair.1 }
    }

    pub fn as_tuple(&self) -> (r: (i32, i32))
        ensures
            r == (self.a, self.b),
    {
        (self.a, self.b)
    }

    /// The value of the quadratic at `n`.
    pub fn num(&self, n: i64) -> (r: i64)
        requires
            0 <= n <= 65536,
        ensures
            r == formula_value(self.a as int, self.b as int, n as int),
    {
        let (a, b) = self.as_tuple();
        assert(n * n <= 65536 * 65536 && -2147483648 * 65536 <= a * n <= 2147483647 * 65536) by (nonlinear_arith)
            requires
                0 <= n <= 65536,
                -2147483648 <= a <= 2147483647,
        ;
        n * n + a as i64 * n + b as i64
    }

    /// The number of primes the quadratic gives for `n = 0, 1, 2, ...`
    /// before its first value that is neither negative nor prime. `None`
    /// when a value passes the sieve's bound, or `n` passes 65536, first.
    pub fn count_primes(&self, sieve: &primal::Sieve) -> (r: Option<usize>)
        ensures
            r matches Some(c) ==> is_prime_run(self.a as int, self.b as int, c as nat),
    {
        let bound = sieve_upper_bound(sieve);
        let mut count: usize = 0;
        let mut n: i64 = 0;
        while n <= 65536
            invariant
                0 <= n <= 65537,
                bound == sieve_limit(*sieve),
                all_prime_before(self.a as int, self.b as int, n as nat),
                count == nonnegative_count(self.a as int, self.b as int, n as nat),
                count <= n,
            decreases 65537 - n,
        {
            let value = self.num(n);
            if value >= 0 {
                if value as u64 > bound as u64 {
                    return None;
                }
                if !sieve_is_prime(sieve, value as usize) {
                    proof {
                        assert(is_prime_run(self.a as int, self.b as int, count as nat)) by {
                            assert(nonnegative_count(self.a as int, self.b as int, n as nat) == count);
                        }
                    }
                    return Some(count);
                }
                count = count + 1;
            }
            proof {
                assert forall|m: nat| m < n + 1 implies formula_value(self.a as int, self.b as int, m as int) < 0
                    || is_prime(#[trigger] formula_value(self.a as int, self.b as int, m as int)) by {}
            }
            n = n + 1;
        }
        None
    }
}

/// `(a, b)` is one of the coefficients searched: `-1000 < a < 1000`,
/// `a != 0`, `-1000 <= b < 1000`.
pub open spec fn in_search(a: int, b: int) -> bool {
    -1000 < a < 1000 && a != 0 && -1000 <= b < 1000
}

/// A quadratic has at most one prime-run count.
pub proof fn lemma_prime_run_unique(a: int, b: int, c1: nat, c2: nat)
    requires
        is_prime_run(a, b, c1),
        is_prime_run(a, b, c2),
    ensures
        c1 == c2,
{
    let s1 = choose|stop: nat|
        {
            &&& all_prime_before(a, b, stop)
            &&& formula_value(a, b, stop as int) >= 0
            &&& !is_prime(formula_value(a, b, stop as int))
            &&& c1 == #[trigger] nonnegative_count(a, b, stop)
        };
    let s2 = choose|stop: nat|
        {
            &&& all_prime_before(a, b, stop)
            &&& formula_value(a, b, stop as int) >= 0
            &&& !is_prime(formula_value(a, b, stop as int))
            &&& c2 == #[trigger] nonnegative_count(a, b, stop)
        };
    if s1 < s2 {
        assert(formula_value(a, b, s1 as int) < 0 || is_prime(formula_value(a, b, s1 as int)));
    } else if s2 < s1 {
        assert(formula_value(a, b, s2 as int) < 0 || is_prime(formula_value(a, b, s2 as int)));
    }
}

/// The largest value of `n^2 + a*n + b` that the search can meet.
pub const MAX_NUM: usize = 2_001_000;

/// `(a, b)` comes before `(a1, b1)` in the order of the search.
pub open spec fn searched_before(a: int, b: int, a1: int, b1: int) -> bool {
    a < a1 || (a == a1 && b < b1)
}

/// The product `a * b` of the coefficients whose quadratic gives the most
/// primes for consecutive `n` from 0 (the last one searched on a tie).
/// `None` when a count is out of the sieve's reach.
pub fn solve() -> (r: Option<i32>)
    ensures
        r matches Some(p) ==> exists|a: int, b: int, c: nat|
            #[trigger] in_search(a, b) && #[trigger] is_prime_run(a, b, c) && p == a * b && forall|a1: int, b1: int, c1: nat|
                #[trigger] in_search(a1, b1) && #[trigger] is_prime_run(a1, b1, c1) ==> c1 <= c,
{
    let sieve = new_sieve(MAX_NUM);
    let mut best_count: usize = 0;
    let mut best: (i32, i32) = (0, 0);
    let mut found = false;
    let mut a: i32 = -999;
    while a < 1000
        invariant
            -999 <= a <= 1000,
            found ==> in_search(best.0 as int, best.1 as int) && is_prime_run(best.0 as int, best.1 as int, best_count as nat),
            forall|a1: int, b1: int, c1: nat|
                #[trigger] in_search(a1, b1) && a1 < a && #[trigger] is_prime_run(a1, b1, c1) ==> found && c1 <= best_count,
        decreases 1000 - a,
    {
        if a != 0 {
            let mut b: i32 = -1000;
            while b < 1000
                invariant
                    -999 <= a < 1000,
                    a != 0,
                    -1000 <= b <= 1000,
                    found ==> in_search(best.0 as int, best.1 as int) && is_prime_run(
                        best.0 as int,
                        best.1 as int,
                        best_count as nat,
                    ),
                    forall|a1: int, b1: int, c1: nat|
                        #[trigger] in_search(a1, b1) && (a1 < a || (a1 == a && b1 < b)) && #[trigger] is_prime_run(
                            a1,
                            b1,
                            c1,
                        ) ==> found && c1 <= best_count,
                decreases 1000 - b,
            {
                let formula = Formula::from_tuple((a, b));
                let count = match formula.count_primes(&sieve) {
                    Some(c) => c,
                    None => return None,
                };
                if !found || count >= best_count {
                    best_count = count;
                    best = formula.as_tuple();
                    found = true;
                }
                proof {
                    assert(in_search(a as int, b as int));
                    assert forall|a1: int, b1: int, c1: nat|
                        #[trigger] in_search(a1, b1) && (a1 < a || (a1 == a && b1 < b + 1)) && #[trigger] is_prime_run(
                            a1,
                            b1,
                            c1,
                        ) implies found && c1 <= best_count by {
                        if a1 == a && b1 == b {
                            lemma_prime_run_unique(a1, b1, c1, count as nat);
                        }
                    }
                }
                b = b + 1;
            }
        }
        proof {
            assert forall|a1: int, b1: int, c1: nat|
                #[trigger] in_search(a1, b1) && a1 < a + 1 && #[trigger] is_prime_run(a1, b1, c1) implies found && c1
                    <= best_count by {
                if a1 == a {
                    assert(b1 < 1000);
                }
            }
        }
        a = a + 1;
    }
    if !found {
        return None;
    }
    assert(-1000 < best.0 < 1000 && -1000 <= best.1 < 1000);
    assert(best.0 as int * best.1 as int <= 1_000_000 && best.0 as int * best.1 as int >= -1_000_000) by (nonlinear_arith)
        requires
            -1000 < best.0 < 1000,
            -1000 <= best.1 < 1000,
    ;
    Some(best.0 * best.1)
}

} // verus!
