//! Proper divisors and their sums, built on the factorizer and the divisor
//! enumerator.

use vstd::prelude::*;

verus! {

use crate::arith::lemma_divisor_le;
use crate::factors::{
    covers, enumerator_output, factorization_value, factorizer_output, factors_to_divisors, get_factors,
    insert_new, is_divisor, is_prime_list,
};

/// The sum of the positive divisors of `n` that are below `k` and differ
/// from `n`.
pub open spec fn divisor_sum_below(n: nat, k: nat) -> nat
    decreases k,
{
    if k == 0 {
        0
    } else {
        let d = (k - 1) as nat;
        divisor_sum_below(n, d) + if d >= 1 && d < n && n % d == 0 {
            d
        } else {
            0
        }
    }
}

/// The sum of the proper divisors of `n` (those below `n`).
pub open spec fn proper_divisor_sum(n: nat) -> nat {
    divisor_sum_below(n, n)
}

/// The sum of the values of a sequence.
pub open spec fn seq_sum(s: Seq<usize>) -> nat
    decreases s.len(),
{
    if s.len() == 0 {
        0
    } else {
        seq_sum(s.drop_last()) + s.last() as nat
    }
}

proof fn lemma_seq_sum_remove(s: Seq<usize>, i: int)
    requires
        0 <= i < s.len(),
    ensures
        seq_sum(s) == seq_sum(s.remove(i)) + s[i],
    decreases s.len(),
{
    if i < s.len() - 1 {
        assert(s.remove(i).drop_last() =~= s.drop_last().remove(i));
        assert(s.remove(i).last() == s.last());
        lemma_seq_sum_remove(s.drop_last(), i);
    } else {
        assert(s.remove(i) =~= s.drop_last());
    }
}

pub proof fn lemma_seq_sum_prefix(s: Seq<usize>, i: int)
    requires
        0 <= i <= s.len(),
    ensures
        seq_sum(s.take(i)) <= seq_sum(s),
    decreases s.len() - i,
{
    if i < s.len() {
        lemma_seq_sum_prefix(s, i + 1);
        assert(s.take(i + 1).drop_last() =~= s.take(i));
    } else {
        assert(s.take(i) =~= s);
    }
}

/// A sequence that holds, each once, exactly the proper divisors of `n`
/// below `k` sums to `divisor_sum_below(n, k)`.
proof fn lemma_sum_of_divisor_seq(s: Seq<usize>, n: nat, k: nat)
    requires
        n <= usize::MAX,
        s.no_duplicates(),
        forall|y: usize| #[trigger] s.contains(y) <==> (1 <= y < k && y < n && n % (y as nat) == 0),
    ensures
        seq_sum(s) == divisor_sum_below(n, k),
    decreases k,
{
    if k == 0 {
        if s.len() > 0 {
            assert(s.contains(s[0]));
        }
    } else {
        let d = (k - 1) as nat;
        if d >= 1 && d < n && n % d == 0 {
            assert(s.contains(d as usize));
            let i = choose|i: int| 0 <= i < s.len() && s[i] == d as usize;
            let t = s.remove(i);
            lemma_seq_sum_remove(s, i);
            assert forall|y: usize| #[trigger] t.contains(y) <==> (1 <= y < d && y < n && n % (y as nat) == 0) by {
                if t.contains(y) {
                    let j = choose|j: int| 0 <= j < t.len() && t[j] == y;
                    if j < i {
                        assert(s[j] == y);
                    } else {
                        assert(s[j + 1] == y);
                    }
                    assert(s.contains(y));
                }
                if 1 <= y < d && y < n && n % (y as nat) == 0 {
                    assert(s.contains(y));
                    let j = choose|j: int| 0 <= j < s.len() && s[j] == y;
                    if j < i {
                        assert(t[j] == y);
                    } else {
                        assert(j != i);
                        assert(t[j - 1] == y);
                    }
                }
            }
            lemma_sum_of_divisor_seq(t, n, d);
        } else {
            lemma_sum_of_divisor_seq(s, n, d);
        }
    }
}

proof fn lemma_divisor_sum_below_monotonic(n: nat, i: nat, j: nat)
    requires
        i <= j,
    ensures
        divisor_sum_below(n, i) <= divisor_sum_below(n, j),
    decreases j,
{
    if i < j {
        lemma_divisor_sum_below_monotonic(n, i, (j - 1) as nat);
    }
}

/// A copy of `v` without `x`.
fn without(v: &Vec<usize>, x: usize) -> (r: Vec<usize>)
    ensures
        r@.no_duplicates(),
        forall|y: usize| #[trigger] r@.contains(y) <==> (v@.contains(y) && y != x),
{
    let mut r: Vec<usize> = Vec::new();
    let mut i: usize = 0;
    while i < v.len()
        invariant
            i <= v@.len(),
            r@.no_duplicates(),
            forall|y: usize| #[trigger] r@.contains(y) <==> (v@.take(i as int).contains(y) && y != x),
        decreases v@.len() - i,
    {
        let ghost before = r@;
        if v[i] != x {
            insert_new(&mut r, v[i]);
        }
        proof {
            let pre0 = v@.take(i as int);
            let pre1 = v@.take(i + 1);
            assert(pre1 =~= pre0.push(v@[i as int]));
            assert forall|y: usize| #[trigger] r@.contains(y) <==> (v@.take(i + 1).contains(y) && y != x) by {
                assert(before.contains(y) <==> (pre0.contains(y) && y != x));
                if v@[i as int] != x {
                    assert(r@.contains(y) <==> (before.contains(y) || y == v@[i as int]));
                } else {
                    assert(r@ == before);
                }
                if y == v@[i as int] {
                    assert(pre1[i as int] == y);
                }
                if pre0.contains(y) {
                    let j = choose|j: int| 0 <= j < pre0.len() && pre0[j] == y;
                    assert(pre1[j] == y);
                }
                if pre1.contains(y) {
                    let j = choose|j: int| 0 <= j < pre1.len() && pre1[j] == y;
                    if j < i {
                        assert(pre0[j] == y);
                    }
                }
            }
        }
        i = i + 1;
    }
    assert(v@.take(v@.len() as int) =~= v@);
    r
}

/// The proper divisors of `number` (its positive divisors other than
/// itself), each once; for 0, the list `[1]`. `primes` must hold every prime
/// whose square is at most `number`.
pub fn get_divisors(number: usize, primes: &[usize]) -> (divisors: Vec<usize>)
    requires
        is_prime_list(primes@),
        covers(primes@, number as int),
    ensures
        divisors@.no_duplicates(),
        forall|x: usize|
            #[trigger] divisors@.contains(x) <==> if number == 0 {
                x == 1
            } else {
                is_divisor(x as int, number as int) && x != number
            },
{
    let factors = get_factors(number, primes);
    proof {
        if number < 2 {
            assert(factorization_value(factors@) == 1);
        }
    }
    let all = factors_to_divisors(factors.as_slice());
    let divisors = without(&all, number);
    proof {
        if number < 2 {
            assert forall|x: usize| #[trigger] is_divisor(x as int, 1) implies x == 1 by {
                lemma_divisor_le(x as int, 1);
            }
            assert(is_divisor(1, 1));
        }
        assert forall|x: usize| #[trigger] divisors@.contains(x) <==> if number == 0 {
            x == 1
        } else {
            is_divisor(x as int, number as int) && x != number
        } by {
            assert(divisors@.contains(x) <==> (all@.contains(x) && x != number));
            assert(all@.contains(x) <==> is_divisor(x as int, factorization_value(factors@)));
        }
    }
    divisors
}

/// The sum of the proper divisors of `number`, from its factorization over
/// `primes` (1 for 0, whose divisor list is `[1]`).
pub fn sum_of_proper_divisors(number: usize, primes: &[usize]) -> (sum: Option<usize>)
    requires
        is_prime_list(primes@),
        covers(primes@, number as int),
    ensures
        number >= 1 && proper_divisor_sum(number as nat) <= usize::MAX ==> sum == Some(
            proper_divisor_sum(number as nat) as usize,
        ),
        number >= 1 && proper_divisor_sum(number as nat) > usize::MAX ==> sum is None,
        number == 0 ==> sum == Some(1usize),
{
    if number == 0 {
        // the divisor list of 0 is [1]
        return Some(1);
    }
    let divisors = get_divisors(number, primes);
    proof {
        assert forall|y: usize| #[trigger] divisors@.contains(y) <==> (1 <= y < number && y < number && (number as nat) % (
        y as nat) == 0) by {
            if is_divisor(y as int, number as int) {
                lemma_divisor_le(y as int, number as int);
            }
        }
        lemma_sum_of_divisor_seq(divisors@, number as nat, number as nat);
    }
    let mut sum: usize = 0;
    let mut i: usize = 0;
    while i < divisors.len()
        invariant
            i <= divisors@.len(),
            sum == seq_sum(divisors@.take(i as int)),
            seq_sum(divisors@) == proper_divisor_sum(number as nat),
        decreases divisors@.len() - i,
    {
        proof {
            assert(divisors@.take(i + 1).drop_last() =~= divisors@.take(i as int));
            lemma_seq_sum_prefix(divisors@, i + 1);
        }
        sum = match sum.checked_add(divisors[i]) {
            Some(t) => t,
            None => return None,
        };
        i = i + 1;
    }
    assert(divisors@.take(divisors@.len() as int) =~= divisors@);
    Some(sum)
}

/// The sum of the proper divisors of `number`, by trying every candidate
/// below it; `None` when the sum exceeds `usize::MAX`.
pub fn sum_of_proper_divisors_naive(number: usize) -> (sum: Option<usize>)
    ensures
        proper_divisor_sum(number as nat) <= usize::MAX ==> sum == Some(proper_divisor_sum(number as nat) as usize),
        proper_divisor_sum(number as nat) > usize::MAX ==> sum is None,
{
    let mut sum: usize = 0;
    let mut divisor: usize = 1;
    if number == 0 {
        return Some(0);
    }
    assert(divisor_sum_below(number as nat, 1) == divisor_sum_below(number as nat, 0));
    while divisor < number
        invariant
            1 <= divisor <= number,
            sum == divisor_sum_below(number as nat, divisor as nat),
        decreases number - divisor,
    {
        proof {
            lemma_divisor_sum_below_monotonic(number as nat, (divisor + 1) as nat, number as nat);
        }
        if number % divisor == 0 {
            sum = match sum.checked_add(divisor) {
                Some(s) => s,
                None => return None,
            };
        }
        divisor = divisor + 1;
    }
    Some(sum)
}

/// A proper-divisor sum below `k` is at most `k * k`.
pub proof fn lemma_divisor_sum_below_bound(n: nat, k: nat)
    ensures
        divisor_sum_below(n, k) <= k * k,
    decreases k,
{
    if k > 0 {
        lemma_divisor_sum_below_bound(n, (k - 1) as nat);
        assert((k - 1) * (k - 1) + k <= k * k) by (nonlinear_arith)
            requires
                k >= 1,
        ;
    }
}

/// The divisor enumerator applied to the factorizer's output for `n` gives
/// exactly the positive divisors of `n`, `n` itself included.
pub proof fn lemma_divisors_of_factorization(
    n: usize,
    primes: Seq<usize>,
    factors: Seq<(usize, usize)>,
    divisors: Seq<usize>,
)
    requires
        is_prime_list(primes),
        covers(primes, n as int),
        n >= 1,
        factorizer_output(n, primes, factors),
        enumerator_output(factors, divisors),
    ensures
        forall|x: usize| #[trigger] divisors.contains(x) <==> is_divisor(x as int, n as int),
{
    if n < 2 {
        assert(factors.len() == 0);
        assert(factorization_value(factors) == 1);
    }
}

} // verus!
