//! The sieve of Eratosthenes.

use vstd::prelude::*;

verus! {

use crate::arith::{has_prime_factor_below, is_prime, lemma_prime_if_no_prime_factor};

/// The primes strictly below `limit`, in ascending order.
pub open spec fn primes_below_spec(limit: nat) -> Seq<usize>
    decreases limit,
{
    if limit == 0 {
        Seq::empty()
    } else {
        let rest = primes_below_spec((limit - 1) as nat);
        if is_prime(limit - 1) {
            rest.push((limit - 1) as usize)
        } else {
            rest
        }
    }
}

/// The primes strictly below `limit`, in ascending order, by marking the
/// multiples of each prime found.
pub fn primes_below(limit: usize) -> (primes: Vec<usize>)
    ensures
        primes@ == primes_below_spec(limit as nat),
{
    let mut primes: Vec<usize> = Vec::new();
    if limit <= 2 {
        assert(primes_below_spec(0) =~= Seq::<usize>::empty());
        assert(primes_below_spec(1) =~= Seq::<usize>::empty());
        assert(primes_below_spec(2) =~= Seq::<usize>::empty());
        return primes;
    }
    let mut is_composite: Vec<bool> = Vec::new();
    let mut i: usize = 0;
    while i < limit
        invariant
            i <= limit,
            is_composite@.len() == i,
            forall|k: int| 0 <= k < i ==> !is_composite@[k],
        decreases limit - i,
    {
        is_composite.push(false);
        i = i + 1;
    }
    assert(primes_below_spec(2) =~= Seq::<usize>::empty()) by {
        assert(primes_below_spec(0) =~= Seq::<usize>::empty());
        assert(primes_below_spec(1) =~= Seq::<usize>::empty());
    }
    let mut num: usize = 2;
    while num < limit
        invariant
            2 <= num <= limit,
            is_composite@.len() == limit,
            primes@ == primes_below_spec(num as nat),
            forall|k: int| num <= k < limit ==> is_composite@[k] == has_prime_factor_below(k, num as int),
        decreases limit - num,
    {
        if !is_composite[num] {
            proof {
                lemma_prime_if_no_prime_factor(num as int);
            }
            let ghost before = is_composite@;
            let mut index: usize = num;
            while index < limit
                invariant
                    2 <= num < limit,
                    num <= index <= limit,
                    index < limit ==> index % num == 0,
                    is_composite@.len() == limit,
                    before.len() == limit,
                    forall|k: int| num <= k < limit ==> before[k] == has_prime_factor_below(k, num as int),
                    forall|k: int| num < k < limit ==> is_composite@[k] == (before[k] || (k % (num as int) == 0 && k < index)),
                decreases limit - index,
            {
                let ghost pre = is_composite@;
                is_composite.set(index, true);
                let ghost old_index = index;
                if limit - index > num {
                    proof {
                        vstd::arithmetic::div_mod::lemma_mod_add_multiples_vanish(index as int, num as int);
                    }
                    index = index + num;
                } else {
                    index = limit;
                }
                assert forall|k: int| old_index < k < index implies #[trigger] (k % (num as int)) != 0 by {
                    lemma_no_multiple_between(old_index as int, k, num as int);
                }
                assert forall|k: int| num < k < limit implies is_composite@[k] == (before[k] || (k % (num as int) == 0
                    && k < index)) by {
                    if k == old_index {
                        assert(is_composite@[k]);
                        assert(k % (num as int) == 0);
                    } else {
                        assert(is_composite@[k] == pre[k]);
                        assert(pre[k] == (before[k] || (k % (num as int) == 0 && k < old_index)));
                        if old_index < k < index {
                            assert(k % (num as int) != 0);
                        }
                    }
                }
            }
            assert forall|k: int| num + 1 <= k < limit implies is_composite@[k] == has_prime_factor_below(k, num + 1) by {
                if k % (num as int) == 0 {
                    assert(has_prime_factor_below(k, num + 1));
                }
                if before[k] {
                    let p = choose|p: int| 2 <= p < num && is_prime(p) && #[trigger] (k % p) == 0;
                    assert(has_prime_factor_below(k, num + 1));
                }
                if has_prime_factor_below(k, num + 1) && !before[k] {
                    let p = choose|p: int| 2 <= p < num + 1 && is_prime(p) && #[trigger] (k % p) == 0;
                    if p < num {
                        assert(has_prime_factor_below(k, num as int));
                    }
                    assert(p == num);
                }
            }
            primes.push(num);
        } else {
            assert(!is_prime(num as int)) by {
                assert(is_composite@[num as int]);
                assert(has_prime_factor_below(num as int, num as int));
                let p = choose|p: int| 2 <= p < num && is_prime(p) && #[trigger] ((num as int) % p) == 0;
                assert((num as int) % p == 0);
            }
            assert forall|k: int| num + 1 <= k < limit implies is_composite@[k] == has_prime_factor_below(k, num + 1) by {
                if is_composite@[k] {
                    assert(has_prime_factor_below(k, num as int));
                    let p = choose|p: int| 2 <= p < num && is_prime(p) && #[trigger] (k % p) == 0;
                    assert(has_prime_factor_below(k, num + 1));
                }
                if has_prime_factor_below(k, num + 1) {
                    let p = choose|p: int| 2 <= p < num + 1 && is_prime(p) && #[trigger] (k % p) == 0;
                    assert(p != num);
                    assert(has_prime_factor_below(k, num as int));
                }
            }
        }
        num = num + 1;
    }
    primes
}

/// What the sieve returns: every value is a prime below `limit`, the values
/// ascend strictly (so none appears twice), and every prime below `limit`
/// is among them.
pub proof fn lemma_primes_below_exact(limit: nat)
    requires
        limit <= usize::MAX,
    ensures
        forall|i: int|
            0 <= i < primes_below_spec(limit).len() ==> is_prime(#[trigger] primes_below_spec(limit)[i] as int)
                && primes_below_spec(limit)[i] < limit,
        forall|i: int, j: int|
            0 <= i < j < primes_below_spec(limit).len() ==> primes_below_spec(limit)[i] < primes_below_spec(limit)[j],
        primes_below_spec(limit).no_duplicates(),
        forall|p: int| 0 <= p < limit && is_prime(p) ==> primes_below_spec(limit).contains(p as usize),
    decreases limit,
{
    let s = primes_below_spec(limit);
    if limit > 0 {
        let prev = (limit - 1) as nat;
        lemma_primes_below_exact(prev);
        let r = primes_below_spec(prev);
        assert forall|i: int, j: int| 0 <= i < j < s.len() implies s[i] < s[j] by {
            if j == r.len() {
                assert(r[i] < prev);
            }
        }
        assert forall|p: int| 0 <= p < limit && is_prime(p) implies s.contains(p as usize) by {
            if p < prev {
                let i = choose|i: int| 0 <= i < r.len() && r[i] == p as usize;
                assert(s[i] == p as usize);
            } else {
                assert(s[s.len() - 1] == p as usize);
            }
        }
    }
    assert forall|i: int, j: int| 0 <= i < s.len() && 0 <= j < s.len() && i != j implies s[i] != s[j] by {
        if i < j {
            assert(s[i] < s[j]);
        } else {
            assert(s[j] < s[i]);
        }
    }
}

/// The primes below the `i`-th prime of a sieve's output are the first `i`
/// values of that output.
pub proof fn lemma_primes_below_prefix(limit: nat, i: int)
    requires
        limit <= usize::MAX,
        0 <= i < primes_below_spec(limit).len(),
    ensures
        primes_below_spec(primes_below_spec(limit)[i] as nat) =~= primes_below_spec(limit).take(i),
    decreases limit,
{
    let s = primes_below_spec(limit);
    let prev = (limit - 1) as nat;
    let r = primes_below_spec(prev);
    if is_prime(limit - 1) && i == r.len() {
        assert(s[i] == prev);
        assert(s.take(i) =~= r);
    } else {
        assert(s[i] == r[i]);
        lemma_primes_below_prefix(prev, i);
        assert(s.take(i) =~= r.take(i));
    }
}

/// The sieve is a function of its bound alone: two runs with one bound give
/// the same ordered sequence.
pub proof fn lemma_primes_below_idempotent(limit: nat, first: Seq<usize>, second: Seq<usize>)
    requires
        first == primes_below_spec(limit),
        second == primes_below_spec(limit),
    ensures
        first == second,
{
}

proof fn lemma_no_multiple_between(index: int, k: int, num: int)
    requires
        num > 0,
        index >= 0,
        index % num == 0,
        index < k < index + num,
    ensures
        k % num != 0,
{
    vstd::arithmetic::div_mod::lemma_fundamental_div_mod(index, num);
    vstd::arithmetic::mul::lemma_mul_is_commutative(num, index / num);
    vstd::arithmetic::div_mod::lemma_fundamental_div_mod_converse_mod(k, num, index / num, k - index);
}

} // verus!
