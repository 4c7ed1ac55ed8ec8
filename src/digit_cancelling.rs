//! Helpers for fractions of two-digit numbers whose digits may cancel: digit
//! pairs, an inclusive sieve and a flat prime factorization.

use vstd::prelude::*;

verus! {

use crate::arith::is_prime;
use crate::factors::{
    covers, factorization_value, factorizer_output, get_factors, has_prime_bases, is_prime_list,
    lemma_value_push,
};
use crate::arith::power;
use crate::primes::{lemma_primes_below_exact, primes_below, primes_below_spec};

/// The product of the values of a sequence.
pub open spec fn seq_product(s: Seq<usize>) -> int
    decreases s.len(),
{
    if s.len() == 0 {
        1
    } else {
        seq_product(s.drop_last()) * s.last()
    }
}

/// `s` lists each base of `f` as often as its exponent, in the order of `f`.
pub open spec fn flatten(f: Seq<(usize, usize)>) -> Seq<usize>
    decreases f.len(),
{
    if f.len() == 0 {
        Seq::empty()
    } else {
        flatten(f.drop_last()).add(Seq::new(f.last().1 as nat, |_i: int| f.last().0))
    }
}

/// The two fractions share a nonzero digit.
pub fn matches(numerator: (usize, usize), denominator: (usize, usize)) -> (r: bool)
    ensures
        r == ((numerator.0 == denominator.0 && numerator.0 != 0) || (numerator.0 == denominator.1 && numerator.0
            != 0) || (numerator.1 == denominator.0 && numerator.1 != 0) || (numerator.1 == denominator.1
            && numerator.1 != 0)),
{
    let (na, nb) = numerator;
    let (da, db) = denominator;
    (na == da && na != 0) || (na == db && na != 0) || (nb == da && nb != 0) || (nb == db && nb != 0)
}

/// The decimal digits 0 to 9.
pub fn decimal_digits() -> (r: Vec<usize>)
    ensures
        r@.len() == 10,
        forall|i: int| 0 <= i < 10 ==> #[trigger] r@[i] == i,
{
    let mut r: Vec<usize> = Vec::new();
    let mut d: usize = 0;
    while d < 10
        invariant
            d <= 10,
            r@.len() == d,
            forall|i: int| 0 <= i < d ==> #[trigger] r@[i] == i,
        decreases 10 - d,
    {
        r.push(d);
        d = d + 1;
    }
    r
}

/// Every pair of decimal digits, in lexicographic order.
pub fn two_decimal_digits() -> (r: Vec<(usize, usize)>)
    ensures
        r@.len() == 100,
        forall|i: int| 0 <= i < 100 ==> #[trigger] r@[i] == ((i / 10) as usize, (i % 10) as usize),
{
    let digits = decimal_digits();
    let mut r: Vec<(usize, usize)> = Vec::new();
    let mut a: usize = 0;
    while a < 10
        invariant
            a <= 10,
            digits@.len() == 10,
            forall|i: int| 0 <= i < 10 ==> #[trigger] digits@[i] == i,
            r@.len() == a * 10,
            forall|i: int| 0 <= i < r@.len() ==> #[trigger] r@[i] == ((i / 10) as usize, (i % 10) as usize),
        decreases 10 - a,
    {
        let mut b: usize = 0;
        while b < 10
            invariant
                a < 10,
                b <= 10,
                digits@.len() == 10,
                forall|i: int| 0 <= i < 10 ==> #[trigger] digits@[i] == i,
                r@.len() == a * 10 + b,
                forall|i: int| 0 <= i < r@.len() ==> #[trigger] r@[i] == ((i / 10) as usize, (i % 10) as usize),
            decreases 10 - b,
        {
            proof {
                let i = a * 10 + b;
                assert(i / 10 == a && i % 10 == b) by (nonlinear_arith)
                    requires
                        i == a * 10 + b,
                        b < 10,
                        a >= 0,
                ;
            }
            r.push((digits[a], digits[b]));
            b = b + 1;
        }
        a = a + 1;
    }
    r
}

pub fn is_divisible_by(num: usize, divisor: usize) -> (r: bool)
    requires
        divisor != 0,
    ensures
        r == (num % divisor == 0),
{
    num % divisor == 0
}

/// The primes up to `max`, `max` included, ascending.
pub fn sieve(max: usize) -> (r: Vec<usize>)
    requires
        max < usize::MAX,
    ensures
        r@ == primes_below_spec((max + 1) as nat),
{
    primes_below(max + 1)
}

proof fn lemma_flatten_push(f: Seq<(usize, usize)>, x: (usize, usize))
    ensures
        flatten(f.push(x)) == flatten(f).add(Seq::new(x.1 as nat, |_i: int| x.0)),
{
    assert(f.push(x).drop_last() =~= f);
}

proof fn lemma_product_of_copies(s: Seq<usize>, b: usize, e: nat)
    ensures
        seq_product(s.add(Seq::new(e, |_i: int| b))) == seq_product(s) * power(b as int, e),
    decreases e,
{
    if e == 0 {
        assert(s.add(Seq::new(e, |_i: int| b)) =~= s);
    } else {
        let shorter = s.add(Seq::new((e - 1) as nat, |_i: int| b));
        assert(s.add(Seq::new(e, |_i: int| b)).drop_last() =~= shorter);
        lemma_product_of_copies(s, b, (e - 1) as nat);
        assert(seq_product(shorter) * b == seq_product(s) * power(b as int, e)) by (nonlinear_arith)
            requires
                seq_product(shorter) == seq_product(s) * power(b as int, (e - 1) as nat),
                power(b as int, e) == b * power(b as int, (e - 1) as nat),
        ;
    }
}

proof fn lemma_flatten_product(f: Seq<(usize, usize)>)
    ensures
        seq_product(flatten(f)) == factorization_value(f),
    decreases f.len(),
{
    if f.len() > 0 {
        let init = f.drop_last();
        lemma_flatten_product(init);
        assert(init.push(f.last()) =~= f);
        lemma_flatten_push(init, f.last());
        lemma_product_of_copies(flatten(init), f.last().0, f.last().1 as nat);
        lemma_value_push(init, f.last());
    }
}

/// The prime factors of `num`, in ascending order, each as often as it
/// divides `num`; `primes` must hold every prime whose square is at most
/// `num`.
pub fn factors(num: usize, primes: &[usize]) -> (r: Vec<usize>)
    requires
        is_prime_list(primes@),
        covers(primes@, num as int),
    ensures
        num >= 2 ==> seq_product(r@) == num,
        num < 2 ==> r@.len() == 0,
        forall|i: int| 0 <= i < r@.len() ==> #[trigger] r@[i] >= 2,
        forall|i: int| 0 <= i < r@.len() ==> is_prime(#[trigger] r@[i] as int),
        forall|i: int, j: int| 0 <= i < j < r@.len() ==> r@[i] <= r@[j],
{
    let pairs = get_factors(num, primes);
    let mut r: Vec<usize> = Vec::new();
    let mut i: usize = 0;
    while i < pairs.len()
        invariant
            i <= pairs@.len(),
            factorizer_output(num, primes@, pairs@),
            r@ == flatten(pairs@.take(i as int)),
            forall|k: int| 0 <= k < r@.len() ==> #[trigger] r@[k] >= 2,
            covers(primes@, num as int) ==> forall|k: int| 0 <= k < r@.len() ==> is_prime(#[trigger] r@[k] as int),
            covers(primes@, num as int),
            forall|a: int, b: int| 0 <= a < b < r@.len() ==> r@[a] <= r@[b],
            r@.len() > 0 ==> i > 0 && forall|k: int| 0 <= k < r@.len() ==> #[trigger] r@[k] <= pairs@[i - 1].0,
        decreases pairs@.len() - i,
    {
        let (base, exponent) = pairs[i];
        proof {
            assert(pairs@.take(i + 1) =~= pairs@.take(i as int).push(pairs@[i as int]));
            lemma_flatten_push(pairs@.take(i as int), pairs@[i as int]);
            assert(pairs@[i as int].0 >= 2);
            if i > 0 {
                assert(pairs@[i - 1].0 < pairs@[i as int].0);
            }
        }
        let ghost start = r@;
        let mut j: usize = 0;
        while j < exponent
            invariant
                j <= exponent,
                base >= 2,
                r@ == start.add(Seq::new(j as nat, |_k: int| base)),
                forall|k: int| 0 <= k < start.len() ==> #[trigger] start[k] >= 2,
                covers(primes@, num as int) ==> is_prime(base as int) && forall|k: int|
                    0 <= k < start.len() ==> is_prime(#[trigger] start[k] as int),
                forall|a: int, b: int| 0 <= a < b < start.len() ==> start[a] <= start[b],
                forall|k: int| 0 <= k < start.len() ==> #[trigger] start[k] < base,
                forall|k: int| 0 <= k < r@.len() ==> #[trigger] r@[k] <= base,
                forall|a: int, b: int| 0 <= a < b < r@.len() ==> r@[a] <= r@[b],
            decreases exponent - j,
        {
            let ghost before = r@;
            r.push(base);
            proof {
                assert(r@ =~= start.add(Seq::new((j + 1) as nat, |_k: int| base)));
                assert forall|a: int, b: int| 0 <= a < b < r@.len() implies r@[a] <= r@[b] by {
                    if b < before.len() {
                        assert(r@[a] == before[a] && r@[b] == before[b]);
                    } else {
                        assert(r@[a] == before[a] || a == before.len());
                    }
                }
            }
            j = j + 1;
        }
        proof {
            if exponent == 0 {
                assert(pairs@[i as int].1 >= 1);
            }
            assert(r@[r@.len() - 1] == base);
            assert forall|k: int| 0 <= k < r@.len() implies #[trigger] r@[k] >= 2 by {
                if k >= start.len() {
                    assert(r@[k] == base);
                }
            }
            if covers(primes@, num as int) {
                assert(has_prime_bases(pairs@));
                assert forall|k: int| 0 <= k < r@.len() implies is_prime(#[trigger] r@[k] as int) by {
                    if k >= start.len() {
                        assert(r@[k] == base);
                    }
                }
            }
        }
        i = i + 1;
    }
    proof {
        assert(pairs@.take(pairs@.len() as int) =~= pairs@);
        lemma_flatten_product(pairs@);
        if num < 2 {
            assert(flatten(pairs@) =~= Seq::<usize>::empty());
        }
    }
    r
}

} // verus!
