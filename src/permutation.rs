//! The lexicographic permutation of a given rank.

use vstd::prelude::*;

verus! {

/// The base of the digits that `from_digits` reads.
pub const BASE: usize = 10;

/// `n!`
pub open spec fn fact(n: nat) -> nat
    decreases n,
{
    if n == 0 {
        1
    } else {
        n * fact((n - 1) as nat)
    }
}

/// The permutation of `options` of rank `index` in lexicographic order of
/// positions: the first item is the one at `index / (n - 1)!`, followed by
/// the permutation of rank `index % (n - 1)!` of the others.
pub open spec fn nth_permutation<T>(index: nat, options: Seq<T>) -> Seq<T>
    decreases options.len(),
{
    let f = fact((options.len() - 1) as nat);
    let k = (index / f) as int;
    if options.len() == 0 || k < 0 || k >= options.len() {
        Seq::empty()
    } else {
        seq![options[k]].add(nth_permutation(index % f, options.take(k).add(options.skip(k + 1))))
    }
}

/// The number written by the digits, most significant first.
pub open spec fn digits_value(digits: Seq<u8>) -> nat
    decreases digits.len(),
{
    if digits.len() == 0 {
        0
    } else {
        digits_value(digits.drop_last()) * 10 + digits.last() as nat
    }
}

/// The values `min ..= max` in ascending order.
pub open spec fn value_range(min: u8, max: u8) -> Seq<u8> {
    Seq::new((max - min + 1) as nat, |i: int| (min + i) as u8)
}

pub proof fn lemma_fact_positive(n: nat)
    ensures
        fact(n) >= 1,
    decreases n,
{
    if n > 0 {
        lemma_fact_positive((n - 1) as nat);
        assert(n * fact((n - 1) as nat) >= 1) by (nonlinear_arith)
            requires
                n >= 1,
                fact((n - 1) as nat) >= 1,
        ;
    }
}

proof fn lemma_fact_monotonic(i: nat, j: nat)
    requires
        i <= j,
    ensures
        fact(i) <= fact(j),
    decreases j,
{
    if i < j {
        lemma_fact_monotonic(i, (j - 1) as nat);
        lemma_fact_positive((j - 1) as nat);
        assert(fact((j - 1) as nat) <= j * fact((j - 1) as nat)) by (nonlinear_arith)
            requires
                j >= 1,
                fact((j - 1) as nat) >= 1,
        ;
    }
}

/// `num!`
pub fn factorial(num: usize) -> (r: usize)
    requires
        fact(num as nat) <= usize::MAX,
    ensures
        r == fact(num as nat),
{
    let mut result: usize = 1;
    let mut i: usize = 0;
    while i < num
        invariant
            i <= num,
            fact(num as nat) <= usize::MAX,
            result == fact(i as nat),
        decreases num - i,
    {
        i = i + 1;
        proof {
            lemma_fact_monotonic(i as nat, num as nat);
            assert(fact(i as nat) == i * fact((i - 1) as nat));
            assert(result * i == fact(i as nat)) by (nonlinear_arith)
                requires
                    result == fact((i - 1) as nat),
                    fact(i as nat) == i * fact((i - 1) as nat),
            ;
        }
        result = result * i;
    }
    result
}

/// The permutation of `options` of rank `index` in lexicographic order of
/// positions.
pub fn find_permutation<T>(index: usize, options: Vec<T>) -> (r: Vec<T>)
    requires
        index < fact(options@.len()),
        fact(options@.len()) <= usize::MAX,
    ensures
        r@ == nth_permutation(index as nat, options@),
{
    let mut index = index;
    let mut options = options;
    let ghost whole = nth_permutation(index as nat, options@);
    let mut result: Vec<T> = Vec::new();
    while options.len() > 0
        invariant
            index < fact(options@.len()),
            fact(options@.len()) <= usize::MAX,
            result@.add(nth_permutation(index as nat, options@)) == whole,
        decreases options@.len(),
    {
        let num_left = options.len() - 1;
        proof {
            lemma_fact_monotonic(num_left as nat, options@.len());
            lemma_fact_positive(num_left as nat);
            assert(fact(options@.len()) == options@.len() * fact(num_left as nat));
            vstd::arithmetic::mul::lemma_mul_is_commutative(options@.len() as int, fact(num_left as nat) as int);
            vstd::arithmetic::div_mod::lemma_multiply_divide_lt(
                index as int,
                fact(num_left as nat) as int,
                options@.len() as int,
            );
        }
        let divisor = factorial(num_left);
        let options_index = index / divisor;
        let ghost before = options@;
        let item = options.remove(options_index);
        proof {
            assert(before.remove(options_index as int) =~= before.take(options_index as int).add(
                before.skip(options_index + 1),
            ));
            let tail = nth_permutation((index % divisor) as nat, before.remove(options_index as int));
            assert(nth_permutation(index as nat, before) == seq![item].add(tail));
            assert(result@.push(item).add(tail) =~= result@.add(seq![item].add(tail)));
        }
        result.push(item);
        index = index % divisor;
    }
    assert(nth_permutation(index as nat, options@) =~= Seq::<T>::empty());
    assert(result@.add(Seq::<T>::empty()) =~= result@);
    result
}

proof fn lemma_digits_value_prefix(digits: Seq<u8>, i: int)
    requires
        0 <= i <= digits.len(),
    ensures
        digits_value(digits.take(i)) <= digits_value(digits),
    decreases digits.len() - i,
{
    if i < digits.len() {
        lemma_digits_value_prefix(digits, i + 1);
        assert(digits.take(i + 1).drop_last() =~= digits.take(i));
    } else {
        assert(digits.take(i) =~= digits);
    }
}

/// The number that `digits` write, most significant first.
pub fn from_digits(digits: &[u8]) -> (r: usize)
    requires
        digits_value(digits@) <= usize::MAX,
    ensures
        r == digits_value(digits@),
{
    let mut acc: usize = 0;
    let mut i: usize = 0;
    while i < digits.len()
        invariant
            i <= digits@.len(),
            digits_value(digits@) <= usize::MAX,
            acc == digits_value(digits@.take(i as int)),
        decreases digits@.len() - i,
    {
        proof {
            assert(digits@.take(i + 1).drop_last() =~= digits@.take(i as int));
            lemma_digits_value_prefix(digits@, i + 1);
        }
        acc = acc * BASE + digits[i] as usize;
        i = i + 1;
    }
    assert(digits@.take(digits@.len() as int) =~= digits@);
    acc
}

/// The number written by the permutation of rank `nth - 1` of the digits
/// `min_num ..= max_num`.
pub fn solve(nth: usize, min_num: u8, max_num: u8) -> (r: usize)
    requires
        1 <= nth <= fact((max_num - min_num + 1) as nat),
        min_num <= max_num,
        fact((max_num - min_num + 1) as nat) <= usize::MAX,
        digits_value(nth_permutation((nth - 1) as nat, value_range(min_num, max_num))) <= usize::MAX,
    ensures
        r == digits_value(nth_permutation((nth - 1) as nat, value_range(min_num, max_num))),
{
    let index = nth - 1;
    let mut options: Vec<u8> = Vec::new();
    let mut d: u16 = min_num as u16;
    while d <= max_num as u16
        invariant
            min_num <= d <= max_num + 1,
            min_num <= max_num,
            options@ == value_range(min_num, max_num).take(d - min_num),
        decreases max_num + 1 - d,
    {
        proof {
            assert(value_range(min_num, max_num).take(d - min_num + 1) =~= value_range(min_num, max_num).take(
                d - min_num,
            ).push(d as u8));
        }
        options.push(d as u8);
        d = d + 1;
    }
    assert(value_range(min_num, max_num).take(d - min_num) =~= value_range(min_num, max_num));
    let digits = find_permutation(index, options);
    from_digits(digits.as_slice())
}

} // verus!
