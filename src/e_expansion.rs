//! The continued fraction of the number e: `[2; 1, 2, 1, 1, 4, 1, 1, 6, ...]`.

use vstd::prelude::*;

verus! {

use crate::big_digits::is_digits;
use crate::permutation::digits_value;

/// The `index`-th term of the continued fraction of e: 2 first, then the
/// blocks `1, 2k, 1` for k = 1, 2, ...
pub open spec fn e_term(index: nat) -> nat {
    if index == 0 {
        2
    } else if index % 3 == 2 {
        2 * (index / 3 + 1)
    } else {
        1
    }
}

pub fn expansion_e(index: u64) -> (r: u64)
    ensures
        r == e_term(index as nat),
{
    if index == 0 {
        2
    } else if index % 3 == 2 {
        let k = index / 3 + 1;
        2 * k
    } else {
        1
    }
}

/// One step of a continued fraction from its end: `n + 1 / (num / den)`,
/// as a numerator and a denominator (not reduced). `(1, 0)` stands for
/// infinity, whose reciprocal is 0.
pub open spec fn cf_back_step(n: nat, state: (nat, nat)) -> (nat, nat) {
    (n * state.0 + state.1, state.0)
}

/// The tail `[x_0; x_1, ...]` of a continued fraction whose terms are given
/// from the end, folded from infinity.
pub open spec fn cf_tail(terms_from_end: Seq<u64>) -> (nat, nat)
    decreases terms_from_end.len(),
{
    if terms_from_end.len() == 0 {
        (1, 0)
    } else {
        cf_back_step(terms_from_end.last() as nat, cf_tail(terms_from_end.drop_last()))
    }
}

/// The convergent `[first; ...terms]` of a continued fraction whose terms
/// after the first are given from the end.
pub open spec fn convergent(first: u64, terms_from_end: Seq<u64>) -> (nat, nat) {
    cf_back_step(first as nat, cf_tail(terms_from_end))
}

/// `a / b` and `c / d` are the same fraction.
pub open spec fn same_fraction(a: nat, b: nat, c: nat, d: nat) -> bool {
    a * d == c * b
}

/// No number above 1 divides both `a` and `b`.
pub open spec fn coprime(a: nat, b: nat) -> bool {
    forall|k: nat| k > 1 ==> !(#[trigger] (a % k) == 0 && b % k == 0)
}

/// Relies on `GenericFraction::new`, `recip` and `+` (`fraction` over
/// `BigUint`, with `from_radix_be` and `to_radix_be` for the digits):
/// `n + den / num` in lowest terms; `num / 0` is infinity, whose reciprocal
/// is 0.
#[verifier::external_body]
fn add_reciprocal(n: u64, num: &Vec<u8>, den: &Vec<u8>) -> (r: (Vec<u8>, Vec<u8>))
    requires
        is_digits(num@),
        is_digits(den@),
        digits_value(num@) > 0,
    ensures
        is_digits(r.0@),
        is_digits(r.1@),
        digits_value(r.1@) > 0,
        coprime(digits_value(r.0@), digits_value(r.1@)),
        same_fraction(
            digits_value(r.0@),
            digits_value(r.1@),
            (n * digits_value(num@) + digits_value(den@)) as nat,
            digits_value(num@),
        ),
{
    let big = |d: &Vec<u8>| fraction::BigUint::from_radix_be(d, 10).unwrap_or_default();
    let sum = fraction::GenericFraction::<fraction::BigUint>::from(n)
        + fraction::GenericFraction::new(big(num), big(den)).recip();
    let digits = |x: Option<&fraction::BigUint>| x.map(|v| v.to_radix_be(10)).unwrap_or_default();
    (digits(sum.numer()), digits(sum.denom()))
}

/// The convergent `[first; ...]` of a continued fraction whose later terms
/// come from the end, as numerator and denominator digits in lowest terms.
pub fn get_convergent(first: u64, expansion_from_end: &[u64]) -> (r: (Vec<u8>, Vec<u8>))
    requires
        first >= 1,
        forall|i: int| 0 <= i < expansion_from_end@.len() ==> #[trigger] expansion_from_end@[i] >= 1,
    ensures
        is_digits(r.0@),
        is_digits(r.1@),
        digits_value(r.1@) > 0,
        coprime(digits_value(r.0@), digits_value(r.1@)),
        same_fraction(
            digits_value(r.0@),
            digits_value(r.1@),
            convergent(first, expansion_from_end@).0,
            convergent(first, expansion_from_end@).1,
        ),
{
    let mut num: Vec<u8> = Vec::new();
    num.push(1);
    let mut den: Vec<u8> = Vec::new();
    den.push(0);
    proof {
        assert(num@.drop_last() =~= Seq::<u8>::empty());
        assert(den@.drop_last() =~= Seq::<u8>::empty());
        assert(digits_value(num@) == digits_value(num@.drop_last()) * 10 + 1);
        assert(digits_value(den@) == digits_value(den@.drop_last()) * 10 + 0);
        assert(digits_value(num@) == 1);
        assert(digits_value(den@) == 0);
        assert(expansion_from_end@.take(0) =~= Seq::<u64>::empty());
    }
    let mut i: usize = 0;
    while i < expansion_from_end.len()
        invariant
            i <= expansion_from_end@.len(),
            forall|k: int| 0 <= k < expansion_from_end@.len() ==> #[trigger] expansion_from_end@[k] >= 1,
            is_digits(num@),
            is_digits(den@),
            digits_value(num@) > 0,
            cf_tail(expansion_from_end@.take(i as int)).0 > 0,
            same_fraction(
                digits_value(num@),
                digits_value(den@),
                cf_tail(expansion_from_end@.take(i as int)).0,
                cf_tail(expansion_from_end@.take(i as int)).1,
            ),
        decreases expansion_from_end@.len() - i,
    {
        let n = expansion_from_end[i];
        let ghost s = cf_tail(expansion_from_end@.take(i as int));
        let (next_num, next_den) = add_reciprocal(n, &num, &den);
        proof {
            assert(expansion_from_end@.take(i + 1).drop_last() =~= expansion_from_end@.take(i as int));
            assert(expansion_from_end@.take(i + 1).last() == n);
            lemma_step_keeps_fraction(n as nat, digits_value(num@), digits_value(den@), s, digits_value(next_num@), digits_value(next_den@));
        }
        num = next_num;
        den = next_den;
        i = i + 1;
    }
    assert(expansion_from_end@.take(expansion_from_end@.len() as int) =~= expansion_from_end@);
    let r = add_reciprocal(first, &num, &den);
    proof {
        lemma_step_keeps_fraction(first as nat, digits_value(num@), digits_value(den@), cf_tail(expansion_from_end@), digits_value(r.0@), digits_value(r.1@));
    }
    r
}

proof fn lemma_step_keeps_fraction(n: nat, c_num: nat, c_den: nat, s: (nat, nat), r_num: nat, r_den: nat)
    requires
        n >= 1,
        c_num > 0,
        s.0 > 0,
        r_den > 0,
        same_fraction(c_num, c_den, s.0, s.1),
        same_fraction(r_num, r_den, n * c_num + c_den, c_num),
    ensures
        same_fraction(r_num, r_den, cf_back_step(n, s).0, cf_back_step(n, s).1),
        cf_back_step(n, s).0 > 0,
        r_num > 0,
{
    assert(r_num > 0) by (nonlinear_arith)
        requires
            r_num * c_num == (n * c_num + c_den) * r_den,
            n >= 1,
            c_num > 0,
            r_den > 0,
    ;
    assert(c_num * (r_num * s.0) == c_num * ((n * s.0 + s.1) * r_den)) by (nonlinear_arith)
        requires
            c_num * s.1 == s.0 * c_den,
            r_num * c_num == (n * c_num + c_den) * r_den,
    ;
    vstd::arithmetic::mul::lemma_mul_equality_converse(c_num as int, (r_num * s.0) as int, ((n * s.0 + s.1) * r_den) as int);
    assert(n * s.0 + s.1 > 0) by (nonlinear_arith)
        requires
            n >= 1,
            s.0 > 0,
    ;
}

/// The terms of the continued fraction of e after the first, up to the
/// term `k - 1`, from the end.
pub open spec fn e_terms_from_end(k: nat) -> Seq<u64> {
    Seq::new((k - 1) as nat, |j: int| e_term((k - 1 - j) as nat) as u64)
}

/// The sum of the digits of the numerator, in lowest terms, of the `k`-th
/// convergent of e. `None` when the numerator has more than a billion
/// digits.
pub fn solve(num_convergent: u64) -> (r: Option<u64>)
    requires
        1 <= num_convergent <= 1_000_000,
    ensures
        r matches Some(t) ==> exists|a: nat, b: nat|
            #[trigger] same_fraction(
                a,
                b,
                convergent(2, e_terms_from_end(num_convergent as nat)).0,
                convergent(2, e_terms_from_end(num_convergent as nat)).1,
            ) && b > 0 && coprime(a, b) && t == crate::big_digits::digit_sum(a),
{
    let mut expansion: Vec<u64> = Vec::new();
    let mut index: u64 = num_convergent - 1;
    while index >= 1
        invariant
            index < num_convergent <= 1_000_000,
            expansion@.len() == num_convergent - 1 - index,
            forall|j: int| 0 <= j < expansion@.len() ==> #[trigger] expansion@[j] == e_term((num_convergent - 1 - j) as nat),
        decreases index,
    {
        expansion.push(expansion_e(index));
        index = index - 1;
    }
    proof {
        assert(expansion@ =~= e_terms_from_end(num_convergent as nat));
        assert forall|j: int| 0 <= j < expansion@.len() implies #[trigger] expansion@[j] >= 1 by {
            assert(expansion@[j] == e_term((num_convergent - 1 - j) as nat));
        }
    }
    let (numer, denom) = get_convergent(2, expansion.as_slice());
    match crate::big_digits::checked_sum_digits(&numer) {
        Some(t) => {
            proof {
                assert(same_fraction(
                    digits_value(numer@),
                    digits_value(denom@),
                    convergent(2, e_terms_from_end(num_convergent as nat)).0,
                    convergent(2, e_terms_from_end(num_convergent as nat)).1,
                ));
            }
            Some(t)
        },
        None => None,
    }
}

} // verus!
