//! The smallest number that every number from 1 to a limit divides: the
//! union of the prime-power factorizations of those numbers, where each
//! prime keeps its largest exponent.

use vstd::prelude::*;

verus! {

use crate::arith::{
    is_prime, lemma_divides_trans, lemma_euclid, lemma_multiple, lemma_mul_divides, lemma_power_le,
    lemma_power_positive, power,
};
use crate::factors::{
    covers, distinct_bases, factorization_value, factorizer_output, get_factors, has_prime_bases, is_prime_list,
    lemma_prime_not_dividing_value, lemma_value_positive, lemma_value_push,
};
use crate::primes::{lemma_primes_below_exact, primes_below};

/// `acc` has an entry for the base `p` whose exponent is at least `e`.
pub open spec fn covers_power(acc: Seq<(usize, usize)>, p: usize, e: usize) -> bool {
    exists|j: int| 0 <= j < acc.len() && (#[trigger] acc[j]).0 == p && acc[j].1 >= e
}

/// Each prime power of `f` is covered by `acc`.
pub open spec fn dominates(acc: Seq<(usize, usize)>, f: Seq<(usize, usize)>) -> bool {
    forall|i: int| 0 <= i < f.len() ==> covers_power(acc, (#[trigger] f[i]).0, f[i].1)
}

/// `m` is a positive multiple of every number from 1 to `limit`.
pub open spec fn is_common_multiple(m: int, limit: int) -> bool {
    m >= 1 && forall|k: int| 1 <= k <= limit ==> #[trigger] (m % k) == 0
}

/// A prime power divides `m * t` and the prime does not divide `m`: the
/// power divides `t`.
proof fn lemma_prime_power_divides_cofactor(p: int, e: nat, m: int, t: int)
    requires
        is_prime(p),
        m >= 1,
        t >= 0,
        m % p != 0,
        (m * t) % power(p, e) == 0,
    ensures
        t % power(p, e) == 0,
    decreases e,
{
    lemma_power_positive(p, e);
    if e == 0 {
        assert(power(p, 0) == 1);
        lemma_multiple(1, t);
        assert(1 * t == t);
    } else {
        assert(power(p, e) == p * power(p, (e - 1) as nat));
        lemma_power_positive(p, (e - 1) as nat);
        lemma_multiple(p, power(p, (e - 1) as nat));
        lemma_divides_trans(p, power(p, e), m * t);
        lemma_euclid(p, m, t);
        vstd::arithmetic::div_mod::lemma_fundamental_div_mod(t, p);
        let t1 = t / p;
        assert(t == p * t1);
        assert(t1 >= 0) by (nonlinear_arith)
            requires
                t == p * t1,
                t >= 0,
                p >= 2,
        ;
        vstd::arithmetic::div_mod::lemma_fundamental_div_mod(m * t, power(p, e));
        let q = (m * t) / power(p, e);
        assert(m * t1 == power(p, (e - 1) as nat) * q) by (nonlinear_arith)
            requires
                m * t == power(p, e) * q,
                t == p * t1,
                power(p, e) == p * power(p, (e - 1) as nat),
                p >= 2,
        ;
        vstd::arithmetic::mul::lemma_mul_is_commutative(power(p, (e - 1) as nat), q);
        lemma_multiple(power(p, (e - 1) as nat), q);
        lemma_prime_power_divides_cofactor(p, (e - 1) as nat, m, t1);
        vstd::arithmetic::div_mod::lemma_fundamental_div_mod(t1, power(p, (e - 1) as nat));
        let u = t1 / power(p, (e - 1) as nat);
        assert(t == power(p, e) * u) by (nonlinear_arith)
            requires
                t == p * t1,
                t1 == power(p, (e - 1) as nat) * u,
                power(p, e) == p * power(p, (e - 1) as nat),
        ;
        lemma_multiple(power(p, e), u);
    }
}

/// A factorization into distinct primes divides every number that each of
/// its prime powers divides.
proof fn lemma_value_divides(g: Seq<(usize, usize)>, x: int)
    requires
        has_prime_bases(g),
        distinct_bases(g),
        x >= 1,
        forall|i: int| 0 <= i < g.len() ==> x % power((#[trigger] g[i]).0 as int, g[i].1 as nat) == 0,
    ensures
        x % factorization_value(g) == 0,
    decreases g.len(),
{
    if g.len() == 0 {
        lemma_multiple(1, x);
        assert(1 * x == x);
        assert(factorization_value(g) == 1);
    } else {
        let q = g[0].0 as int;
        let e = g[0].1 as nat;
        let rest = g.drop_first();
        assert forall|i: int| 0 <= i < rest.len() implies is_prime((#[trigger] rest[i]).0 as int) && rest[i].0 != q
            && x % power(rest[i].0 as int, rest[i].1 as nat) == 0 by {
            assert(rest[i] == g[i + 1]);
            assert(g[0].0 != g[i + 1].0);
        }
        assert forall|i: int, j: int| 0 <= i < rest.len() && 0 <= j < rest.len() && i != j implies (#[trigger] rest[i]).0
            != (#[trigger] rest[j]).0 by {
            assert(rest[i] == g[i + 1] && rest[j] == g[j + 1]);
        }
        lemma_value_divides(rest, x);
        lemma_prime_not_dividing_value(q, rest);
        assert forall|i: int| 0 <= i < rest.len() implies (#[trigger] rest[i]).0 >= 1 by {
            assert(is_prime(rest[i].0 as int));
        }
        lemma_value_positive(rest);
        let v = factorization_value(rest);
        vstd::arithmetic::div_mod::lemma_fundamental_div_mod(x, v);
        let t = x / v;
        assert(x == v * t);
        assert(t >= 0) by (nonlinear_arith)
            requires
                x == v * t,
                x >= 1,
                v >= 1,
        ;
        assert(is_prime(q));
        assert(x % power(q, e) == 0);
        lemma_prime_power_divides_cofactor(q, e, v, t);
        lemma_power_positive(q, e);
        lemma_mul_divides(power(q, e), t, v, v);
        vstd::arithmetic::div_mod::lemma_mod_self_0(v);
        assert(t * v == x) by (nonlinear_arith)
            requires
                x == v * t,
        ;
        assert(factorization_value(g) == power(q, e) * v);
    }
}

/// Each prime power of a factorization divides its value.
proof fn lemma_power_divides_value(s: Seq<(usize, usize)>, i: int)
    requires
        0 <= i < s.len(),
        forall|j: int| 0 <= j < s.len() ==> (#[trigger] s[j]).0 >= 1,
    ensures
        factorization_value(s) % power(s[i].0 as int, s[i].1 as nat) == 0,
    decreases s.len(),
{
    let b = s[0].0 as int;
    let e = s[0].1 as nat;
    let rest = s.drop_first();
    assert forall|j: int| 0 <= j < rest.len() implies (#[trigger] rest[j]).0 >= 1 by {
        assert(rest[j] == s[j + 1]);
    }
    lemma_value_positive(rest);
    lemma_power_positive(b, e);
    if i == 0 {
        lemma_multiple(power(b, e), factorization_value(rest));
    } else {
        assert(rest[i - 1] == s[i]);
        lemma_power_divides_value(rest, i - 1);
        lemma_power_positive(s[i].0 as int, s[i].1 as nat);
        vstd::arithmetic::mul::lemma_mul_is_commutative(power(b, e), factorization_value(rest));
        lemma_multiple(factorization_value(rest), power(b, e));
        lemma_divides_trans(
            power(s[i].0 as int, s[i].1 as nat),
            factorization_value(rest),
            factorization_value(s),
        );
    }
}

/// `x` is an entry of `acc` or of `f`.
pub open spec fn entry_of_either(x: (usize, usize), acc: Seq<(usize, usize)>, f: Seq<(usize, usize)>) -> bool {
    acc.contains(x) || f.contains(x)
}

/// Where `v` has the base `p`, if anywhere.
fn find_base(v: &Vec<(usize, usize)>, p: usize) -> (r: Option<usize>)
    ensures
        r matches Some(j) ==> j < v@.len() && v@[j as int].0 == p,
        r is None ==> forall|j: int| 0 <= j < v@.len() ==> (#[trigger] v@[j]).0 != p,
{
    let mut j: usize = 0;
    while j < v.len()
        invariant
            j <= v@.len(),
            forall|k: int| 0 <= k < j ==> (#[trigger] v@[k]).0 != p,
        decreases v@.len() - j,
    {
        if v[j].0 == p {
            return Some(j);
        }
        j = j + 1;
    }
    None
}

proof fn lemma_after_step(
    before: Seq<(usize, usize)>,
    out: Seq<(usize, usize)>,
    acc: Seq<(usize, usize)>,
    f: Seq<(usize, usize)>,
    i: int,
)
    requires
        0 <= i < f.len(),
        dominates(before, acc),
        dominates(before, f.take(i)),
        forall|a: usize, b: usize| covers_power(before, a, b) ==> covers_power(out, a, b),
        covers_power(out, f[i].0, f[i].1),
    ensures
        dominates(out, acc),
        dominates(out, f.take(i + 1)),
{
    assert forall|t: int| 0 <= t < f.take(i + 1).len() implies covers_power(
        out,
        (#[trigger] f.take(i + 1)[t]).0,
        f.take(i + 1)[t].1,
    ) by {
        if t < i {
            assert(f.take(i + 1)[t] == f.take(i)[t]);
            assert(covers_power(before, f.take(i)[t].0, f.take(i)[t].1));
        }
    }
    assert forall|t: int| 0 <= t < acc.len() implies covers_power(out, (#[trigger] acc[t]).0, acc[t].1) by {
        assert(covers_power(before, acc[t].0, acc[t].1));
    }
}

/// The union of two factorizations into distinct primes: each base with
/// the larger of its exponents.
pub fn merge_factors(acc: &Vec<(usize, usize)>, f: &Vec<(usize, usize)>) -> (r: Vec<(usize, usize)>)
    requires
        has_prime_bases(acc@),
        distinct_bases(acc@),
        has_prime_bases(f@),
    ensures
        has_prime_bases(r@),
        distinct_bases(r@),
        dominates(r@, acc@),
        dominates(r@, f@),
        forall|j: int| 0 <= j < r@.len() ==> entry_of_either(#[trigger] r@[j], acc@, f@),
{
    let mut out: Vec<(usize, usize)> = Vec::new();
    let mut k: usize = 0;
    while k < acc.len()
        invariant
            k <= acc@.len(),
            out@ =~= acc@.take(k as int),
        decreases acc@.len() - k,
    {
        out.push(acc[k]);
        k = k + 1;
    }
    assert(out@ =~= acc@);
    proof {
        assert forall|i: int| 0 <= i < acc@.len() implies covers_power(out@, (#[trigger] acc@[i]).0, acc@[i].1) by {
            assert(out@[i] == acc@[i]);
        }
        assert forall|j: int| 0 <= j < out@.len() implies entry_of_either(#[trigger] out@[j], acc@, f@) by {
            assert(acc@[j] == out@[j]);
        }
    }
    let mut i: usize = 0;
    while i < f.len()
        invariant
            i <= f@.len(),
            has_prime_bases(f@),
            has_prime_bases(out@),
            distinct_bases(out@),
            dominates(out@, acc@),
            dominates(out@, f@.take(i as int)),
            forall|j: int| 0 <= j < out@.len() ==> entry_of_either(#[trigger] out@[j], acc@, f@),
        decreases f@.len() - i,
    {
        let (p, e) = f[i];
        let ghost before = out@;
        proof {
            assert(f@.contains(f@[i as int]));
            assert(is_prime(f@[i as int].0 as int));
        }
        match find_base(&out, p) {
            Some(j) => {
                if out[j].1 < e {
                    out.set(j, (p, e));
                    proof {
                        assert(out@[j as int] == (p, e));
                        assert(covers_power(out@, p, e));
                        assert forall|x: int, y: int| 0 <= x < out@.len() && 0 <= y < out@.len() && x != y implies (
                        #[trigger] out@[x]).0 != (#[trigger] out@[y]).0 by {
                            assert(before[x].0 != before[y].0);
                        }
                        assert forall|a: usize, b: usize| covers_power(before, a, b) implies covers_power(out@, a, b) by {
                            let w = choose|w: int| 0 <= w < before.len() && (#[trigger] before[w]).0 == a && before[w].1 >= b;
                            assert(out@[w].0 == a && out@[w].1 >= b);
                        }
                        assert forall|t: int| 0 <= t < out@.len() implies entry_of_either(#[trigger] out@[t], acc@, f@) by {
                            if t == j {
                                assert(f@[i as int] == out@[t]);
                            } else {
                                assert(before[t] == out@[t]);
                            }
                        }
                    }
                } else {
                    proof {
                        assert(covers_power(out@, p, e));
                        assert forall|a: usize, b: usize| covers_power(before, a, b) implies covers_power(out@, a, b) by {}
                    }
                }
            },
            None => {
                out.push((p, e));
                proof {
                    assert(out@[before.len() as int] == (p, e));
                    assert(covers_power(out@, p, e));
                    assert forall|x: int, y: int| 0 <= x < out@.len() && 0 <= y < out@.len() && x != y implies (
                    #[trigger] out@[x]).0 != (#[trigger] out@[y]).0 by {
                        if x < before.len() && y < before.len() {
                            assert(before[x].0 != before[y].0);
                        }
                    }
                    assert forall|a: usize, b: usize| covers_power(before, a, b) implies covers_power(out@, a, b) by {
                        let w = choose|w: int| 0 <= w < before.len() && (#[trigger] before[w]).0 == a && before[w].1 >= b;
                        assert(out@[w] == before[w]);
                    }
                    assert forall|t: int| 0 <= t < out@.len() implies entry_of_either(#[trigger] out@[t], acc@, f@) by {
                        if t == before.len() {
                            assert(f@[i as int] == out@[t]);
                        } else {
                            assert(before[t] == out@[t]);
                        }
                    }
                }
            },
        }
        proof {
            lemma_after_step(before, out@, acc@, f@, i as int);
        }
        i = i + 1;
    }
    assert(f@.take(f@.len() as int) =~= f@);
    out
}

/// Every prime power of `acc` divides some number from 2 to `bound - 1`.
pub open spec fn powers_needed(acc: Seq<(usize, usize)>, bound: int) -> bool {
    forall|j: int| 0 <= j < acc.len() ==> power_needed(#[trigger] acc[j], bound)
}

/// The prime power `x` divides some number from 2 to `bound - 1`.
pub open spec fn power_needed(x: (usize, usize), bound: int) -> bool {
    exists|k: int| 2 <= k < bound && #[trigger] (k % power(x.0 as int, x.1 as nat)) == 0
}

/// Each prime power of a covered factorization divides the value of the
/// cover.
proof fn lemma_dominated_divides(acc: Seq<(usize, usize)>, f: Seq<(usize, usize)>)
    requires
        has_prime_bases(acc),
        has_prime_bases(f),
        distinct_bases(f),
        dominates(acc, f),
    ensures
        factorization_value(acc) % factorization_value(f) == 0,
{
    assert forall|j: int| 0 <= j < acc.len() implies (#[trigger] acc[j]).0 >= 1 by {
        assert(is_prime(acc[j].0 as int));
    }
    lemma_value_positive(acc);
    assert forall|i: int| 0 <= i < f.len() implies factorization_value(acc) % power(
        (#[trigger] f[i]).0 as int,
        f[i].1 as nat,
    ) == 0 by {
        assert(covers_power(acc, f[i].0, f[i].1));
        let w = choose|w: int| 0 <= w < acc.len() && (#[trigger] acc[w]).0 == f[i].0 && acc[w].1 >= f[i].1;
        assert(is_prime(f[i].0 as int));
        lemma_power_le(f[i].0 as int, f[i].1 as nat, acc[w].1 as nat);
        lemma_power_positive(f[i].0 as int, f[i].1 as nat);
        lemma_power_positive(f[i].0 as int, acc[w].1 as nat);
        lemma_power_divides_value(acc, w);
        lemma_divides_trans(
            power(f[i].0 as int, f[i].1 as nat),
            power(f[i].0 as int, acc[w].1 as nat),
            factorization_value(acc),
        );
    }
    lemma_value_divides(f, factorization_value(acc));
}

/// `base^exponent`, or `None` when it exceeds `usize::MAX`.
fn checked_power(base: usize, exponent: usize) -> (r: Option<usize>)
    requires
        base >= 1,
    ensures
        r matches Some(v) ==> v == power(base as int, exponent as nat),
        r is None ==> power(base as int, exponent as nat) > usize::MAX,
{
    let mut result: usize = 1;
    let mut i: usize = 0;
    while i < exponent
        invariant
            i <= exponent,
            base >= 1,
            result == power(base as int, i as nat),
        decreases exponent - i,
    {
        assert(power(base as int, (i + 1) as nat) == result * base) by (nonlinear_arith)
            requires
                power(base as int, (i + 1) as nat) == base * power(base as int, i as nat),
                result == power(base as int, i as nat),
        ;
        result = match result.checked_mul(base) {
            Some(v) => v,
            None => {
                proof {
                    lemma_power_le(base as int, (i + 1) as nat, exponent as nat);
                }
                return None;
            },
        };
        i = i + 1;
    }
    Some(result)
}

/// The smallest positive number that every number from 1 to `limit`
/// divides: the product of the largest prime powers among their
/// factorizations. `None` when it exceeds `usize::MAX`.
pub fn solve(limit: usize) -> (r: Option<usize>)
    requires
        1 <= limit < usize::MAX,
    ensures
        r matches Some(n) ==> is_common_multiple(n as int, limit as int),
        r matches Some(n) ==> forall|m: int| #[trigger] is_common_multiple(m, limit as int) ==> m % (n as int) == 0,
        r is None ==> forall|m: int| #[trigger] is_common_multiple(m, limit as int) ==> m > usize::MAX,
{
    proof {
        lemma_primes_below_exact((limit + 1) as nat);
    }
    let primes = primes_below(limit + 1);
    let mut acc: Vec<(usize, usize)> = Vec::new();
    let mut num: usize = 2;
    while num <= limit
        invariant
            2 <= num <= limit + 1,
            limit < usize::MAX,
            is_prime_list(primes@),
            forall|p: int| 0 <= p < limit + 1 && is_prime(p) ==> primes@.contains(p as usize),
            has_prime_bases(acc@),
            distinct_bases(acc@),
            forall|k: int| 2 <= k < num ==> #[trigger] (factorization_value(acc@) % k) == 0,
            powers_needed(acc@, num as int),
        decreases limit + 1 - num,
    {
        proof {
            assert forall|p: int| #[trigger] is_prime(p) && p * p <= num implies primes@.contains(p as usize) by {
                if p > num {
                    assert(p * p > num) by (nonlinear_arith)
                        requires
                            p > num,
                            num >= 2,
                    ;
                }
            }
        }
        let factors = get_factors(num, primes.as_slice());
        let ghost old_acc = acc@;
        let merged = merge_factors(&acc, &factors);
        proof {
            assert(factorization_value(factors@) == num);
            assert forall|i: int, j: int| 0 <= i < factors@.len() && 0 <= j < factors@.len() && i != j implies (
            #[trigger] factors@[i]).0 != (#[trigger] factors@[j]).0 by {}
            lemma_dominated_divides(merged@, factors@);
            lemma_dominated_divides(merged@, old_acc);
            assert forall|j: int| 0 <= j < merged@.len() implies (#[trigger] merged@[j]).0 >= 1 by {
                assert(is_prime(merged@[j].0 as int));
            }
            lemma_value_positive(merged@);
            assert forall|j: int| 0 <= j < old_acc.len() implies (#[trigger] old_acc[j]).0 >= 1 by {
                assert(is_prime(old_acc[j].0 as int));
            }
            lemma_value_positive(old_acc);
            assert forall|k: int| 2 <= k < num + 1 implies #[trigger] (factorization_value(merged@) % k) == 0 by {
                if k < num {
                    lemma_divides_trans(k, factorization_value(old_acc), factorization_value(merged@));
                }
            }
            assert forall|j: int| 0 <= j < merged@.len() implies power_needed(#[trigger] merged@[j], (num + 1) as int) by {
                if old_acc.contains(merged@[j]) {
                    let t = choose|t: int| 0 <= t < old_acc.len() && old_acc[t] == merged@[j];
                    assert(power_needed(old_acc[t], num as int));
                    let k = choose|k: int| 2 <= k < num && #[trigger] (k % power(old_acc[t].0 as int, old_acc[t].1 as nat)) == 0;
                    assert(k % power(merged@[j].0 as int, merged@[j].1 as nat) == 0);
                } else {
                    let t = choose|t: int| 0 <= t < factors@.len() && factors@[t] == merged@[j];
                    assert forall|x: int| 0 <= x < factors@.len() implies (#[trigger] factors@[x]).0 >= 1 by {}
                    lemma_power_divides_value(factors@, t);
                    assert((num as int) % power(merged@[j].0 as int, merged@[j].1 as nat) == 0);
                }
            }
            assert(powers_needed(merged@, (num + 1) as int));
        }
        acc = merged;
        num = num + 1;
    }
    let mut product: usize = 1;
    let mut i: usize = 0;
    assert(acc@.take(0) =~= Seq::<(usize, usize)>::empty());
    assert(num == limit + 1);
    while i < acc.len()
        invariant
            i <= acc@.len(),
            has_prime_bases(acc@),
            distinct_bases(acc@),
            forall|k: int| 2 <= k < limit + 1 ==> #[trigger] (factorization_value(acc@) % k) == 0,
            powers_needed(acc@, (limit + 1) as int),
            product == factorization_value(acc@.take(i as int)),
        decreases acc@.len() - i,
    {
        let (p, e) = acc[i];
        proof {
            assert(is_prime(acc@[i as int].0 as int));
        }
        proof {
            assert forall|j: int| 0 <= j < acc@.len() implies (#[trigger] acc@[j]).0 >= 2 by {
                assert(is_prime(acc@[j].0 as int));
            }
            crate::triangle_divisors::lemma_prefix_value_bound(acc@, i + 1);
            assert(acc@.take(i + 1) =~= acc@.take(i as int).push((p, e)));
            lemma_value_push(acc@.take(i as int), (p, e));
            lemma_power_divides_value(acc@, i as int);
            lemma_value_positive(acc@);
            lemma_power_positive(p as int, e as nat);
            crate::arith::lemma_divisor_le(power(p as int, e as nat), factorization_value(acc@));
            lemma_value_positive(acc@.take(i as int));
        }
        let factor = match checked_power(p, e) {
            Some(v) => v,
            None => {
                proof {
                    assert forall|m: int| #[trigger] is_common_multiple(m, limit as int) implies m > usize::MAX by {
                        lemma_lcm_divides(acc@, limit as int, m);
                    }
                }
                return None;
            },
        };
        proof {
            assert(acc@.take(i + 1) =~= acc@.take(i as int).push((p, e)));
            lemma_value_push(acc@.take(i as int), (p, e));
        }
        product = match product.checked_mul(factor) {
            Some(v) => v,
            None => {
                proof {
                    assert forall|m: int| #[trigger] is_common_multiple(m, limit as int) implies m > usize::MAX by {
                        lemma_lcm_divides(acc@, limit as int, m);
                    }
                }
                return None;
            },
        };
        i = i + 1;
    }
    proof {
        assert(acc@.take(acc@.len() as int) =~= acc@);
        assert forall|j: int| 0 <= j < acc@.len() implies (#[trigger] acc@[j]).0 >= 1 by {
            assert(is_prime(acc@[j].0 as int));
        }
        lemma_value_positive(acc@);
        assert(powers_needed(acc@, (limit + 1) as int));
        let n = product as int;
        assert forall|k: int| 1 <= k <= limit implies #[trigger] (n % k) == 0 by {
            if k == 1 {
                lemma_multiple(1, n);
                assert(1 * n == n);
            }
        }
        assert forall|m: int| #[trigger] is_common_multiple(m, limit as int) implies m % n == 0 by {
            lemma_lcm_divides(acc@, limit as int, m);
        }
    }
    Some(product)
}

/// The product of the needed prime powers divides every common multiple.
proof fn lemma_lcm_divides(acc: Seq<(usize, usize)>, limit: int, m: int)
    requires
        has_prime_bases(acc),
        distinct_bases(acc),
        powers_needed(acc, limit + 1),
        is_common_multiple(m, limit),
    ensures
        m % factorization_value(acc) == 0,
        m >= factorization_value(acc),
{
    assert forall|j: int| 0 <= j < acc.len() implies m % power((#[trigger] acc[j]).0 as int, acc[j].1 as nat) == 0 by {
        assert(power_needed(acc[j], limit + 1));
        let k = choose|k: int| 2 <= k < limit + 1 && #[trigger] (k % power(acc[j].0 as int, acc[j].1 as nat)) == 0;
        assert(m % k == 0);
        assert(is_prime(acc[j].0 as int));
        lemma_power_positive(acc[j].0 as int, acc[j].1 as nat);
        lemma_divides_trans(power(acc[j].0 as int, acc[j].1 as nat), k, m);
    }
    lemma_value_divides(acc, m);
    assert forall|j: int| 0 <= j < acc.len() implies (#[trigger] acc[j]).0 >= 1 by {
        assert(is_prime(acc[j].0 as int));
    }
    lemma_value_positive(acc);
    crate::arith::lemma_divisor_le(factorization_value(acc), m);
}

} // verus!
