//! Continued-fraction expansion of square roots, and the integer square root.

use vstd::prelude::*;

verus! {

/// The outcome of expanding the square root of a number: the number is a
/// perfect square, or its root has a periodic expansion.
#[derive(Debug, PartialEq, Eq)]
pub enum SqrtExpansionResult {
    Perfect(u32),
    Expanded(ExpandedSqrt),
}

/// `sqrt(n) = [first; expansion...]`, where the terms from
/// `period_starting_index` on repeat forever.
#[derive(Debug, PartialEq, Eq)]
pub struct ExpandedSqrt {
    pub first: u32,
    pub expansion: Vec<u32>,
    pub period_starting_index: usize,
}

impl SqrtExpansionResult {
    pub fn perfect(sqrt: u32) -> (r: Self)
        ensures
            r == SqrtExpansionResult::Perfect(sqrt),
    {
        SqrtExpansionResult::Perfect(sqrt)
    }

    pub fn expanded(first: u32, expansion: Vec<u32>, period_starting_index: usize) -> (r: Self)
        ensures
            r matches SqrtExpansionResult::Expanded(e) && e.first == first && e.expansion@ == expansion@
                && e.period_starting_index == period_starting_index,
    {
        SqrtExpansionResult::Expanded(ExpandedSqrt::new(first, expansion, period_starting_index))
    }
}

impl ExpandedSqrt {
    pub fn new(first: u32, expansion: Vec<u32>, period_starting_index: usize) -> (r: Self)
        ensures
            r.first == first,
            r.expansion@ == expansion@,
            r.period_starting_index == period_starting_index,
    {
        ExpandedSqrt { first, expansion, period_starting_index }
    }

    /// The number of terms in the repeating block.
    pub fn period_len(&self) -> (r: usize)
        requires
            self.period_starting_index <= self.expansion@.len(),
        ensures
            r == self.expansion@.len() - self.period_starting_index,
    {
        self.expansion.len() - self.period_starting_index
    }
}

/// `r` is the integer square root of `n`.
pub open spec fn is_isqrt(r: int, n: int) -> bool {
    r >= 0 && r * r <= n < (r + 1) * (r + 1)
}

/// The integer square root of `n`, by bisection.
pub fn approx_sqrt(n: u32) -> (r: u32)
    ensures
        is_isqrt(r as int, n as int),
{
    let mut min: u32 = 0;
    let mut max: u32 = n;
    let mut cur: u32 = n / 2;
    assert(n < (n + 1) * (n + 1)) by (nonlinear_arith);
    while min < max
        invariant
            min <= cur <= max,
            max <= n,
            min as int * min as int <= n,
            n < (max as int + 1) * (max as int + 1),
        decreases 2 * (max - min) + if cur <= min {
            1int
        } else {
            0int
        },
    {
        assert(cur as u64 * cur as u64 <= u64::MAX) by (nonlinear_arith)
            requires
                cur <= u32::MAX,
        ;
        let square: u64 = cur as u64 * cur as u64;
        if square == n as u64 {
            proof {
                assert((cur + 1) * (cur + 1) > cur * cur) by (nonlinear_arith)
                    requires
                        cur >= 0,
                ;
            }
            return cur;
        } else if square < n as u64 {
            min = cur;
        } else {
            max = cur - 1;
        }
        cur = min + (max - min) / 2 + (max - min) % 2;
    }
    assert(min == max);
    cur
}

/// The integer square root of `n`, by bisection.
pub fn integer_sqrt(n: u64) -> (r: u64)
    ensures
        is_isqrt(r as int, n as int),
        r <= u32::MAX,
{
    let mut min: u64 = 0;
    let mut max: u64 = if n > 0xFFFF_FFFF {
        0xFFFF_FFFF
    } else {
        n
    };
    assert(n < (max + 1) * (max + 1)) by (nonlinear_arith)
        requires
            max == n || (max == 0xFFFF_FFFF && n <= u64::MAX),
    ;
    while min < max
        invariant
            min <= max <= 0xFFFF_FFFF,
            min as int * min as int <= n,
            n < (max as int + 1) * (max as int + 1),
        decreases max - min,
    {
        let cur = min + (max - min) / 2 + (max - min) % 2;
        assert(cur * cur <= 0xFFFF_FFFF * 0xFFFF_FFFF) by (nonlinear_arith)
            requires
                cur <= 0xFFFF_FFFF,
        ;
        if cur * cur <= n {
            min = cur;
        } else {
            max = cur - 1;
        }
    }
    min
}

/// One step of the expansion from the state `(numerator, subtrahend)`: the
/// next term and the next state.
pub open spec fn cf_step(n: int, first: int, state: (int, int)) -> (int, (int, int)) {
    let numerator = state.0;
    let subtrahend = state.1;
    let denominator = n - subtrahend * subtrahend;
    let term = numerator * (first + subtrahend) / denominator;
    let next_numerator = denominator / numerator;
    (term, (next_numerator, term * next_numerator - subtrahend))
}

/// The state of the expansion of `sqrt(n)` before its `i`-th term.
pub open spec fn cf_state(n: int, first: int, i: nat) -> (int, int)
    decreases i,
{
    if i == 0 {
        (1, first)
    } else {
        cf_step(n, first, cf_state(n, first, (i - 1) as nat)).1
    }
}

/// The `i`-th term of the expansion of `sqrt(n)` after `first`.
pub open spec fn cf_term(n: int, first: int, i: nat) -> int {
    cf_step(n, first, cf_state(n, first, i)).0
}

/// `n` is a perfect square.
pub open spec fn is_square(n: int) -> bool {
    exists|s: int| 0 <= s && #[trigger] (s * s) == n
}

/// What `expanded_sqrt(n)` may return.
pub open spec fn expansion_of(n: u32, r: SqrtExpansionResult) -> bool {
    match r {
        SqrtExpansionResult::Perfect(s) => s as int * s as int == n,
        SqrtExpansionResult::Expanded(e) => {
            &&& !is_square(n as int)
            &&& is_isqrt(e.first as int, n as int)
            &&& e.period_starting_index < e.expansion@.len()
            &&& forall|i: int|
                0 <= i < e.expansion@.len() ==> #[trigger] e.expansion@[i] as int == cf_term(
                    n as int,
                    e.first as int,
                    i as nat,
                )
            &&& cf_state(n as int, e.first as int, e.expansion@.len() as nat) == cf_state(
                n as int,
                e.first as int,
                e.period_starting_index as nat,
            )
            &&& forall|i: int, j: int|
                0 <= i < j < e.expansion@.len() ==> #[trigger] cf_state(n as int, e.first as int, i as nat)
                    != #[trigger] cf_state(n as int, e.first as int, j as nat)
        },
    }
}

proof fn lemma_not_square(n: int, r: int)
    requires
        is_isqrt(r, n),
        r * r != n,
    ensures
        !is_square(n),
{
    if is_square(n) {
        let s = choose|s: int| 0 <= s && #[trigger] (s * s) == n;
        if s <= r - 1 {
            assert(s * s <= (r - 1) * (r - 1)) by (nonlinear_arith)
                requires
                    0 <= s <= r - 1,
            ;
            assert((r - 1) * (r - 1) < r * r) by (nonlinear_arith)
                requires
                    r >= 1,
            ;
        } else if s == r {
        } else {
            assert(s * s >= (r + 1) * (r + 1)) by (nonlinear_arith)
                requires
                    s >= r + 1,
                    r >= 0,
            ;
        }
    }
}

/// The index at which `seen` holds `state`, if it does.
fn find_state(seen: &Vec<(u64, u64)>, state: (u64, u64)) -> (r: Option<usize>)
    ensures
        r matches Some(i) ==> i < seen@.len() && seen@[i as int] == state,
        r is None ==> forall|i: int| 0 <= i < seen@.len() ==> seen@[i] != state,
{
    let mut i: usize = 0;
    while i < seen.len()
        invariant
            i <= seen@.len(),
            forall|j: int| 0 <= j < i ==> seen@[j] != state,
        decreases seen@.len() - i,
    {
        if seen[i].0 == state.0 && seen[i].1 == state.1 {
            return Some(i);
        }
        i = i + 1;
    }
    None
}

/// A state `(m, s)` of the expansion of `sqrt(n)`, with `a0` its integer
/// part, stands for the reduced quadratic irrational `(sqrt(n) + s) / q`
/// with `q = (n - s^2) / m`: `0 < s <= a0` and `a0 - s < q <= a0 + s`.
pub open spec fn is_reduced_state(n: int, a0: int, st: (int, int)) -> bool {
    let m = st.0;
    let s = st.1;
    let d = n - s * s;
    &&& 1 <= s <= a0
    &&& m >= 1
    &&& d % m == 0
    &&& a0 - s < d / m <= a0 + s
}

proof fn lemma_scaled_quotient(x: int, q: int, m: int)
    requires
        x >= 0,
        q >= 1,
        m >= 1,
    ensures
        (m * x) / (m * q) == x / q,
{
    vstd::arithmetic::div_mod::lemma_fundamental_div_mod(x, q);
    let a = x / q;
    let r = x % q;
    assert(m * x == (m * q) * a + m * r && 0 <= m * r < m * q) by (nonlinear_arith)
        requires
            x == q * a + r,
            0 <= r < q,
            m >= 1,
    ;
    vstd::arithmetic::mul::lemma_mul_is_commutative(a, m * q);
    vstd::arithmetic::div_mod::lemma_fundamental_div_mod_converse(m * x, m * q, a, m * r);
}

/// One step keeps the state reduced, with its term at least 1.
proof fn lemma_step_reduced(n: int, a0: int, st: (int, int))
    requires
        a0 >= 1,
        a0 * a0 < n < (a0 + 1) * (a0 + 1),
        is_reduced_state(n, a0, st),
    ensures
        is_reduced_state(n, a0, cf_step(n, a0, st).1),
        cf_step(n, a0, st).0 >= 1,
        cf_step(n, a0, st).0 <= 2 * a0,
        cf_step(n, a0, st).1.0 <= 2 * a0,
        cf_step(n, a0, st).0 == (a0 + st.1) / ((n - st.1 * st.1) / st.0),
        cf_step(n, a0, st).1.0 == (n - st.1 * st.1) / st.0,
{
    let m = st.0;
    let s = st.1;
    let d = n - s * s;
    vstd::arithmetic::div_mod::lemma_fundamental_div_mod(d, m);
    let q = d / m;
    assert(d == m * q);
    assert(q >= 1);
    lemma_scaled_quotient(a0 + s, q, m);
    vstd::arithmetic::mul::lemma_mul_is_commutative(m, q);
    assert(m * (a0 + s) / d == (a0 + s) / q);
    vstd::arithmetic::div_mod::lemma_fundamental_div_mod(a0 + s, q);
    let a = (a0 + s) / q;
    let r = (a0 + s) % q;
    assert(a0 + s == q * a + r && 0 <= r < q);
    assert(a >= 1) by (nonlinear_arith)
        requires
            a0 + s == q * a + r,
            0 <= r < q,
            q <= a0 + s,
    ;
    assert(a <= q * a) by (nonlinear_arith)
        requires
            a >= 1,
            q >= 1,
    ;
    assert(a <= 2 * a0);
    assert(d / m == q);
    let s1 = a * q - s;
    assert(s1 <= a0) by (nonlinear_arith)
        requires
            a0 + s == q * a + r,
            0 <= r,
            s1 == a * q - s,
    ;
    assert(s1 >= 1) by (nonlinear_arith)
        requires
            a0 + s == q * a + r,
            0 <= r < q,
            s1 == a * q - s,
            a >= 1,
            q >= 1,
            s <= a0,
    ;
    let q1 = m + 2 * a * s - a * a * q;
    assert(n - s1 * s1 == q * q1) by (nonlinear_arith)
        requires
            d == n - s * s,
            d == m * q,
            s1 == a * q - s,
            q1 == m + 2 * a * s - a * a * q,
    ;
    assert(q <= a0 + s1) by (nonlinear_arith)
        requires
            s1 == a * q - s,
            a >= 1,
            q >= 1,
            s <= a0,
    ;
    assert(q * q1 > q * (a0 - s1)) by (nonlinear_arith)
        requires
            q * q1 == n - s1 * s1,
            q <= a0 + s1,
            s1 <= a0,
            s1 >= 1,
            a0 * a0 < n,
    ;
    assert(q1 > a0 - s1) by (nonlinear_arith)
        requires
            q * q1 > q * (a0 - s1),
            q >= 1,
    ;
    assert(q >= a0 + 1 - s1) by (nonlinear_arith)
        requires
            a0 + s == q * a + r,
            r < q,
            s1 == a * q - s,
    ;
    if q1 > a0 + s1 {
        vstd::arithmetic::mul::lemma_mul_upper_bound(a0 + 1 - s1, q, a0 + 1 + s1, q1);
        assert((a0 + 1 - s1) * (a0 + 1 + s1) == (a0 + 1) * (a0 + 1) - s1 * s1) by (nonlinear_arith);
    }
    vstd::arithmetic::mul::lemma_mul_is_commutative(q, q1);
    vstd::arithmetic::div_mod::lemma_fundamental_div_mod_converse(n - s1 * s1, q, q1, 0);
    assert(q <= 2 * a0);
}

/// Two reduced states with the same next state are the same.
proof fn lemma_step_injective(n: int, a0: int, st1: (int, int), st2: (int, int))
    requires
        a0 >= 1,
        a0 * a0 < n < (a0 + 1) * (a0 + 1),
        is_reduced_state(n, a0, st1),
        is_reduced_state(n, a0, st2),
        cf_step(n, a0, st1).1 == cf_step(n, a0, st2).1,
    ensures
        st1 == st2,
{
    lemma_step_reduced(n, a0, st1);
    lemma_step_reduced(n, a0, st2);
    let q = (n - st1.1 * st1.1) / st1.0;
    let a1 = cf_step(n, a0, st1).0;
    let a2 = cf_step(n, a0, st2).0;
    let s1 = st1.1;
    let s2 = st2.1;
    assert(s1 - s2 == (a1 - a2) * q) by (nonlinear_arith)
        requires
            a1 * q - s1 == a2 * q - s2,
    ;
    assert(a1 == a2) by (nonlinear_arith)
        requires
            s1 - s2 == (a1 - a2) * q,
            a0 - s1 < q,
            a0 - s2 < q,
            s1 <= a0,
            s2 <= a0,
            q >= 1,
    ;
    assert(s1 == s2);
    let d = n - s1 * s1;
    vstd::arithmetic::div_mod::lemma_fundamental_div_mod(d, st1.0);
    vstd::arithmetic::div_mod::lemma_fundamental_div_mod(d, st2.0);
    assert(st1.0 == st2.0) by (nonlinear_arith)
        requires
            d == st1.0 * q,
            d == st2.0 * q,
            q >= 1,
    ;
}

/// Pairwise distinct values in `0..bound` number at most `bound`.
proof fn lemma_pigeonhole(s: Seq<int>, bound: nat)
    requires
        forall|i: int, j: int| 0 <= i < j < s.len() ==> #[trigger] s[i] != #[trigger] s[j],
        forall|i: int| 0 <= i < s.len() ==> 0 <= #[trigger] s[i] < bound,
    ensures
        s.len() <= bound,
    decreases bound,
{
    if bound == 0 {
        if s.len() > 0 {
            assert(0 <= s[0] < bound);
        }
    } else {
        let top = bound - 1;
        if exists|i: int| 0 <= i < s.len() && #[trigger] s[i] == top {
            let i = choose|i: int| 0 <= i < s.len() && #[trigger] s[i] == top;
            let t = s.remove(i);
            assert forall|a: int, b: int| 0 <= a < b < t.len() implies #[trigger] t[a] != #[trigger] t[b] by {
                let a1 = if a < i { a } else { a + 1 };
                let b1 = if b < i { b } else { b + 1 };
                assert(t[a] == s[a1] && t[b] == s[b1]);
            }
            assert forall|a: int| 0 <= a < t.len() implies 0 <= #[trigger] t[a] < top by {
                let a1 = if a < i { a } else { a + 1 };
                assert(t[a] == s[a1]);
                if a1 < i {
                    assert(s[a1] != s[i]);
                } else {
                    assert(s[i] != s[a1]);
                }
            }
            lemma_pigeonhole(t, top as nat);
        } else {
            assert forall|a: int| 0 <= a < s.len() implies 0 <= #[trigger] s[a] < top by {
                assert(s[a] != top);
            }
            lemma_pigeonhole(s, top as nat);
        }
    }
}

/// The place of a state in the box `1..=2 a0` by `1..=a0`.
pub open spec fn state_code(a0: int, st: (int, int)) -> int {
    (st.0 - 1) * a0 + (st.1 - 1)
}

proof fn lemma_state_code(a0: int, st1: (int, int), st2: (int, int))
    requires
        a0 >= 1,
        1 <= st1.0 <= 2 * a0,
        1 <= st2.0 <= 2 * a0,
        1 <= st1.1 <= a0,
        1 <= st2.1 <= a0,
    ensures
        0 <= state_code(a0, st1) < 2 * a0 * a0,
        state_code(a0, st1) == state_code(a0, st2) ==> st1 == st2,
{
    assert(0 <= state_code(a0, st1) < 2 * a0 * a0) by (nonlinear_arith)
        requires
            a0 >= 1,
            1 <= st1.0 <= 2 * a0,
            1 <= st1.1 <= a0,
    ;
    if state_code(a0, st1) == state_code(a0, st2) {
        assert(st1.0 == st2.0) by (nonlinear_arith)
            requires
                (st1.0 - 1) * a0 + (st1.1 - 1) == (st2.0 - 1) * a0 + (st2.1 - 1),
                1 <= st1.1 <= a0,
                1 <= st2.1 <= a0,
                a0 >= 1,
        ;
    }
}

/// The states of the expansion up to `len` are reduced and their first
/// component lies in `1..=2 a0`.
pub open spec fn states_reduced(n: int, a0: int, len: nat) -> bool {
    forall|i: nat|
        i <= len ==> is_reduced_state(n, a0, #[trigger] cf_state(n, a0, i)) && 1 <= cf_state(n, a0, i).0 <= 2 * a0
}

/// Expands `sqrt(n)` as a continued fraction until a state of the expansion
/// repeats. The expansion of an irrational root is purely periodic: the
/// repeating block starts at the first term after `first`.
pub fn expanded_sqrt(n: u32) -> (r: SqrtExpansionResult)
    ensures
        expansion_of(n, r),
        is_square(n as int) <==> r is Perfect,
        r matches SqrtExpansionResult::Expanded(e) ==> e.period_starting_index == 0,
{
    let first = approx_sqrt(n);
    assert(first as u64 * first as u64 <= u64::MAX) by (nonlinear_arith)
        requires
            first <= u32::MAX,
    ;
    if first as u64 * first as u64 == n as u64 {
        proof {
            assert(0 <= first && (first as int) * (first as int) == n as int);
        }
        return SqrtExpansionResult::perfect(first);
    }
    proof {
        lemma_not_square(n as int, first as int);
    }
    let ghost nn = n as int;
    let ghost f = first as int;
    proof {
        if f == 0 {
            assert(nn < 1);
            assert(0 * 0 == nn);
        }
        assert(f * f < nn);
        assert(nn - f * f <= 2 * f) by (nonlinear_arith)
            requires
                nn < (f + 1) * (f + 1),
        ;
        assert(f <= 65535) by (nonlinear_arith)
            requires
                f * f < nn,
                nn <= u32::MAX,
                f >= 0,
        ;
        assert((nn - f * f) % 1 == 0 && (nn - f * f) / 1 == nn - f * f);
        assert(cf_state(nn, f, 0) == (1int, f));
        assert(states_reduced(nn, f, 0));
    }
    let mut expansion: Vec<u32> = Vec::new();
    let mut seen: Vec<(u64, u64)> = Vec::new();
    let mut numerator: u64 = 1;
    let mut subtrahend: u64 = first as u64;
    loop
        invariant
            !is_square(nn),
            is_isqrt(f, nn),
            nn == n,
            f == first,
            1 <= f <= 65535,
            f * f < nn < (f + 1) * (f + 1),
            seen@.len() == expansion@.len(),
            (numerator as int, subtrahend as int) == cf_state(nn, f, expansion@.len() as nat),
            forall|i: int| 0 <= i < seen@.len() ==> (seen@[i].0 as int, seen@[i].1 as int) == cf_state(nn, f, i as nat),
            forall|i: int| 0 <= i < expansion@.len() ==> #[trigger] expansion@[i] as int == cf_term(nn, f, i as nat),
            forall|i: int, j: int| 0 <= i < j < seen@.len() ==> seen@[i] != seen@[j],
            states_reduced(nn, f, expansion@.len() as nat),
        decreases 2 * f * f - seen@.len(),
    {
        let state = (numerator, subtrahend);
        let ghost len = expansion@.len();
        match find_state(&seen, state) {
            Some(index) => {
                proof {
                    assert(cf_state(nn, f, index as nat) == cf_state(nn, f, len as nat));
                    if index > 0 {
                        let k = (index - 1) as nat;
                        let t = (len - 1) as nat;
                        assert(cf_state(nn, f, index as nat) == cf_step(nn, f, cf_state(nn, f, k)).1);
                        assert(cf_state(nn, f, len as nat) == cf_step(nn, f, cf_state(nn, f, t)).1);
                        lemma_step_injective(nn, f, cf_state(nn, f, k), cf_state(nn, f, t));
                        assert(seen@[k as int] != seen@[t as int]);
                    }
                    assert forall|i: int, j: int| 0 <= i < j < expansion@.len() implies #[trigger] cf_state(nn, f, i as nat)
                        != #[trigger] cf_state(nn, f, j as nat) by {
                        assert(seen@[i] != seen@[j]);
                    }
                }
                return SqrtExpansionResult::expanded(first, expansion, index);
            },
            None => {},
        }
        proof {
            let all = seen@.push(state);
            let codes = Seq::new(all.len(), |i: int| state_code(f, (all[i].0 as int, all[i].1 as int)));
            assert forall|i: int| 0 <= i < all.len() implies 1 <= #[trigger] all[i].0 <= 2 * f && 1 <= all[i].1 <= f by {
                if i < seen@.len() {
                    assert(cf_state(nn, f, i as nat) == (all[i].0 as int, all[i].1 as int));
                } else {
                    assert(all[i] == state);
                }
            }
            assert forall|i: int, j: int| 0 <= i < j < codes.len() implies #[trigger] codes[i] != #[trigger] codes[j] by {
                lemma_state_code(f, (all[i].0 as int, all[i].1 as int), (all[j].0 as int, all[j].1 as int));
                if j < seen@.len() {
                    assert(seen@[i] != seen@[j]);
                } else {
                    assert(seen@[i] != state);
                }
            }
            assert forall|i: int| 0 <= i < codes.len() implies 0 <= #[trigger] codes[i] < (2 * f * f) as nat by {
                lemma_state_code(f, (all[i].0 as int, all[i].1 as int), (all[i].0 as int, all[i].1 as int));
            }
            lemma_pigeonhole(codes, (2 * f * f) as nat);
            let st = cf_state(nn, f, len as nat);
            lemma_step_reduced(nn, f, st);
            assert(subtrahend * subtrahend <= 65535 * 65535) by (nonlinear_arith)
                requires
                    subtrahend <= 65535,
            ;
            assert(subtrahend * subtrahend < nn) by (nonlinear_arith)
                requires
                    subtrahend <= f,
                    f * f < nn,
            ;
            assert(numerator * (first + subtrahend) <= 131070 * 131070) by (nonlinear_arith)
                requires
                    numerator <= 131070,
                    first + subtrahend <= 131070,
            ;
        }
        let denominator = n as u64 - subtrahend * subtrahend;
        let term = numerator * (first as u64 + subtrahend) / denominator;
        let next_numerator = denominator / numerator;
        proof {
            assert(term <= 131070 && next_numerator <= 131070);
            assert(term * next_numerator <= 131070 * 131070) by (nonlinear_arith)
                requires
                    term <= 131070,
                    next_numerator <= 131070,
            ;
        }
        let next_subtrahend = term * next_numerator - subtrahend;
        let ghost old_seen = seen@;
        seen.push(state);
        expansion.push(term as u32);
        numerator = next_numerator;
        subtrahend = next_subtrahend;
        proof {
            assert(cf_term(nn, f, len as nat) == term as int);
            assert(cf_state(nn, f, (len + 1) as nat) == cf_step(nn, f, cf_state(nn, f, len as nat)).1);
            assert forall|i: int, j: int| 0 <= i < j < seen@.len() implies seen@[i] != seen@[j] by {
                if j == len {
                    assert(old_seen[i] != state);
                } else {
                    assert(old_seen[i] != old_seen[j]);
                }
            }
            assert forall|i: nat| i <= (len + 1) as nat implies is_reduced_state(nn, f, #[trigger] cf_state(nn, f, i))
                && 1 <= cf_state(nn, f, i).0 <= 2 * f by {
                if i == len + 1 {
                    lemma_step_reduced(nn, f, cf_state(nn, f, len as nat));
                }
            }
        }
    }
}

/// Whether `n` is odd.
pub fn is_odd(n: usize) -> (r: bool)
    ensures
        r == (n % 2 == 1),
{
    n % 2 != 0
}

} // verus!
