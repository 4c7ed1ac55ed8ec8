//! The digits of unit fractions `1/den`, split into a leading part and a
//! repeating block.

use vstd::prelude::*;

verus! {

/// A digit in the chosen base.
pub type Digit = u8;

/// The base that `one_over` uses.
pub const DEFAULT_BASE: u32 = 10;

/// The digits after the point of a fraction: `leading`, then `repeating`
/// over and over (an empty `repeating` means the expansion ends).
#[derive(Debug, Clone, Eq, PartialEq)]
pub struct Digits {
    pub leading: Vec<Digit>,
    pub repeating: Vec<Digit>,
}

/// The remainder of the long division of `1` by `den` in base `base` after
/// `i` digits.
pub open spec fn ld_rem(den: int, base: int, i: nat) -> int
    decreases i,
{
    if i == 0 {
        1
    } else {
        (ld_rem(den, base, (i - 1) as nat) * base) % den
    }
}

/// The `i`-th digit after the point of `1/den` in base `base`.
pub open spec fn ld_digit(den: int, base: int, i: nat) -> int {
    (ld_rem(den, base, i) * base) / den
}

/// What `one_over_base(den, base)` returns: its digits are the first digits
/// of `1/den`; with no repeating block, the division ends after them; with
/// one, the remainder after the leading digits comes back after one more
/// pass of the block, so the block repeats forever.
pub open spec fn is_expansion(den: int, base: int, d: Digits) -> bool {
    let l = d.leading@.len();
    let p = d.repeating@.len();
    &&& forall|i: int| 0 <= i < l ==> #[trigger] d.leading@[i] as int == ld_digit(den, base, i as nat)
    &&& forall|i: int| 0 <= i < p ==> #[trigger] d.repeating@[i] as int == ld_digit(den, base, (l + i) as nat)
    &&& p == 0 ==> ld_rem(den, base, l as nat) == 0
    &&& p > 0 ==> ld_rem(den, base, (l + p) as nat) == ld_rem(den, base, l as nat)
}

/// The remainders after 1 to `n` digits are pairwise distinct.
pub open spec fn distinct_rems(den: int, base: int, n: nat) -> bool {
    forall|i: nat, j: nat| 1 <= i < j <= n ==> #[trigger] ld_rem(den, base, i) != #[trigger] ld_rem(den, base, j)
}

/// The split is where the long division first comes back to a remainder:
/// with no repeating block, the remainders up to the end are new; with one,
/// either the remainder after `leading + repeating - 1` digits is the last
/// new one and the digits on both sides of the cycle's start differ, or the
/// cycle was moved one digit earlier because those digits agree.
pub open spec fn is_first_cycle(den: int, base: int, d: Digits) -> bool {
    let l = d.leading@.len();
    let p = d.repeating@.len();
    &&& p == 0 ==> distinct_rems(den, base, l)
    &&& p > 0 ==> ld_rem(den, base, l) != 0
    &&& p > 0 ==> ((l >= 1 && distinct_rems(den, base, (l + p - 1) as nat) && ld_digit(den, base, (l - 1) as nat)
        != ld_digit(den, base, (l + p - 1) as nat)) || (distinct_rems(den, base, l + p) && ld_rem(
        den,
        base,
        l + p + 1,
    ) == ld_rem(den, base, l + 1) && ld_digit(den, base, l) == ld_digit(den, base, l + p)))
}

impl Digits {
    pub fn new(leading: Vec<Digit>, repeating: Vec<Digit>) -> (r: Digits)
        ensures
            r.leading@ == leading@,
            r.repeating@ == repeating@,
    {
        Digits { leading, repeating }
    }

    /// The decimal digits of `1/den`.
    pub fn one_over(den: u32) -> (r: Digits)
        requires
            0 < den <= u32::MAX / DEFAULT_BASE,
        ensures
            is_expansion(den as int, DEFAULT_BASE as int, r),
            is_first_cycle(den as int, DEFAULT_BASE as int, r),
    {
        Digits::one_over_base(den, DEFAULT_BASE)
    }

    /// The digits of `1/den` in base `base`, by long division until the
    /// division ends or a remainder comes back.
    pub fn one_over_base(den: u32, base: u32) -> (r: Digits)
        requires
            0 < den,
            2 <= base <= 256,
            base == 256 ==> den >= 2,
            den as int * base as int <= u32::MAX,
        ensures
            is_expansion(den as int, base as int, r),
            is_first_cycle(den as int, base as int, r),
    {
        let ghost dd = den as int;
        let ghost bb = base as int;
        let mut digits_rems: Vec<(Digit, u32)> = Vec::new();
        let mut num: u32 = base;
        while digits_rems.len() <= den as usize
            invariant
                0 < den,
                2 <= base <= 256,
                base == 256 ==> den >= 2,
                dd == den,
                bb == base,
                den as int * base as int <= u32::MAX,
                num as int == ld_rem(dd, bb, digits_rems@.len() as nat) * bb,
                digits_rems@.len() > 0 ==> ld_rem(dd, bb, digits_rems@.len() as nat) < den,
                forall|i: int|
                    0 <= i < digits_rems@.len() ==> (#[trigger] digits_rems@[i]).0 as int == ld_digit(dd, bb, i as nat)
                        && digits_rems@[i].1 as int == ld_rem(dd, bb, (i + 1) as nat),
                forall|i: int, j: int|
                    0 <= i < j < digits_rems@.len() ==> (#[trigger] digits_rems@[i]).1 != (#[trigger] digits_rems@[j]).1,
                forall|i: int| 0 <= i < digits_rems@.len() ==> (#[trigger] digits_rems@[i]).1 < den,
                forall|i: int| 0 <= i < digits_rems@.len() - 1 ==> (#[trigger] digits_rems@[i]).1 != 0,
            decreases den as int + 1 - digits_rems@.len(),
        {
            let ghost t = digits_rems@.len();
            if num == 0 {
                proof {
                    assert(ld_rem(dd, bb, t as nat) == 0) by (nonlinear_arith)
                        requires
                            num as int == ld_rem(dd, bb, t as nat) * bb,
                            num == 0,
                            bb >= 2,
                    ;
                }
                let leading = from_digits_rems(&digits_rems, 0, digits_rems.len());
                proof {
                    lemma_distinct_entries(digits_rems@, dd, bb);
                }
                return Digits::new(leading, Vec::new());
            }
            let quot = num / den;
            let rem = num % den;
            proof {
                if t > 0 {
                    if ld_rem(dd, bb, t as nat) == 0 {
                        let z = ld_rem(dd, bb, t as nat);
                        assert(z * bb == 0) by (nonlinear_arith)
                            requires
                                z == 0,
                        ;
                    }
                    assert(ld_rem(dd, bb, t as nat) != 0);
                    assert(digits_rems@[t - 1].1 != 0);
                }
                if t > 0 {
                    assert(num < den as int * base as int) by (nonlinear_arith)
                        requires
                            num as int == ld_rem(dd, bb, t as nat) * bb,
                            ld_rem(dd, bb, t as nat) < den,
                            bb == base,
                            base > 0,
                    ;
                    vstd::arithmetic::div_mod::lemma_multiply_divide_lt(num as int, den as int, base as int);
                } else {
                    assert(ld_rem(dd, bb, 0) == 1);
                    assert(num == base);
                    assert(num / den <= num) by (nonlinear_arith)
                        requires
                            den > 0,
                    ;
                    if den >= 2 {
                        assert(num / den < num) by (nonlinear_arith)
                            requires
                                den >= 2,
                                num >= 2,
                        ;
                    }
                }
                assert(ld_rem(dd, bb, (t + 1) as nat) == rem);
                assert(rem as int * base as int <= u32::MAX) by (nonlinear_arith)
                    requires
                        rem < den,
                        den as int * base as int <= u32::MAX,
                ;
            }
            let quot = quot as Digit;
            num = rem * base;
            match find_rem(&digits_rems, rem) {
                Some(index) => {
                    let (match_digit, _) = digits_rems[index];
                    if match_digit == quot {
                        proof {
                            lemma_same_digit_same_rem(dd, bb, index as nat, t as nat);
                            lemma_distinct_entries(digits_rems@, dd, bb);
                            assert(digits_rems@[index as int].1 == ld_rem(dd, bb, (index + 1) as nat));
                            if index > 0 {
                                assert(digits_rems@[index - 1].1 == ld_rem(dd, bb, index as nat));
                            } else {
                                assert(ld_rem(dd, bb, 0) == 1);
                            }
                        }
                        let leading = from_digits_rems(&digits_rems, 0, index);
                        let repeating = from_digits_rems(&digits_rems, index, digits_rems.len());
                        return Digits::new(leading, repeating);
                    } else {
                        proof {
                            lemma_distinct_entries(digits_rems@, dd, bb);
                            assert(digits_rems@[index as int].0 == ld_digit(dd, bb, index as nat));
                            assert(digits_rems@[index as int].1 == ld_rem(dd, bb, (index + 1) as nat));
                            assert(digits_rems@[index as int].1 != 0);
                        }
                        digits_rems.push((quot, rem));
                        let leading = from_digits_rems(&digits_rems, 0, index + 1);
                        let repeating = from_digits_rems(&digits_rems, index + 1, digits_rems.len());
                        return Digits::new(leading, repeating);
                    }
                },
                None => {},
            }
            let ghost before = digits_rems@;
            digits_rems.push((quot, rem));
            proof {
                assert forall|i: int, j: int| 0 <= i < j < digits_rems@.len() implies (#[trigger] digits_rems@[i]).1
                    != (#[trigger] digits_rems@[j]).1 by {
                    if j < t {
                        assert(before[i].1 != before[j].1);
                    } else {
                        assert(before[i].1 != rem);
                    }
                }
                if digits_rems@.len() > den {
                    lemma_pigeonhole(digits_rems@, den as nat);
                }
            }
        }
        proof {
            lemma_pigeonhole(digits_rems@, den as nat);
        }
        Digits::new(Vec::new(), Vec::new())
    }
}

/// Pairwise distinct entries give pairwise distinct remainders.
proof fn lemma_distinct_entries(entries: Seq<(Digit, u32)>, den: int, base: int)
    requires
        forall|i: int| 0 <= i < entries.len() ==> (#[trigger] entries[i]).1 as int == ld_rem(den, base, (i + 1) as nat),
        forall|i: int, j: int| 0 <= i < j < entries.len() ==> (#[trigger] entries[i]).1 != (#[trigger] entries[j]).1,
    ensures
        distinct_rems(den, base, entries.len()),
{
    assert forall|i: nat, j: nat| 1 <= i < j <= entries.len() implies #[trigger] ld_rem(den, base, i) != #[trigger] ld_rem(
        den,
        base,
        j,
    ) by {
        assert(entries[i - 1].1 != entries[j - 1].1);
        assert(entries[i - 1].1 as int == ld_rem(den, base, i));
        assert(entries[j - 1].1 as int == ld_rem(den, base, j));
    }
}

/// Equal digits at two places whose next remainders agree come from equal
/// remainders.
proof fn lemma_same_digit_same_rem(den: int, base: int, k: nat, t: nat)
    requires
        den > 0,
        base > 0,
        ld_digit(den, base, k) == ld_digit(den, base, t),
        ld_rem(den, base, k + 1) == ld_rem(den, base, t + 1),
    ensures
        ld_rem(den, base, k) == ld_rem(den, base, t),
{
    let a = ld_rem(den, base, k) * base;
    let b = ld_rem(den, base, t) * base;
    vstd::arithmetic::div_mod::lemma_fundamental_div_mod(a, den);
    vstd::arithmetic::div_mod::lemma_fundamental_div_mod(b, den);
    assert(a == b);
    assert(ld_rem(den, base, k) == ld_rem(den, base, t)) by (nonlinear_arith)
        requires
            a == ld_rem(den, base, k) * base,
            b == ld_rem(den, base, t) * base,
            a == b,
            base > 0,
    ;
}

/// A sequence of pairwise distinct remainders below `bound` is no longer
/// than `bound`.
proof fn lemma_pigeonhole(s: Seq<(Digit, u32)>, bound: nat)
    requires
        forall|i: int, j: int| 0 <= i < j < s.len() ==> (#[trigger] s[i]).1 != (#[trigger] s[j]).1,
        forall|i: int| 0 <= i < s.len() ==> (#[trigger] s[i]).1 < bound,
    ensures
        s.len() <= bound,
    decreases bound,
{
    if bound == 0 {
        if s.len() > 0 {
            assert(s[0].1 < bound);
        }
    } else {
        let top = (bound - 1) as nat;
        if exists|i: int| 0 <= i < s.len() && (#[trigger] s[i]).1 == top {
            let i = choose|i: int| 0 <= i < s.len() && (#[trigger] s[i]).1 == top;
            let t = s.remove(i);
            assert forall|a: int, b: int| 0 <= a < b < t.len() implies (#[trigger] t[a]).1 != (#[trigger] t[b]).1 by {
                let a1 = if a < i { a } else { a + 1 };
                let b1 = if b < i { b } else { b + 1 };
                assert(t[a] == s[a1] && t[b] == s[b1]);
                assert(s[a1].1 != s[b1].1);
            }
            assert forall|a: int| 0 <= a < t.len() implies (#[trigger] t[a]).1 < top by {
                let a1 = if a < i { a } else { a + 1 };
                assert(t[a] == s[a1]);
                if a1 < i {
                    assert(s[a1].1 != s[i].1);
                } else {
                    assert(s[i].1 != s[a1].1);
                }
            }
            lemma_pigeonhole(t, top);
        } else {
            assert forall|a: int| 0 <= a < s.len() implies (#[trigger] s[a]).1 < top by {
                assert(s[a].1 != top);
            }
            lemma_pigeonhole(s, top);
        }
    }
}

/// Where `digits_rems` holds the remainder `rem`, if anywhere.
fn find_rem(digits_rems: &Vec<(Digit, u32)>, rem: u32) -> (r: Option<usize>)
    ensures
        r matches Some(i) ==> i < digits_rems@.len() && digits_rems@[i as int].1 == rem,
        r is None ==> forall|i: int| 0 <= i < digits_rems@.len() ==> digits_rems@[i].1 != rem,
{
    let mut i: usize = 0;
    while i < digits_rems.len()
        invariant
            i <= digits_rems@.len(),
            forall|j: int| 0 <= j < i ==> digits_rems@[j].1 != rem,
        decreases digits_rems@.len() - i,
    {
        if digits_rems[i].1 == rem {
            return Some(i);
        }
        i = i + 1;
    }
    None
}

/// The digits of `digits_rems[start..end]`.
pub fn from_digits_rems(digits_rems: &Vec<(Digit, u32)>, start: usize, end: usize) -> (r: Vec<Digit>)
    requires
        start <= end <= digits_rems@.len(),
    ensures
        r@.len() == end - start,
        forall|i: int| 0 <= i < end - start ==> #[trigger] r@[i] == digits_rems@[start + i].0,
{
    let mut r: Vec<Digit> = Vec::new();
    let mut i: usize = start;
    while i < end
        invariant
            start <= i <= end,
            end <= digits_rems@.len(),
            r@.len() == i - start,
            forall|j: int| 0 <= j < i - start ==> #[trigger] r@[j] == digits_rems@[start + j].0,
        decreases end - i,
    {
        r.push(digits_rems[i].0);
        i = i + 1;
    }
    r
}

/// The repeating block of the decimal digits of `1/den` has `p` digits.
pub open spec fn has_cycle_len(den: int, p: nat) -> bool {
    exists|d: Digits|
        is_expansion(den, DEFAULT_BASE as int, d) && is_first_cycle(den, DEFAULT_BASE as int, d) && #[trigger] d.repeating@.len()
            == p
}

/// Where a cycling expansion first comes back to a remainder: the
/// remainders before `t` are new, the one at `t` equals the one at `e`, and
/// that one is not 0.
pub open spec fn first_return(den: int, base: int, t: nat, e: nat) -> bool {
    &&& 1 <= e < t
    &&& distinct_rems(den, base, (t - 1) as nat)
    &&& ld_rem(den, base, t) == ld_rem(den, base, e)
    &&& ld_rem(den, base, e) != 0
}

proof fn lemma_cycle_has_first_return(den: int, base: int, d: Digits) -> (te: (nat, nat))
    requires
        den > 0,
        base >= 2,
        is_expansion(den, base, d),
        is_first_cycle(den, base, d),
        d.repeating@.len() > 0,
    ensures
        first_return(den, base, te.0, te.1),
        te.0 - te.1 == d.repeating@.len(),
{
    let l = d.leading@.len();
    let p = d.repeating@.len();
    if l >= 1 && distinct_rems(den, base, (l + p - 1) as nat) && ld_digit(den, base, (l - 1) as nat) != ld_digit(
        den,
        base,
        (l + p - 1) as nat,
    ) {
        ((l + p) as nat, l as nat)
    } else {
        assert(ld_rem(den, base, l + p + 1) == ld_rem(den, base, l + 1));
        if ld_rem(den, base, l + 1) == 0 {
            if p >= 2 {
                assert(ld_rem(den, base, l + 2) == (ld_rem(den, base, l + 1) * base) % den);
                let z = ld_rem(den, base, l + 1);
                assert(z * base == 0) by (nonlinear_arith)
                    requires
                        z == 0,
                ;
                vstd::arithmetic::div_mod::lemma_small_mod(0, den as nat);
                assert(ld_rem(den, base, l + 2) == 0);
                assert(ld_rem(den, base, (l + 1) as nat) != ld_rem(den, base, (l + 2) as nat));
            } else {
                assert(ld_rem(den, base, l + p) == ld_rem(den, base, l));
            }
        }
        ((l + p + 1) as nat, (l + 1) as nat)
    }
}

/// Two readings of the expansion of `1/den` have repeating blocks of one
/// length.
pub proof fn lemma_cycle_len_unique(den: int, p1: nat, p2: nat)
    requires
        den > 0,
        has_cycle_len(den, p1),
        has_cycle_len(den, p2),
    ensures
        p1 == p2,
{
    let b = DEFAULT_BASE as int;
    let d1 = choose|d: Digits| is_expansion(den, b, d) && is_first_cycle(den, b, d) && #[trigger] d.repeating@.len() == p1;
    let d2 = choose|d: Digits| is_expansion(den, b, d) && is_first_cycle(den, b, d) && #[trigger] d.repeating@.len() == p2;
    if p1 > 0 && p2 > 0 {
        let (t1, e1) = lemma_cycle_has_first_return(den, b, d1);
        let (t2, e2) = lemma_cycle_has_first_return(den, b, d2);
        if t1 < t2 {
            assert(ld_rem(den, b, e1) != ld_rem(den, b, t1));
        } else if t2 < t1 {
            assert(ld_rem(den, b, e2) != ld_rem(den, b, t2));
        } else if e1 < e2 {
            assert(ld_rem(den, b, e1) != ld_rem(den, b, e2));
        } else if e2 < e1 {
            assert(ld_rem(den, b, e2) != ld_rem(den, b, e1));
        }
    } else if p1 > 0 || p2 > 0 {
        let (dz, dc) = if p1 == 0 { (d1, d2) } else { (d2, d1) };
        let l = dz.leading@.len();
        let (t, e) = lemma_cycle_has_first_return(den, b, dc);
        assert(ld_rem(den, b, l) == 0);
        assert(ld_rem(den, b, l + 1) == (ld_rem(den, b, l) * b) % den);
        assert(ld_rem(den, b, l + 1) == 0);
        if l >= 1 && t >= l + 2 {
            assert(ld_rem(den, b, l) != ld_rem(den, b, (l + 1) as nat));
        } else if t <= l {
            assert(ld_rem(den, b, e) != ld_rem(den, b, t));
        } else if l == 0 {
            assert(ld_rem(den, b, 0) == 1);
        } else {
            assert(t == l + 1);
            if e < l {
                assert(ld_rem(den, b, e) != ld_rem(den, b, l));
            }
        }
    }
}

/// The denominator below 1000 whose unit fraction has the longest repeating
/// block (the last such one when several tie).
pub fn solve() -> (r: u32)
    ensures
        1 <= r < 1000,
        exists|c: nat|
            #[trigger] has_cycle_len(r as int, c) && (forall|d: int, c1: nat|
                1 <= d < 1000 && #[trigger] has_cycle_len(d, c1) ==> c1 <= c) && (forall|d: int, c1: nat|
                r < d < 1000 && #[trigger] has_cycle_len(d, c1) ==> c1 < c),
{
    let mut best: u32 = 1;
    let first = Digits::one_over(1);
    let mut best_len: usize = first.repeating.len();
    proof {
        assert(has_cycle_len(1, best_len as nat));
    }
    let mut den: u32 = 2;
    while den < 1000
        invariant
            2 <= den <= 1000,
            1 <= best < den,
            has_cycle_len(best as int, best_len as nat),
            forall|d: int, c1: nat| 1 <= d < den && #[trigger] has_cycle_len(d, c1) ==> c1 <= best_len,
            forall|d: int, c1: nat| best < d < den && #[trigger] has_cycle_len(d, c1) ==> c1 < best_len,
        decreases 1000 - den,
    {
        let digits = Digits::one_over(den);
        let len = digits.repeating.len();
        proof {
            assert(has_cycle_len(den as int, len as nat));
        }
        if len >= best_len {
            best_len = len;
            best = den;
        }
        proof {
            assert forall|d: int, c1: nat| 1 <= d < den + 1 && #[trigger] has_cycle_len(d, c1) implies c1 <= best_len by {
                if d == den {
                    lemma_cycle_len_unique(d, c1, len as nat);
                }
            }
            assert forall|d: int, c1: nat| best < d < den + 1 && #[trigger] has_cycle_len(d, c1) implies c1 < best_len by {
                if d == den {
                    lemma_cycle_len_unique(d, c1, len as nat);
                }
            }
        }
        den = den + 1;
    }
    proof {
        assert(has_cycle_len(best as int, best_len as nat));
    }
    best
}

} // verus!
