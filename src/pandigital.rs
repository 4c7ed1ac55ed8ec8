//! Products whose multiplicand, multiplier and product together use each of
//! the digits 1 to 9 once.

use vstd::prelude::*;

verus! {


/// The decimal digits of `n`, least significant first (none for 0).
pub open spec fn decimal_digits(n: nat) -> Seq<nat>
    decreases n,
{
    if n == 0 {
        Seq::empty()
    } else {
        seq![n % 10].add(decimal_digits(n / 10))
    }
}

/// The digits of `a`, `b` and `a * b` together.
pub open spec fn identity_digits(a: nat, b: nat) -> Seq<nat> {
    decimal_digits(a).add(decimal_digits(b)).add(decimal_digits(a * b))
}

/// `a * b = c` is 1 through 9 pandigital: its digits are 1 to 9, each once.
pub open spec fn is_pandigital_identity(a: nat, b: nat) -> bool {
    let s = identity_digits(a, b);
    &&& s.len() == 9
    &&& s.no_duplicates()
    &&& forall|i: int| 0 <= i < s.len() ==> s[i] != 0
}

proof fn lemma_digits_below_ten(n: nat)
    ensures
        forall|i: int| 0 <= i < decimal_digits(n).len() ==> #[trigger] decimal_digits(n)[i] < 10,
    decreases n,
{
    if n > 0 {
        lemma_digits_below_ten(n / 10);
        assert forall|i: int| 0 <= i < decimal_digits(n).len() implies #[trigger] decimal_digits(n)[i] < 10 by {
            if i > 0 {
                assert(decimal_digits(n)[i] == decimal_digits(n / 10)[i - 1]);
            }
        }
    }
}

/// Whether the digits of `a`, `b` and `a * b` are 1 to 9, each once.
pub fn is_multiplitied_pandigital(a: u64, b: u64) -> (r: bool)
    requires
        a * b <= u64::MAX,
    ensures
        r == is_pandigital_identity(a as nat, b as nat),
{
    let ghost s = identity_digits(a as nat, b as nat);
    let ghost tails: Seq<Seq<nat>> = seq![
        decimal_digits(b as nat).add(decimal_digits((a * b) as nat)),
        decimal_digits((a * b) as nat),
        Seq::empty(),
    ];
    let nums: [u64; 3] = [a, b, a * b];
    let mut found: [bool; 10] = [false, false, false, false, false, false, false, false, false, false];
    let mut count: u64 = 0;
    let ghost mut seen: Seq<nat> = Seq::empty();
    let mut k: usize = 0;
    proof {
        assert(s =~= seen.add(decimal_digits(a as nat)).add(tails[0]));
    }
    while k < 3
        invariant
            k <= 3,
            a * b <= u64::MAX,
            nums@ == seq![a, b, (a * b) as u64],
            s == identity_digits(a as nat, b as nat),
            k < 3 ==> s =~= seen.add(decimal_digits(nums@[k as int] as nat)).add(tails[k as int]),
            k == 3 ==> s =~= seen,
            tails[0] == decimal_digits(b as nat).add(decimal_digits((a * b) as nat)),
            tails[1] == decimal_digits((a * b) as nat),
            tails[2] == Seq::<nat>::empty(),
            seen.no_duplicates(),
            forall|i: int| 0 <= i < seen.len() ==> seen[i] != 0 && seen[i] < 10,
            forall|d: int| 0 <= d < 10 ==> (#[trigger] found@[d] <==> seen.contains(d as nat)),
            count == if seen.len() < 10 { seen.len() } else { 10 },
        decreases 3 - k,
    {
        let mut rest = nums[k];
        proof {
            lemma_digits_below_ten(rest as nat);
        }
        while rest > 0
            invariant
                k < 3,
                a * b <= u64::MAX,
                nums@ == seq![a, b, (a * b) as u64],
                s == identity_digits(a as nat, b as nat),
                tails[0] == decimal_digits(b as nat).add(decimal_digits((a * b) as nat)),
                tails[1] == decimal_digits((a * b) as nat),
                tails[2] == Seq::<nat>::empty(),
                s =~= seen.add(decimal_digits(rest as nat)).add(tails[k as int]),
                seen.no_duplicates(),
                forall|i: int| 0 <= i < seen.len() ==> seen[i] != 0 && seen[i] < 10,
                forall|d: int| 0 <= d < 10 ==> (#[trigger] found@[d] <==> seen.contains(d as nat)),
                count == if seen.len() < 10 { seen.len() } else { 10 },
            decreases rest,
        {
            let digit = rest % 10;
            let ghost tail = decimal_digits((rest / 10) as nat).add(tails[k as int]);
            proof {
                assert(decimal_digits(rest as nat) =~= seq![digit as nat].add(decimal_digits((rest / 10) as nat)));
                assert(s =~= seen.push(digit as nat).add(tail));
                assert(s[seen.len() as int] == digit);
            }
            if digit == 0 {
                return false;
            }
            if found[digit as usize] {
                proof {
                    let j = choose|j: int| 0 <= j < seen.len() && seen[j] == digit as nat;
                    assert(s[j] == s[seen.len() as int]);
                }
                return false;
            }
            found[digit as usize] = true;
            if count < 10 {
                count = count + 1;
            }
            proof {
                let old_seen = seen;
                seen = seen.push(digit as nat);
                assert forall|d: int| 0 <= d < 10 implies (#[trigger] found@[d] <==> seen.contains(d as nat)) by {
                    if old_seen.contains(d as nat) {
                        let j = choose|j: int| 0 <= j < old_seen.len() && old_seen[j] == d as nat;
                        assert(seen[j] == d);
                    }
                    if seen.contains(d as nat) && d != digit {
                        let j = choose|j: int| 0 <= j < seen.len() && seen[j] == d as nat;
                        assert(old_seen[j] == d);
                    }
                    if d == digit {
                        assert(seen[old_seen.len() as int] == d);
                    }
                }
                assert forall|i: int, j: int| 0 <= i < j < seen.len() implies seen[i] != seen[j] by {
                    if j == old_seen.len() {
                        assert(!old_seen.contains(digit as nat));
                        assert(old_seen[i] == seen[i]);
                    }
                }
            }
            rest = rest / 10;
        }
        proof {
            assert(decimal_digits(0) =~= Seq::<nat>::empty());
            if k + 1 < 3 {
                assert(tails[k as int] =~= decimal_digits(nums@[k + 1] as nat).add(tails[k + 1]));
            }
        }
        k = k + 1;
    }
    count == 9
}

/// The sum of the values of a sequence.
pub open spec fn sum_u64(s: Seq<u64>) -> nat
    decreases s.len(),
{
    if s.len() == 0 {
        0
    } else {
        sum_u64(s.drop_last()) + s.last() as nat
    }
}

/// `a * b` is a product of the search, with a 1 through 9 pandigital
/// identity.
pub open spec fn is_pandigital_product(a: nat, b: nat) -> bool {
    a < 10000 && b < a && b < 1000 && is_pandigital_identity(a, b)
}

/// Adds `x` to `v` unless `v` already holds it.
fn insert_product(v: &mut Vec<u64>, x: u64)
    ensures
        forall|y: u64| #[trigger] final(v)@.contains(y) <==> (old(v)@.contains(y) || y == x),
        old(v)@.no_duplicates() ==> final(v)@.no_duplicates(),
        old(v)@.contains(x) ==> final(v)@ == old(v)@,
        !old(v)@.contains(x) ==> final(v)@ == old(v)@.push(x),
{
    let mut i: usize = 0;
    while i < v.len()
        invariant
            i <= v@.len(),
            v@ == old(v)@,
            forall|j: int| 0 <= j < i ==> v@[j] != x,
        decreases v@.len() - i,
    {
        if v[i] == x {
            return;
        }
        i = i + 1;
    }
    let ghost before = v@;
    v.push(x);
    proof {
        assert forall|y: u64| #[trigger] v@.contains(y) <==> (before.contains(y) || y == x) by {
            if before.contains(y) {
                let j = choose|j: int| 0 <= j < before.len() && before[j] == y;
                assert(v@[j] == y);
            }
            if y == x {
                assert(v@[before.len() as int] == x);
            }
        }
    }
}

/// The sum of the distinct products `a * b`, with `a < 10000` and
/// `b < min(a, 1000)`, whose identity is 1 through 9 pandigital.
pub fn solve() -> (r: u64)
    ensures
        exists|products: Seq<u64>|
            {
                &&& products.no_duplicates()
                &&& forall|x: u64|
                    #[trigger] products.contains(x) <==> exists|a: nat, b: nat|
                        is_pandigital_product(a, b) && #[trigger] (a * b) == x
                &&& r == sum_u64(products)
            },
{
    let mut products: Vec<u64> = Vec::new();
    let mut a: u64 = 0;
    while a < 10000
        invariant
            a <= 10000,
            products@.no_duplicates(),
            forall|x: u64|
                #[trigger] products@.contains(x) ==> exists|a1: nat, b1: nat|
                    is_pandigital_product(a1, b1) && #[trigger] (a1 * b1) == x,
            forall|a1: nat, b1: nat| a1 < a && #[trigger] is_pandigital_product(a1, b1) ==> products@.contains((a1 * b1) as u64),
            forall|i: int| 0 <= i < products@.len() ==> products@[i] < 10_000_000,
            products@.len() <= a * 1000,
        decreases 10000 - a,
    {
        let bound = if a < 1000 { a } else { 1000 };
        let mut b: u64 = 0;
        while b < bound
            invariant
                a < 10000,
                bound == if a < 1000 { a } else { 1000 },
                b <= bound,
                products@.no_duplicates(),
                forall|x: u64|
                    #[trigger] products@.contains(x) ==> exists|a1: nat, b1: nat|
                        is_pandigital_product(a1, b1) && #[trigger] (a1 * b1) == x,
                forall|a1: nat, b1: nat|
                    (a1 < a || (a1 == a && b1 < b)) && #[trigger] is_pandigital_product(a1, b1) ==> products@.contains(
                        (a1 * b1) as u64,
                    ),
                forall|i: int| 0 <= i < products@.len() ==> products@[i] < 10_000_000,
                products@.len() <= a * 1000 + b,
            decreases bound - b,
        {
            assert(a * b < 10_000_000) by (nonlinear_arith)
                requires
                    a < 10000,
                    b < 1000,
            ;
            if is_multiplitied_pandigital(a, b) {
                let ghost before = products@;
                insert_product(&mut products, a * b);
                proof {
                    assert(is_pandigital_product(a as nat, b as nat));
                    assert forall|x: u64|
                        #[trigger] products@.contains(x) implies exists|a1: nat, b1: nat|
                            is_pandigital_product(a1, b1) && #[trigger] (a1 * b1) == x by {
                        if x == a * b {
                            assert(is_pandigital_product(a as nat, b as nat) && (a as nat) * (b as nat) == x);
                        } else {
                            assert(before.contains(x));
                        }
                    }
                    assert forall|i: int| 0 <= i < products@.len() implies products@[i] < 10_000_000 by {
                        if i < before.len() {
                            assert(products@[i] == before[i]);
                        }
                    }
                }
            }
            b = b + 1;
        }
        a = a + 1;
    }
    let mut sum: u64 = 0;
    let mut i: usize = 0;
    while i < products.len()
        invariant
            i <= products@.len(),
            sum == sum_u64(products@.take(i as int)),
            sum <= i * 10_000_000,
            products@.len() <= 10_000_000,
            forall|j: int| 0 <= j < products@.len() ==> products@[j] < 10_000_000,
        decreases products@.len() - i,
    {
        proof {
            assert(products@.take(i + 1).drop_last() =~= products@.take(i as int));
        }
        sum = sum + products[i];
        i = i + 1;
    }
    proof {
        assert(products@.take(products@.len() as int) =~= products@);
        assert forall|x: u64|
            #[trigger] products@.contains(x) <==> exists|a1: nat, b1: nat|
                is_pandigital_product(a1, b1) && #[trigger] (a1 * b1) == x by {
            if exists|a1: nat, b1: nat| is_pandigital_product(a1, b1) && #[trigger] (a1 * b1) == x {
                let (a1, b1) = choose|a1: nat, b1: nat| is_pandigital_product(a1, b1) && #[trigger] (a1 * b1) == x;
                assert(products@.contains((a1 * b1) as u64));
            }
        }
    }
    sum
}

} // verus!
