//! The Pythagorean triplet with a given sum.

use vstd::prelude::*;

verus! {

/// `a^2 + b^2 == c^2`
pub open spec fn is_triplet(a: nat, b: nat, c: nat) -> bool {
    a * a + b * b == c * c
}

/// `(a, b, sum - a - b)` is one of the candidates: `1 <= a <= b` and a
/// positive third value.
pub open spec fn is_candidate(a: nat, b: nat, sum: nat) -> bool {
    1 <= a <= b && a + b < sum
}

pub fn is_pythagorean_triplet(a: u64, b: u64, c: u64) -> (r: bool)
    requires
        a <= 1_000_000,
        b <= 1_000_000,
        c <= 1_000_000,
    ensures
        r == is_triplet(a as nat, b as nat, c as nat),
{
    assert(a * a <= 1_000_000_000_000 && b * b <= 1_000_000_000_000 && c * c <= 1_000_000_000_000)
        by (nonlinear_arith)
        requires
            a <= 1_000_000,
            b <= 1_000_000,
            c <= 1_000_000,
    ;
    (a * a) + (b * b) == (c * c)
}

/// The product `a * b * c` of the first Pythagorean triplet with
/// `a + b + c == sum`, taking `a` then `b` ascending with `a <= b`. The
/// bound on `sum` keeps squares and products within `u64`.
pub fn solve(sum: u64) -> (r: Option<u64>)
    requires
        sum <= 1_000_000,
    ensures
        r matches Some(p) ==> exists|a: nat, b: nat|
            #[trigger] is_candidate(a, b, sum as nat) && is_triplet(a, b, (sum - a - b) as nat) && p == a * b * (sum - a
                - b),
        r is None ==> forall|a: nat, b: nat| #[trigger] is_candidate(a, b, sum as nat) ==> !is_triplet(a, b, (sum - a - b) as nat),
{
    let mut a: u64 = 1;
    while a < sum
        invariant
            1 <= a,
            sum <= 1_000_000,
            forall|a1: nat, b1: nat|
                a1 < a && #[trigger] is_candidate(a1, b1, sum as nat) ==> !is_triplet(a1, b1, (sum - a1 - b1) as nat),
        decreases sum - a,
    {
        let mut b: u64 = a;
        while a + b < sum
            invariant
                1 <= a <= b,
                a < sum,
                b <= sum,
                sum <= 1_000_000,
                forall|a1: nat, b1: nat|
                    (a1 < a || (a1 == a && b1 < b)) && #[trigger] is_candidate(a1, b1, sum as nat) ==> !is_triplet(
                        a1,
                        b1,
                        (sum - a1 - b1) as nat,
                    ),
            decreases sum - b,
        {
            let c = sum - a - b;
            if is_pythagorean_triplet(a, b, c) {
                assert(a * b <= 1_000_000_000_000) by (nonlinear_arith)
                    requires
                        a <= 1_000_000,
                        b <= 1_000_000,
                ;
                assert(a * b * c <= 1_000_000_000_000_000_000) by (nonlinear_arith)
                    requires
                        a * b <= 1_000_000_000_000,
                        c <= 1_000_000,
                ;
                proof {
                    assert(is_candidate(a as nat, b as nat, sum as nat));
                }
                return Some(a * b * c);
            }
            b = b + 1;
        }
        proof {
            assert forall|a1: nat, b1: nat|
                a1 < a + 1 && #[trigger] is_candidate(a1, b1, sum as nat) implies !is_triplet(a1, b1, (sum - a1 - b1) as nat) by {
                if a1 == a {
                    assert(b1 < b);
                }
            }
        }
        a = a + 1;
    }
    None
}

} // verus!
