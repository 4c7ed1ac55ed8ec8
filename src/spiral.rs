//! The sum of the numbers on the diagonals of a number spiral.

use vstd::prelude::*;

verus! {

/// The sum of the diagonals of the spiral of side `2 * k + 1`:
/// `(16k^3 + 30k^2 + 26k + 3) / 3`.
pub open spec fn diagonal_sum(k: nat) -> nat {
    ((16 * k * k * k + 30 * k * k + 26 * k + 3) / 3) as nat
}

/// The sum of the numbers on the diagonals of the spiral of side
/// `final_width`, which must be odd (`None` otherwise). The bound on the
/// width keeps the sum within `u64`.
pub fn sum_diagonals(final_width: u64) -> (r: Option<u64>)
    requires
        final_width <= 2_000_001,
    ensures
        final_width % 2 != 1 ==> r is None,
        final_width % 2 == 1 ==> r == Some(diagonal_sum(((final_width - 1) / 2) as nat) as u64),
{
    if final_width % 2 != 1 {
        return None;
    }
    let mut cur: u64 = 1;
    let mut sum: u64 = 1;
    let mut width: u64 = 2;
    let ghost mut k: nat = 0;
    assert(cur == (2 * k + 1) * (2 * k + 1));
    while width < final_width
        invariant
            final_width <= 2_000_001,
            final_width % 2 == 1,
            width == 2 * k + 2,
            width <= final_width + 1,
            cur == (2 * k + 1) * (2 * k + 1),
            3 * sum == 16 * k * k * k + 30 * k * k + 26 * k + 3,
        decreases final_width + 1 - width,
    {
        proof {
            assert(k <= 1_000_000);
            assert(3 * (sum + 4 * cur + 10 * width) == 16 * (k + 1) * (k + 1) * (k + 1) + 30 * (k + 1) * (k + 1)
                + 26 * (k + 1) + 3) by (nonlinear_arith)
                requires
                    width == 2 * k + 2,
                    cur == (2 * k + 1) * (2 * k + 1),
                    3 * sum == 16 * k * k * k + 30 * k * k + 26 * k + 3,
            ;
            assert(16 * (k + 1) * (k + 1) * (k + 1) + 30 * (k + 1) * (k + 1) + 26 * (k + 1) + 3 <= 3 * 6_000_000_000_000_000_000)
                by (nonlinear_arith)
                requires
                    k + 1 <= 1_000_000,
            ;
            assert(cur + 4 * width == (2 * k + 3) * (2 * k + 3)) by (nonlinear_arith)
                requires
                    width == 2 * k + 2,
                    cur == (2 * k + 1) * (2 * k + 1),
            ;
        }
        // the four corners of the ring: cur + width, cur + 2 * width, ...
        sum = sum + 4 * cur + 10 * width;
        cur = cur + 4 * width;
        width = width + 2;
        proof {
            k = k + 1;
        }
    }
    proof {
        assert(width == final_width + 1);
    }
    Some(sum)
}

} // verus!
