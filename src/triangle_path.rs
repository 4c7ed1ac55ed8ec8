//! The maximum total on a path from the top of a number triangle to its
//! bottom row, moving to one of the two adjacent numbers below each time.

use vstd::prelude::*;

verus! {

/// Row `r` of the triangle holds `r + 1` numbers, each at most `u32::MAX`.
pub open spec fn is_triangle(t: Seq<Vec<u64>>) -> bool {
    &&& t.len() >= 1
    &&& t.len() <= u32::MAX
    &&& forall|r: int| 0 <= r < t.len() ==> (#[trigger] t[r])@.len() == r + 1
    &&& forall|r: int, c: int| 0 <= r < t.len() && 0 <= c <= r ==> (#[trigger] t[r]@[c]) <= u32::MAX
}

/// The best total of a path from the top down to row `r`, column `c`.
pub open spec fn best(t: Seq<Vec<u64>>, r: nat, c: int) -> int
    decreases r,
{
    if r == 0 {
        t[0]@[0] as int
    } else {
        let from_left = if c >= 1 {
            best(t, (r - 1) as nat, c - 1)
        } else {
            0
        };
        let from_right = if c <= r - 1 {
            best(t, (r - 1) as nat, c)
        } else {
            0
        };
        t[r as int]@[c] as int + if from_left >= from_right {
            from_left
        } else {
            from_right
        }
    }
}

proof fn lemma_best_bounds(t: Seq<Vec<u64>>, r: nat, c: int)
    requires
        is_triangle(t),
        r < t.len(),
        0 <= c <= r,
    ensures
        0 <= best(t, r, c) <= (r + 1) * u32::MAX,
    decreases r,
{
    if r > 0 {
        if c >= 1 {
            lemma_best_bounds(t, (r - 1) as nat, c - 1);
        }
        if c <= r - 1 {
            lemma_best_bounds(t, (r - 1) as nat, c);
        }
        assert(t[r as int]@[c] <= u32::MAX);
    }
}

/// The largest total of a path from the top of `triangle` to its bottom row.
pub fn solve(triangle: &[Vec<u64>]) -> (r: u64)
    requires
        is_triangle(triangle@),
    ensures
        exists|c: int| 0 <= c < triangle@.len() && r == #[trigger] best(triangle@, (triangle@.len() - 1) as nat, c),
        forall|c: int| 0 <= c < triangle@.len() ==> #[trigger] best(triangle@, (triangle@.len() - 1) as nat, c) <= r,
{
    let ghost t = triangle@;
    let mut best_nums: Vec<u64> = Vec::new();
    best_nums.push(triangle[0][0]);
    let mut row: usize = 1;
    while row < triangle.len()
        invariant
            t == triangle@,
            is_triangle(t),
            1 <= row <= t.len(),
            best_nums@.len() == row,
            forall|c: int| 0 <= c < row ==> #[trigger] best_nums@[c] == best(t, (row - 1) as nat, c),
        decreases t.len() - row,
    {
        let current = &triangle[row];
        assert(current@.len() == row + 1);
        let mut next: Vec<u64> = Vec::new();
        let mut c: usize = 0;
        while c <= row
            invariant
                t == triangle@,
                is_triangle(t),
                1 <= row < t.len(),
                current@ == t[row as int]@,
                best_nums@.len() == row,
                forall|k: int| 0 <= k < row ==> #[trigger] best_nums@[k] == best(t, (row - 1) as nat, k),
                c <= row + 1,
                next@.len() == c,
                forall|k: int| 0 <= k < c ==> #[trigger] next@[k] == best(t, row as nat, k),
            decreases row + 1 - c,
        {
            proof {
                if c >= 1 {
                    lemma_best_bounds(t, (row - 1) as nat, c - 1);
                }
                if c < row {
                    lemma_best_bounds(t, (row - 1) as nat, c as int);
                }
                lemma_best_bounds(t, row as nat, c as int);
                assert(t[row as int]@[c as int] <= u32::MAX);
            }
            let above = if c == 0 {
                best_nums[0]
            } else if c == row {
                best_nums[row - 1]
            } else if best_nums[c - 1] >= best_nums[c] {
                best_nums[c - 1]
            } else {
                best_nums[c]
            };
            assert((row as int + 1) * u32::MAX <= u64::MAX) by (nonlinear_arith)
                requires
                    row < u32::MAX,
            ;
            next.push(above + current[c]);
            c = c + 1;
        }
        best_nums = next;
        row = row + 1;
    }
    let mut largest: u64 = best_nums[0];
    let ghost mut at: int = 0;
    let mut i: usize = 1;
    while i < best_nums.len()
        invariant
            1 <= i <= best_nums@.len(),
            best_nums@.len() == t.len(),
            0 <= at < best_nums@.len(),
            largest == best_nums@[at],
            forall|k: int| 0 <= k < i ==> #[trigger] best_nums@[k] <= largest,
        decreases best_nums@.len() - i,
    {
        if best_nums[i] > largest {
            largest = best_nums[i];
            proof {
                at = i as int;
            }
        }
        i = i + 1;
    }
    proof {
        assert(largest == best(t, (t.len() - 1) as nat, at));
        assert forall|c: int| 0 <= c < t.len() implies #[trigger] best(t, (t.len() - 1) as nat, c) <= largest by {
            assert(best_nums@[c] <= largest);
        }
    }
    largest
}

} // verus!
