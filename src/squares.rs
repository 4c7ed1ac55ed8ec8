//! The difference between the square of a sum and the sum of squares.

use vstd::prelude::*;

verus! {

/// `1^2 + 2^2 + ... + n^2`.
pub open spec fn sum_of_squares_spec(n: nat) -> nat
    decreases n,
{
    if n == 0 {
        0
    } else {
        sum_of_squares_spec((n - 1) as nat) + n * n
    }
}

/// `1 + 2 + ... + n`.
pub open spec fn sum_spec(n: nat) -> nat
    decreases n,
{
    if n == 0 {
        0
    } else {
        sum_spec((n - 1) as nat) + n
    }
}

proof fn lemma_sum_of_squares_closed(n: nat)
    ensures
        6 * sum_of_squares_spec(n) == n * (n + 1) * (2 * n + 1),
    decreases n,
{
    if n > 0 {
        lemma_sum_of_squares_closed((n - 1) as nat);
        let m = (n - 1) as nat;
        assert(sum_of_squares_spec(n) == sum_of_squares_spec(m) + n * n);
        assert(m * (m + 1) * (2 * m + 1) + 6 * (n * n) == n * (n + 1) * (2 * n + 1)) by (nonlinear_arith)
            requires
                m + 1 == n,
        ;
        assert(6 * sum_of_squares_spec(n) == 6 * sum_of_squares_spec(m) + 6 * (n * n));
    } else {
        assert(n * (n + 1) * (2 * n + 1) == 0) by (nonlinear_arith)
            requires
                n == 0,
        ;
    }
}

proof fn lemma_sum_closed(n: nat)
    ensures
        2 * sum_spec(n) == n * (n + 1),
    decreases n,
{
    if n > 0 {
        lemma_sum_closed((n - 1) as nat);
        let m = (n - 1) as nat;
        assert(sum_spec(n) == sum_spec(m) + n);
        assert(m * (m + 1) + 2 * n == n * (n + 1)) by (nonlinear_arith)
            requires
                m + 1 == n,
        ;
    } else {
        assert(n * (n + 1) == 0) by (nonlinear_arith)
            requires
                n == 0,
        ;
    }
}

proof fn lemma_bounds(n: int)
    requires
        n >= 0,
        n * (n + 1) * (2 * n + 1) <= u64::MAX,
    ensures
        n + 1 <= u64::MAX,
        2 * n + 1 <= u64::MAX,
        n * (n + 1) <= u64::MAX,
{
    assert(n * (n + 1) <= n * (n + 1) * (2 * n + 1)) by (nonlinear_arith)
        requires
            n >= 0,
    ;
    if n >= 1 {
        assert(2 * n + 1 <= n * (n + 1) * (2 * n + 1)) by (nonlinear_arith)
            requires
                n >= 1,
        ;
    }
}

/// `1^2 + ... + limit^2`, by its closed form.
pub fn sum_of_squares(limit: u64) -> (r: u64)
    requires
        limit as int * (limit as int + 1) * (2 * limit as int + 1) <= u64::MAX,
    ensures
        r == sum_of_squares_spec(limit as nat),
{
    let n = limit;
    proof {
        lemma_sum_of_squares_closed(n as nat);
        lemma_bounds(n as int);
    }
    (n * (n + 1) * (2 * n + 1)) / 6
}

/// `(1 + ... + limit)^2`, by the closed form of the sum.
pub fn square_of_sum(limit: u64) -> (r: u64)
    requires
        limit as int * (limit as int + 1) * (2 * limit as int + 1) <= u64::MAX,
        sum_spec(limit as nat) * sum_spec(limit as nat) <= u64::MAX,
    ensures
        r == sum_spec(limit as nat) * sum_spec(limit as nat),
{
    let n = limit;
    proof {
        lemma_sum_closed(n as nat);
        lemma_bounds(n as int);
    }
    let sum = (n * (n + 1)) / 2;
    sum * sum
}

/// `(1 + ... + limit)^2 - (1^2 + ... + limit^2)`.
pub fn solve(limit: u64) -> (r: u64)
    requires
        limit as int * (limit as int + 1) * (2 * limit as int + 1) <= u64::MAX,
        sum_spec(limit as nat) * sum_spec(limit as nat) <= u64::MAX,
    ensures
        r == sum_spec(limit as nat) * sum_spec(limit as nat) - sum_of_squares_spec(limit as nat),
{
    proof {
        lemma_square_of_sum_dominates(limit as nat);
    }
    square_of_sum(limit) - sum_of_squares(limit)
}

proof fn lemma_square_of_sum_dominates(n: nat)
    ensures
        sum_of_squares_spec(n) <= sum_spec(n) * sum_spec(n),
    decreases n,
{
    if n > 0 {
        let m = (n - 1) as nat;
        lemma_square_of_sum_dominates(m);
        let s = sum_spec(m);
        assert(sum_spec(n) * sum_spec(n) == (s + n) * (s + n));
        assert((s + n) * (s + n) == s * s + 2 * s * n + n * n) by (nonlinear_arith);
        assert(2 * s * n >= 0) by (nonlinear_arith);
    }
}

} // verus!
