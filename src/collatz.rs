//! Lengths of Collatz chains, remembered in a table as they are found.

use vstd::prelude::*;

verus! {

/// The Collatz step: halve an even number, map an odd `n` to `3n + 1`.
pub open spec fn collatz_step(n: nat) -> nat {
    if n % 2 == 0 {
        n / 2
    } else {
        3 * n + 1
    }
}

/// The number reached from `n` after `k` steps.
pub open spec fn collatz_iter(n: nat, k: nat) -> nat
    decreases k,
{
    if k == 0 {
        n
    } else {
        collatz_step(collatz_iter(n, (k - 1) as nat))
    }
}

/// The chain from `n` reaches 1 first after `len - 1` steps: it has `len`
/// terms.
pub open spec fn is_chain_len(n: nat, len: nat) -> bool {
    &&& len >= 1
    &&& collatz_iter(n, (len - 1) as nat) == 1
    &&& forall|j: nat| j < len - 1 ==> #[trigger] collatz_iter(n, j) != 1
}

/// Every length the table holds is the length of the chain from its index,
/// and the table knows that the chain from 1 has one term.
pub open spec fn is_chain_table(table: Seq<Option<usize>>) -> bool {
    &&& table.len() >= 2
    &&& table[1] == Some(1usize)
    &&& forall|m: int| 0 <= m < table.len() && (#[trigger] table[m]) is Some ==> is_chain_len(m as nat, table[m]->0 as nat)
}

/// The next term of the chain after `number`.
pub fn next_collatz(number: usize) -> (r: usize)
    requires
        number % 2 == 1 ==> 3 * number + 1 <= usize::MAX,
    ensures
        r == collatz_step(number as nat),
{
    if number % 2 == 0 {
        number / 2
    } else {
        3 * number + 1
    }
}

proof fn lemma_iter_shift(n: nat, j: nat, k: nat)
    ensures
        collatz_iter(collatz_iter(n, j), k) == collatz_iter(n, j + k),
    decreases k,
{
    if k > 0 {
        lemma_iter_shift(n, j, (k - 1) as nat);
    }
}

/// The most steps followed from one start before giving up.
pub const MAX_STEPS: usize = 100_000;

/// One more step from `x` stays within `usize`.
pub open spec fn step_fits(x: nat) -> bool {
    x % 2 == 0 || x <= (usize::MAX - 1) / 3
}

/// The table holds a length for `x`.
pub open spec fn filled(table: Seq<Option<usize>>, x: nat) -> bool {
    x < table.len() && table[x as int] is Some
}

/// After `j` steps the chain from `n` meets, for the first time, a number
/// whose length the table holds.
pub open spec fn first_filled_at(table: Seq<Option<usize>>, n: nat, j: nat) -> bool {
    &&& filled(table, collatz_iter(n, j))
    &&& forall|i: nat| i < j ==> !filled(table, #[trigger] collatz_iter(n, i))
}

/// The chain from `n` can be finished with the table: it meets a number
/// of the table within `MAX_STEPS` steps, every step before stays within
/// `usize`, and so does the length it gives.
pub open spec fn chain_finishes(table: Seq<Option<usize>>, n: nat) -> bool {
    exists|j: nat|
        {
            &&& #[trigger] first_filled_at(table, n, j)
            &&& j < MAX_STEPS
            &&& forall|i: nat| i < j ==> step_fits(#[trigger] collatz_iter(n, i))
            &&& table[collatz_iter(n, j) as int]->0 + j <= usize::MAX
        }
}

/// `k` is on the chain from `n` up to and including the first number whose
/// length the table holds.
pub open spec fn on_open_chain(table: Seq<Option<usize>>, n: nat, k: nat) -> bool {
    exists|i: nat|
        k == #[trigger] collatz_iter(n, i) && forall|i1: nat| i1 < i ==> !filled(table, #[trigger] collatz_iter(n, i1))
}

/// Every number on the chain from `n`, up to the first one whose length
/// `before` holds, that fits in the table has a length in `after`.
pub open spec fn fills_open_chain(before: Seq<Option<usize>>, after: Seq<Option<usize>>, n: nat) -> bool {
    forall|i: nat|
        (forall|i1: nat| i1 < i ==> !filled(before, #[trigger] collatz_iter(n, i1))) && collatz_iter(n, i) < after.len()
            ==> after[#[trigger] collatz_iter(n, i) as int] is Some
}

/// `after` differs from `before` only at empty places on the chain from
/// `n`, up to the first number whose length `before` holds.
pub open spec fn changes_only_open_chain(before: Seq<Option<usize>>, after: Seq<Option<usize>>, n: nat) -> bool {
    forall|k: int|
        0 <= k < after.len() && #[trigger] after[k] != before[k] ==> before[k] is None && on_open_chain(before, n, k as nat)
}

/// The chain from `m` reaches 1 within `MAX_STEPS` terms, with every step
/// within `usize`.
pub open spec fn chain_fits(m: nat) -> bool {
    exists|c: nat|
        #[trigger] is_chain_len(m, c) && c <= MAX_STEPS && forall|i: nat| i + 1 < c ==> step_fits(#[trigger] collatz_iter(m, i))
}

proof fn lemma_first_filled_unique(table: Seq<Option<usize>>, n: nat, j1: nat, j2: nat)
    requires
        first_filled_at(table, n, j1),
        first_filled_at(table, n, j2),
    ensures
        j1 == j2,
{
    if j1 < j2 {
        assert(!filled(table, collatz_iter(n, j1)));
    } else if j2 < j1 {
        assert(!filled(table, collatz_iter(n, j2)));
    }
}

proof fn lemma_first_filled(table: Seq<Option<usize>>, n: nat, k: nat) -> (j: nat)
    requires
        filled(table, collatz_iter(n, k)),
    ensures
        j <= k,
        first_filled_at(table, n, j),
    decreases k,
{
    if exists|i: nat| i < k && filled(table, #[trigger] collatz_iter(n, i)) {
        let i = choose|i: nat| i < k && filled(table, #[trigger] collatz_iter(n, i));
        lemma_first_filled(table, n, i)
    } else {
        k
    }
}

proof fn lemma_chain_suffix(n: nat, c: nat, j: nat)
    requires
        is_chain_len(n, c),
        j < c,
    ensures
        is_chain_len(collatz_iter(n, j), (c - j) as nat),
{
    lemma_iter_shift(n, j, (c - j - 1) as nat);
    assert forall|k: nat| k < (c - j) as nat - 1 implies #[trigger] collatz_iter(collatz_iter(n, j), k) != 1 by {
        lemma_iter_shift(n, j, k);
        assert(collatz_iter(n, j + k) != 1);
    }
}

/// A chain that fits can be finished with any correct table.
proof fn lemma_fits_finishes(table: Seq<Option<usize>>, m: nat)
    requires
        is_chain_table(table),
        chain_fits(m),
    ensures
        chain_finishes(table, m),
{
    let c = choose|c: nat|
        #[trigger] is_chain_len(m, c) && c <= MAX_STEPS && forall|i: nat| i + 1 < c ==> step_fits(#[trigger] collatz_iter(m, i));
    assert(filled(table, collatz_iter(m, (c - 1) as nat)));
    let j = lemma_first_filled(table, m, (c - 1) as nat);
    let x = collatz_iter(m, j);
    lemma_chain_suffix(m, c, j);
    assert(is_chain_len(x, table[x as int]->0 as nat));
    lemma_chain_len_unique(x, table[x as int]->0 as nat, (c - j) as nat);
    assert(forall|i: nat| i < j ==> step_fits(#[trigger] collatz_iter(m, i))) by {
        assert forall|i: nat| i < j implies step_fits(#[trigger] collatz_iter(m, i)) by {
            assert(i + 1 < c);
        }
    }
}

/// Follows the chain from `number` until it meets a number whose length the
/// table holds, then stores the lengths of the chain's numbers that fit in
/// the table. `false`, when the chain runs for `MAX_STEPS` steps, leaves
/// the range of `usize` or gives a length beyond it first; the table stays
/// correct either way.
pub fn find_collatz_len(collatz_array: &mut Vec<Option<usize>>, number: usize) -> (r: bool)
    requires
        is_chain_table(old(collatz_array)@),
    ensures
        is_chain_table(final(collatz_array)@),
        final(collatz_array)@.len() == old(collatz_array)@.len(),
        r && number < final(collatz_array)@.len() ==> final(collatz_array)@[number as int] is Some,
        forall|m: int| 0 <= m < old(collatz_array)@.len() && (#[trigger] old(collatz_array)@[m]) is Some ==> final(collatz_array)@[m] is Some,
        chain_finishes(old(collatz_array)@, number as nat) ==> r,
        r ==> fills_open_chain(old(collatz_array)@, final(collatz_array)@, number as nat),
        changes_only_open_chain(old(collatz_array)@, final(collatz_array)@, number as nat),
{
    let mut sequence: Vec<usize> = Vec::new();
    let mut num: usize = number;
    let len = collatz_array.len();
    loop
        invariant
            len == collatz_array@.len(),
            collatz_array@ == old(collatz_array)@,
            is_chain_table(collatz_array@),
            sequence@.len() <= MAX_STEPS,
            num == collatz_iter(number as nat, sequence@.len() as nat),
            forall|j: int| 0 <= j < sequence@.len() ==> #[trigger] sequence@[j] == collatz_iter(number as nat, j as nat),
            forall|j: int| 0 <= j < sequence@.len() ==> #[trigger] sequence@[j] != 1,
            forall|j: int| 0 <= j < sequence@.len() ==> !filled(old(collatz_array)@, #[trigger] sequence@[j] as nat),
        ensures
            num < len,
            forall|j: int| 0 <= j < sequence@.len() ==> !filled(old(collatz_array)@, #[trigger] sequence@[j] as nat),
            first_filled_at(old(collatz_array)@, number as nat, sequence@.len() as nat),
            collatz_array@[num as int] is Some,
            collatz_array@ == old(collatz_array)@,
            sequence@.len() <= MAX_STEPS,
            num == collatz_iter(number as nat, sequence@.len() as nat),
            forall|j: int| 0 <= j < sequence@.len() ==> #[trigger] sequence@[j] == collatz_iter(number as nat, j as nat),
            forall|j: int| 0 <= j < sequence@.len() ==> #[trigger] sequence@[j] != 1,
        decreases MAX_STEPS - sequence@.len(),
    {
        if num < len {
            if collatz_array[num].is_some() {
                proof {
                    assert forall|i: nat| i < sequence@.len() implies !filled(
                        old(collatz_array)@,
                        #[trigger] collatz_iter(number as nat, i),
                    ) by {
                        assert(sequence@[i as int] == collatz_iter(number as nat, i));
                    }
                }
                break;
            }
        }
        if sequence.len() == MAX_STEPS || (num % 2 == 1 && num > (usize::MAX - 1) / 3) {
            proof {
                if chain_finishes(old(collatz_array)@, number as nat) {
                    let j = choose|j: nat|
                        {
                            &&& #[trigger] first_filled_at(old(collatz_array)@, number as nat, j)
                            &&& j < MAX_STEPS
                            &&& forall|i: nat| i < j ==> step_fits(#[trigger] collatz_iter(number as nat, i))
                            &&& old(collatz_array)@[collatz_iter(number as nat, j) as int]->0 + j <= usize::MAX
                        };
                    let t = sequence@.len() as nat;
                    if j < t {
                        assert(sequence@[j as int] == collatz_iter(number as nat, j));
                    } else if j == t {
                    } else {
                        assert(step_fits(collatz_iter(number as nat, t)));
                    }
                }
            }
            return false;
        }
        proof {
            if num == 1 {
                assert(collatz_array@[1] is Some);
            }
        }
        let ghost before = sequence@;
        sequence.push(num);
        proof {
            assert forall|j: int| 0 <= j < sequence@.len() implies !filled(
                old(collatz_array)@,
                #[trigger] sequence@[j] as nat,
            ) by {
                if j < before.len() {
                    assert(sequence@[j] == before[j]);
                }
            }
        }
        num = next_collatz(num);
    }
    let remaining = collatz_array[num].unwrap();
    let total = sequence.len();
    let ghost start = collatz_array@;
    proof {
        if chain_finishes(start, number as nat) {
            let j = choose|j: nat|
                {
                    &&& #[trigger] first_filled_at(start, number as nat, j)
                    &&& j < MAX_STEPS
                    &&& forall|i: nat| i < j ==> step_fits(#[trigger] collatz_iter(number as nat, i))
                    &&& start[collatz_iter(number as nat, j) as int]->0 + j <= usize::MAX
                };
            lemma_first_filled_unique(start, number as nat, j, total as nat);
        }
    }
    let mut i: usize = 0;
    while i < total
        invariant
            total == sequence@.len(),
            i <= total,
            len == collatz_array@.len(),
            num < len,
            start[num as int] == Some(remaining),
            is_chain_len(num as nat, remaining as nat),
            num == collatz_iter(number as nat, total as nat),
            start == old(collatz_array)@,
            start.len() == len,
            is_chain_table(collatz_array@),
            forall|j: int| 0 <= j < total ==> #[trigger] sequence@[j] == collatz_iter(number as nat, j as nat),
            forall|j: int| 0 <= j < total ==> #[trigger] sequence@[j] != 1,
            forall|m: int| 0 <= m < len && (#[trigger] start[m]) is Some ==> collatz_array@[m] is Some,
            forall|j: int| total - i <= j < total && sequence@[j] < len ==> collatz_array@[sequence@[j] as int] is Some,
            forall|j: int| 0 <= j < total ==> !filled(start, #[trigger] sequence@[j] as nat),
            first_filled_at(start, number as nat, total as nat),
            chain_finishes(start, number as nat) ==> remaining + total <= usize::MAX,
            forall|k: int|
                0 <= k < len && #[trigger] collatz_array@[k] != start[k] ==> start[k] is None && exists|jj: int|
                    0 <= jj < total && sequence@[jj] == k,
        decreases total - i,
    {
        let index = total - 1 - i;
        let n = sequence[index];
        let length = match remaining.checked_add(i + 1) {
            Some(l) => l,
            None => {
                proof {
                    assert(!chain_finishes(start, number as nat));
                    assert forall|k: int|
                        0 <= k < len && #[trigger] collatz_array@[k] != start[k] implies start[k] is None && on_open_chain(
                            start,
                            number as nat,
                            k as nat,
                        ) by {
                        let jj = choose|jj: int| 0 <= jj < total && sequence@[jj] == k;
                        assert(sequence@[jj] == collatz_iter(number as nat, jj as nat));
                        assert forall|i1: nat| i1 < jj as nat implies !filled(start, #[trigger] collatz_iter(number as nat, i1)) by {
                            assert(sequence@[i1 as int] == collatz_iter(number as nat, i1));
                        }
                    }
                }
                return false;
            },
        };
        if n < len {
            proof {
                let steps = (total - index) as nat;
                lemma_iter_shift(number as nat, index as nat, steps);
                assert(collatz_iter(n as nat, steps) == num);
                lemma_iter_shift(n as nat, steps, (remaining - 1) as nat);
                assert forall|j: nat| j < length - 1 implies #[trigger] collatz_iter(n as nat, j) != 1 by {
                    if j < steps {
                        lemma_iter_shift(number as nat, index as nat, j);
                        assert(sequence@[index + j] == collatz_iter(number as nat, (index + j) as nat));
                    } else {
                        lemma_iter_shift(n as nat, steps, (j - steps) as nat);
                        assert(collatz_iter(num as nat, (j - steps) as nat) != 1);
                    }
                }
            }
            let ghost pre = collatz_array@;
            collatz_array.set(n, Some(length));
            proof {
                assert forall|k: int|
                    0 <= k < len && #[trigger] collatz_array@[k] != start[k] implies start[k] is None && exists|jj: int|
                        0 <= jj < total && sequence@[jj] == k by {
                    if k == n as int {
                        assert(!filled(start, sequence@[index as int] as nat));
                        assert(0 <= index < total && sequence@[index as int] == k);
                    } else {
                        assert(collatz_array@[k] == pre[k]);
                    }
                }
            }
        }
        i = i + 1;
    }
    proof {
        if number < len {
            if total > 0 {
                assert(sequence@[0] == number);
            } else {
                assert(num == number);
            }
        }
        assert forall|i: nat|
            (forall|i1: nat| i1 < i ==> !filled(start, #[trigger] collatz_iter(number as nat, i1)))
                && collatz_iter(number as nat, i) < collatz_array@.len() implies collatz_array@[#[trigger] collatz_iter(
            number as nat,
            i,
        ) as int] is Some by {
            if i < total {
                assert(sequence@[i as int] == collatz_iter(number as nat, i));
            } else if i > total {
                assert(!filled(start, collatz_iter(number as nat, total as nat)));
            }
        }
        assert forall|k: int|
            0 <= k < len && #[trigger] collatz_array@[k] != start[k] implies start[k] is None && on_open_chain(
                start,
                number as nat,
                k as nat,
            ) by {
            let jj = choose|jj: int| 0 <= jj < total && sequence@[jj] == k;
            assert(sequence@[jj] == collatz_iter(number as nat, jj as nat));
            assert forall|i1: nat| i1 < jj as nat implies !filled(start, #[trigger] collatz_iter(number as nat, i1)) by {
                assert(sequence@[i1 as int] == collatz_iter(number as nat, i1));
            }
        }
    }
    true
}

/// No start from 1 below `limit` has a longer chain than `s`.
pub open spec fn has_longest_chain(s: nat, limit: nat) -> bool {
    exists|c: nat|
        #[trigger] is_chain_len(s, c) && forall|m: nat, c1: nat| 1 <= m < limit && #[trigger] is_chain_len(m, c1) ==> c1 <= c
}

/// The start below `limit` with the longest chain (the last such one on a
/// tie). `None` when a chain could not be followed to its end.
pub fn solve(limit: usize) -> (r: Option<usize>)
    requires
        limit >= 2,
    ensures
        r matches Some(s) ==> 1 <= s < limit,
        r matches Some(s) ==> has_longest_chain(s as nat, limit as nat),
        (forall|m: nat| 1 <= m < limit ==> #[trigger] chain_fits(m)) ==> r is Some,
{
    let mut collatz_array: Vec<Option<usize>> = Vec::new();
    let mut k: usize = 0;
    while k < limit
        invariant
            k <= limit,
            collatz_array@.len() == k,
            forall|m: int| 0 <= m < k ==> #[trigger] collatz_array@[m] is None,
        decreases limit - k,
    {
        collatz_array.push(None);
        k = k + 1;
    }
    collatz_array.set(1, Some(1));
    proof {
        assert(collatz_iter(1, 0) == 1);
    }
    let mut number: usize = 1;
    while number < limit
        invariant
            1 <= number <= limit,
            collatz_array@.len() == limit,
            is_chain_table(collatz_array@),
            forall|m: int| 1 <= m < number ==> (#[trigger] collatz_array@[m]) is Some,
        decreases limit - number,
    {
        let ghost before = collatz_array@;
        if !find_collatz_len(&mut collatz_array, number) {
            proof {
                if forall|m: nat| 1 <= m < limit ==> #[trigger] chain_fits(m) {
                    assert(chain_fits(number as nat));
                    lemma_fits_finishes(before, number as nat);
                }
            }
            return None;
        }
        proof {
            assert forall|m: int| 1 <= m < number + 1 implies (#[trigger] collatz_array@[m]) is Some by {
                if m < number {
                    assert(before[m] is Some);
                }
            }
        }
        number = number + 1;
    }
    let mut best: usize = 1;
    let mut best_len: usize = match collatz_array[1] {
        Some(c) => c,
        None => 0,
    };
    let mut index: usize = 2;
    while index < limit
        invariant
            2 <= index <= limit,
            collatz_array@.len() == limit,
            is_chain_table(collatz_array@),
            forall|m: int| 1 <= m < limit ==> (#[trigger] collatz_array@[m]) is Some,
            1 <= best < index,
            collatz_array@[best as int] == Some(best_len),
            forall|m: int| 1 <= m < index ==> (#[trigger] collatz_array@[m])->0 <= best_len,
        decreases limit - index,
    {
        match collatz_array[index] {
            Some(c) => {
                if c >= best_len {
                    best = index;
                    best_len = c;
                }
            },
            None => {},
        }
        index = index + 1;
    }
    proof {
        assert(is_chain_len(best as nat, best_len as nat));
        assert forall|m: nat, c1: nat| 1 <= m < limit && #[trigger] is_chain_len(m, c1) implies c1 <= best_len by {
            let c = collatz_array@[m as int]->0;
            assert(is_chain_len(m, c as nat));
            lemma_chain_len_unique(m, c1, c as nat);
        }
        let c = best_len as nat;
        assert(is_chain_len(best as nat, c) && forall|m: nat, c1: nat|
            1 <= m < limit && #[trigger] is_chain_len(m, c1) ==> c1 <= c);
        assert(1 <= best < limit);
        assert(has_longest_chain(best as nat, limit as nat));
    }
    Some(best)
}

/// A chain has one length.
pub proof fn lemma_chain_len_unique(n: nat, a: nat, b: nat)
    requires
        is_chain_len(n, a),
        is_chain_len(n, b),
    ensures
        a == b,
{
    if a < b {
        assert(collatz_iter(n, (a - 1) as nat) != 1);
    } else if b < a {
        assert(collatz_iter(n, (b - 1) as nat) != 1);
    }
}

} // verus!
