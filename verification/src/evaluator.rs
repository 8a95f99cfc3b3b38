//! The two stateless evaluators: one counts down from `n`, one counts up to
//! it. Each keeps only the last two running values.

use crate::bigint::{big_add, big_from_u64, big_mul_u64, big_value};
use crate::sequence::{derangement, lemma_recurrence};
use num::bigint::BigInt;
use vstd::prelude::*;

verus! {

/// What the descending evaluator returns when `count` steps are still to run
/// and its running values are `older` and `newer`: each step multiplies the
/// sum of the two by `count - 1` and lowers `count` by one.
pub open spec fn descending_run(count: nat, older: int, newer: int) -> int
    decreases count,
{
    if count == 0 {
        older
    } else {
        descending_run((count - 1) as nat, newer, (count - 1) * (older + newer))
    }
}

/// The result of the descending form for `n`: `n` steps from the running
/// values 1 and 0.
pub open spec fn descending(n: nat) -> int {
    descending_run(n, 1, 0)
}

/// The running values of the ascending evaluator when its index stands at
/// `index`: each step multiplies the sum of the two by the index and raises
/// the index by one.
pub open spec fn ascending_run(index: nat) -> (int, int)
    decreases index,
{
    if index <= 1 {
        (1, 0)
    } else {
        let before = ascending_run((index - 1) as nat);
        (before.1, (before.0 + before.1) * (index - 1))
    }
}

/// The result of the ascending form for `n`.
pub open spec fn ascending(n: nat) -> int {
    if n == 0 {
        1
    } else {
        ascending_run(n).1
    }
}

/// How much the newer running value of a descending run counts towards the
/// result when `count` steps are left.
spec fn newer_weight(count: nat) -> nat {
    if count == 0 {
        0
    } else {
        derangement(count) + derangement((count - 1) as nat)
    }
}

/// A descending run is linear in its two running values, with the counts
/// themselves as coefficients.
proof fn lemma_descending_run(count: nat, older: int, newer: int)
    ensures
        descending_run(count, older, newer) == older * derangement(count) + newer * newer_weight(
            count,
        ),
    decreases count,
{
    if count == 0 {
        assert(older * 1 + newer * 0 == older);
    } else {
        let k = (count - 1) as nat;
        let next = k * (older + newer);
        lemma_descending_run(k, newer, next);
        if k == 0 {
            assert(newer * 1 + 0 * 0 == older * 0 + newer * (0 + 1));
        } else {
            let d0 = derangement(count) as int;
            let d1 = derangement(k) as int;
            let d2 = derangement((k - 1) as nat) as int;
            lemma_recurrence(count);
            assert(newer * d1 + (k * (older + newer)) * (d1 + d2) == older * d0 + newer * (d0
                + d1)) by (nonlinear_arith)
                requires
                    d0 == k * (d1 + d2),
            ;
        }
    }
}

/// The descending form computes the derangement count, although it applies
/// the multipliers in the opposite order to the recurrence.
pub proof fn lemma_descending_is_derangement(n: nat)
    ensures
        descending(n) == derangement(n),
{
    lemma_descending_run(n, 1, 0);
}

/// At index `index` the ascending evaluator holds the counts for `index - 1`
/// and `index`.
proof fn lemma_ascending_run(index: nat)
    requires
        index >= 1,
    ensures
        ascending_run(index) == (
            derangement((index - 1) as nat) as int,
            derangement(index) as int,
        ),
    decreases index,
{
    if index > 1 {
        let k = (index - 1) as nat;
        lemma_ascending_run(k);
        lemma_recurrence(index);
        vstd::arithmetic::mul::lemma_mul_is_commutative(
            (derangement((k - 1) as nat) + derangement(k)) as int,
            k as int,
        );
    }
}

/// The ascending form computes the derangement count.
pub proof fn lemma_ascending_is_derangement(n: nat)
    ensures
        ascending(n) == derangement(n),
{
    if n >= 1 {
        lemma_ascending_run(n);
    }
}

/// `D(i)` by the descending form, for a signed index that is not negative.
pub fn derangements_i(i: i64) -> (r: BigInt)
    requires
        i >= 0,
    ensures
        big_value(r) == derangement(i as nat),
        big_value(r) == descending(i as nat),
{
    proof {
        lemma_descending_is_derangement(i as nat);
    }
    match i {
        0 => big_from_u64(1),
        1 => big_from_u64(0),
        _ => {
            let mut n1 = big_from_u64(0);
            let mut n0 = big_from_u64(1);
            let mut count: i64 = i;
            while count != 0
                invariant
                    count >= 0,
                    descending_run(count as nat, big_value(n0), big_value(n1)) == descending(
                        i as nat,
                    ),
                decreases count,
            {
                let n2 = big_mul_u64(big_add(&n0, &n1), (count - 1) as u64);
                proof {
                    vstd::arithmetic::mul::lemma_mul_is_commutative(
                        big_value(n0) + big_value(n1),
                        count - 1,
                    );
                }
                n0 = n1;
                n1 = n2;
                count = count - 1;
            }
            n0
        },
    }
}

/// `D(i)` by the descending form, for an unsigned index.
pub fn derangements_u(i: u64) -> (r: BigInt)
    ensures
        big_value(r) == derangement(i as nat),
        big_value(r) == descending(i as nat),
{
    proof {
        lemma_descending_is_derangement(i as nat);
    }
    match i {
        0 => big_from_u64(1),
        1 => big_from_u64(0),
        _ => {
            let mut n1 = big_from_u64(0);
            let mut n0 = big_from_u64(1);
            let mut count: u64 = i;
            while count != 0
                invariant
                    descending_run(count as nat, big_value(n0), big_value(n1)) == descending(
                        i as nat,
                    ),
                decreases count,
            {
                let n2 = big_mul_u64(big_add(&n0, &n1), count - 1);
                proof {
                    vstd::arithmetic::mul::lemma_mul_is_commutative(
                        big_value(n0) + big_value(n1),
                        count - 1,
                    );
                }
                n0 = n1;
                n1 = n2;
                count = count - 1;
            }
            n0
        },
    }
}

/// `D(i)` by the ascending form.
pub fn derangements_fast(i: u32) -> (r: BigInt)
    ensures
        big_value(r) == derangement(i as nat),
        big_value(r) == ascending(i as nat),
{
    proof {
        lemma_ascending_is_derangement(i as nat);
    }
    match i {
        0 => big_from_u64(1),
        1 => big_from_u64(0),
        _ => {
            let mut n1 = big_from_u64(0);
            let mut n0 = big_from_u64(1);
            let mut index: u32 = 1;
            while index < i
                invariant
                    1 <= index <= i,
                    ascending_run(index as nat) == (big_value(n0), big_value(n1)),
                decreases i - index,
            {
                let n2 = big_mul_u64(big_add(&n0, &n1), index as u64);
                n0 = n1;
                n1 = n2;
                index += 1;
            }
            n1
        },
    }
}

} // verus!
