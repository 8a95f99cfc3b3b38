//! The sequence of derangement counts, as mathematics.

use vstd::prelude::*;

verus! {

/// `D(n)`, the number of derangements of `n` items, given by its recurrence:
/// `D(0) = 1`, `D(1) = 0`, and `D(n) = (n - 1) * (D(n - 1) + D(n - 2))` from
/// `n = 2` on.
pub open spec fn derangement(n: nat) -> nat
    decreases n,
{
    if n == 0 {
        1
    } else if n == 1 {
        0
    } else {
        ((n - 1) * (derangement((n - 1) as nat) + derangement((n - 2) as nat))) as nat
    }
}

/// Every count past the two base cases is the product of the index before it
/// and the sum of the two counts before it.
pub proof fn lemma_recurrence(n: nat)
    requires
        n >= 2,
    ensures
        derangement(n) == (n - 1) * (derangement((n - 1) as nat) + derangement((n - 2) as nat)),
{
    assert((n - 1) * (derangement((n - 1) as nat) + derangement((n - 2) as nat)) >= 0)
        by (nonlinear_arith)
        requires
            n >= 2,
    ;
}

} // verus!
