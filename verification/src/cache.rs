//! The growth cache: every count computed so far, kept in order of index and
//! extended only as far as a query asks.

use crate::bigint::{big_add, big_clone, big_from_u64, big_mul_u64, big_value};
use crate::evaluator::{
    ascending, descending, lemma_ascending_is_derangement, lemma_descending_is_derangement,
};
use crate::sequence::{derangement, lemma_recurrence};
use num::bigint::BigInt;
use vstd::prelude::*;

verus! {

/// The first `len` points of the sequence, each an index with its count:
/// `(0, D(0)), (1, D(1)), ..., (len - 1, D(len - 1))`.
pub open spec fn table(len: nat) -> Seq<(nat, int)> {
    Seq::new(len, |k: int| (k as nat, derangement(k as nat) as int))
}

/// Whether `entries` are the two base entries followed, without a gap, by
/// the points after them: a table of at least two entries.
pub open spec fn is_table(entries: Seq<(nat, int)>) -> bool {
    entries.len() >= 2 && entries =~= table(entries.len())
}

/// What a well-formed cache holding `entries` holds after a query for index
/// `x`: the same entries if `x` is among them, else the table up to and
/// including `x`.
pub open spec fn grown(entries: Seq<(nat, int)>, x: nat) -> Seq<(nat, int)> {
    if x < entries.len() {
        entries
    } else {
        table(x + 1)
    }
}

/// An append-only store of derangement counts. The entry at position `k` has
/// index `k` and holds `D(k)`; the entries for 0 and 1 are always there.
pub struct DerangementCache {
    entries: Vec<(usize, BigInt)>,
}

impl View for DerangementCache {
    type V = Seq<(nat, int)>;

    /// The stored entries in order, each as its index and the value of its
    /// count.
    closed spec fn view(&self) -> Seq<(nat, int)> {
        Seq::new(
            self.entries@.len(),
            |k: int| (self.entries@[k].0 as nat, big_value(self.entries@[k].1)),
        )
    }
}

impl DerangementCache {
    /// The cache holds the base entries and, without a gap, exactly the
    /// first points of the sequence. Every cache that `new` made and `query`
    /// extended is of this kind.
    pub open spec fn well_formed(&self) -> bool {
        is_table(self@)
    }

    /// A cache with the two base entries, `(0, 1)` and `(1, 0)`.
    pub fn new() -> (cache: Self)
        ensures
            cache.well_formed(),
            cache@ == table(2),
    {
        let mut entries: Vec<(usize, BigInt)> = Vec::new();
        entries.push((0, big_from_u64(1)));
        entries.push((1, big_from_u64(0)));
        DerangementCache { entries }
    }

    /// The number of entries, which is one more than the highest index held.
    pub fn len(&self) -> (n: usize)
        ensures
            n == self@.len(),
    {
        self.entries.len()
    }

    /// The entry at `position`, as its stored index and a copy of its count,
    /// or `None` past the end.
    pub fn entry(&self, position: usize) -> (found: Option<(usize, BigInt)>)
        ensures
            position >= self@.len() ==> found is None,
            position < self@.len() ==> (found matches Some(e) && (e.0 as nat, big_value(e.1))
                == self@[position as int]),
    {
        if position < self.entries.len() {
            let held = &self.entries[position];
            Some((held.0, big_clone(&held.1)))
        } else {
            None
        }
    }

    /// `D(x)`. Extends the cache up to index `x` if it ends before it, one
    /// entry at a time from the last two, and leaves it as it is otherwise.
    /// The cache then has `x + 1` entries or more, a number that has to fit
    /// in a `usize`.
    pub fn query(&mut self, x: usize) -> (value: BigInt)
        requires
            old(self).well_formed(),
            x < usize::MAX,
        ensures
            final(self).well_formed(),
            big_value(value) == derangement(x as nat),
            final(self)@ == grown(old(self)@, x as nat),
            final(self)@[x as int] == (x as nat, big_value(value)),
    {
        let mut last: usize = self.entries.len() - 1;
        while last < x
            invariant
                last + 1 == self.entries@.len(),
                self@ == table(self@.len()),
                self@.len() >= 2,
                x < old(self)@.len() ==> self@ == old(self)@,
                x >= old(self)@.len() ==> last <= x,
            decreases x - last,
        {
            let n = self.entries.len();
            let ghost held = self@;
            assert(held[n - 1] == table(held.len())[n - 1]);
            assert(held[n - 2] == table(held.len())[n - 2]);
            let tail = &self.entries[n - 1];
            let before = &self.entries[n - 2];
            let index = tail.0 + 1;
            let next = big_mul_u64(big_add(&before.1, &tail.1), tail.0 as u64);
            proof {
                lemma_recurrence(n as nat);
                vstd::arithmetic::mul::lemma_mul_is_commutative(
                    (derangement((n - 2) as nat) + derangement((n - 1) as nat)) as int,
                    n - 1,
                );
            }
            self.entries.push((index, next));
            last = last + 1;
            assert forall|k: int| 0 <= k < self@.len() implies self@[k] == table(self@.len())[k] by {
                if k < n {
                    assert(held[k] == table(held.len())[k]);
                }
            }
        }
        assert(self@[x as int] == table(self@.len())[x as int]);
        big_clone(&self.entries[x].1)
    }
}

/// `D(x)` from `cache`, which grows to hold index `x` if it did not.
pub fn derangements_cached(cache: &mut DerangementCache, x: usize) -> (r: BigInt)
    requires
        old(cache).well_formed(),
        x < usize::MAX,
    ensures
        final(cache).well_formed(),
        big_value(r) == derangement(x as nat),
        final(cache)@ == grown(old(cache)@, x as nat),
{
    cache.query(x)
}

/// What a cache holding `entries` holds after it has answered `requests`,
/// one after the other.
pub open spec fn after_queries(entries: Seq<(nat, int)>, requests: Seq<nat>) -> Seq<(nat, int)>
    decreases requests.len(),
{
    if requests.len() == 0 {
        entries
    } else {
        grown(after_queries(entries, requests.drop_last()), requests.last())
    }
}

/// The largest of `requests`, or 0 if there is none.
pub open spec fn highest(requests: Seq<nat>) -> nat
    decreases requests.len(),
{
    if requests.len() == 0 {
        0
    } else {
        let rest = highest(requests.drop_last());
        if requests.last() > rest {
            requests.last()
        } else {
            rest
        }
    }
}

/// Every table of at least two entries starts with `(0, 1)` and `(1, 0)`,
/// numbers its entries 0, 1, 2, ... without a gap or a repeat, and has each
/// later count follow from the two before it by the recurrence.
pub proof fn lemma_table_shape(len: nat)
    requires
        len >= 2,
    ensures
        table(len).len() == len,
        table(len)[0] == (0nat, 1int),
        table(len)[1] == (1nat, 0int),
        forall|k: int| 0 <= k < len ==> (#[trigger] table(len)[k]).0 == k,
        forall|j: int, k: int|
            0 <= j < k < len ==> (#[trigger] table(len)[j]).0 < (#[trigger] table(len)[k]).0,
        forall|k: int|
            2 <= k < len ==> (#[trigger] table(len)[k]).1 == (table(len)[k].0 - 1) * (table(
                len,
            )[k - 1].1 + table(len)[k - 2].1),
{
    assert forall|k: int| 2 <= k < len implies (#[trigger] table(len)[k]).1 == (table(len)[k].0
        - 1) * (table(len)[k - 1].1 + table(len)[k - 2].1) by {
        lemma_recurrence(k as nat);
    }
}

/// A query only appends: what the cache held before is the beginning of what
/// it holds after, entry for entry.
pub proof fn lemma_query_appends(entries: Seq<(nat, int)>, x: nat)
    requires
        is_table(entries),
    ensures
        entries.is_prefix_of(grown(entries, x)),
        is_table(grown(entries, x)),
        grown(entries, x).len() == if x < entries.len() {
            entries.len()
        } else {
            x + 1
        },
{
}

/// `highest` is the maximum of the requests: none of them is above it, and
/// unless there is none it is one of them.
pub proof fn lemma_highest_is_maximum(requests: Seq<nat>)
    ensures
        forall|i: int| 0 <= i < requests.len() ==> requests[i] <= highest(requests),
        requests.len() > 0 ==> requests.contains(highest(requests)),
    decreases requests.len(),
{
    if requests.len() > 0 {
        let rest = requests.drop_last();
        lemma_highest_is_maximum(rest);
        assert forall|i: int| 0 <= i < requests.len() implies requests[i] <= highest(
            requests,
        ) by {
            if i < rest.len() {
                assert(rest[i] == requests[i]);
            }
        }
        if rest.len() > 0 && highest(requests) == highest(rest) {
            let j = choose|j: int| 0 <= j < rest.len() && rest[j] == highest(rest);
            assert(requests[j] == highest(requests));
        } else {
            assert(requests.last() == highest(requests));
        }
    }
}

/// A cache of `len` entries that has answered `requests` holds the table up
/// to the highest index asked for, or the `len` entries it had if none of
/// the requests went past them. It never holds more.
pub proof fn lemma_growth_is_exact(len: nat, requests: Seq<nat>)
    requires
        len >= 2,
    ensures
        after_queries(table(len), requests) == table(
            if highest(requests) + 1 > len {
                highest(requests) + 1
            } else {
                len
            },
        ),
    decreases requests.len(),
{
    if requests.len() > 0 {
        let rest = requests.drop_last();
        lemma_growth_is_exact(len, rest);
    }
}

/// From the moment a cache is made, whatever is asked of it and in whatever
/// order, it holds exactly the indices 0, 1, 2, ... up to the highest index
/// asked for, each once and with its count. The two base entries are there
/// from the start, so this begins to hold with the first request above 0.
pub proof fn lemma_new_cache_holds_zero_to_highest(requests: Seq<nat>)
    requires
        highest(requests) >= 1,
    ensures
        after_queries(table(2), requests) == table(highest(requests) + 1),
        after_queries(table(2), requests).len() == highest(requests) + 1,
        forall|k: int|
            0 <= k <= highest(requests) ==> #[trigger] after_queries(table(2), requests)[k] == (
                k as nat,
                derangement(k as nat) as int,
            ),
{
    lemma_growth_is_exact(2, requests);
}

/// The same requests answered in another order leave the same cache: callers
/// that take turns in any order find it as one caller alone would have left
/// it.
pub proof fn lemma_order_is_irrelevant(len: nat, first: Seq<nat>, second: Seq<nat>)
    requires
        len >= 2,
        first.to_multiset() == second.to_multiset(),
    ensures
        after_queries(table(len), first) == after_queries(table(len), second),
{
    first.to_multiset_ensures();
    second.to_multiset_ensures();
    lemma_highest_is_maximum(first);
    lemma_highest_is_maximum(second);
    if first.len() > 0 {
        let a = highest(first);
        let b = highest(second);
        assert(first.to_multiset().count(a) > 0);
        assert(second.to_multiset().count(b) > 0);
        assert(a <= b && b <= a);
    }
    lemma_growth_is_exact(len, first);
    lemma_growth_is_exact(len, second);
}

/// Asking again for the index just asked for returns the same count and
/// leaves the cache as the first query left it.
pub proof fn lemma_query_is_idempotent(entries: Seq<(nat, int)>, x: nat)
    requires
        is_table(entries),
    ensures
        grown(grown(entries, x), x) == grown(entries, x),
        grown(grown(entries, x), x).len() == grown(entries, x).len(),
        grown(grown(entries, x), x)[x as int] == grown(entries, x)[x as int],
        grown(entries, x)[x as int] == (x, derangement(x) as int),
{
}

/// The descending form, the ascending form and the entry that a cache holds
/// for index `n` all give the same number, the count that the recurrence
/// defines.
pub proof fn lemma_strategies_agree(n: nat, len: nat)
    requires
        n < len,
    ensures
        descending(n) == ascending(n),
        ascending(n) == table(len)[n as int].1,
        table(len)[n as int].1 == derangement(n),
{
    lemma_descending_is_derangement(n);
    lemma_ascending_is_derangement(n);
}

} // verus!
