//! Stable sorting: the order in which items are to be listed, as a list of indices.

use vstd::prelude::*;

verus! {

/// Items that can be ranked against each other.
pub trait Ranked: Sized {
    /// This item ranks no later than another.
    spec fn at_most(self, other: Self) -> bool;

    /// Of two items one ranks no later than the other.
    proof fn total(left: Self, right: Self)
        ensures
            left.at_most(right) || right.at_most(left),
    ;

    /// The order is transitive.
    proof fn transitive(first: Self, second: Self, third: Self)
        requires
            first.at_most(second),
            second.at_most(third),
        ensures
            first.at_most(third),
    ;

    /// Whether this item ranks no later than another.
    fn ranks_at_most(&self, other: &Self) -> (result: bool)
        ensures
            result == self.at_most(*other),
    ;
}

/// Item `a` is listed before item `b`: it ranks before it, or it ranks the same and
/// comes first among the items.
pub open spec fn listed_before<T: Ranked>(items: Seq<T>, a: int, b: int) -> bool {
    items[a].at_most(items[b]) && (items[b].at_most(items[a]) ==> a < b)
}

/// `order` lists the items from `from` up to, not including, `to`: each of them, in rank.
pub open spec fn lists<T: Ranked>(items: Seq<T>, from: int, to: int, order: Seq<usize>) -> bool {
    &&& order.len() == to - from
    &&& forall|i: int| 0 <= i < order.len() ==> from <= #[trigger] order[i] < to
    &&& forall|k: int| from <= k < to ==> #[trigger] order.contains(k as usize)
    &&& forall|i: int, j: int|
        0 <= i < j < order.len() ==> listed_before(items, #[trigger] order[i] as int, #[trigger] order[j] as int)
}

/// `order` lists every item once, in rank, and items of the same rank as they came.
pub open spec fn ranking<T: Ranked>(items: Seq<T>, order: Seq<usize>) -> bool {
    lists(items, 0, items.len() as int, order)
}

/// The listing order is transitive.
proof fn lemma_listed_before_transitive<T: Ranked>(items: Seq<T>, a: int, b: int, c: int)
    requires
        listed_before(items, a, b),
        listed_before(items, b, c),
    ensures
        listed_before(items, a, c),
{
    T::transitive(items[a], items[b], items[c]);
    if items[c].at_most(items[a]) {
        T::transitive(items[b], items[c], items[a]);
        T::transitive(items[c], items[a], items[b]);
    }
}

/// No item is listed twice.
pub proof fn law_ranking_repeats_nothing<T: Ranked>(items: Seq<T>, order: Seq<usize>)
    requires
        ranking(items, order),
    ensures
        order.no_duplicates(),
{
    assert forall|i: int, j: int| 0 <= i < order.len() && 0 <= j < order.len() && i != j implies order[i]
        != order[j] by {
        let low = if i < j { i } else { j };
        let high = if i < j { j } else { i };
        assert(listed_before(items, order[low] as int, order[high] as int));
        T::total(items[order[low] as int], items[order[low] as int]);
    }
}

/// There is only one ranking of given items.
pub proof fn law_ranking_is_unique<T: Ranked>(items: Seq<T>, left: Seq<usize>, right: Seq<usize>)
    requires
        ranking(items, left),
        ranking(items, right),
    ensures
        left == right,
{
    law_ranking_repeats_nothing(items, left);
    law_ranking_repeats_nothing(items, right);
    assert forall|n: int| 0 <= n <= left.len() implies left.take(n) == right.take(n) by {
        lemma_rankings_agree(items, left, right, n);
    }
    assert(left.take(left.len() as int) =~= left);
    assert(right.take(left.len() as int) =~= right);
}

/// Two rankings agree on their first `n` items.
proof fn lemma_rankings_agree<T: Ranked>(items: Seq<T>, left: Seq<usize>, right: Seq<usize>, n: int)
    requires
        ranking(items, left),
        ranking(items, right),
        left.no_duplicates(),
        right.no_duplicates(),
        0 <= n <= left.len(),
    ensures
        left.take(n) == right.take(n),
    decreases n,
{
    if n > 0 {
        lemma_rankings_agree(items, left, right, n - 1);
        assert forall|k: int| 0 <= k < n - 1 implies left[k] == right[k] by {
            assert(left.take(n - 1)[k] == right.take(n - 1)[k]);
        }
        let a = left[n - 1];
        let b = right[n - 1];
        if a != b {
            assert(right.contains((a as int) as usize));
            let j = choose|j: int| 0 <= j < right.len() && right[j] == a;
            assert(j > n - 1) by {
                if j < n - 1 {
                    assert(left[j] == a);
                }
            }
            assert(left.contains((b as int) as usize));
            let i = choose|i: int| 0 <= i < left.len() && left[i] == b;
            assert(i > n - 1) by {
                if i < n - 1 {
                    assert(right[i] == b);
                }
            }
            assert(listed_before(items, right[n - 1] as int, right[j] as int));
            assert(listed_before(items, left[n - 1] as int, left[i] as int));
        }
        assert(left.take(n) =~= left.take(n - 1).push(a));
        assert(right.take(n) =~= right.take(n - 1).push(b));
    }
}

/// Merges two listings of neighbouring ranges.
fn merge<T: Ranked>(
    items: &Vec<T>,
    left: &Vec<usize>,
    right: &Vec<usize>,
    Ghost(from): Ghost<int>,
    Ghost(middle): Ghost<int>,
    Ghost(to): Ghost<int>,
) -> (merged: Vec<usize>)
    requires
        0 <= from <= middle <= to <= items@.len(),
        lists(items@, from, middle, left@),
        lists(items@, middle, to, right@),
    ensures
        lists(items@, from, to, merged@),
{
    let mut merged: Vec<usize> = Vec::new();
    let mut i: usize = 0;
    let mut j: usize = 0;
    while i < left.len() || j < right.len()
        invariant
            0 <= from <= middle <= to <= items@.len(),
            lists(items@, from, middle, left@),
            lists(items@, middle, to, right@),
            i <= left.len(),
            j <= right.len(),
            merged@.len() == i + j,
            forall|k: int| 0 <= k < merged@.len() ==> from <= #[trigger] merged@[k] < to,
            forall|k: int| 0 <= k < i ==> merged@.contains(#[trigger] left@[k]),
            forall|k: int| 0 <= k < j ==> merged@.contains(#[trigger] right@[k]),
            forall|k: int, l: int|
                0 <= k < l < merged@.len() ==> listed_before(
                    items@,
                    #[trigger] merged@[k] as int,
                    #[trigger] merged@[l] as int,
                ),
            forall|k: int, l: int|
                0 <= k < merged@.len() && i <= l < left@.len() ==> listed_before(
                    items@,
                    #[trigger] merged@[k] as int,
                    #[trigger] left@[l] as int,
                ),
            forall|k: int, l: int|
                0 <= k < merged@.len() && j <= l < right@.len() ==> listed_before(
                    items@,
                    #[trigger] merged@[k] as int,
                    #[trigger] right@[l] as int,
                ),
        decreases left@.len() + right@.len() - i - j,
    {
        let ghost before = merged@;
        let take_left: bool = if i < left.len() {
            if j < right.len() {
                items[left[i]].ranks_at_most(&items[right[j]])
            } else {
                true
            }
        } else {
            false
        };
        if take_left {
            proof {
                assert forall|l: int| j <= l < right@.len() implies listed_before(
                    items@,
                    left@[i as int] as int,
                    #[trigger] right@[l] as int,
                ) by {
                    assert(listed_before(items@, left@[i as int] as int, right@[j as int] as int));
                    if l > j {
                        assert(listed_before(items@, right@[j as int] as int, right@[l] as int));
                        lemma_listed_before_transitive(
                            items@,
                            left@[i as int] as int,
                            right@[j as int] as int,
                            right@[l] as int,
                        );
                    }
                }
            }
            merged.push(left[i]);
            proof {
                lemma_push_keeps(before, left@[i as int]);
                assert forall|k: int, l: int|
                    0 <= k < merged@.len() && i + 1 <= l < left@.len() implies listed_before(
                    items@,
                    #[trigger] merged@[k] as int,
                    #[trigger] left@[l] as int,
                ) by {
                    if k == before.len() {
                        assert(listed_before(items@, left@[i as int] as int, left@[l] as int));
                    }
                }
            }
            i = i + 1;
        } else {
            proof {
                assert forall|l: int| i <= l < left@.len() implies listed_before(
                    items@,
                    right@[j as int] as int,
                    #[trigger] left@[l] as int,
                ) by {
                    T::total(items@[left@[i as int] as int], items@[right@[j as int] as int]);
                    assert(listed_before(items@, right@[j as int] as int, left@[i as int] as int));
                    if l > i {
                        assert(listed_before(items@, left@[i as int] as int, left@[l] as int));
                        lemma_listed_before_transitive(
                            items@,
                            right@[j as int] as int,
                            left@[i as int] as int,
                            left@[l] as int,
                        );
                    }
                }
            }
            merged.push(right[j]);
            proof {
                lemma_push_keeps(before, right@[j as int]);
                assert forall|k: int, l: int|
                    0 <= k < merged@.len() && j + 1 <= l < right@.len() implies listed_before(
                    items@,
                    #[trigger] merged@[k] as int,
                    #[trigger] right@[l] as int,
                ) by {
                    if k == before.len() {
                        assert(listed_before(items@, right@[j as int] as int, right@[l] as int));
                    }
                }
            }
            j = j + 1;
        }
    }
    assert forall|k: int| from <= k < to implies #[trigger] merged@.contains(k as usize) by {
        if k < middle {
            assert(left@.contains(k as usize));
            let at = choose|at: int| 0 <= at < left@.len() && left@[at] == k as usize;
            assert(merged@.contains(left@[at]));
        } else {
            assert(right@.contains(k as usize));
            let at = choose|at: int| 0 <= at < right@.len() && right@[at] == k as usize;
            assert(merged@.contains(right@[at]));
        }
    }
    merged
}

/// A longer sequence holds what the shorter one held, and the new element.
proof fn lemma_push_keeps(before: Seq<usize>, last: usize)
    ensures
        before.push(last).contains(last),
        forall|value: usize| before.contains(value) ==> #[trigger] before.push(last).contains(value),
{
    let after = before.push(last);
    assert(after[before.len() as int] == last);
    assert forall|value: usize| before.contains(value) implies #[trigger] after.contains(value) by {
        let k = choose|k: int| 0 <= k < before.len() && before[k] == value;
        assert(after[k] == value);
    }
}

/// Lists the items from `from` up to, not including, `to` in rank.
fn rank_range<T: Ranked>(items: &Vec<T>, from: usize, to: usize) -> (order: Vec<usize>)
    requires
        from <= to <= items@.len(),
    ensures
        lists(items@, from as int, to as int, order@),
    decreases to - from,
{
    if to - from <= 1 {
        let mut order: Vec<usize> = Vec::new();
        if from < to {
            order.push(from);
            assert(order@[0] == from);
        }
        return order;
    }
    let middle: usize = from + (to - from) / 2;
    let left: Vec<usize> = rank_range(items, from, middle);
    let right: Vec<usize> = rank_range(items, middle, to);
    merge(items, &left, &right, Ghost(from as int), Ghost(middle as int), Ghost(to as int))
}

/// Lists the items in rank; items of the same rank stay as they came.
pub fn rank<T: Ranked>(items: &Vec<T>) -> (order: Vec<usize>)
    ensures
        ranking(items@, order@),
{
    rank_range(items, 0, items.len())
}

} // verus!
