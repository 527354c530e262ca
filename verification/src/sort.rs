//! Sorting keyed rows into their stable order.
//!
//! The sort is a merge sort on positions in the list, so no row is moved before
//! its place in the result is known.

use std::cmp::Ordering;

use vstd::prelude::*;

use crate::order_keys::{
    comparable, compare_order_keys, position, total_order_is_comparable, totally_ordered, OrderKey,
};
use crate::stable_order::{
    all_cover, goes_before, goes_before_is_strict_and_total, in_order, is_stable_order, keyed_rows,
    lists_positions, sorted_rows, stable_order_is_unique,
};

verus! {

/// Whether the keyed row at `later` has to be delivered before the one at
/// `earlier`, which precedes it in the list.
fn overtakes<V: Ord, R: Ord>(
    keyed: &Vec<(Vec<Option<V>>, R)>,
    keys: &[OrderKey],
    later: usize,
    earlier: usize,
) -> (overtakes: bool)
    requires
        comparable::<V>(),
        comparable::<R>(),
        earlier < later < keyed@.len(),
    ensures
        overtakes == goes_before(keyed_rows(keyed@), keys@, position(later), position(earlier)),
{
    match compare_order_keys(&keyed[later], &keyed[earlier], keys) {
        Ordering::Less => true,
        Ordering::Equal => false,
        Ordering::Greater => false,
    }
}

/// Machine positions as a sequence of integers.
spec fn positions(order: Seq<usize>) -> Seq<int> {
    order.map_values(|index: usize| index as int)
}

/// How far a merge has come: `merged` holds the first `i` positions of `left`
/// and the first `j` of `right`, in order, and goes before all that is left.
spec fn merging<V: Ord, R: Ord>(
    keyed: Seq<(Seq<Option<V>>, R)>,
    keys: Seq<OrderKey>,
    left: Seq<int>,
    right: Seq<int>,
    merged: Seq<int>,
    i: int,
    j: int,
) -> bool {
    &&& 0 <= i <= left.len()
    &&& 0 <= j <= right.len()
    &&& merged.len() == i + j
    &&& forall|m: int|
        0 <= m < merged.len() ==> left.contains(#[trigger] merged[m]) || right.contains(merged[m])
    &&& forall|m: int| 0 <= m < i ==> merged.contains(#[trigger] left[m])
    &&& forall|m: int| 0 <= m < j ==> merged.contains(#[trigger] right[m])
    &&& in_order(keyed, keys, merged)
    &&& forall|m: int, n: int|
        0 <= m < merged.len() && i <= n < left.len() ==> goes_before(
            keyed,
            keys,
            #[trigger] merged[m],
            #[trigger] left[n],
        )
    &&& forall|m: int, n: int|
        0 <= m < merged.len() && j <= n < right.len() ==> goes_before(
            keyed,
            keys,
            #[trigger] merged[m],
            #[trigger] right[n],
        )
}

/// Both stretches that a merge reads are sorted, and lie next to each other.
spec fn mergeable<V: Ord, R: Ord>(
    keyed: Seq<(Seq<Option<V>>, R)>,
    keys: Seq<OrderKey>,
    left: Seq<int>,
    right: Seq<int>,
    lo: int,
    mid: int,
    hi: int,
) -> bool {
    &&& 0 <= lo <= mid <= hi <= keyed.len()
    &&& lists_positions(left, lo, mid)
    &&& lists_positions(right, mid, hi)
    &&& in_order(keyed, keys, left)
    &&& in_order(keyed, keys, right)
}

/// Appending the next position of one stretch, which goes before the next of
/// the other, takes the merge one step further.
proof fn lemma_merge_step<V: Ord, R: Ord>(
    keyed: Seq<(Seq<Option<V>>, R)>,
    keys: Seq<OrderKey>,
    left: Seq<int>,
    right: Seq<int>,
    merged: Seq<int>,
    i: int,
    j: int,
    lo: int,
    mid: int,
    hi: int,
    from_right: bool,
)
    requires
        totally_ordered::<V>(),
        totally_ordered::<R>(),
        all_cover(keyed, keys),
        mergeable(keyed, keys, left, right, lo, mid, hi),
        merging(keyed, keys, left, right, merged, i, j),
        from_right ==> j < right.len() && (i < left.len() ==> goes_before(
            keyed,
            keys,
            right[j],
            left[i],
        )),
        !from_right ==> i < left.len() && (j < right.len() ==> !goes_before(
            keyed,
            keys,
            right[j],
            left[i],
        )),
    ensures
        from_right ==> merging(keyed, keys, left, right, merged.push(right[j]), i, j + 1),
        !from_right ==> merging(keyed, keys, left, right, merged.push(left[i]), i + 1, j),
{
    let next = if from_right {
        right[j]
    } else {
        left[i]
    };
    let (ni, nj) = if from_right {
        (i, j + 1)
    } else {
        (i + 1, j)
    };
    let grown = merged.push(next);
    assert(grown[merged.len() as int] == next);
    assert forall|m: int| 0 <= m < grown.len() implies left.contains(#[trigger] grown[m])
        || right.contains(grown[m]) by {
        if m < merged.len() {
            assert(grown[m] == merged[m]);
        }
    }
    assert forall|p: int| merged.contains(p) implies grown.contains(p) by {
        let m = choose|m: int| 0 <= m < merged.len() && merged[m] == p;
        assert(grown[m] == p);
    }
    assert(grown.contains(next));
    assert forall|n: int| ni <= n < left.len() implies goes_before(keyed, keys, next, left[n]) by {
        if from_right {
            if n > i {
                assert(goes_before(keyed, keys, left[i], left[n]));
                goes_before_is_strict_and_total(keyed, keys, right[j], left[i], left[n]);
            }
        } else {
            assert(goes_before(keyed, keys, left[i], left[n]));
        }
    }
    assert forall|n: int| nj <= n < right.len() implies goes_before(
        keyed,
        keys,
        next,
        right[n],
    ) by {
        if from_right {
            assert(goes_before(keyed, keys, right[j], right[n]));
        } else {
            assert(left[i] < mid <= right[j]);
            goes_before_is_strict_and_total(keyed, keys, right[j], left[i], right[n]);
            if n > j {
                assert(goes_before(keyed, keys, right[j], right[n]));
                goes_before_is_strict_and_total(keyed, keys, left[i], right[j], right[n]);
            }
        }
    }
    assert(in_order(keyed, keys, grown)) by {
        assert forall|m: int, n: int| 0 <= m < n < grown.len() implies goes_before(
            keyed,
            keys,
            #[trigger] grown[m],
            #[trigger] grown[n],
        ) by {
            assert(grown[m] == merged[m]);
            if n < merged.len() {
                assert(grown[n] == merged[n]);
            }
        }
    }
    assert forall|m: int, n: int| 0 <= m < grown.len() && ni <= n < left.len() implies goes_before(
        keyed,
        keys,
        #[trigger] grown[m],
        #[trigger] left[n],
    ) by {
        if m < merged.len() {
            assert(grown[m] == merged[m]);
        }
    }
    assert forall|m: int, n: int| 0 <= m < grown.len() && nj <= n < right.len() implies goes_before(
        keyed,
        keys,
        #[trigger] grown[m],
        #[trigger] right[n],
    ) by {
        if m < merged.len() {
            assert(grown[m] == merged[m]);
        }
    }
}

/// A merge that has used up both stretches lists the positions of both.
proof fn lemma_merge_done<V: Ord, R: Ord>(
    keyed: Seq<(Seq<Option<V>>, R)>,
    keys: Seq<OrderKey>,
    left: Seq<int>,
    right: Seq<int>,
    merged: Seq<int>,
    lo: int,
    mid: int,
    hi: int,
)
    requires
        mergeable(keyed, keys, left, right, lo, mid, hi),
        merging(keyed, keys, left, right, merged, left.len() as int, right.len() as int),
    ensures
        lists_positions(merged, lo, hi),
{
    assert forall|p: int| lo <= p < hi implies #[trigger] merged.contains(p) by {
        if p < mid {
            assert(left.contains(p));
            let m = choose|m: int| 0 <= m < left.len() && left[m] == p;
            assert(merged.contains(left[m]));
        } else {
            assert(right.contains(p));
            let m = choose|m: int| 0 <= m < right.len() && right[m] == p;
            assert(merged.contains(right[m]));
        }
    }
}

/// Merges the sorted positions of two neighbouring stretches of the list.
fn merge<V: Ord, R: Ord>(
    keyed: &Vec<(Vec<Option<V>>, R)>,
    keys: &[OrderKey],
    left: &Vec<usize>,
    right: &Vec<usize>,
    Ghost(lo): Ghost<int>,
    Ghost(mid): Ghost<int>,
    Ghost(hi): Ghost<int>,
) -> (merged: Vec<usize>)
    requires
        totally_ordered::<V>(),
        totally_ordered::<R>(),
        all_cover(keyed_rows(keyed@), keys@),
        mergeable(
            keyed_rows(keyed@),
            keys@,
            positions(left@),
            positions(right@),
            lo,
            mid,
            hi,
        ),
    ensures
        lists_positions(positions(merged@), lo, hi),
        in_order(keyed_rows(keyed@), keys@, positions(merged@)),
{
    let ghost rows = keyed_rows(keyed@);
    let ghost from_left = positions(left@);
    let ghost from_right = positions(right@);
    let mut merged: Vec<usize> = Vec::new();
    let mut i: usize = 0;
    let mut j: usize = 0;
    proof {
        total_order_is_comparable::<V>();
        total_order_is_comparable::<R>();
    }
    while i < left.len() || j < right.len()
        invariant
            totally_ordered::<V>(),
            totally_ordered::<R>(),
            comparable::<V>(),
            comparable::<R>(),
            rows == keyed_rows(keyed@),
            from_left == positions(left@),
            from_right == positions(right@),
            all_cover(rows, keys@),
            mergeable(rows, keys@, from_left, from_right, lo, mid, hi),
            merging(rows, keys@, from_left, from_right, positions(merged@), i as int, j as int),
        decreases left@.len() - i + right@.len() - j,
    {
        let ghost so_far = positions(merged@);
        let take_right: bool = if i == left.len() {
            true
        } else if j == right.len() {
            false
        } else {
            assert(from_left[i as int] < mid <= from_right[j as int]);
            overtakes(keyed, keys, right[j], left[i])
        };
        proof {
            lemma_merge_step(
                rows,
                keys@,
                from_left,
                from_right,
                so_far,
                i as int,
                j as int,
                lo,
                mid,
                hi,
                take_right,
            );
        }
        if take_right {
            merged.push(right[j]);
            assert(positions(merged@) =~= so_far.push(from_right[j as int]));
            j += 1;
        } else {
            merged.push(left[i]);
            assert(positions(merged@) =~= so_far.push(from_left[i as int]));
            i += 1;
        }
    }
    proof {
        lemma_merge_done(rows, keys@, from_left, from_right, positions(merged@), lo, mid, hi);
    }
    merged
}

/// Sorts the positions of `keyed` from `lo` up to `hi`.
fn sort_positions<V: Ord, R: Ord>(
    keyed: &Vec<(Vec<Option<V>>, R)>,
    keys: &[OrderKey],
    lo: usize,
    hi: usize,
) -> (order: Vec<usize>)
    requires
        totally_ordered::<V>(),
        totally_ordered::<R>(),
        all_cover(keyed_rows(keyed@), keys@),
        lo <= hi <= keyed@.len(),
    ensures
        lists_positions(positions(order@), lo as int, hi as int),
        in_order(keyed_rows(keyed@), keys@, positions(order@)),
    decreases hi - lo,
{
    if hi - lo >= 2 {
        let mid: usize = lo + (hi - lo) / 2;
        let left = sort_positions(keyed, keys, lo, mid);
        let right = sort_positions(keyed, keys, mid, hi);
        merge(keyed, keys, &left, &right, Ghost(lo as int), Ghost(mid as int), Ghost(hi as int))
    } else {
        let mut order: Vec<usize> = Vec::new();
        if lo < hi {
            order.push(lo);
            assert(positions(order@)[0] == lo);
        }
        order
    }
}

/// Sorts rows by the values read for them, and drops the values.
///
/// Rows are delivered in the order of [`compare_order_keys`]; keyed rows that
/// compare equal keep the order in which they came.
pub fn sort_keyed_rows<V: Ord, R: Ord>(keyed: Vec<(Vec<Option<V>>, R)>, keys: &[OrderKey]) -> (rows:
    Vec<R>)
    requires
        totally_ordered::<V>(),
        totally_ordered::<R>(),
        all_cover(keyed_rows(keyed@), keys@),
    ensures
        rows@ == sorted_rows(keyed_rows(keyed@), keys@),
{
    let ghost entries = keyed_rows(keyed@);
    let order = sort_positions(&keyed, keys, 0, keyed.len());
    let ghost sorted = positions(order@);
    proof {
        stable_order_is_unique(entries, keys@, sorted);
    }
    let mut slots: Vec<Option<R>> = Vec::with_capacity(keyed.len());
    for entry in it: keyed
        invariant
            it.seq().len() == entries.len(),
            forall|p: int| 0 <= p < entries.len() ==> (#[trigger] it.seq()[p]).1 == entries[p].1,
            slots@.len() == it.index(),
            forall|p: int| 0 <= p < slots@.len() ==> #[trigger] slots@[p] == Some(entries[p].1),
    {
        slots.push(Some(entry.1));
    }
    let mut rows: Vec<R> = Vec::with_capacity(slots.len());
    let mut next: usize = 0;
    while next < order.len()
        invariant
            totally_ordered::<V>(),
            totally_ordered::<R>(),
            all_cover(entries, keys@),
            sorted == positions(order@),
            is_stable_order(entries, keys@, sorted),
            slots@.len() == entries.len(),
            next <= order@.len(),
            rows@.len() == next,
            forall|i: int| 0 <= i < next ==> #[trigger] rows@[i] == entries[sorted[i]].1,
            forall|i: int|
                next <= i < sorted.len() ==> slots@[#[trigger] sorted[i]] == Some(
                    entries[sorted[i]].1,
                ),
        decreases order@.len() - next,
    {
        let slot: usize = order[next];
        assert(sorted[next as int] == slot);
        assert forall|i: int| next < i < sorted.len() implies #[trigger] sorted[i] != slot by {
            assert(goes_before(entries, keys@, sorted[next as int], sorted[i]));
            goes_before_is_strict_and_total(entries, keys@, sorted[i], sorted[i], sorted[i]);
        }
        if let Some(row) = slots[slot].take() {
            rows.push(row);
        }
        next += 1;
    }
    assert(rows@ =~= sorted_rows(entries, keys@));
    rows
}

} // verus!
