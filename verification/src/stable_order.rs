//! The stable order of a list of keyed rows, and what it promises.

use std::cmp::Ordering;

use vstd::laws_cmp::obeys_cmp;
use vstd::prelude::*;

use crate::order_keys::{
    covers, keyed_order, keyed_order_flips, keyed_order_is_reflexive, keyed_order_is_transitive,
    totally_ordered, OrderKey,
};

verus! {

/// A list of keyed rows as values.
pub open spec fn keyed_rows<V, R>(keyed: Seq<(Vec<Option<V>>, R)>) -> Seq<(Seq<Option<V>>, R)> {
    keyed.map_values(|entry: (Vec<Option<V>>, R)| (entry.0@, entry.1))
}

/// Every keyed row of the list has a value for every key.
pub open spec fn all_cover<V, R>(keyed: Seq<(Seq<Option<V>>, R)>, keys: Seq<OrderKey>) -> bool {
    forall|i: int| 0 <= i < keyed.len() ==> covers((#[trigger] keyed[i]).0, keys)
}

/// The keyed row at position `a` is delivered before the one at position `b`:
/// it compares less, or it compares equal and comes earlier in the list.
pub open spec fn goes_before<V: Ord, R: Ord>(
    keyed: Seq<(Seq<Option<V>>, R)>,
    keys: Seq<OrderKey>,
    a: int,
    b: int,
) -> bool {
    match keyed_order(keyed[a], keyed[b], keys) {
        Ordering::Less => true,
        Ordering::Equal => a < b,
        Ordering::Greater => false,
    }
}

/// `order` lists positions each of which goes before all that follow it.
pub open spec fn in_order<V: Ord, R: Ord>(
    keyed: Seq<(Seq<Option<V>>, R)>,
    keys: Seq<OrderKey>,
    order: Seq<int>,
) -> bool {
    forall|i: int, j: int|
        0 <= i < j < order.len() ==> goes_before(keyed, keys, #[trigger] order[i], #[trigger] order[j])
}

/// `order` lists exactly the positions from `lo` up to `hi`.
pub open spec fn lists_positions(order: Seq<int>, lo: int, hi: int) -> bool {
    &&& order.len() == hi - lo
    &&& forall|i: int| 0 <= i < order.len() ==> lo <= #[trigger] order[i] < hi
    &&& forall|p: int| lo <= p < hi ==> #[trigger] order.contains(p)
}

/// `order` lists every position of `items` once.
pub open spec fn is_rearrangement<A>(order: Seq<int>, items: Seq<A>) -> bool {
    &&& lists_positions(order, 0, items.len() as int)
    &&& order.no_duplicates()
}

/// `order` lists every position of `keyed` once, in the order of delivery.
pub open spec fn is_stable_order<V: Ord, R: Ord>(
    keyed: Seq<(Seq<Option<V>>, R)>,
    keys: Seq<OrderKey>,
    order: Seq<int>,
) -> bool {
    &&& lists_positions(order, 0, keyed.len() as int)
    &&& in_order(keyed, keys, order)
}

/// The positions of `keyed` in the order of delivery.
pub open spec fn stable_order<V: Ord, R: Ord>(
    keyed: Seq<(Seq<Option<V>>, R)>,
    keys: Seq<OrderKey>,
) -> Seq<int> {
    choose|order: Seq<int>| is_stable_order(keyed, keys, order)
}

/// The rows of `keyed` in the order of delivery.
pub open spec fn sorted_rows<V: Ord, R: Ord>(
    keyed: Seq<(Seq<Option<V>>, R)>,
    keys: Seq<OrderKey>,
) -> Seq<R> {
    stable_order(keyed, keys).map_values(|p: int| keyed[p].1)
}

/// `goes_before` is a strict total order on positions.
pub proof fn goes_before_is_strict_and_total<V: Ord, R: Ord>(
    keyed: Seq<(Seq<Option<V>>, R)>,
    keys: Seq<OrderKey>,
    a: int,
    b: int,
    c: int,
)
    requires
        totally_ordered::<V>(),
        totally_ordered::<R>(),
        all_cover(keyed, keys),
        0 <= a < keyed.len(),
        0 <= b < keyed.len(),
        0 <= c < keyed.len(),
    ensures
        !goes_before(keyed, keys, a, a),
        a != b ==> goes_before(keyed, keys, a, b) == !goes_before(keyed, keys, b, a),
        goes_before(keyed, keys, a, b) && goes_before(keyed, keys, b, c) ==> goes_before(
            keyed,
            keys,
            a,
            c,
        ),
{
    keyed_order_is_reflexive(keyed[a], keys);
    keyed_order_flips(keyed[a], keyed[b], keys);
    keyed_order_is_transitive(keyed[a], keyed[b], keyed[c], keys);
}

/// Two stable orders of one list agree on their first `upto` positions.
proof fn lemma_stable_orders_agree<V: Ord, R: Ord>(
    keyed: Seq<(Seq<Option<V>>, R)>,
    keys: Seq<OrderKey>,
    one: Seq<int>,
    other: Seq<int>,
    upto: int,
)
    requires
        totally_ordered::<V>(),
        totally_ordered::<R>(),
        all_cover(keyed, keys),
        is_stable_order(keyed, keys, one),
        is_stable_order(keyed, keys, other),
        0 <= upto <= keyed.len(),
    ensures
        forall|i: int| 0 <= i < upto ==> one[i] == other[i],
    decreases upto,
{
    if upto > 0 {
        let k = upto - 1;
        lemma_stable_orders_agree(keyed, keys, one, other, k);
        let (a, b) = (one[k], other[k]);
        assert(one.contains(b) && other.contains(a));
        let m = choose|m: int| 0 <= m < one.len() && one[m] == b;
        let n = choose|n: int| 0 <= n < other.len() && other[n] == a;
        goes_before_is_strict_and_total(keyed, keys, a, b, a);
        goes_before_is_strict_and_total(keyed, keys, b, a, b);
        if m < k {
            assert(other[m] == b);
            assert(goes_before(keyed, keys, other[m], other[k]));
        }
        if n < k {
            assert(one[n] == a);
            assert(goes_before(keyed, keys, one[n], one[k]));
        }
        if a != b {
            assert(goes_before(keyed, keys, one[k], one[m]));
            assert(goes_before(keyed, keys, other[k], other[n]));
        }
    }
}

/// A list of keyed rows has one stable order at most.
pub proof fn stable_order_is_unique<V: Ord, R: Ord>(
    keyed: Seq<(Seq<Option<V>>, R)>,
    keys: Seq<OrderKey>,
    order: Seq<int>,
)
    requires
        totally_ordered::<V>(),
        totally_ordered::<R>(),
        all_cover(keyed, keys),
        is_stable_order(keyed, keys, order),
    ensures
        order == stable_order(keyed, keys),
{
    let chosen = stable_order(keyed, keys);
    lemma_stable_orders_agree(keyed, keys, order, chosen, keyed.len() as int);
    assert(order =~= chosen);
}

/// The stable order with the last position of the list put in.
proof fn lemma_place_last<V: Ord, R: Ord>(
    keyed: Seq<(Seq<Option<V>>, R)>,
    keys: Seq<OrderKey>,
    order: Seq<int>,
    at: int,
) -> (placed: Seq<int>)
    requires
        totally_ordered::<V>(),
        totally_ordered::<R>(),
        all_cover(keyed, keys),
        keyed.len() > 0,
        lists_positions(order, 0, keyed.len() - 1),
        in_order(keyed, keys, order),
        0 <= at <= order.len(),
        forall|i: int|
            at <= i < order.len() ==> goes_before(
                keyed,
                keys,
                keyed.len() - 1,
                #[trigger] order[i],
            ),
    ensures
        is_stable_order(keyed, keys, placed),
    decreases at,
{
    let last = keyed.len() - 1;
    if at > 0 && !goes_before(keyed, keys, order[at - 1], last) {
        goes_before_is_strict_and_total(keyed, keys, order[at - 1], last, last);
        lemma_place_last(keyed, keys, order, at - 1)
    } else {
        let placed = order.insert(at, last);
        assert forall|p: int| 0 <= p < keyed.len() implies #[trigger] placed.contains(p) by {
            if p == last {
                assert(placed[at] == last);
            } else {
                assert(order.contains(p));
                let m = choose|m: int| 0 <= m < order.len() && order[m] == p;
                assert(placed[if m < at { m } else { m + 1 }] == p);
            }
        }
        assert forall|i: int| 0 <= i < at implies goes_before(
            keyed,
            keys,
            #[trigger] order[i],
            last,
        ) by {
            if i < at - 1 {
                assert(goes_before(keyed, keys, order[i], order[at - 1]));
                goes_before_is_strict_and_total(keyed, keys, order[i], order[at - 1], last);
            }
        }
        assert forall|i: int, j: int| 0 <= i < j < placed.len() implies goes_before(
            keyed,
            keys,
            #[trigger] placed[i],
            #[trigger] placed[j],
        ) by {
            let oi = if i < at { i } else { i - 1 };
            let oj = if j < at { j } else { j - 1 };
            if i == at {
                assert(placed[j] == order[oj]);
            } else if j == at {
                assert(placed[i] == order[oi]);
            } else {
                assert(placed[i] == order[oi]);
                assert(placed[j] == order[oj]);
            }
        }
        placed
    }
}

proof fn lemma_some_stable_order<V: Ord, R: Ord>(
    keyed: Seq<(Seq<Option<V>>, R)>,
    keys: Seq<OrderKey>,
) -> (order: Seq<int>)
    requires
        totally_ordered::<V>(),
        totally_ordered::<R>(),
        all_cover(keyed, keys),
    ensures
        is_stable_order(keyed, keys, order),
    decreases keyed.len(),
{
    if keyed.len() == 0 {
        Seq::empty()
    } else {
        let front = keyed.drop_last();
        let order = lemma_some_stable_order(front, keys);
        assert forall|i: int, j: int| 0 <= i < j < order.len() implies goes_before(
            keyed,
            keys,
            #[trigger] order[i],
            #[trigger] order[j],
        ) by {
            assert(goes_before(front, keys, order[i], order[j]));
        }
        lemma_place_last(keyed, keys, order, order.len() as int)
    }
}

/// Every list of keyed rows has its stable order.
pub proof fn stable_order_exists<V: Ord, R: Ord>(
    keyed: Seq<(Seq<Option<V>>, R)>,
    keys: Seq<OrderKey>,
)
    requires
        totally_ordered::<V>(),
        totally_ordered::<R>(),
        all_cover(keyed, keys),
    ensures
        is_stable_order(keyed, keys, stable_order(keyed, keys)),
{
    let order = lemma_some_stable_order(keyed, keys);
    assert(is_stable_order(keyed, keys, order));
}

proof fn lemma_no_position_twice<V: Ord, R: Ord>(
    keyed: Seq<(Seq<Option<V>>, R)>,
    keys: Seq<OrderKey>,
    order: Seq<int>,
)
    requires
        totally_ordered::<V>(),
        totally_ordered::<R>(),
        all_cover(keyed, keys),
        is_stable_order(keyed, keys, order),
    ensures
        order.no_duplicates(),
{
    assert forall|i: int, j: int|
        0 <= i < order.len() && 0 <= j < order.len() && i != j implies order[i] != order[j] by {
        goes_before_is_strict_and_total(keyed, keys, order[i], order[i], order[i]);
        if i < j {
            assert(goes_before(keyed, keys, order[i], order[j]));
        } else {
            assert(goes_before(keyed, keys, order[j], order[i]));
        }
    }
}

/// No delivered row compares greater than one that follows it, and keyed rows
/// that compare equal are delivered in the order in which they came.
pub proof fn delivery_is_sorted_and_stable<V: Ord, R: Ord>(
    keyed: Seq<(Seq<Option<V>>, R)>,
    keys: Seq<OrderKey>,
    i: int,
    j: int,
)
    requires
        totally_ordered::<V>(),
        totally_ordered::<R>(),
        all_cover(keyed, keys),
        0 <= i < j < keyed.len(),
    ensures
        ({
            let order = stable_order(keyed, keys);
            let ordering = keyed_order(keyed[order[i]], keyed[order[j]], keys);
            &&& ordering != Ordering::Greater
            &&& ordering == Ordering::Equal ==> order[i] < order[j]
        }),
{
    stable_order_exists(keyed, keys);
    let order = stable_order(keyed, keys);
    assert(goes_before(keyed, keys, order[i], order[j]));
}

proof fn lemma_rearranged_multiset<A>(items: Seq<A>, order: Seq<int>)
    requires
        is_rearrangement(order, items),
    ensures
        order.map_values(|p: int| items[p]).to_multiset() == items.to_multiset(),
    decreases items.len(),
{
    let arranged = order.map_values(|p: int| items[p]);
    if items.len() == 0 {
        assert(arranged =~= items);
    } else {
        let last = items.len() - 1;
        assert(order.contains(last));
        let m = choose|m: int| 0 <= m < order.len() && order[m] == last;
        let front = items.drop_last();
        let rest = order.remove(m);
        assert forall|p: int| 0 <= p < front.len() implies #[trigger] rest.contains(p) by {
            assert(order.contains(p));
            let n = choose|n: int| 0 <= n < order.len() && order[n] == p;
            assert(rest[if n < m { n } else { n - 1 }] == p);
        }
        lemma_rearranged_multiset(front, rest);
        let placed = rest.map_values(|p: int| front[p]);
        assert(arranged =~= placed.insert(m, items[last]));
        assert(items =~= front.push(items[last]));
        vstd::seq_lib::to_multiset_insert(placed, m, items[last]);
        vstd::seq_lib::to_multiset_build(front, items[last]);
    }
}

/// Sorting neither loses, adds nor repeats a row.
pub proof fn delivery_keeps_the_rows<V: Ord, R: Ord>(
    keyed: Seq<(Seq<Option<V>>, R)>,
    keys: Seq<OrderKey>,
)
    requires
        totally_ordered::<V>(),
        totally_ordered::<R>(),
        all_cover(keyed, keys),
    ensures
        sorted_rows(keyed, keys).len() == keyed.len(),
        sorted_rows(keyed, keys).to_multiset() == keyed.map_values(
            |entry: (Seq<Option<V>>, R)| entry.1,
        ).to_multiset(),
{
    let order = stable_order(keyed, keys);
    let rows = keyed.map_values(|entry: (Seq<Option<V>>, R)| entry.1);
    stable_order_exists(keyed, keys);
    lemma_no_position_twice(keyed, keys, order);
    lemma_rearranged_multiset(rows, order);
    assert(sorted_rows(keyed, keys) =~= order.map_values(|p: int| rows[p]));
}

/// A list that is already in order is delivered as it is.
pub proof fn sorted_input_is_unchanged<V: Ord, R: Ord>(
    keyed: Seq<(Seq<Option<V>>, R)>,
    keys: Seq<OrderKey>,
)
    requires
        totally_ordered::<V>(),
        totally_ordered::<R>(),
        all_cover(keyed, keys),
        forall|i: int, j: int|
            0 <= i < j < keyed.len() ==> keyed_order(#[trigger] keyed[i], #[trigger] keyed[j], keys)
                != Ordering::Greater,
    ensures
        sorted_rows(keyed, keys) == keyed.map_values(|entry: (Seq<Option<V>>, R)| entry.1),
{
    let order = Seq::new(keyed.len(), |i: int| i);
    assert forall|p: int| 0 <= p < keyed.len() implies #[trigger] order.contains(p) by {
        assert(order[p] == p);
    }
    assert forall|i: int, j: int| 0 <= i < j < order.len() implies goes_before(
        keyed,
        keys,
        #[trigger] order[i],
        #[trigger] order[j],
    ) by {
        assert(keyed_order(keyed[i], keyed[j], keys) != Ordering::Greater);
    }
    stable_order_is_unique(keyed, keys, order);
    assert(sorted_rows(keyed, keys) =~= keyed.map_values(
        |entry: (Seq<Option<V>>, R)| entry.1,
    ));
}

/// Sorting what was delivered, with the values it was sorted by, delivers the
/// same rows again.
pub proof fn sorting_twice_is_sorting_once<V: Ord, R: Ord>(
    keyed: Seq<(Seq<Option<V>>, R)>,
    keys: Seq<OrderKey>,
)
    requires
        totally_ordered::<V>(),
        totally_ordered::<R>(),
        all_cover(keyed, keys),
    ensures
        sorted_rows(stable_order(keyed, keys).map_values(|p: int| keyed[p]), keys) == sorted_rows(
            keyed,
            keys,
        ),
{
    let order = stable_order(keyed, keys);
    let delivered = order.map_values(|p: int| keyed[p]);
    stable_order_exists(keyed, keys);
    assert forall|i: int, j: int| 0 <= i < j < delivered.len() implies keyed_order(
        #[trigger] delivered[i],
        #[trigger] delivered[j],
        keys,
    ) != Ordering::Greater by {
        delivery_is_sorted_and_stable(keyed, keys, i, j);
    }
    sorted_input_is_unchanged(delivered, keys);
    assert(sorted_rows(keyed, keys) =~= delivered.map_values(
        |entry: (Seq<Option<V>>, R)| entry.1,
    ));
}

/// `order` lists positions none of which compares greater than one after it.
spec fn weakly_sorted<V: Ord, R: Ord>(
    keyed: Seq<(Seq<Option<V>>, R)>,
    keys: Seq<OrderKey>,
    order: Seq<int>,
) -> bool {
    forall|i: int, j: int|
        0 <= i < j < order.len() ==> keyed_order(
            keyed[#[trigger] order[i]],
            keyed[#[trigger] order[j]],
            keys,
        ) != Ordering::Greater
}

/// Of two sorted arrangements of one list, neither has a lesser keyed row at
/// any place: there would be too few places before it in the other.
proof fn lemma_arrangements_tie<V: Ord, R: Ord>(
    keyed: Seq<(Seq<Option<V>>, R)>,
    keys: Seq<OrderKey>,
    one: Seq<int>,
    other: Seq<int>,
    i: int,
)
    requires
        totally_ordered::<V>(),
        totally_ordered::<R>(),
        all_cover(keyed, keys),
        is_rearrangement(one, keyed),
        is_rearrangement(other, keyed),
        weakly_sorted(keyed, keys, one),
        weakly_sorted(keyed, keys, other),
        0 <= i < keyed.len(),
    ensures
        keyed_order(keyed[one[i]], keyed[other[i]], keys) != Ordering::Less,
{
    let (x, y) = (keyed[one[i]], keyed[other[i]]);
    if keyed_order(x, y, keys) == Ordering::Less {
        let lesser = one.subrange(0, i + 1);
        let room = other.subrange(0, i);
        assert forall|p: int| lesser.contains(p) implies room.contains(p) by {
            let m = choose|m: int| 0 <= m < lesser.len() && lesser[m] == p;
            assert(one[m] == p);
            keyed_order_is_reflexive(x, keys);
            if m < i {
                assert(keyed_order(keyed[one[m]], keyed[one[i]], keys) != Ordering::Greater);
            }
            keyed_order_is_transitive(keyed[p], x, y, keys);
            assert(keyed_order(keyed[p], y, keys) == Ordering::Less);
            keyed_order_flips(keyed[p], y, keys);
            keyed_order_is_reflexive(y, keys);
            assert(other.contains(p));
            let t = choose|t: int| 0 <= t < other.len() && other[t] == p;
            if t > i {
                assert(keyed_order(keyed[other[i]], keyed[other[t]], keys) != Ordering::Greater);
            }
            assert(room[t] == p);
        }
        assert(lesser.no_duplicates());
        lesser.unique_seq_to_set();
        room.lemma_cardinality_of_set();
        vstd::seq_lib::seq_to_set_is_finite(room);
        assert(lesser.to_set().subset_of(room.to_set()));
        vstd::set_lib::lemma_len_subset(lesser.to_set(), room.to_set());
    }
}

/// The order in which rows come in makes no difference to what is delivered,
/// as long as keyed rows that compare equal have one and the same row.
pub proof fn delivery_ignores_the_incoming_order<V: Ord, R: Ord>(
    keyed: Seq<(Seq<Option<V>>, R)>,
    keys: Seq<OrderKey>,
    shuffle: Seq<int>,
)
    requires
        totally_ordered::<V>(),
        totally_ordered::<R>(),
        all_cover(keyed, keys),
        is_rearrangement(shuffle, keyed),
        forall|a: int, b: int|
            0 <= a < keyed.len() && 0 <= b < keyed.len() && keyed_order(
                #[trigger] keyed[a],
                #[trigger] keyed[b],
                keys,
            ) == Ordering::Equal ==> keyed[a].1 == keyed[b].1,
    ensures
        sorted_rows(shuffle.map_values(|p: int| keyed[p]), keys) == sorted_rows(keyed, keys),
{
    let shuffled = shuffle.map_values(|p: int| keyed[p]);
    let one = stable_order(keyed, keys);
    let inner = stable_order(shuffled, keys);
    let other = inner.map_values(|p: int| shuffle[p]);
    stable_order_exists(keyed, keys);
    stable_order_exists(shuffled, keys);
    lemma_no_position_twice(keyed, keys, one);
    lemma_no_position_twice(shuffled, keys, inner);
    assert forall|p: int| 0 <= p < keyed.len() implies #[trigger] other.contains(p) by {
        assert(shuffle.contains(p));
        let u = choose|u: int| 0 <= u < shuffle.len() && shuffle[u] == p;
        assert(inner.contains(u));
        let t = choose|t: int| 0 <= t < inner.len() && inner[t] == u;
        assert(other[t] == p);
    }
    assert forall|i: int, j: int| 0 <= i < j < one.len() implies keyed_order(
        keyed[#[trigger] one[i]],
        keyed[#[trigger] one[j]],
        keys,
    ) != Ordering::Greater by {
        delivery_is_sorted_and_stable(keyed, keys, i, j);
    }
    assert forall|i: int, j: int| 0 <= i < j < other.len() implies keyed_order(
        keyed[#[trigger] other[i]],
        keyed[#[trigger] other[j]],
        keys,
    ) != Ordering::Greater by {
        delivery_is_sorted_and_stable(shuffled, keys, i, j);
    }
    assert forall|i: int| 0 <= i < keyed.len() implies keyed[one[i]].1 == keyed[other[i]].1 by {
        lemma_arrangements_tie(keyed, keys, one, other, i);
        lemma_arrangements_tie(keyed, keys, other, one, i);
        keyed_order_flips(keyed[one[i]], keyed[other[i]], keys);
        assert(keyed_order(keyed[one[i]], keyed[other[i]], keys) == Ordering::Equal);
    }
    assert(sorted_rows(shuffled, keys) =~= sorted_rows(keyed, keys));
}

/// The sorted rows are the rows of the list, each once, at places that `order`
/// gives; no keyed row stands after one that compares greater, and of two that
/// compare equal the one that came first stands first.
pub proof fn sorted_rows_are_a_stable_sort<V: Ord, R: Ord>(
    keyed: Seq<(Seq<Option<V>>, R)>,
    keys: Seq<OrderKey>,
) -> (order: Seq<int>)
    requires
        obeys_cmp::<V>(),
        obeys_cmp::<R>(),
        forall|i: int| 0 <= i < keyed.len() ==> (#[trigger] keyed[i]).0.len() >= keys.len(),
    ensures
        sorted_rows(keyed, keys).len() == keyed.len(),
        order.len() == keyed.len(),
        forall|i: int|
            0 <= i < order.len() ==> 0 <= #[trigger] order[i] < keyed.len() && sorted_rows(
                keyed,
                keys,
            )[i] == keyed[order[i]].1,
        forall|i: int, j: int|
            0 <= i < j < order.len() ==> #[trigger] order[i] != #[trigger] order[j],
        forall|i: int, j: int|
            0 <= i < j < order.len() ==> match keyed_order(
                keyed[#[trigger] order[i]],
                keyed[#[trigger] order[j]],
                keys,
            ) {
                Ordering::Less => true,
                Ordering::Equal => order[i] < order[j],
                Ordering::Greater => false,
            },
{
    let order = stable_order(keyed, keys);
    stable_order_exists(keyed, keys);
    lemma_no_position_twice(keyed, keys, order);
    assert forall|i: int, j: int| 0 <= i < j < order.len() implies match keyed_order(
        keyed[#[trigger] order[i]],
        keyed[#[trigger] order[j]],
        keys,
    ) {
        Ordering::Less => true,
        Ordering::Equal => order[i] < order[j],
        Ordering::Greater => false,
    } by {
        assert(goes_before(keyed, keys, order[i], order[j]));
    }
    order
}

/// Two keyed rows are delivered in the order in which they compare, and as they
/// came if they compare equal.
pub proof fn two_rows_are_delivered_as_they_compare<V: Ord, R: Ord>(
    first: (Seq<Option<V>>, R),
    second: (Seq<Option<V>>, R),
    keys: Seq<OrderKey>,
)
    requires
        obeys_cmp::<V>(),
        obeys_cmp::<R>(),
        first.0.len() >= keys.len(),
        second.0.len() >= keys.len(),
    ensures
        keyed_order(first, second, keys) == Ordering::Greater ==> sorted_rows(
            seq![first, second],
            keys,
        ) == seq![second.1, first.1],
        keyed_order(first, second, keys) != Ordering::Greater ==> sorted_rows(
            seq![first, second],
            keys,
        ) == seq![first.1, second.1],
{
    let keyed = seq![first, second];
    let order = sorted_rows_are_a_stable_sort(keyed, keys);
    keyed_order_flips(first, second, keys);
    assert(order[0] != order[1]);
    assert(keyed[order[0]] == first || keyed[order[0]] == second);
    if keyed_order(first, second, keys) == Ordering::Greater {
        assert(sorted_rows(keyed, keys) =~= seq![second.1, first.1]);
    } else {
        assert(sorted_rows(keyed, keys) =~= seq![first.1, second.1]);
    }
}

/// The list that is sorted is the one that was given: every entry at its place,
/// with its values and its row.
pub proof fn keyed_rows_are_the_entries<V, R>(keyed: Seq<(Vec<Option<V>>, R)>)
    ensures
        keyed_rows(keyed).len() == keyed.len(),
        forall|i: int|
            0 <= i < keyed.len() ==> (#[trigger] keyed_rows(keyed)[i]).0 == keyed[i].0@
                && keyed_rows(keyed)[i].1 == keyed[i].1,
{
}

/// What sorting asks of the list is that every entry has a value for every key,
/// and no more.
pub proof fn covering_is_having_enough_values<V, R>(
    keyed: Seq<(Seq<Option<V>>, R)>,
    keys: Seq<OrderKey>,
)
    ensures
        all_cover(keyed, keys) <==> forall|i: int|
            0 <= i < keyed.len() ==> (#[trigger] keyed[i]).0.len() >= keys.len(),
{
    if forall|i: int| 0 <= i < keyed.len() ==> (#[trigger] keyed[i]).0.len() >= keys.len() {
        assert(all_cover(keyed, keys));
    }
    if all_cover(keyed, keys) {
        assert forall|i: int| 0 <= i < keyed.len() implies (#[trigger] keyed[i]).0.len()
            >= keys.len() by {
            assert(covers(keyed[i].0, keys));
        }
    }
}

} // verus!
