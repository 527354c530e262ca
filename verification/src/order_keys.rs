//! Sort keys, and how two keyed rows compare under them.
//!
//! A keyed row is a row together with the values that were read for the sort
//! keys, in key order. A value may be missing. Values and rows are of any type
//! with a total order.

use std::cmp::Ordering;

use vstd::laws_cmp::obeys_cmp;
use vstd::prelude::*;
use vstd::std_specs::cmp::{OrdSpec, PartialOrdSpec};

verus! {

/// The direction of one sort key.
#[derive(Debug, Clone, Copy, PartialEq, Eq, Structural)]
pub enum Order {
    Asc,
    Desc,
}

/// One sort key: the property whose value is compared, and the direction.
#[derive(Debug, PartialEq, Eq)]
pub struct OrderKey {
    pub property: String,
    pub order: Order,
}

/// Comparing two values of `T` is a function of the two values.
pub open spec fn comparable<T: Ord>() -> bool {
    T::obeys_cmp_spec()
}

/// Comparing values of `T` is a total order, consistent with `==`.
///
/// `vstd::laws_cmp::group_laws_cmp` shows it of the integer types, and of
/// options, references and tuples of what it holds of.
pub open spec fn totally_ordered<T: Ord>() -> bool {
    obeys_cmp::<T>()
}

/// A machine index as a sequence position.
pub open spec fn position(index: usize) -> int {
    index as int
}

/// `ordering` with the two sides exchanged.
pub open spec fn flipped(ordering: Ordering) -> Ordering {
    match ordering {
        Ordering::Less => Ordering::Greater,
        Ordering::Equal => Ordering::Equal,
        Ordering::Greater => Ordering::Less,
    }
}

/// `ordering` as a key of the given direction sees it.
pub open spec fn directed(ordering: Ordering, order: Order) -> Ordering {
    match order {
        Order::Asc => ordering,
        Order::Desc => flipped(ordering),
    }
}

/// How two values of one property compare: a missing value comes before every
/// value, two missing values are equal.
pub open spec fn value_order<V: Ord>(left: Option<V>, right: Option<V>) -> Ordering {
    match (left, right) {
        (Some(left), Some(right)) => left.cmp_spec(&right),
        (Some(_), None) => Ordering::Greater,
        (None, Some(_)) => Ordering::Less,
        (None, None) => Ordering::Equal,
    }
}

/// How two lists of values compare under the keys from position `from` on: by
/// the first position whose values differ, in the direction of its key. Only
/// positions that all three lists have take part.
pub open spec fn values_order<V: Ord>(
    left: Seq<Option<V>>,
    right: Seq<Option<V>>,
    keys: Seq<OrderKey>,
    from: int,
) -> Ordering
    decreases keys.len() - from,
{
    if 0 <= from < left.len() && from < right.len() && from < keys.len() {
        match value_order(left[from], right[from]) {
            Ordering::Equal => values_order(left, right, keys, from + 1),
            ordering => directed(ordering, keys[from].order),
        }
    } else {
        Ordering::Equal
    }
}

/// How two keyed rows compare: by their values under the keys, and where those
/// tie by the rows themselves, whatever the directions of the keys.
pub open spec fn keyed_order<V: Ord, R: Ord>(
    left: (Seq<Option<V>>, R),
    right: (Seq<Option<V>>, R),
    keys: Seq<OrderKey>,
) -> Ordering {
    match values_order(left.0, right.0, keys, 0) {
        Ordering::Equal => left.1.cmp_spec(&right.1),
        ordering => ordering,
    }
}

/// Compares two keyed rows under `keys`.
pub fn compare_order_keys<V: Ord, R: Ord>(
    left: &(Vec<Option<V>>, R),
    right: &(Vec<Option<V>>, R),
    keys: &[OrderKey],
) -> (ordering: Ordering)
    requires
        comparable::<V>(),
        comparable::<R>(),
    ensures
        ordering == keyed_order((left.0@, left.1), (right.0@, right.1), keys@),
{
    let mut i: usize = 0;
    while i < left.0.len() && i < right.0.len() && i < keys.len()
        invariant
            comparable::<V>(),
            values_order(left.0@, right.0@, keys@, 0) == values_order(
                left.0@,
                right.0@,
                keys@,
                position(i),
            ),
        decreases keys@.len() - i,
    {
        let ordering = match (&left.0[i], &right.0[i]) {
            (Some(left), Some(right)) => left.cmp(right),
            (Some(_), None) => Ordering::Greater,
            (None, Some(_)) => Ordering::Less,
            (None, None) => Ordering::Equal,
        };
        match (ordering, keys[i].order) {
            (Ordering::Equal, _) => {},
            (_, Order::Asc) => {
                return ordering;
            },
            (Ordering::Less, Order::Desc) => {
                return Ordering::Greater;
            },
            (Ordering::Greater, Order::Desc) => {
                return Ordering::Less;
            },
        }
        i += 1;
    }
    left.1.cmp(&right.1)
}

/// `direct` is what two comparisons in a row leave no choice about: an equal
/// step changes nothing, and two steps the same way go on that way.
pub open spec fn composes(first: Ordering, second: Ordering, direct: Ordering) -> bool {
    &&& first == Ordering::Equal ==> direct == second
    &&& second == Ordering::Equal ==> direct == first
    &&& first == second ==> direct == first
}

/// A list of values has one for every key.
pub open spec fn covers<V>(values: Seq<Option<V>>, keys: Seq<OrderKey>) -> bool {
    values.len() >= keys.len()
}

/// A total order can be compared by.
pub proof fn total_order_is_comparable<T: Ord>()
    requires
        totally_ordered::<T>(),
    ensures
        comparable::<T>(),
{
    reveal(vstd::laws_cmp::obeys_cmp_ord);
}

/// What a total order says of three of its values.
proof fn lemma_total_order<T: Ord>(x: T, y: T, z: T)
    requires
        totally_ordered::<T>(),
    ensures
        comparable::<T>(),
        x.cmp_spec(&x) == Ordering::Equal,
        y.cmp_spec(&x) == flipped(x.cmp_spec(&y)),
        composes(x.cmp_spec(&y), y.cmp_spec(&z), x.cmp_spec(&z)),
{
    reveal(vstd::laws_eq::obeys_eq_spec_properties);
    reveal(vstd::laws_cmp::obeys_partial_cmp_spec_properties);
    reveal(vstd::laws_cmp::obeys_cmp_partial_ord);
    reveal(vstd::laws_cmp::obeys_cmp_ord);
    assert(x.partial_cmp_spec(&x) == Some(x.cmp_spec(&x)));
    assert(x.partial_cmp_spec(&y) == Some(x.cmp_spec(&y)));
    assert(y.partial_cmp_spec(&x) == Some(y.cmp_spec(&x)));
    assert(y.partial_cmp_spec(&z) == Some(y.cmp_spec(&z)));
    assert(z.partial_cmp_spec(&y) == Some(z.cmp_spec(&y)));
    assert(x.partial_cmp_spec(&z) == Some(x.cmp_spec(&z)));
    assert(z.partial_cmp_spec(&x) == Some(z.cmp_spec(&x)));
}

/// What the order of optional values says of three of them.
proof fn lemma_value_order<V: Ord>(x: Option<V>, y: Option<V>, z: Option<V>)
    requires
        totally_ordered::<V>(),
    ensures
        value_order(x, x) == Ordering::Equal,
        value_order(y, x) == flipped(value_order(x, y)),
        composes(value_order(x, y), value_order(y, z), value_order(x, z)),
{
    if let (Some(a), Some(b)) = (x, y) {
        lemma_total_order(a, b, a);
    }
    if let (Some(a), Some(b)) = (y, z) {
        lemma_total_order(a, b, a);
    }
    if let (Some(a), Some(b), Some(c)) = (x, y, z) {
        lemma_total_order(a, b, c);
    }
    if let Some(a) = x {
        lemma_total_order(a, a, a);
    }
}

proof fn lemma_values_order_flips<V: Ord>(
    left: Seq<Option<V>>,
    right: Seq<Option<V>>,
    keys: Seq<OrderKey>,
    from: int,
)
    requires
        totally_ordered::<V>(),
    ensures
        values_order(left, left, keys, from) == Ordering::Equal,
        values_order(right, left, keys, from) == flipped(values_order(left, right, keys, from)),
    decreases keys.len() - from,
{
    if 0 <= from < keys.len() {
        lemma_values_order_flips(left, right, keys, from + 1);
        lemma_value_order(left[from], right[from], left[from]);
    }
}

proof fn lemma_values_order_composes<V: Ord>(
    x: Seq<Option<V>>,
    y: Seq<Option<V>>,
    z: Seq<Option<V>>,
    keys: Seq<OrderKey>,
    from: int,
)
    requires
        totally_ordered::<V>(),
        covers(x, keys),
        covers(y, keys),
        covers(z, keys),
    ensures
        composes(
            values_order(x, y, keys, from),
            values_order(y, z, keys, from),
            values_order(x, z, keys, from),
        ),
    decreases keys.len() - from,
{
    if 0 <= from < keys.len() {
        lemma_values_order_composes(x, y, z, keys, from + 1);
        lemma_value_order(x[from], y[from], z[from]);
    }
}

/// A keyed row compares equal to itself.
pub proof fn keyed_order_is_reflexive<V: Ord, R: Ord>(
    keyed: (Seq<Option<V>>, R),
    keys: Seq<OrderKey>,
)
    requires
        totally_ordered::<V>(),
        totally_ordered::<R>(),
    ensures
        keyed_order(keyed, keyed, keys) == Ordering::Equal,
{
    lemma_values_order_flips(keyed.0, keyed.0, keys, 0);
    lemma_total_order(keyed.1, keyed.1, keyed.1);
}

/// Exchanging the two keyed rows exchanges the outcome, however many values
/// each of them has.
pub proof fn keyed_order_flips<V: Ord, R: Ord>(
    left: (Seq<Option<V>>, R),
    right: (Seq<Option<V>>, R),
    keys: Seq<OrderKey>,
)
    requires
        totally_ordered::<V>(),
        totally_ordered::<R>(),
    ensures
        keyed_order(right, left, keys) == flipped(keyed_order(left, right, keys)),
        keyed_order(left, right, keys) == Ordering::Less <==> keyed_order(right, left, keys)
            == Ordering::Greater,
        keyed_order(left, right, keys) == Ordering::Equal <==> keyed_order(right, left, keys)
            == Ordering::Equal,
{
    lemma_values_order_flips(left.0, right.0, keys, 0);
    lemma_total_order(left.1, right.1, left.1);
}

/// The comparison is transitive among keyed rows that have a value for every
/// key.
pub proof fn keyed_order_is_transitive<V: Ord, R: Ord>(
    x: (Seq<Option<V>>, R),
    y: (Seq<Option<V>>, R),
    z: (Seq<Option<V>>, R),
    keys: Seq<OrderKey>,
)
    requires
        totally_ordered::<V>(),
        totally_ordered::<R>(),
        covers(x.0, keys),
        covers(y.0, keys),
        covers(z.0, keys),
    ensures
        composes(keyed_order(x, y, keys), keyed_order(y, z, keys), keyed_order(x, z, keys)),
        keyed_order(x, y, keys) == keyed_order(y, z, keys) ==> keyed_order(x, z, keys)
            == keyed_order(x, y, keys),
        keyed_order(x, y, keys) == Ordering::Equal ==> keyed_order(x, z, keys) == keyed_order(
            y,
            z,
            keys,
        ),
        keyed_order(y, z, keys) == Ordering::Equal ==> keyed_order(x, z, keys) == keyed_order(
            x,
            y,
            keys,
        ),
{
    lemma_values_order_composes(x.0, y.0, z.0, keys, 0);
    lemma_total_order(x.1, y.1, z.1);
}

proof fn lemma_values_order_skips_ties<V: Ord>(
    left: Seq<Option<V>>,
    right: Seq<Option<V>>,
    keys: Seq<OrderKey>,
    from: int,
    at: int,
)
    requires
        0 <= from <= at,
        at <= left.len(),
        at <= right.len(),
        at <= keys.len(),
        forall|i: int|
            from <= i < at ==> value_order(#[trigger] left[i], right[i]) == Ordering::Equal,
    ensures
        values_order(left, right, keys, from) == values_order(left, right, keys, at),
    decreases at - from,
{
    if from < at {
        lemma_values_order_skips_ties(left, right, keys, from + 1, at);
    }
}

/// The first key whose values differ decides alone, in its own direction; no
/// later key and no row is looked at.
pub proof fn first_difference_decides<V: Ord, R: Ord>(
    left: (Seq<Option<V>>, R),
    right: (Seq<Option<V>>, R),
    keys: Seq<OrderKey>,
    at: int,
)
    requires
        0 <= at < left.0.len(),
        at < right.0.len(),
        at < keys.len(),
        forall|i: int|
            0 <= i < at ==> value_order(#[trigger] left.0[i], right.0[i]) == Ordering::Equal,
        value_order(left.0[at], right.0[at]) != Ordering::Equal,
    ensures
        keyed_order(left, right, keys) == directed(
            value_order(left.0[at], right.0[at]),
            keys[at].order,
        ),
{
    lemma_values_order_skips_ties(left.0, right.0, keys, 0, at);
}

proof fn lemma_values_order_ties<V: Ord>(
    left: Seq<Option<V>>,
    right: Seq<Option<V>>,
    keys: Seq<OrderKey>,
    from: int,
)
    requires
        0 <= from,
        forall|i: int|
            from <= i < left.len() && i < right.len() && i < keys.len() ==> value_order(
                #[trigger] left[i],
                right[i],
            ) == Ordering::Equal,
    ensures
        values_order(left, right, keys, from) == Ordering::Equal,
    decreases keys.len() - from,
{
    if from < left.len() && from < right.len() && from < keys.len() {
        lemma_values_order_ties(left, right, keys, from + 1);
    }
}

/// Where the values tie on every key, the rows decide, and no direction
/// reverses them.
pub proof fn rows_break_ties<V: Ord, R: Ord>(
    left: (Seq<Option<V>>, R),
    right: (Seq<Option<V>>, R),
    keys: Seq<OrderKey>,
)
    requires
        forall|i: int|
            0 <= i < left.0.len() && i < right.0.len() && i < keys.len() ==> value_order(
                #[trigger] left.0[i],
                right.0[i],
            ) == Ordering::Equal,
    ensures
        keyed_order(left, right, keys) == left.1.cmp_spec(&right.1),
{
    lemma_values_order_ties(left.0, right.0, keys, 0);
}

/// Two keyed rows compare equal only where their rows do.
pub proof fn equal_keyed_rows_have_equal_rows<V: Ord, R: Ord>(
    left: (Seq<Option<V>>, R),
    right: (Seq<Option<V>>, R),
    keys: Seq<OrderKey>,
)
    requires
        keyed_order(left, right, keys) == Ordering::Equal,
    ensures
        left.1.cmp_spec(&right.1) == Ordering::Equal,
{
}

/// At the first key on which they differ, a row without a value comes before
/// every row with one if the key is ascending, and after it if descending.
pub proof fn missing_values_lead_ascending_keys<V: Ord, R: Ord>(
    left: (Seq<Option<V>>, R),
    right: (Seq<Option<V>>, R),
    keys: Seq<OrderKey>,
    at: int,
)
    requires
        0 <= at < left.0.len(),
        at < right.0.len(),
        at < keys.len(),
        forall|i: int|
            0 <= i < at ==> value_order(#[trigger] left.0[i], right.0[i]) == Ordering::Equal,
        left.0[at] is None,
        right.0[at] is Some,
    ensures
        keyed_order(left, right, keys) == match keys[at].order {
            Order::Asc => Ordering::Less,
            Order::Desc => Ordering::Greater,
        },
{
    first_difference_decides(left, right, keys, at);
}

/// Two values of one property that are both there compare as they do by
/// themselves: where two keyed rows tie before a key and have differing values
/// for it, an ascending key orders them as their values, and a descending key
/// the other way round.
pub proof fn present_values_decide<V: Ord, R: Ord>(
    left: (Seq<Option<V>>, R),
    right: (Seq<Option<V>>, R),
    keys: Seq<OrderKey>,
    at: int,
    a: V,
    b: V,
)
    requires
        0 <= at < left.0.len(),
        at < right.0.len(),
        at < keys.len(),
        forall|i: int|
            0 <= i < at ==> match (#[trigger] left.0[i], right.0[i]) {
                (Some(a), Some(b)) => a.cmp_spec(&b) == Ordering::Equal,
                (None, None) => true,
                _ => false,
            },
        left.0[at] == Some(a),
        right.0[at] == Some(b),
        a.cmp_spec(&b) != Ordering::Equal,
    ensures
        keys[at].order == Order::Asc ==> keyed_order(left, right, keys) == a.cmp_spec(&b),
        keys[at].order == Order::Desc && a.cmp_spec(&b) == Ordering::Less ==> keyed_order(
            left,
            right,
            keys,
        ) == Ordering::Greater,
        keys[at].order == Order::Desc && a.cmp_spec(&b) == Ordering::Greater ==> keyed_order(
            left,
            right,
            keys,
        ) == Ordering::Less,
{
    lemma_values_order_skips_ties(left.0, right.0, keys, 0, at);
}

/// Where two keyed rows tie before a key and only one of them has a value for
/// it, the one without comes first if the key is ascending, and last if
/// descending, on whichever side it stands.
pub proof fn missing_value_decides<V: Ord, R: Ord>(
    left: (Seq<Option<V>>, R),
    right: (Seq<Option<V>>, R),
    keys: Seq<OrderKey>,
    at: int,
)
    requires
        0 <= at < left.0.len(),
        at < right.0.len(),
        at < keys.len(),
        forall|i: int|
            0 <= i < at ==> match (#[trigger] left.0[i], right.0[i]) {
                (Some(a), Some(b)) => a.cmp_spec(&b) == Ordering::Equal,
                (None, None) => true,
                _ => false,
            },
        left.0[at] is None <==> right.0[at] is Some,
    ensures
        keyed_order(left, right, keys) == Ordering::Less <==> (left.0[at] is None <==> keys[at].order
            == Order::Asc),
        keyed_order(left, right, keys) != Ordering::Equal,
{
    lemma_values_order_skips_ties(left.0, right.0, keys, 0, at);
}

/// Where no key tells two keyed rows apart, they compare as their rows do by
/// themselves, whatever the keys.
pub proof fn rows_decide_where_no_value_does<V: Ord, R: Ord>(
    left: (Seq<Option<V>>, R),
    right: (Seq<Option<V>>, R),
    keys: Seq<OrderKey>,
)
    requires
        forall|i: int|
            0 <= i < left.0.len() && i < right.0.len() && i < keys.len() ==> match (
                #[trigger] left.0[i],
                right.0[i],
            ) {
                (Some(a), Some(b)) => a.cmp_spec(&b) == Ordering::Equal,
                (None, None) => true,
                _ => false,
            },
    ensures
        keyed_order(left, right, keys) == left.1.cmp_spec(&right.1),
{
    rows_break_ties(left, right, keys);
}

/// Turning the direction of every key around turns the outcome around wherever
/// some key tells the two keyed rows apart.
pub proof fn opposite_directions_give_opposite_outcomes<V: Ord, R: Ord>(
    left: (Seq<Option<V>>, R),
    right: (Seq<Option<V>>, R),
    keys: Seq<OrderKey>,
    opposite: Seq<OrderKey>,
    at: int,
)
    requires
        0 <= at < left.0.len(),
        at < right.0.len(),
        at < keys.len(),
        opposite.len() == keys.len(),
        forall|i: int| 0 <= i < keys.len() ==> (#[trigger] keys[i]).order != opposite[i].order,
        forall|i: int|
            0 <= i < at ==> match (#[trigger] left.0[i], right.0[i]) {
                (Some(a), Some(b)) => a.cmp_spec(&b) == Ordering::Equal,
                (None, None) => true,
                _ => false,
            },
        match (left.0[at], right.0[at]) {
            (Some(a), Some(b)) => a.cmp_spec(&b) != Ordering::Equal,
            (None, None) => false,
            _ => true,
        },
    ensures
        keyed_order(left, right, keys) == Ordering::Less <==> keyed_order(left, right, opposite)
            == Ordering::Greater,
        keyed_order(left, right, keys) == Ordering::Greater <==> keyed_order(left, right, opposite)
            == Ordering::Less,
{
    lemma_values_order_skips_ties(left.0, right.0, keys, 0, at);
    lemma_values_order_skips_ties(left.0, right.0, opposite, 0, at);
    assert(keys[at].order != opposite[at].order);
}

/// What the library asks of an order is what `Ord` promises, and no more.
pub proof fn orders_are_those_of_ord<T: Ord>()
    ensures
        comparable::<T>() <==> T::obeys_cmp_spec(),
        totally_ordered::<T>() <==> obeys_cmp::<T>(),
{
}

} // verus!
