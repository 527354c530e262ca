use std::cmp::Ordering;

use helix_interpreter::order_keys::{compare_order_keys, Order, OrderKey};

type Keyed = (Vec<Option<i64>>, u64);

fn key(order: Order) -> OrderKey {
    OrderKey {
        property: "score".to_string(),
        order,
    }
}

#[test]
fn compare_order_keys_places_missing_values_first_for_ascending() {
    let keys = [key(Order::Asc)];
    assert_eq!(
        compare_order_keys(&(vec![None], 1), &(vec![Some(1_i64)], 2), &keys),
        Ordering::Less
    );
    assert_eq!(
        compare_order_keys(&(vec![None::<i64>], 2), &(vec![None], 1), &keys),
        Ordering::Greater
    );
}

#[test]
fn compare_order_keys_reverses_value_direction_for_descending() {
    let keys = [key(Order::Desc)];
    assert_eq!(
        compare_order_keys(&(vec![Some(1_i64)], 1), &(vec![Some(2)], 2), &keys),
        Ordering::Greater
    );
}

#[test]
fn missing_values_come_last_for_descending() {
    let keys = [key(Order::Desc)];
    let missing: Keyed = (vec![None], 1);
    let present: Keyed = (vec![Some(i64::MIN)], 2);
    assert_eq!(compare_order_keys(&missing, &present, &keys), Ordering::Greater);
    assert_eq!(compare_order_keys(&present, &missing, &keys), Ordering::Less);
}

#[test]
fn the_row_tie_break_is_not_reversed_by_descending_keys() {
    let keys = [key(Order::Desc), key(Order::Desc)];
    let left: Keyed = (vec![Some(4), None], 1);
    let right: Keyed = (vec![Some(4), None], 2);
    assert_eq!(compare_order_keys(&left, &right, &keys), Ordering::Less);
    assert_eq!(compare_order_keys(&right, &left, &keys), Ordering::Greater);
    assert_eq!(compare_order_keys(&left, &left, &keys), Ordering::Equal);
}

#[test]
fn the_first_key_that_differs_decides() {
    let keys = [key(Order::Asc), key(Order::Desc), key(Order::Asc)];
    let left: Keyed = (vec![Some(1), Some(5), Some(9)], 9);
    let right: Keyed = (vec![Some(1), Some(3), Some(0)], 0);
    assert_eq!(compare_order_keys(&left, &right, &keys), Ordering::Less);
}

#[test]
fn positions_that_one_list_lacks_are_not_compared() {
    let keys = [key(Order::Asc), key(Order::Asc)];
    let short: Keyed = (vec![], 1);
    let long: Keyed = (vec![Some(-7), Some(0)], 2);
    assert_eq!(compare_order_keys(&long, &short, &keys), Ordering::Greater);
    assert_eq!(compare_order_keys(&short, &long, &keys), Ordering::Less);

    let no_keys: [OrderKey; 0] = [];
    let other: Keyed = (vec![Some(8)], 3);
    assert_eq!(compare_order_keys(&other, &long, &no_keys), Ordering::Greater);
}

#[test]
fn comparing_is_a_total_order_on_rows_with_all_values() {
    let keys = [key(Order::Asc), key(Order::Desc)];
    let values = [None, Some(-1), Some(2)];
    let mut all: Vec<Keyed> = Vec::new();
    for first in values {
        for second in values {
            for row in [1, 2] {
                all.push((vec![first, second], row));
            }
        }
    }
    for x in &all {
        assert_eq!(compare_order_keys(x, x, &keys), Ordering::Equal);
        for y in &all {
            let forward = compare_order_keys(x, y, &keys);
            assert_eq!(compare_order_keys(y, x, &keys), forward.reverse());
            if forward == Ordering::Equal {
                assert_eq!(x.1, y.1);
            }
            for z in &all {
                if forward == compare_order_keys(y, z, &keys) {
                    assert_eq!(compare_order_keys(x, z, &keys), forward);
                }
            }
        }
    }
}
