use std::cmp::Ordering;

use helix_interpreter::order::{order, OrderPlan, OrderStep};
use helix_interpreter::order_keys::{compare_order_keys, Order, OrderKey};
use helix_interpreter::sort::sort_keyed_rows;

#[derive(Debug, Clone, PartialEq, Eq, PartialOrd, Ord)]
enum Value {
    I64(i64),
    String(String),
}

/// A row that compares by its id alone, so that equal rows can be told apart.
#[derive(Debug, Clone, Copy)]
struct Tagged {
    id: u64,
    tag: u32,
}

impl PartialEq for Tagged {
    fn eq(&self, other: &Self) -> bool {
        self.id == other.id
    }
}

impl Eq for Tagged {}

impl PartialOrd for Tagged {
    fn partial_cmp(&self, other: &Self) -> Option<Ordering> {
        Some(self.cmp(other))
    }
}

impl Ord for Tagged {
    fn cmp(&self, other: &Self) -> Ordering {
        self.id.cmp(&other.id)
    }
}

fn key(property: &str, order: Order) -> OrderKey {
    OrderKey {
        property: property.to_string(),
        order,
    }
}

/// What a run asked for: a deadline check, or a read of a row's property.
#[derive(Debug, Clone, PartialEq)]
enum Asked {
    Check,
    Read { row: u64, property: String, fresh: bool },
}

/// Drives an ordering of node ids. `fail_at` makes the request of that number
/// fail with that number.
fn run<V: Ord>(
    rows: Result<Vec<u64>, usize>,
    plan: &OrderPlan,
    fail_at: Option<usize>,
    property: impl Fn(u64, &str) -> Option<V>,
) -> (Result<Vec<u64>, usize>, Vec<Asked>) {
    let mut asked = Vec::new();
    let mut step: OrderStep<V, u64, usize> = order(rows, plan);
    loop {
        let number = asked.len();
        let failed = fail_at == Some(number);
        step = match step {
            OrderStep::CheckDeadline(check) => {
                asked.push(Asked::Check);
                check.resume(if failed { Err(number) } else { Ok(()) })
            }
            OrderStep::ReadProperty(read) => {
                let (row, name) = (*read.row(), read.key().property.clone());
                let value = property(row, &name);
                asked.push(Asked::Read {
                    row,
                    property: name,
                    fresh: read.starts_row(),
                });
                read.resume(if failed { Err(number) } else { Ok(value) })
            }
            OrderStep::Done(outcome) => return (outcome, asked),
        };
    }
}

#[test]
fn explicit_sort_decodes_each_rows_property_blob_once_regardless_of_key_count() {
    let id = 1;
    let plan = OrderPlan::ExplicitSort(vec![key("score", Order::Asc), key("name", Order::Asc)]);
    let mut property_gets = 0;
    let mut blob: Vec<(&str, Value)> = Vec::new();
    let mut step: OrderStep<Value, u64, ()> = order(Ok(vec![id]), &plan);
    let outcome = loop {
        step = match step {
            OrderStep::CheckDeadline(check) => check.resume(Ok(())),
            OrderStep::ReadProperty(read) => {
                if read.starts_row() {
                    property_gets += 1;
                    blob = vec![
                        ("score", Value::I64(1)),
                        ("name", Value::String("ada".to_string())),
                    ];
                }
                let wanted = read.key().property.as_str();
                let value = blob
                    .iter()
                    .find(|(name, _)| *name == wanted)
                    .map(|(_, value)| value.clone());
                assert!(value.is_some());
                read.resume(Ok(value))
            }
            OrderStep::Done(outcome) => break outcome,
        };
    };

    assert_eq!(outcome, Ok(vec![id]));
    assert_eq!(property_gets, 1);
}

#[test]
fn range_index_order_preserves_access_order() {
    let plan = OrderPlan::RangeIndex {
        key: key("score", Order::Asc),
        index_id: "node_range:Metric:score".to_string(),
    };

    let (outcome, asked) = run::<i64>(Ok(vec![2, 1]), &plan, None, |_, _| None);
    assert_eq!(outcome, Ok(vec![2, 1]));
    assert!(asked.is_empty());
}

#[test]
fn a_failed_stream_is_handed_on_whatever_the_plan() {
    let sort = OrderPlan::ExplicitSort(vec![key("score", Order::Asc)]);
    let index = OrderPlan::RangeIndex {
        key: key("score", Order::Asc),
        index_id: "node_range:Metric:score".to_string(),
    };
    for plan in [&sort, &index] {
        let (outcome, asked) = run::<i64>(Err(77), plan, None, |_, _| None);
        assert_eq!(outcome, Err(77));
        assert!(asked.is_empty());
    }
}

fn sample(row: u64, property: &str) -> Option<i64> {
    match (row, property) {
        (10, "score") => Some(5),
        (20, "score") => Some(7),
        (30, "score") => None,
        (40, "score") => Some(5),
        (10, "rank") => Some(1),
        (40, "rank") => Some(2),
        _ => None,
    }
}

#[test]
fn explicit_sort_orders_rows_by_the_values_read() {
    let by_score = OrderPlan::ExplicitSort(vec![key("score", Order::Asc)]);
    let (outcome, _) = run(Ok(vec![40, 20, 30, 10]), &by_score, None, sample);
    assert_eq!(outcome, Ok(vec![30, 10, 40, 20]));

    let mixed = OrderPlan::ExplicitSort(vec![key("score", Order::Desc), key("rank", Order::Desc)]);
    let (outcome, _) = run(Ok(vec![10, 20, 30, 40]), &mixed, None, sample);
    assert_eq!(outcome, Ok(vec![20, 40, 10, 30]));
}

#[test]
fn explicit_sort_ignores_the_incoming_order() {
    let plan = OrderPlan::ExplicitSort(vec![key("score", Order::Asc), key("rank", Order::Desc)]);
    let (expected, _) = run(Ok(vec![10, 20, 30, 40]), &plan, None, sample);
    for rows in [vec![40, 30, 20, 10], vec![20, 10, 40, 30], vec![30, 40, 10, 20]] {
        let (outcome, _) = run(Ok(rows), &plan, None, sample);
        assert_eq!(outcome, expected);
    }
    assert_eq!(expected, Ok(vec![30, 40, 10, 20]));
}

#[test]
fn explicit_sort_checks_and_reads_row_by_row_and_key_by_key() {
    let plan = OrderPlan::ExplicitSort(vec![key("score", Order::Asc), key("rank", Order::Asc)]);
    let (outcome, asked) = run(Ok(vec![20, 10]), &plan, None, sample);
    let read = |row: u64, property: &str, fresh: bool| Asked::Read {
        row,
        property: property.to_string(),
        fresh,
    };

    assert_eq!(outcome, Ok(vec![10, 20]));
    assert_eq!(
        asked,
        vec![
            Asked::Check,
            Asked::Check,
            read(20, "score", true),
            Asked::Check,
            read(20, "rank", false),
            Asked::Check,
            Asked::Check,
            read(10, "score", true),
            Asked::Check,
            read(10, "rank", false),
        ]
    );
}

#[test]
fn the_first_failed_request_is_the_outcome() {
    let plan = OrderPlan::ExplicitSort(vec![key("score", Order::Asc), key("rank", Order::Asc)]);
    let (_, all) = run(Ok(vec![20, 10]), &plan, None, sample);
    for failing in 0..all.len() {
        let (outcome, asked) = run(Ok(vec![20, 10]), &plan, Some(failing), sample);
        assert_eq!(outcome, Err(failing));
        assert_eq!(asked, all[..failing + 1].to_vec());
    }
    let (outcome, _) = run(Ok(vec![20, 10]), &plan, Some(all.len()), sample);
    assert_eq!(outcome, Ok(vec![10, 20]));
}

#[test]
fn an_empty_stream_is_ordered_without_a_request() {
    let plan = OrderPlan::ExplicitSort(vec![key("score", Order::Asc)]);
    let (outcome, asked) = run(Ok(vec![]), &plan, Some(0), sample);
    assert_eq!(outcome, Ok(vec![]));
    assert!(asked.is_empty());
}

#[test]
fn a_sort_without_keys_orders_by_the_rows_and_still_checks_the_deadline() {
    let plan = OrderPlan::ExplicitSort(vec![]);
    let (outcome, asked) = run(Ok(vec![3, 1, 2]), &plan, None, sample);
    assert_eq!(outcome, Ok(vec![1, 2, 3]));
    assert_eq!(asked, vec![Asked::Check, Asked::Check, Asked::Check]);
}

#[test]
fn rows_that_compare_equal_keep_their_order() {
    let keys = [key("score", Order::Desc)];
    let keyed: Vec<(Vec<Option<i64>>, Tagged)> = vec![
        (vec![Some(1)], Tagged { id: 7, tag: 0 }),
        (vec![Some(2)], Tagged { id: 7, tag: 1 }),
        (vec![Some(1)], Tagged { id: 7, tag: 2 }),
        (vec![Some(1)], Tagged { id: 5, tag: 3 }),
        (vec![Some(2)], Tagged { id: 7, tag: 4 }),
    ];
    let tags: Vec<u32> = sort_keyed_rows(keyed, &keys).iter().map(|row| row.tag).collect();
    assert_eq!(tags, vec![1, 4, 3, 0, 2]);
}

#[test]
fn sorting_agrees_with_a_stable_sort_by_the_comparison() {
    let keys = [key("a", Order::Asc), key("b", Order::Desc)];
    let mut seed: u64 = 42;
    let mut draw = |bound: u64| {
        seed = seed.wrapping_mul(6364136223846793005).wrapping_add(1442695040888963407);
        (seed >> 33) % bound
    };
    for length in 0..60 {
        let mut keyed: Vec<(Vec<Option<i64>>, Tagged)> = Vec::new();
        for tag in 0..length {
            let mut values = Vec::new();
            for _ in 0..2 {
                let value = draw(4);
                values.push(if value == 0 { None } else { Some(value as i64) });
            }
            keyed.push((values, Tagged { id: draw(3), tag }));
        }
        let mut expected = keyed.clone();
        expected.sort_by(|left, right| compare_order_keys(left, right, &keys));
        let expected: Vec<u32> = expected.iter().map(|(_, row)| row.tag).collect();
        let sorted: Vec<u32> = sort_keyed_rows(keyed, &keys).iter().map(|row| row.tag).collect();
        assert_eq!(sorted, expected);
    }
}

#[test]
fn sorted_input_is_delivered_as_it_is() {
    let keys = [key("score", Order::Asc)];
    let keyed: Vec<(Vec<Option<i64>>, u64)> =
        vec![(vec![None], 9), (vec![Some(1)], 4), (vec![Some(1)], 5), (vec![Some(3)], 0)];
    assert_eq!(sort_keyed_rows(keyed, &keys), vec![9, 4, 5, 0]);
}

#[test]
fn sorting_twice_delivers_what_sorting_once_does_and_keeps_every_row() {
    let plan = OrderPlan::ExplicitSort(vec![key("score", Order::Desc)]);
    let (once, _) = run(Ok(vec![20, 30, 10, 40, 30]), &plan, None, sample);
    let (twice, _) = run(once.clone(), &plan, None, sample);
    assert_eq!(once, Ok(vec![20, 10, 40, 30, 30]));
    assert_eq!(twice, once);
}
