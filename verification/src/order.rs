//! Ordering a stream of rows.
//!
//! A stream that a range index already delivers in order is left as it is. An
//! explicit sort has to read one property per row and key first, and to check
//! the execution deadline along the way. Reading and checking are not done
//! here: [`order`] and the two `resume` methods say what has to be done next,
//! and take its outcome.

use vstd::laws_cmp::obeys_cmp;
use vstd::prelude::*;

use crate::order_keys::{totally_ordered, OrderKey};
use crate::sort::sort_keyed_rows;
use crate::stable_order::{keyed_rows, sorted_rows, sorted_rows_are_a_stable_sort};

verus! {

/// How a stream comes to be ordered.
#[derive(Debug)]
pub enum OrderPlan {
    /// Read the properties that the keys name, and sort by them.
    ExplicitSort(Vec<OrderKey>),
    /// The access path reads a range index, which delivers the rows in order.
    RangeIndex { key: OrderKey, index_id: String },
}

/// How far an explicit sort has come.
#[verifier::ext_equal]
pub struct SortProgress<V, R> {
    /// The rows, each with the values read for it so far.
    pub keyed: Seq<(Seq<Option<V>>, R)>,
    pub keys: Seq<OrderKey>,
    /// The row that is being read.
    pub current: int,
    /// Whether the deadline has been checked for this row.
    pub in_row: bool,
}

impl<V, R> SortProgress<V, R> {
    /// The key that the current row has no value for yet.
    pub open spec fn next_key(self) -> int {
        self.keyed[self.current].0.len() as int
    }

    /// The rows before the current one have a value for every key, and those
    /// after it have none.
    pub open spec fn rows_in_turn(self) -> bool {
        &&& 0 <= self.current <= self.keyed.len()
        &&& forall|i: int|
            0 <= i < self.current ==> (#[trigger] self.keyed[i]).0.len() == self.keys.len()
        &&& forall|i: int|
            self.current < i < self.keyed.len() ==> (#[trigger] self.keyed[i]).0.len() == 0
    }

    /// Nothing has been read of the current row, if there is one.
    pub open spec fn before_row(self) -> bool {
        &&& self.rows_in_turn()
        &&& self.current < self.keyed.len() ==> self.next_key() == 0
    }

    /// There is a current row, and it has no more values than there are keys.
    pub open spec fn inside_row(self) -> bool {
        &&& self.rows_in_turn()
        &&& self.current < self.keyed.len()
        &&& self.next_key() <= self.keys.len()
    }

    /// There is a current row with something left to be done for it.
    pub open spec fn valid(self) -> bool {
        &&& self.inside_row()
        &&& if self.in_row {
            self.next_key() < self.keys.len()
        } else {
            self.next_key() == 0
        }
    }
}

/// What has to be done next: check the deadline, read a property of the
/// current row, or nothing more.
#[verifier::ext_equal]
pub enum NextStep<V, R, E> {
    CheckDeadline(SortProgress<V, R>),
    ReadProperty(SortProgress<V, R>),
    Done(Result<Seq<R>, E>),
}

/// Going on with the current row: the deadline is checked before each row, and
/// after the last row the rows are sorted.
pub open spec fn enter_row<V: Ord, R: Ord, E>(progress: SortProgress<V, R>) -> NextStep<V, R, E> {
    if progress.current < progress.keyed.len() {
        NextStep::CheckDeadline(SortProgress { in_row: false, ..progress })
    } else {
        NextStep::Done(Ok(sorted_rows(progress.keyed, progress.keys)))
    }
}

/// Going on with the next key of the current row: the deadline is checked
/// before each key, and after the last key comes the next row.
pub open spec fn enter_key<V: Ord, R: Ord, E>(progress: SortProgress<V, R>) -> NextStep<V, R, E> {
    if progress.next_key() < progress.keys.len() {
        NextStep::CheckDeadline(SortProgress { in_row: true, ..progress })
    } else {
        enter_row(SortProgress { current: progress.current + 1, ..progress })
    }
}

/// The first step of ordering `rows`.
pub open spec fn first_step<V: Ord, R: Ord, E>(
    rows: Result<Seq<R>, E>,
    plan: OrderPlan,
) -> NextStep<V, R, E> {
    match (rows, plan) {
        (Err(error), _) => NextStep::Done(Err(error)),
        (Ok(rows), OrderPlan::RangeIndex { .. }) => NextStep::Done(Ok(rows)),
        (Ok(rows), OrderPlan::ExplicitSort(keys)) => enter_row(
            SortProgress {
                keyed: rows.map_values(|row: R| (Seq::<Option<V>>::empty(), row)),
                keys: keys@,
                current: 0,
                in_row: false,
            },
        ),
    }
}

/// The step after a deadline check.
pub open spec fn step_after_check<V: Ord, R: Ord, E>(
    progress: SortProgress<V, R>,
    outcome: Result<(), E>,
) -> NextStep<V, R, E> {
    match outcome {
        Err(error) => NextStep::Done(Err(error)),
        Ok(_) => if progress.in_row {
            NextStep::ReadProperty(progress)
        } else {
            enter_key(progress)
        },
    }
}

/// `progress` with one more value for the current row.
pub open spec fn with_value<V, R>(progress: SortProgress<V, R>, value: Option<V>) -> SortProgress<
    V,
    R,
> {
    let (values, row) = progress.keyed[progress.current];
    SortProgress {
        keyed: progress.keyed.update(progress.current, (values.push(value), row)),
        ..progress
    }
}

/// The step after reading a property.
pub open spec fn step_after_read<V: Ord, R: Ord, E>(
    progress: SortProgress<V, R>,
    outcome: Result<Option<V>, E>,
) -> NextStep<V, R, E> {
    match outcome {
        Err(error) => NextStep::Done(Err(error)),
        Ok(value) => enter_key(with_value(progress, value)),
    }
}

/// The state of an explicit sort.
#[derive(Debug)]
struct SortState<'k, V, R> {
    keyed: Vec<(Vec<Option<V>>, R)>,
    keys: &'k [OrderKey],
    current: usize,
    in_row: bool,
}

impl<'k, V, R> View for SortState<'k, V, R> {
    type V = SortProgress<V, R>;

    closed spec fn view(&self) -> SortProgress<V, R> {
        SortProgress {
            keyed: keyed_rows(self.keyed@),
            keys: self.keys@,
            current: self.current as int,
            in_row: self.in_row,
        }
    }
}

/// An explicit sort that waits for a deadline check.
#[derive(Debug)]
pub struct DeadlineCheck<'k, V, R> {
    state: SortState<'k, V, R>,
}

impl<'k, V, R> View for DeadlineCheck<'k, V, R> {
    type V = SortProgress<V, R>;

    closed spec fn view(&self) -> SortProgress<V, R> {
        self.state@
    }
}

/// An explicit sort that waits for one property of one row.
#[derive(Debug)]
pub struct PropertyRead<'k, V, R> {
    state: SortState<'k, V, R>,
}

impl<'k, V, R> View for PropertyRead<'k, V, R> {
    type V = SortProgress<V, R>;

    closed spec fn view(&self) -> SortProgress<V, R> {
        self.state@
    }
}

/// What ordering a stream needs next.
#[derive(Debug)]
pub enum OrderStep<'k, V, R, E> {
    /// Check the execution deadline, and resume with the outcome.
    CheckDeadline(DeadlineCheck<'k, V, R>),
    /// Read the named property of the row, and resume with the outcome.
    ReadProperty(PropertyRead<'k, V, R>),
    /// The ordered rows, or the error that stopped the ordering.
    Done(Result<Vec<R>, E>),
}

impl<'k, V, R, E> View for OrderStep<'k, V, R, E> {
    type V = NextStep<V, R, E>;

    open spec fn view(&self) -> NextStep<V, R, E> {
        match *self {
            OrderStep::CheckDeadline(check) => NextStep::CheckDeadline(check@),
            OrderStep::ReadProperty(read) => NextStep::ReadProperty(read@),
            OrderStep::Done(Ok(rows)) => NextStep::Done(Ok(rows@)),
            OrderStep::Done(Err(error)) => NextStep::Done(Err(error)),
        }
    }
}

impl<'k, V, R> DeadlineCheck<'k, V, R> {
    #[verifier::type_invariant]
    spec fn well_formed(self) -> bool {
        self.state@.valid()
    }
}

impl<'k, V, R> PropertyRead<'k, V, R> {
    #[verifier::type_invariant]
    spec fn well_formed(self) -> bool {
        &&& self.state@.valid()
        &&& self.state@.in_row
    }

    /// The row to read.
    pub fn row(&self) -> (row: &R)
        ensures
            *row == self@.keyed[self@.current].1,
    {
        proof {
            use_type_invariant(self);
        }
        &self.state.keyed[self.state.current].1
    }

    /// The key whose property is to be read.
    pub fn key(&self) -> (key: &'k OrderKey)
        ensures
            *key == self@.keys[self@.next_key()],
    {
        proof {
            use_type_invariant(self);
        }
        &self.state.keys[self.state.keyed[self.state.current].0.len()]
    }

    /// Whether this is the first read of its row. What was looked up to serve
    /// one read of a row may serve the other reads of that row, and no others.
    pub fn starts_row(&self) -> (first: bool)
        ensures
            first == (self@.next_key() == 0),
    {
        proof {
            use_type_invariant(self);
        }
        self.state.keyed[self.state.current].0.len() == 0
    }
}

impl<'k, V: Ord, R: Ord> SortState<'k, V, R> {
    /// Goes on with the current row, or sorts the rows after the last one.
    fn enter_row<E>(self) -> (step: OrderStep<'k, V, R, E>)
        requires
            totally_ordered::<V>(),
            totally_ordered::<R>(),
            self@.before_row(),
        ensures
            step@ == enter_row::<V, R, E>(self@),
    {
        let mut state = self;
        if state.current < state.keyed.len() {
            state.in_row = false;
            OrderStep::CheckDeadline(DeadlineCheck { state })
        } else {
            OrderStep::Done(Ok(sort_keyed_rows(state.keyed, state.keys)))
        }
    }

    /// Goes on with the next key of the current row, or with the next row.
    fn enter_key<E>(self) -> (step: OrderStep<'k, V, R, E>)
        requires
            totally_ordered::<V>(),
            totally_ordered::<R>(),
            self@.inside_row(),
        ensures
            step@ == enter_key::<V, R, E>(self@),
    {
        let mut state = self;
        if state.keyed[state.current].0.len() < state.keys.len() {
            state.in_row = true;
            OrderStep::CheckDeadline(DeadlineCheck { state })
        } else {
            assert(state.current < state.keyed.len());
            state.current += 1;
            state.enter_row()
        }
    }
}

impl<'k, V: Ord, R: Ord> DeadlineCheck<'k, V, R> {
    /// Goes on after the deadline check. A missed deadline stops the ordering.
    pub fn resume<E>(self, outcome: Result<(), E>) -> (step: OrderStep<'k, V, R, E>)
        requires
            totally_ordered::<V>(),
            totally_ordered::<R>(),
        ensures
            step@ == step_after_check(self@, outcome),
    {
        proof {
            use_type_invariant(&self);
        }
        match outcome {
            Err(error) => OrderStep::Done(Err(error)),
            Ok(_) => if self.state.in_row {
                OrderStep::ReadProperty(PropertyRead { state: self.state })
            } else {
                self.state.enter_key()
            },
        }
    }
}

impl<'k, V: Ord, R: Ord> PropertyRead<'k, V, R> {
    /// Goes on after the read, with the value or without one. A failed read
    /// stops the ordering.
    pub fn resume<E>(self, outcome: Result<Option<V>, E>) -> (step: OrderStep<'k, V, R, E>)
        requires
            totally_ordered::<V>(),
            totally_ordered::<R>(),
        ensures
            step@ == step_after_read(self@, outcome),
    {
        proof {
            use_type_invariant(&self);
        }
        match outcome {
            Err(error) => OrderStep::Done(Err(error)),
            Ok(value) => {
                let ghost before = self@;
                let mut state = self.state;
                let current: usize = state.current;
                state.keyed[current].0.push(value);
                assert(state@ =~= with_value(before, value));
                state.enter_key()
            },
        }
    }
}

/// Starts to order a stream of rows by `plan`.
///
/// `rows` is what reading the stream gave; where that failed, its error is the
/// outcome.
pub fn order<'k, V: Ord, R: Ord, E>(rows: Result<Vec<R>, E>, plan: &'k OrderPlan) -> (step: OrderStep<
    'k,
    V,
    R,
    E,
>)
    requires
        totally_ordered::<V>(),
        totally_ordered::<R>(),
    ensures
        match rows {
            Ok(rows) => step@ == first_step::<V, R, E>(Ok(rows@), *plan),
            Err(error) => step@ == first_step::<V, R, E>(Err(error), *plan),
        },
{
    let rows = match rows {
        Ok(rows) => rows,
        Err(error) => {
            return OrderStep::Done(Err(error));
        },
    };
    match plan {
        OrderPlan::RangeIndex { .. } => OrderStep::Done(Ok(rows)),
        OrderPlan::ExplicitSort(keys) => {
            let ghost given = rows@;
            let mut keyed: Vec<(Vec<Option<V>>, R)> = Vec::with_capacity(rows.len());
            for row in it: rows
                invariant
                    it.seq() == given,
                    keyed@.len() == it.index(),
                    forall|i: int|
                        0 <= i < keyed@.len() ==> (#[trigger] keyed@[i]).0@ == Seq::<
                            Option<V>,
                        >::empty() && keyed@[i].1 == given[i],
            {
                keyed.push((Vec::new(), row));
            }
            let state = SortState { keyed, keys: keys.as_slice(), current: 0, in_row: false };
            assert(state@.keyed =~= given.map_values(|row: R| (Seq::<Option<V>>::empty(), row)));
            state.enter_row()
        },
    }
}

/// A step shows what it is: the progress it waits at, or the outcome itself.
pub proof fn steps_show_what_they_are<V, R, E>(step: OrderStep<V, R, E>)
    ensures
        step matches OrderStep::CheckDeadline(check) ==> step@ == NextStep::<V, R, E>::CheckDeadline(
            check@,
        ),
        step matches OrderStep::ReadProperty(read) ==> step@ == NextStep::<V, R, E>::ReadProperty(
            read@,
        ),
        step matches OrderStep::Done(Ok(rows)) ==> step@ == NextStep::<V, R, E>::Done(Ok(rows@)),
        step matches OrderStep::Done(Err(error)) ==> step@ == NextStep::<V, R, E>::Done(Err(error)),
{
}

/// The key that is read next is the one after the values that the row has.
pub proof fn keys_are_read_in_turn<V, R>(progress: SortProgress<V, R>)
    ensures
        progress.next_key() == progress.keyed[progress.current].0.len(),
{
}

/// A failed check, a failed read and a failed stream end the ordering with
/// their error, at whatever point they come.
pub proof fn failures_end_the_ordering<V: Ord, R: Ord, E>(
    progress: SortProgress<V, R>,
    plan: OrderPlan,
    error: E,
)
    ensures
        step_after_check::<V, R, E>(progress, Err(error)) == NextStep::<V, R, E>::Done(Err(error)),
        step_after_read::<V, R, E>(progress, Err(error)) == NextStep::<V, R, E>::Done(Err(error)),
        first_step::<V, R, E>(Err(error), plan) == NextStep::<V, R, E>::Done(Err(error)),
{
}

/// A stream that a range index delivers is ordered at once, as it came.
pub proof fn range_index_order_is_over_at_once<V: Ord, R: Ord, E>(
    rows: Seq<R>,
    key: OrderKey,
    index_id: String,
)
    ensures
        first_step::<V, R, E>(Ok(rows), OrderPlan::RangeIndex { key, index_id }) == NextStep::<
            V,
            R,
            E,
        >::Done(Ok(rows)),
{
}

/// An explicit sort of some rows begins with a check before the first row, with
/// every row at its place and nothing read; without rows it is over at once.
pub proof fn sorts_begin_with_the_first_row<V: Ord, R: Ord, E>(rows: Seq<R>, keys: Vec<OrderKey>)
    requires
        obeys_cmp::<V>(),
        obeys_cmp::<R>(),
    ensures
        rows.len() == 0 ==> first_step::<V, R, E>(Ok(rows), OrderPlan::ExplicitSort(keys)) == NextStep::<
            V,
            R,
            E,
        >::Done(Ok(rows)),
        rows.len() > 0 ==> (first_step::<V, R, E>(Ok(rows), OrderPlan::ExplicitSort(keys)) matches
            NextStep::CheckDeadline(start) && {
            &&& start.keys == keys@
            &&& start.current == 0
            &&& !start.in_row
            &&& start.keyed.len() == rows.len()
            &&& forall|i: int|
                0 <= i < rows.len() ==> (#[trigger] start.keyed[i]).0.len() == 0 && start.keyed[i].1
                    == rows[i]
        }),
{
    let keyed = rows.map_values(|row: R| (Seq::<Option<V>>::empty(), row));
    if rows.len() == 0 {
        let order = sorted_rows_are_a_stable_sort(keyed, keys@);
        assert(sorted_rows(keyed, keys@) =~= rows);
    }
}

/// A passed check before a key lets that key be read, and nothing else changes.
/// A passed check before a row leads to the check before its first key, and
/// nothing else changes.
pub proof fn passed_checks_lead_to_reads<V: Ord, R: Ord, E>(progress: SortProgress<V, R>)
    requires
        0 <= progress.current < progress.keyed.len(),
    ensures
        progress.in_row ==> step_after_check::<V, R, E>(progress, Ok(())) == NextStep::<V, R, E>::ReadProperty(
            progress,
        ),
        !progress.in_row && progress.keyed[progress.current].0.len() < progress.keys.len() ==> (
        step_after_check::<V, R, E>(progress, Ok(())) matches NextStep::CheckDeadline(next) && {
            &&& next.in_row
            &&& next.keyed == progress.keyed
            &&& next.keys == progress.keys
            &&& next.current == progress.current
        }),
        !progress.in_row && progress.keyed[progress.current].0.len() >= progress.keys.len()
            && progress.current + 1 < progress.keyed.len() ==> (step_after_check::<V, R, E>(
            progress,
            Ok(()),
        ) matches NextStep::CheckDeadline(next) && {
            &&& !next.in_row
            &&& next.keyed == progress.keyed
            &&& next.keys == progress.keys
            &&& next.current == progress.current + 1
        }),
        !progress.in_row && progress.keyed[progress.current].0.len() >= progress.keys.len()
            && progress.current + 1 == progress.keyed.len() ==> step_after_check::<V, R, E>(progress, Ok(()))
            == NextStep::<V, R, E>::Done(Ok(sorted_rows(progress.keyed, progress.keys))),
{
}

/// A value that was read is added to the values of the current row, and to
/// nothing else. Then comes the check before the next key of the row, after the
/// last key the check before the next row, and after the last row the outcome:
/// the rows, sorted by all that was read.
pub proof fn read_values_are_kept<V: Ord, R: Ord, E>(
    progress: SortProgress<V, R>,
    value: Option<V>,
    grown: Seq<(Seq<Option<V>>, R)>,
)
    requires
        0 <= progress.current < progress.keyed.len(),
        grown.len() == progress.keyed.len(),
        forall|i: int|
            0 <= i < grown.len() && i != progress.current ==> #[trigger] grown[i]
                == progress.keyed[i],
        grown[progress.current].0 == progress.keyed[progress.current].0.push(value),
        grown[progress.current].1 == progress.keyed[progress.current].1,
    ensures
        grown[progress.current].0.len() < progress.keys.len() ==> (step_after_read::<V, R, E>(
            progress,
            Ok(value),
        ) matches NextStep::CheckDeadline(next) && {
            &&& next.in_row
            &&& next.keyed == grown
            &&& next.keys == progress.keys
            &&& next.current == progress.current
        }),
        grown[progress.current].0.len() >= progress.keys.len() && progress.current + 1
            < grown.len() ==> (step_after_read::<V, R, E>(progress, Ok(value)) matches
            NextStep::CheckDeadline(next) && {
            &&& !next.in_row
            &&& next.keyed == grown
            &&& next.keys == progress.keys
            &&& next.current == progress.current + 1
        }),
        grown[progress.current].0.len() >= progress.keys.len() && progress.current + 1
            == grown.len() ==> step_after_read::<V, R, E>(progress, Ok(value)) == NextStep::<V, R, E>::Done(
            Ok(sorted_rows(grown, progress.keys)),
        ),
{
    assert(with_value(progress, value).keyed =~= grown);
}

} // verus!
