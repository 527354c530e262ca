//! What a whole run of an ordering amounts to, from its first step to its
//! outcome.
//!
//! A run is driven by the answers to its deadline checks and reads. Row and key
//! positions say which check or read an answer belongs to.

use std::cmp::Ordering;

use vstd::laws_cmp::obeys_cmp;
use vstd::prelude::*;

use crate::order::{
    enter_key, enter_row, first_step, step_after_check, step_after_read, with_value, NextStep,
    OrderPlan, SortProgress,
};
use crate::order_keys::{keyed_order, totally_ordered, OrderKey};
use crate::stable_order::{delivery_keeps_the_rows, sorted_rows, sorted_rows_are_a_stable_sort};

verus! {

/// The answers that a run gets.
pub struct Answers<V, E> {
    /// The deadline check before a row.
    pub row_check: spec_fn(int) -> Result<(), E>,
    /// The deadline check before a row's key.
    pub key_check: spec_fn(int, int) -> Result<(), E>,
    /// The read of a row's property.
    pub read: spec_fn(int, int) -> Result<Option<V>, E>,
}

/// One thing that a run asks for.
pub enum Request {
    RowCheck(int),
    KeyCheck(int, int),
    Read(int, int),
}

/// The answer to a deadline check.
pub open spec fn check_answer<V, R, E>(
    progress: SortProgress<V, R>,
    answers: Answers<V, E>,
) -> Result<(), E> {
    if progress.in_row {
        (answers.key_check)(progress.current, progress.next_key())
    } else {
        (answers.row_check)(progress.current)
    }
}

/// The answer to a read.
pub open spec fn read_answer<V, R, E>(
    progress: SortProgress<V, R>,
    answers: Answers<V, E>,
) -> Result<Option<V>, E> {
    (answers.read)(progress.current, progress.next_key())
}

/// The progress that a step stands at; a finished run stands at none.
pub open spec fn progress_of<V, R, E>(step: NextStep<V, R, E>) -> Option<SortProgress<V, R>> {
    match step {
        NextStep::CheckDeadline(progress) => Some(progress),
        NextStep::ReadProperty(progress) => Some(progress),
        NextStep::Done(_) => None,
    }
}

/// The request that a step stands for; a finished run asks for nothing.
pub open spec fn request_of<V, R, E>(step: NextStep<V, R, E>) -> Option<Request> {
    match step {
        NextStep::CheckDeadline(progress) => if progress.in_row {
            Some(Request::KeyCheck(progress.current, progress.next_key()))
        } else {
            Some(Request::RowCheck(progress.current))
        },
        NextStep::ReadProperty(progress) => Some(
            Request::Read(progress.current, progress.next_key()),
        ),
        NextStep::Done(_) => None,
    }
}

/// A step that a run can stand at.
pub open spec fn valid_step<V, R, E>(step: NextStep<V, R, E>) -> bool {
    &&& progress_of(step) matches Some(progress) ==> progress.valid()
    &&& step matches NextStep::ReadProperty(progress) ==> progress.in_row
}

/// The rows that are not finished.
pub open spec fn rows_left<V, R, E>(step: NextStep<V, R, E>) -> int {
    match progress_of(step) {
        Some(progress) => progress.keyed.len() - progress.current,
        None => 0,
    }
}

/// The keys of the current row that are not read.
pub open spec fn keys_left<V, R, E>(step: NextStep<V, R, E>) -> int {
    match progress_of(step) {
        Some(progress) => progress.keys.len() - progress.next_key(),
        None => 0,
    }
}

/// The steps up to the next read.
pub open spec fn steps_to_read<V, R, E>(step: NextStep<V, R, E>) -> int {
    match step {
        NextStep::CheckDeadline(progress) => if progress.in_row {
            1
        } else {
            2
        },
        _ => 0,
    }
}

/// The step after `step`, once its request is answered.
pub open spec fn answered<V: Ord, R: Ord, E>(
    step: NextStep<V, R, E>,
    answers: Answers<V, E>,
) -> NextStep<V, R, E> {
    match step {
        NextStep::CheckDeadline(progress) => step_after_check(
            progress,
            check_answer(progress, answers),
        ),
        NextStep::ReadProperty(progress) => step_after_read(
            progress,
            read_answer(progress, answers),
        ),
        NextStep::Done(outcome) => NextStep::Done(outcome),
    }
}

/// Every answered step leaves less to be done, so every run comes to an end.
pub proof fn runs_end<V: Ord, R: Ord, E>(step: NextStep<V, R, E>, answers: Answers<V, E>)
    requires
        valid_step(step),
        progress_of(step) is Some,
    ensures
        valid_step(answered(step, answers)),
        decreases_to!(
            rows_left(step), keys_left(step), steps_to_read(step)
            => rows_left(answered(step, answers)), keys_left(answered(step, answers)),
               steps_to_read(answered(step, answers))
        ),
{
    let progress = progress_of(step).unwrap();
    if let NextStep::ReadProperty(_) = step {
        if let Ok(value) = read_answer(progress, answers) {
            let grown = with_value(progress, value);
            assert(grown.next_key() == progress.next_key() + 1);
        }
    }
}

/// The outcome of a run that stands at `step`.
pub open spec fn outcome<V: Ord, R: Ord, E>(
    step: NextStep<V, R, E>,
    answers: Answers<V, E>,
) -> Result<Seq<R>, E>
    decreases rows_left(step), keys_left(step), steps_to_read(step),
    when valid_step(step)
{
    match step {
        NextStep::Done(outcome) => outcome,
        _ => {
            proof {
                runs_end(step, answers);
            }
            outcome(answered(step, answers), answers)
        },
    }
}

/// The requests of a run that stands at `step`, in the order in which they are
/// made.
pub open spec fn requests<V: Ord, R: Ord, E>(
    step: NextStep<V, R, E>,
    answers: Answers<V, E>,
) -> Seq<Request>
    decreases rows_left(step), keys_left(step), steps_to_read(step),
    when valid_step(step)
{
    match request_of(step) {
        None => Seq::empty(),
        Some(request) => {
            proof {
                runs_end(step, answers);
            }
            seq![request] + requests(answered(step, answers), answers)
        },
    }
}

/// The values of one row, read key by key after those already read, up to the
/// first answer that is an error.
pub open spec fn read_keys<V, E>(
    answers: Answers<V, E>,
    row: int,
    keys: int,
    values: Seq<Option<V>>,
) -> Result<Seq<Option<V>>, E>
    decreases keys - values.len(),
{
    let key = values.len() as int;
    if key >= keys {
        Ok(values)
    } else {
        match ((answers.key_check)(row, key), (answers.read)(row, key)) {
            (Err(error), _) => Err(error),
            (Ok(_), Err(error)) => Err(error),
            (Ok(_), Ok(value)) => read_keys(answers, row, keys, values.push(value)),
        }
    }
}

/// All rows with their values, read row by row after those already read, up to
/// the first answer that is an error.
pub open spec fn read_rows<V, R, E>(
    answers: Answers<V, E>,
    rows: Seq<R>,
    keys: int,
    keyed: Seq<(Seq<Option<V>>, R)>,
) -> Result<Seq<(Seq<Option<V>>, R)>, E>
    decreases rows.len() - keyed.len(),
{
    let row = keyed.len() as int;
    if row >= rows.len() {
        Ok(keyed)
    } else {
        match ((answers.row_check)(row), read_keys(answers, row, keys, Seq::empty())) {
            (Err(error), _) => Err(error),
            (Ok(_), Err(error)) => Err(error),
            (Ok(_), Ok(values)) => read_rows(answers, rows, keys, keyed.push((values, rows[row]))),
        }
    }
}

/// Sorts what was read, if all of it was.
pub open spec fn sort_read<V: Ord, R: Ord, E>(
    read: Result<Seq<(Seq<Option<V>>, R)>, E>,
    keys: Seq<OrderKey>,
) -> Result<Seq<R>, E> {
    match read {
        Ok(keyed) => Ok(sorted_rows(keyed, keys)),
        Err(error) => Err(error),
    }
}

/// The rows of an explicit sort, without their values.
spec fn rows_of<V, R>(progress: SortProgress<V, R>) -> Seq<R> {
    progress.keyed.map_values(|entry: (Seq<Option<V>>, R)| entry.1)
}

/// Reading on from the row at which `progress` stands, and sorting.
spec fn rows_from<V: Ord, R: Ord, E>(
    progress: SortProgress<V, R>,
    answers: Answers<V, E>,
    done: Seq<(Seq<Option<V>>, R)>,
) -> Result<Seq<R>, E> {
    sort_read(
        read_rows(answers, rows_of(progress), progress.keys.len() as int, done),
        progress.keys,
    )
}

/// Reading on from the key at which `progress` stands, and sorting.
spec fn keys_from<V: Ord, R: Ord, E>(
    progress: SortProgress<V, R>,
    answers: Answers<V, E>,
) -> Result<Seq<R>, E> {
    let (values, row) = progress.keyed[progress.current];
    match read_keys(answers, progress.current, progress.keys.len() as int, values) {
        Err(error) => Err(error),
        Ok(values) => rows_from(
            progress,
            answers,
            progress.keyed.take(progress.current).push((values, row)),
        ),
    }
}

/// Reading on from `step`, and sorting.
spec fn reading_from<V: Ord, R: Ord, E>(
    step: NextStep<V, R, E>,
    answers: Answers<V, E>,
) -> Result<Seq<R>, E> {
    match step {
        NextStep::Done(outcome) => outcome,
        NextStep::CheckDeadline(progress) => if progress.in_row {
            keys_from(progress, answers)
        } else {
            rows_from(progress, answers, progress.keyed.take(progress.current))
        },
        NextStep::ReadProperty(progress) => match read_answer(progress, answers) {
            Err(error) => Err(error),
            Ok(value) => keys_from(with_value(progress, value), answers),
        },
    }
}

proof fn lemma_enter_row<V: Ord, R: Ord, E>(progress: SortProgress<V, R>, answers: Answers<V, E>)
    requires
        progress.before_row(),
    ensures
        reading_from(enter_row::<V, R, E>(progress), answers) == rows_from(
            progress,
            answers,
            progress.keyed.take(progress.current),
        ),
{
    if progress.current == progress.keyed.len() {
        assert(progress.keyed.take(progress.current) =~= progress.keyed);
    }
}

proof fn lemma_enter_key<V: Ord, R: Ord, E>(progress: SortProgress<V, R>, answers: Answers<V, E>)
    requires
        progress.inside_row(),
    ensures
        reading_from(enter_key::<V, R, E>(progress), answers) == keys_from(progress, answers),
{
    if progress.next_key() == progress.keys.len() {
        let next = SortProgress { current: progress.current + 1, ..progress };
        lemma_enter_row::<V, R, E>(next, answers);
        assert(next.keyed.take(next.current) =~= progress.keyed.take(progress.current).push(
            progress.keyed[progress.current],
        ));
    }
}

proof fn lemma_answered<V: Ord, R: Ord, E>(step: NextStep<V, R, E>, answers: Answers<V, E>)
    requires
        valid_step(step),
        progress_of(step) is Some,
    ensures
        reading_from(step, answers) == reading_from(answered(step, answers), answers),
{
    let progress = progress_of(step).unwrap();
    let (values, row) = progress.keyed[progress.current];
    assert(rows_of(progress)[progress.current] == row);
    match step {
        NextStep::CheckDeadline(_) => {
            if !progress.in_row {
                assert(values =~= Seq::empty());
                lemma_enter_key::<V, R, E>(progress, answers);
            } else {
                if let (Ok(_), Ok(value)) = (
                    check_answer(progress, answers),
                    read_answer(progress, answers),
                ) {
                    lemma_with_value(progress, value);
                }
            }
        },
        NextStep::ReadProperty(_) => {
            if let Ok(value) = read_answer(progress, answers) {
                lemma_with_value(progress, value);
                lemma_enter_key::<V, R, E>(with_value(progress, value), answers);
            }
        },
        NextStep::Done(_) => {},
    }
}

proof fn lemma_with_value<V, R>(progress: SortProgress<V, R>, value: Option<V>)
    requires
        progress.valid(),
    ensures
        rows_of(with_value(progress, value)) == rows_of(progress),
        with_value(progress, value).keyed.take(progress.current) == progress.keyed.take(
            progress.current,
        ),
        progress.in_row ==> with_value(progress, value).inside_row(),
{
    let grown = with_value(progress, value);
    assert(rows_of(grown) =~= rows_of(progress));
    assert(grown.keyed.take(progress.current) =~= progress.keyed.take(progress.current));
}

proof fn lemma_outcome<V: Ord, R: Ord, E>(step: NextStep<V, R, E>, answers: Answers<V, E>)
    requires
        valid_step(step),
    ensures
        outcome(step, answers) == reading_from(step, answers),
    decreases rows_left(step), keys_left(step), steps_to_read(step),
{
    if progress_of(step) is Some {
        runs_end(step, answers);
        lemma_answered(step, answers);
        lemma_outcome(answered(step, answers), answers);
    }
}

/// The first step of every ordering is one that a run can stand at.
pub proof fn first_step_is_valid<V: Ord, R: Ord, E>(rows: Result<Seq<R>, E>, plan: OrderPlan)
    ensures
        valid_step(first_step::<V, R, E>(rows, plan)),
{
}

/// An explicit sort reads the properties of the rows, row by row and key by
/// key, stops at the first check or read that fails, with its error, and else
/// sorts the rows by the values read.
pub proof fn explicit_sort_reads_then_sorts<V: Ord, R: Ord, E>(
    rows: Seq<R>,
    keys: Vec<OrderKey>,
    answers: Answers<V, E>,
)
    ensures
        outcome(first_step(Ok(rows), OrderPlan::ExplicitSort(keys)), answers) == sort_read(
            read_rows(answers, rows, keys@.len() as int, Seq::empty()),
            keys@,
        ),
{
    let progress = SortProgress {
        keyed: rows.map_values(|row: R| (Seq::<Option<V>>::empty(), row)),
        keys: keys@,
        current: 0,
        in_row: false,
    };
    lemma_outcome(first_step::<V, R, E>(Ok(rows), OrderPlan::ExplicitSort(keys)), answers);
    lemma_enter_row::<V, R, E>(progress, answers);
    assert(rows_of(progress) =~= rows);
    assert(progress.keyed.take(0) =~= Seq::empty());
}

/// A stream that a range index delivers is handed on as it is, without a check
/// or a read.
pub proof fn range_index_keeps_the_stream<V: Ord, R: Ord, E>(
    rows: Seq<R>,
    key: OrderKey,
    index_id: String,
    answers: Answers<V, E>,
)
    ensures
        ({
            let step = first_step::<V, R, E>(Ok(rows), OrderPlan::RangeIndex { key, index_id });
            &&& outcome(step, answers) == Result::<Seq<R>, E>::Ok(rows)
            &&& requests(step, answers) == Seq::<Request>::empty()
        }),
{
}

/// Where reading the stream failed, its error is the outcome of ordering it,
/// whatever the plan, without a check or a read.
pub proof fn failed_stream_is_not_ordered<V: Ord, R: Ord, E>(
    error: E,
    plan: OrderPlan,
    answers: Answers<V, E>,
)
    ensures
        ({
            let step = first_step::<V, R, E>(Err(error), plan);
            &&& outcome(step, answers) == Result::<Seq<R>, E>::Err(error)
            &&& requests(step, answers) == Seq::<Request>::empty()
        }),
{
}

/// No check and no read of a sort of `rows` rows by `keys` keys fails.
pub open spec fn all_answered<V, E>(answers: Answers<V, E>, rows: int, keys: int) -> bool {
    &&& forall|i: int| 0 <= i < rows ==> #[trigger] (answers.row_check)(i) is Ok
    &&& forall|i: int, j: int|
        0 <= i < rows && 0 <= j < keys ==> #[trigger] (answers.key_check)(i, j) is Ok
    &&& forall|i: int, j: int|
        0 <= i < rows && 0 <= j < keys ==> #[trigger] (answers.read)(i, j) is Ok
}

/// The values that the reads of one row gave.
pub open spec fn values_read<V, E>(answers: Answers<V, E>, row: int, keys: nat) -> Seq<Option<V>> {
    Seq::new(keys, |key: int| (answers.read)(row, key)->Ok_0)
}

/// The rows with the values that the reads gave.
pub open spec fn keyed_read<V, R, E>(answers: Answers<V, E>, rows: Seq<R>, keys: nat) -> Seq<
    (Seq<Option<V>>, R),
> {
    Seq::new(rows.len(), |row: int| (values_read(answers, row, keys), rows[row]))
}

proof fn lemma_read_keys<V, E>(answers: Answers<V, E>, row: int, keys: nat, read: int)
    requires
        0 <= read <= keys,
    ensures
        ({
            let outcome = read_keys(
                answers,
                row,
                keys as int,
                values_read(answers, row, keys).take(read),
            );
            &&& outcome is Ok <==> forall|j: int|
                read <= j < keys ==> #[trigger] (answers.key_check)(row, j) is Ok && (answers.read)(
                    row,
                    j,
                ) is Ok
            &&& outcome matches Ok(values) ==> values == values_read(answers, row, keys)
        }),
    decreases keys - read,
{
    let values = values_read(answers, row, keys).take(read);
    if read == keys {
        assert(values =~= values_read(answers, row, keys));
    } else {
        lemma_read_keys(answers, row, keys, read + 1);
        if (answers.key_check)(row, read) is Ok && (answers.read)(row, read) is Ok {
            assert(values.push((answers.read)(row, read)->Ok_0) =~= values_read(
                answers,
                row,
                keys,
            ).take(read + 1));
        } else {
            assert((answers.key_check)(row, read) is Err || (answers.read)(row, read) is Err);
        }
    }
}

proof fn lemma_read_rows<V, R, E>(answers: Answers<V, E>, rows: Seq<R>, keys: nat, read: int)
    requires
        0 <= read <= rows.len(),
    ensures
        ({
            let outcome = read_rows(
                answers,
                rows,
                keys as int,
                keyed_read(answers, rows, keys).take(read),
            );
            &&& outcome is Ok <==> {
                &&& forall|i: int|
                    read <= i < rows.len() ==> #[trigger] (answers.row_check)(i) is Ok
                &&& forall|i: int, j: int|
                    read <= i < rows.len() && 0 <= j < keys ==> #[trigger] (answers.key_check)(
                        i,
                        j,
                    ) is Ok && (answers.read)(i, j) is Ok
            }
            &&& outcome matches Ok(keyed) ==> keyed == keyed_read(answers, rows, keys)
        }),
    decreases rows.len() - read,
{
    let keyed = keyed_read(answers, rows, keys).take(read);
    if read == rows.len() {
        assert(keyed =~= keyed_read(answers, rows, keys));
    } else {
        lemma_read_rows(answers, rows, keys, read + 1);
        lemma_read_keys(answers, read, keys, 0);
        assert(values_read(answers, read, keys).take(0) =~= Seq::empty());
        assert(keyed.push((values_read(answers, read, keys), rows[read])) =~= keyed_read(
            answers,
            rows,
            keys,
        ).take(read + 1));
    }
}

/// An explicit sort succeeds exactly where every check and every read does, and
/// then delivers all rows sorted by the values read.
pub proof fn explicit_sort_succeeds_if_all_is_answered<V: Ord, R: Ord, E>(
    rows: Seq<R>,
    keys: Vec<OrderKey>,
    answers: Answers<V, E>,
)
    ensures
        ({
            let outcome = outcome(first_step(Ok(rows), OrderPlan::ExplicitSort(keys)), answers);
            &&& outcome is Ok <==> all_answered(answers, rows.len() as int, keys@.len() as int)
            &&& outcome matches Ok(ordered) ==> ordered == sorted_rows(
                keyed_read(answers, rows, keys@.len()),
                keys@,
            )
        }),
{
    explicit_sort_reads_then_sorts(rows, keys, answers);
    lemma_read_rows(answers, rows, keys@.len(), 0);
    assert(keyed_read(answers, rows, keys@.len()).take(0) =~= Seq::empty());
    if outcome(first_step(Ok(rows), OrderPlan::ExplicitSort(keys)), answers) is Ok {
        assert forall|i: int, j: int| 0 <= i < rows.len() && 0 <= j < keys@.len() implies (
        #[trigger] (answers.read)(i, j)) is Ok by {
            assert((answers.key_check)(i, j) is Ok);
        }
    }
}

/// An explicit sort that succeeds delivers the rows it was given: none is lost,
/// added or repeated.
pub proof fn explicit_sort_keeps_the_rows<V: Ord, R: Ord, E>(
    rows: Seq<R>,
    keys: Vec<OrderKey>,
    answers: Answers<V, E>,
)
    requires
        totally_ordered::<V>(),
        totally_ordered::<R>(),
        all_answered(answers, rows.len() as int, keys@.len() as int),
    ensures
        outcome(first_step(Ok(rows), OrderPlan::ExplicitSort(keys)), answers) matches Ok(ordered)
            && ordered.to_multiset() == rows.to_multiset(),
{
    let keyed = keyed_read(answers, rows, keys@.len());
    explicit_sort_succeeds_if_all_is_answered(rows, keys, answers);
    delivery_keeps_the_rows(keyed, keys@);
    assert(keyed.map_values(|entry: (Seq<Option<V>>, R)| entry.1) =~= rows);
}

/// The requests for one row from a key on: each key is checked for, then read.
pub open spec fn key_requests(row: int, from: int, keys: int) -> Seq<Request>
    decreases keys - from,
{
    if from >= keys {
        Seq::empty()
    } else {
        seq![Request::KeyCheck(row, from), Request::Read(row, from)] + key_requests(
            row,
            from + 1,
            keys,
        )
    }
}

/// The requests from a row on: each row is checked for, then all its keys.
pub open spec fn row_requests(from: int, rows: int, keys: int) -> Seq<Request>
    decreases rows - from,
{
    if from >= rows {
        Seq::empty()
    } else {
        seq![Request::RowCheck(from)] + key_requests(from, 0, keys) + row_requests(
            from + 1,
            rows,
            keys,
        )
    }
}

/// The requests from `step` on, if none fails.
spec fn planned<V, R, E>(step: NextStep<V, R, E>) -> Seq<Request> {
    match progress_of(step) {
        None => Seq::empty(),
        Some(progress) => {
            let (rows, keys) = (progress.keyed.len() as int, progress.keys.len() as int);
            let (row, key) = (progress.current, progress.next_key());
            if step is ReadProperty {
                seq![Request::Read(row, key)] + key_requests(row, key + 1, keys) + row_requests(
                    row + 1,
                    rows,
                    keys,
                )
            } else if progress.in_row {
                key_requests(row, key, keys) + row_requests(row + 1, rows, keys)
            } else {
                row_requests(row, rows, keys)
            }
        },
    }
}

/// A run has come to an end with an error.
spec fn stopped<V, R, E>(step: NextStep<V, R, E>) -> bool {
    match step {
        NextStep::Done(outcome) => outcome is Err,
        _ => false,
    }
}

proof fn lemma_planned<V: Ord, R: Ord, E>(step: NextStep<V, R, E>, answers: Answers<V, E>)
    requires
        valid_step(step),
        progress_of(step) is Some,
    ensures
        ({
            let next = answered(step, answers);
            let request = request_of(step).unwrap();
            &&& planned(step).len() > 0
            &&& planned(step)[0] == request
            &&& !stopped(next) ==> planned(step) == seq![request] + planned(next)
        }),
{
    let progress = progress_of(step).unwrap();
    let next = answered(step, answers);
    let request = request_of(step).unwrap();
    if step is ReadProperty {
        if let Ok(value) = read_answer(progress, answers) {
            assert(with_value(progress, value).next_key() == progress.next_key() + 1);
            assert(planned(step) =~= seq![request] + planned(next));
        }
    } else {
        reveal_with_fuel(row_requests, 2);
        if check_answer(progress, answers) is Ok {
            assert(planned(step) =~= seq![request] + planned(next));
        }
    }
}

proof fn lemma_requests<V: Ord, R: Ord, E>(step: NextStep<V, R, E>, answers: Answers<V, E>)
    requires
        valid_step(step),
    ensures
        requests(step, answers).is_prefix_of(planned(step)),
        outcome(step, answers) is Ok ==> requests(step, answers) == planned(step),
    decreases rows_left(step), keys_left(step), steps_to_read(step),
{
    if progress_of(step) is Some {
        let next = answered(step, answers);
        let request = request_of(step).unwrap();
        runs_end(step, answers);
        lemma_planned(step, answers);
        lemma_requests(next, answers);
        if stopped(next) {
            assert(requests(step, answers) =~= seq![request]);
            assert(requests(step, answers) =~= planned(step).subrange(0, 1));
        } else {
            assert(requests(step, answers).is_prefix_of(planned(step))) by {
                let (made, plan) = (requests(next, answers), planned(next));
                assert(made =~= plan.subrange(0, made.len() as int));
                assert(seq![request] + made =~= (seq![request] + plan).subrange(
                    0,
                    made.len() as int + 1,
                ));
            }
        }
    }
}

/// An explicit sort asks row by row and key by key: it checks the deadline
/// before each row and before each key, and reads each key of each row once.
/// A successful run makes all these requests, a failed one those up to the
/// failure.
pub proof fn explicit_sort_asks_row_by_row<V: Ord, R: Ord, E>(
    rows: Seq<R>,
    keys: Vec<OrderKey>,
    answers: Answers<V, E>,
)
    ensures
        ({
            let step = first_step::<V, R, E>(Ok(rows), OrderPlan::ExplicitSort(keys));
            let all = row_requests(0, rows.len() as int, keys@.len() as int);
            &&& requests(step, answers).is_prefix_of(all)
            &&& outcome(step, answers) is Ok ==> requests(step, answers) == all
        }),
{
    lemma_requests(first_step::<V, R, E>(Ok(rows), OrderPlan::ExplicitSort(keys)), answers);
}

/// A read that starts a row.
pub open spec fn is_row_start(request: Request) -> bool {
    request matches Request::Read(_, key) && key == 0
}

proof fn lemma_later_keys_start_nothing(row: int, from: int, keys: int)
    requires
        from > 0,
    ensures
        key_requests(row, from, keys).filter(|request: Request| is_row_start(request))
            == Seq::<Request>::empty(),
    decreases keys - from,
{
    let starts = |request: Request| is_row_start(request);
    reveal(Seq::filter);
    if from < keys {
        let pair = seq![Request::KeyCheck(row, from), Request::Read(row, from)];
        lemma_later_keys_start_nothing(row, from + 1, keys);
        Seq::filter_distributes_over_add(pair, key_requests(row, from + 1, keys), starts);
        assert(pair.drop_last() =~= seq![Request::KeyCheck(row, from)]);
        assert(pair.drop_last().drop_last() =~= Seq::empty());
        assert(pair.drop_last().filter(starts) =~= Seq::empty());
        assert(pair.filter(starts) =~= Seq::empty());
    }
}

proof fn lemma_row_starts(from: int, rows: int, keys: int)
    requires
        0 <= from <= rows,
        keys > 0,
    ensures
        row_requests(from, rows, keys).filter(|request: Request| is_row_start(request)) == Seq::new(
            (rows - from) as nat,
            |i: int| Request::Read(from + i, 0),
        ),
    decreases rows - from,
{
    let starts = |request: Request| is_row_start(request);
    let expected = Seq::new((rows - from) as nat, |i: int| Request::Read(from + i, 0));
    reveal(Seq::filter);
    if from < rows {
        let check = Request::RowCheck(from);
        let (first, read) = (Request::KeyCheck(from, 0), Request::Read(from, 0));
        let head = seq![check, first, read];
        let later = key_requests(from, 1, keys);
        let rest = row_requests(from + 1, rows, keys);
        lemma_row_starts(from + 1, rows, keys);
        lemma_later_keys_start_nothing(from, 1, keys);
        assert(row_requests(from, rows, keys) =~= head + later + rest);
        Seq::filter_distributes_over_add(head + later, rest, starts);
        Seq::filter_distributes_over_add(head, later, starts);
        assert(head.drop_last() =~= seq![check, first]);
        assert(head.drop_last().drop_last() =~= seq![check]);
        assert(head.drop_last().drop_last().drop_last() =~= Seq::empty());
        assert(seq![check].filter(starts) =~= Seq::empty());
        assert(seq![check, first].filter(starts) =~= Seq::empty());
        assert(head.filter(starts) =~= seq![read]);
        assert(expected =~= seq![read] + rest.filter(starts));
    } else {
        assert(expected =~= Seq::empty());
    }
}

/// A successful explicit sort starts to read each row once, in turn, however
/// many keys there are: a lookup made at the start of a row serves the row.
pub proof fn explicit_sort_starts_each_row_once<V: Ord, R: Ord, E>(
    rows: Seq<R>,
    keys: Vec<OrderKey>,
    answers: Answers<V, E>,
)
    requires
        keys@.len() > 0,
        all_answered(answers, rows.len() as int, keys@.len() as int),
    ensures
        requests(
            first_step::<V, R, E>(Ok(rows), OrderPlan::ExplicitSort(keys)),
            answers,
        ).filter(|request: Request| is_row_start(request)) == Seq::new(
            rows.len(),
            |row: int| Request::Read(row, 0),
        ),
{
    explicit_sort_succeeds_if_all_is_answered(rows, keys, answers);
    explicit_sort_asks_row_by_row(rows, keys, answers);
    lemma_row_starts(0, rows.len() as int, keys@.len() as int);
    assert(Seq::new(rows.len(), |row: int| Request::Read(row, 0)) =~= Seq::new(
        rows.len(),
        |i: int| Request::Read(0 + i, 0),
    ));
}

/// A run goes from step to step by the answers alone: a check before a row by
/// that row's answer, a check before a key and a read by the answer for the
/// current row and the key after the values that the row has.
pub proof fn runs_follow_their_answers<V: Ord, R: Ord, E>(
    progress: SortProgress<V, R>,
    answers: Answers<V, E>,
    end: Result<Seq<R>, E>,
)
    requires
        progress.valid(),
    ensures
        outcome(NextStep::<V, R, E>::Done(end), answers) == end,
        !progress.in_row ==> outcome(NextStep::CheckDeadline(progress), answers) == outcome(
            step_after_check(progress, (answers.row_check)(progress.current)),
            answers,
        ),
        progress.in_row ==> outcome(NextStep::CheckDeadline(progress), answers) == outcome(
            step_after_check(
                progress,
                (answers.key_check)(
                    progress.current,
                    progress.keyed[progress.current].0.len() as int,
                ),
            ),
            answers,
        ),
        progress.in_row ==> outcome(NextStep::ReadProperty(progress), answers) == outcome(
            step_after_read(
                progress,
                (answers.read)(progress.current, progress.keyed[progress.current].0.len() as int),
            ),
            answers,
        ),
{
}

/// Where every check passes and every read gives a value or none, an explicit
/// sort delivers the rows it was given, each once, at places that `order`
/// gives: in the order in which they compare by the values read for them, and
/// in the order in which they came where they compare equal.
pub proof fn explicit_sort_is_a_stable_sort_by_what_was_read<V: Ord, R: Ord, E>(
    rows: Seq<R>,
    keys: Vec<OrderKey>,
    answers: Answers<V, E>,
) -> (order: Seq<int>)
    requires
        obeys_cmp::<V>(),
        obeys_cmp::<R>(),
        forall|i: int| 0 <= i < rows.len() ==> #[trigger] (answers.row_check)(i) is Ok,
        forall|i: int, j: int|
            0 <= i < rows.len() && 0 <= j < keys@.len() ==> #[trigger] (answers.key_check)(
                i,
                j,
            ) is Ok,
        forall|i: int, j: int|
            0 <= i < rows.len() && 0 <= j < keys@.len() ==> #[trigger] (answers.read)(i, j) is Ok,
    ensures
        outcome(first_step(Ok(rows), OrderPlan::ExplicitSort(keys)), answers) matches Ok(ordered)
            && ordered.len() == rows.len() && forall|i: int|
            0 <= i < order.len() ==> ordered[i] == rows[#[trigger] order[i]],
        order.len() == rows.len(),
        forall|i: int| 0 <= i < order.len() ==> 0 <= #[trigger] order[i] < rows.len(),
        forall|i: int, j: int|
            0 <= i < j < order.len() ==> #[trigger] order[i] != #[trigger] order[j],
        forall|i: int, j: int|
            0 <= i < j < order.len() ==> match keyed_order(
                (
                    Seq::new(keys@.len(), |key: int| (answers.read)(order[i], key)->Ok_0),
                    rows[#[trigger] order[i]],
                ),
                (
                    Seq::new(keys@.len(), |key: int| (answers.read)(order[j], key)->Ok_0),
                    rows[#[trigger] order[j]],
                ),
                keys@,
            ) {
                Ordering::Less => true,
                Ordering::Equal => order[i] < order[j],
                Ordering::Greater => false,
            },
{
    let keyed = keyed_read(answers, rows, keys@.len());
    lemma_all_answered(rows, keys, answers);
    let order = sorted_rows_are_a_stable_sort(keyed, keys@);
    assert forall|i: int, j: int| 0 <= i < j < order.len() implies match keyed_order(
        (
            Seq::new(keys@.len(), |key: int| (answers.read)(order[i], key)->Ok_0),
            rows[#[trigger] order[i]],
        ),
        (
            Seq::new(keys@.len(), |key: int| (answers.read)(order[j], key)->Ok_0),
            rows[#[trigger] order[j]],
        ),
        keys@,
    ) {
        Ordering::Less => true,
        Ordering::Equal => order[i] < order[j],
        Ordering::Greater => false,
    } by {
        assert(keyed[order[i]].0 =~= Seq::new(
            keys@.len(),
            |key: int| (answers.read)(order[i], key)->Ok_0,
        ));
        assert(keyed[order[j]].0 =~= Seq::new(
            keys@.len(),
            |key: int| (answers.read)(order[j], key)->Ok_0,
        ));
    }
    order
}

proof fn lemma_all_answered<V: Ord, R: Ord, E>(
    rows: Seq<R>,
    keys: Vec<OrderKey>,
    answers: Answers<V, E>,
)
    requires
        forall|i: int| 0 <= i < rows.len() ==> #[trigger] (answers.row_check)(i) is Ok,
        forall|i: int, j: int|
            0 <= i < rows.len() && 0 <= j < keys@.len() ==> #[trigger] (answers.key_check)(
                i,
                j,
            ) is Ok,
        forall|i: int, j: int|
            0 <= i < rows.len() && 0 <= j < keys@.len() ==> #[trigger] (answers.read)(i, j) is Ok,
    ensures
        outcome(first_step(Ok(rows), OrderPlan::ExplicitSort(keys)), answers) == Result::<
            Seq<R>,
            E,
        >::Ok(sorted_rows(keyed_read(answers, rows, keys@.len()), keys@)),
{
    assert(all_answered(answers, rows.len() as int, keys@.len() as int));
    explicit_sort_succeeds_if_all_is_answered(rows, keys, answers);
}

proof fn lemma_answered_keys<V, E>(answers: Answers<V, E>, row: int, keys: nat, read: int, upto: int)
    requires
        0 <= read <= upto <= keys,
        forall|j: int|
            read <= j < upto ==> #[trigger] (answers.key_check)(row, j) is Ok && (answers.read)(
                row,
                j,
            ) is Ok,
    ensures
        read_keys(answers, row, keys as int, values_read(answers, row, keys).take(read))
            == read_keys(answers, row, keys as int, values_read(answers, row, keys).take(upto)),
    decreases upto - read,
{
    if read < upto {
        let values = values_read(answers, row, keys);
        assert((answers.key_check)(row, read) is Ok);
        assert(values.take(read).push((answers.read)(row, read)->Ok_0) =~= values.take(read + 1));
        lemma_answered_keys(answers, row, keys, read + 1, upto);
    }
}

proof fn lemma_answered_rows<V, R, E>(
    answers: Answers<V, E>,
    rows: Seq<R>,
    keys: nat,
    read: int,
    upto: int,
)
    requires
        0 <= read <= upto <= rows.len(),
        forall|i: int| read <= i < upto ==> #[trigger] (answers.row_check)(i) is Ok,
        forall|i: int, j: int|
            read <= i < upto && 0 <= j < keys ==> #[trigger] (answers.key_check)(i, j) is Ok && (
            answers.read)(i, j) is Ok,
    ensures
        read_rows(answers, rows, keys as int, keyed_read(answers, rows, keys).take(read))
            == read_rows(answers, rows, keys as int, keyed_read(answers, rows, keys).take(upto)),
    decreases upto - read,
{
    if read < upto {
        let keyed = keyed_read(answers, rows, keys);
        lemma_read_keys(answers, read, keys, 0);
        assert(values_read(answers, read, keys).take(0) =~= Seq::empty());
        assert(keyed.take(read).push((values_read(answers, read, keys), rows[read])) =~= keyed.take(
            read + 1,
        ));
        lemma_answered_rows(answers, rows, keys, read + 1, upto);
    }
}

/// The first failure is the outcome: where all goes well up to a row, and up to
/// a key of that row, a failed check before the row, or a failed check before
/// the key, or a failed read of the key, ends the ordering with its error.
pub proof fn first_failure_is_the_outcome<V: Ord, R: Ord, E>(
    rows: Seq<R>,
    keys: Vec<OrderKey>,
    answers: Answers<V, E>,
    row: int,
    key: int,
    error: E,
)
    requires
        0 <= row < rows.len(),
        forall|i: int| 0 <= i < row ==> #[trigger] (answers.row_check)(i) is Ok,
        forall|i: int, j: int|
            0 <= i < row && 0 <= j < keys@.len() ==> #[trigger] (answers.key_check)(i, j) is Ok && (
            answers.read)(i, j) is Ok,
        (answers.row_check)(row) == Result::<(), E>::Err(error) || {
            &&& (answers.row_check)(row) is Ok
            &&& 0 <= key < keys@.len()
            &&& forall|j: int|
                0 <= j < key ==> #[trigger] (answers.key_check)(row, j) is Ok && (answers.read)(
                    row,
                    j,
                ) is Ok
            &&& (answers.key_check)(row, key) == Result::<(), E>::Err(error) || ((answers.key_check)(
                row,
                key,
            ) is Ok && (answers.read)(row, key) == Result::<Option<V>, E>::Err(error))
        },
    ensures
        outcome(first_step(Ok(rows), OrderPlan::ExplicitSort(keys)), answers) == Result::<
            Seq<R>,
            E,
        >::Err(error),
{
    let keyed = keyed_read(answers, rows, keys@.len());
    explicit_sort_reads_then_sorts(rows, keys, answers);
    lemma_answered_rows(answers, rows, keys@.len(), 0, row);
    assert(keyed.take(0) =~= Seq::empty());
    if (answers.row_check)(row) is Ok {
        let values = values_read(answers, row, keys@.len());
        lemma_answered_keys(answers, row, keys@.len(), 0, key);
        assert(values.take(0) =~= Seq::empty());
    }
}

} // verus!
