use crate::ops::stream::{settle, Polled, Step};
use vstd::prelude::*;

verus! {

/// `arrow::error::ArrowError`: carried from the engine to the caller as it is.
#[verifier::external_type_specification]
#[verifier::external_body]
pub struct ExArrowError(arrow::error::ArrowError);

/// `arrow::array::BooleanArray`: the mask that the engine's predicate made of
/// a batch, for each row a flag that is set, clear or missing.
#[verifier::external_type_specification]
#[verifier::external_body]
pub struct ExBooleanArray(arrow::array::BooleanArray);

/// A record batch of the engine, `arrow::record_batch::RecordBatch`. Of what
/// is inside nothing is known here but what the functions below say.
#[verifier::external_body]
pub struct Record {
    pub inner: arrow::record_batch::RecordBatch,
}

/// The engine could not select the rows of a batch.
pub struct CompactionError {
    pub cause: arrow::error::ArrowError,
}

/// What the columns of the engine's batches hold, as far as others than
/// numbers and times are told apart.
#[derive(Clone, Copy, Debug, PartialEq, Eq)]
pub enum ColumnKind {
    Boolean,
    Utf8,
    LargeUtf8,
    Binary,
    LargeBinary,
    Other,
}

/// The number of rows that a record holds.
pub uninterp spec fn record_rows(record: Record) -> nat;

/// The number of columns that a record holds.
pub uninterp spec fn record_columns(record: Record) -> nat;

/// Whether column `i` of a record holds numbers or times.
pub uninterp spec fn column_primitive(record: Record, i: int) -> bool;

/// What column `i` of a record holds.
pub uninterp spec fn column_kind(record: Record, i: int) -> ColumnKind;

/// Whether the rows of a record can be selected: each of its columns holds
/// numbers, times, truth values, text or bytes.
pub open spec fn selectable(record: Record) -> bool {
    forall|i: int|
        0 <= i < record_columns(record) ==> #[trigger] column_primitive(record, i) || column_kind(
            record,
            i,
        ) != ColumnKind::Other
}

/// The number of rows that a mask keeps: the flags that are set.
pub uninterp spec fn mask_keeps(mask: arrow::array::BooleanArray) -> nat;

/// What the engine's selection gives for a batch and a mask: the batch that
/// is left, or the error with which the selection fails.
pub uninterp spec fn selection(
    record: Record,
    mask: arrow::array::BooleanArray,
) -> Result<Record, arrow::error::ArrowError>;

/// `RecordBatch::num_columns`: the number of the batch's columns.
#[verifier::external_body]
fn record_num_columns(record: &Record) -> (n: usize)
    ensures
        n == record_columns(*record),
{
    record.inner.num_columns()
}

/// `DataType::is_primitive`, of the type of column `i`: whether the column
/// holds numbers (integers, floats, decimals) or times (dates, times,
/// timestamps, durations, intervals).
#[verifier::external_body]
fn column_is_primitive(record: &Record, i: usize) -> (r: bool)
    requires
        i < record_columns(*record),
    ensures
        r == column_primitive(*record, i as int),
{
    record.inner.column(i).data_type().is_primitive()
}

/// `Array::data_type`, of column `i`: which of the types that are told apart
/// here the column has.
#[verifier::external_body]
fn column_kind_at(record: &Record, i: usize) -> (r: ColumnKind)
    requires
        i < record_columns(*record),
    ensures
        r == column_kind(*record, i as int),
{
    match record.inner.column(i).data_type() {
        arrow::datatypes::DataType::Boolean => ColumnKind::Boolean,
        arrow::datatypes::DataType::Utf8 => ColumnKind::Utf8,
        arrow::datatypes::DataType::LargeUtf8 => ColumnKind::LargeUtf8,
        arrow::datatypes::DataType::Binary => ColumnKind::Binary,
        arrow::datatypes::DataType::LargeBinary => ColumnKind::LargeBinary,
        _ => ColumnKind::Other,
    }
}

/// `BooleanArray::true_count`: the number of flags that are set and not
/// missing.
#[verifier::external_body]
fn mask_true_count(mask: &arrow::array::BooleanArray) -> (n: usize)
    ensures
        n == mask_keeps(*mask),
{
    mask.true_count()
}

/// `RecordBatch::num_rows`: the row count that the batch was made with.
#[verifier::external_body]
fn record_num_rows(record: &Record) -> (n: usize)
    ensures
        n == record_rows(*record),
{
    record.inner.num_rows()
}

/// `arrow::compute::filter_record_batch`: the batch with, of each column, the
/// values whose flag is set; a missing flag counts as clear. Where it gives a
/// batch, the number of its rows is the number of flags that are set,
/// whatever the batch was. Whether it gives a batch or fails, and what it
/// gives, depends on the batch and the mask alone: that is `selection`. It
/// fails where the mask is longer than the batch or the batch has no column;
/// of when it fails nothing is claimed. Batches with a column of another
/// kind than those that `selectable` names are left out: for some of them
/// the engine has no selection and stops the program.
#[verifier::external_body]
fn select_rows(record: &Record, mask: &arrow::array::BooleanArray) -> (r: Result<
    Record,
    arrow::error::ArrowError,
>)
    requires
        selectable(*record),
    ensures
        r == selection(*record, *mask),
        r matches Ok(out) ==> record_rows(out) == mask_keeps(*mask),
{
    match arrow::compute::filter_record_batch(&record.inner, mask) {
        Ok(inner) => Ok(Record { inner }),
        Err(e) => Err(e),
    }
}

impl Record {
    /// The number of rows.
    pub fn num_rows(&self) -> (n: usize)
        ensures
            n == record_rows(*self),
    {
        record_num_rows(self)
    }

    /// Whether the rows of the record can be selected.
    pub fn is_selectable(&self) -> (r: bool)
        ensures
            r == selectable(*self),
    {
        let columns = record_num_columns(self);
        let mut i: usize = 0;
        while i < columns
            invariant
                i <= columns,
                columns == record_columns(*self),
                forall|j: int|
                    0 <= j < i ==> #[trigger] column_primitive(*self, j) || column_kind(*self, j)
                        != ColumnKind::Other,
            decreases columns - i,
        {
            if !column_is_primitive(self, i) {
                match column_kind_at(self, i) {
                    ColumnKind::Other => {
                        assert(!column_primitive(*self, i as int));
                        return false;
                    },
                    _ => {},
                }
            }
            i += 1;
        }
        true
    }
}

/// The number of rows that `mask` keeps: its flags that are set.
pub fn kept_rows(mask: &arrow::array::BooleanArray) -> (n: usize)
    ensures
        n == mask_keeps(*mask),
{
    mask_true_count(mask)
}

/// What becomes of a record that was filtered: it is handed on if it holds a
/// row, and passed over if it holds none.
pub fn hand_on(record: Record) -> (step: Step<Record>)
    ensures
        step == if record_rows(record) == 0 {
            Step::Again
        } else {
            Step::Return(Polled::Batch(record))
        },
{
    let rows = record.num_rows();
    settle(Ok((record, rows)))
}

/// What a filter's stream does once the engine has made its selection: a
/// batch that holds a row is handed on, a batch that holds none is passed
/// over, and an error of the selection is the error of the filter.
pub open spec fn step_after(outcome: Result<Record, arrow::error::ArrowError>) -> Result<
    Step<Record>,
    CompactionError,
> {
    match outcome {
        Ok(out) => Ok(
            if record_rows(out) == 0 {
                Step::Again
            } else {
                Step::Return(Polled::Batch(out))
            },
        ),
        Err(cause) => Err(CompactionError { cause }),
    }
}

/// Decides what the filter's stream does with what the selection gave.
pub fn conclude(outcome: Result<Record, arrow::error::ArrowError>) -> (r: Result<
    Step<Record>,
    CompactionError,
>)
    ensures
        r == step_after(outcome),
{
    match outcome {
        Ok(out) => Ok(hand_on(out)),
        Err(cause) => Err(CompactionError { cause }),
    }
}

/// Selects the rows of `record` that `mask` keeps and decides what the
/// filter's stream does next: it hands the rows on, or, where the mask keeps
/// none, polls its child again. An error of the selection is handed back.
pub fn filter_record(record: &Record, mask: &arrow::array::BooleanArray) -> (r: Result<
    Step<Record>,
    CompactionError,
>)
    requires
        selectable(*record),
    ensures
        r == step_after(selection(*record, *mask)),
        match r {
            Ok(Step::Again) => mask_keeps(*mask) == 0,
            Ok(Step::Return(Polled::Batch(out))) => 0 < mask_keeps(*mask) == record_rows(out),
            Ok(Step::Return(_)) => false,
            Err(_) => true,
        },
{
    conclude(select_rows(record, mask))
}

/// As `filter_record`, for any record: `None` where the rows of `record`
/// cannot be selected.
pub fn try_filter_record(record: &Record, mask: &arrow::array::BooleanArray) -> (r: Option<
    Result<Step<Record>, CompactionError>,
>)
    ensures
        r == if selectable(*record) {
            Some(step_after(selection(*record, *mask)))
        } else {
            None::<Result<Step<Record>, CompactionError>>
        },
{
    if record.is_selectable() {
        Some(filter_record(record, mask))
    } else {
        None
    }
}

/// The batch that the selection left, together with the number of its rows.
pub open spec fn counted_selection(outcome: Result<Record, arrow::error::ArrowError>) -> Result<
    (Record, usize),
    CompactionError,
> {
    match outcome {
        Ok(out) => Ok((out, record_rows(out) as usize)),
        Err(cause) => Err(CompactionError { cause }),
    }
}

/// Selects the rows of `record` that `mask` keeps and counts them, for a
/// step of the filter's stream: `None` where the rows of `record` cannot be
/// selected.
pub fn try_select(record: &Record, mask: &arrow::array::BooleanArray) -> (r: Option<
    Result<(Record, usize), CompactionError>,
>)
    ensures
        r == if selectable(*record) {
            Some(counted_selection(selection(*record, *mask)))
        } else {
            None::<Result<(Record, usize), CompactionError>>
        },
{
    if record.is_selectable() {
        match select_rows(record, mask) {
            Ok(out) => {
                let rows = out.num_rows();
                Some(Ok((out, rows)))
            },
            Err(cause) => Some(Err(CompactionError { cause })),
        }
    } else {
        None
    }
}

} // verus!
