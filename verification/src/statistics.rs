//! Conservative min/max and null counts for one published file.
//!
//! Bounds cover scalar core columns and typed dynamic columns. Binary values, canonical JSON,
//! dynamic JSON, and any column that contains a non-finite float have a null count and no bounds.
//! A file whose statistics are missing or fail [`statistics_usable`] must be scanned.
use vstd::prelude::*;
use crate::batch;
use crate::batch::{BatchView, Cell, CellView, RecordBatch};
use crate::identity::{DynamicKind, FIELD_KIND};
use crate::floats;
use crate::floats::{is_float_finite, is_float_nan, rank_of_float};
use crate::layout;
use crate::layout::hour_end_unix_nano;
use crate::schema;
use crate::schema::{
    DataType, DataTypeView, EventHour, Field, FieldView, Schema, COLUMN_EVENT_TIME_UNIX_NANO,
    COLUMN_LOG_ATTRIBUTES, COLUMN_RECEIVED_TIME_UNIX_NANO, COLUMN_RESOURCE_ATTRIBUTES,
    COLUMN_SCOPE_ATTRIBUTES, COLUMN_WAL_SEQUENCE,
};
use crate::sorted;
use crate::text;
use crate::text::{order_text, same_text, TextOrder};

verus! {

/// Inclusive bounds for one non-null scalar value.
#[derive(Debug)]
pub enum StatValue {
    /// Boolean, with `false` ordered before `true`.
    Bool(bool),
    /// Signed 32-bit integer.
    Int32(i32),
    /// Signed 64-bit integer.
    Int64(i64),
    /// Unsigned 16-bit integer.
    UInt16(u16),
    /// Unsigned 32-bit integer.
    UInt32(u32),
    /// Unsigned 64-bit integer.
    UInt64(u64),
    /// IEEE 754 bits of a 64-bit float.
    Float64(u64),
    /// UTF-8 text, ordered lexicographically.
    Utf8(String),
}

pub enum StatValueView {
    Bool(bool),
    Int32(i32),
    Int64(i64),
    UInt16(u16),
    UInt32(u32),
    UInt64(u64),
    Float64(u64),
    Utf8(Seq<char>),
}

impl DeepView for StatValue {
    type V = StatValueView;

    open spec fn deep_view(&self) -> StatValueView {
        match self {
            StatValue::Bool(value) => StatValueView::Bool(*value),
            StatValue::Int32(value) => StatValueView::Int32(*value),
            StatValue::Int64(value) => StatValueView::Int64(*value),
            StatValue::UInt16(value) => StatValueView::UInt16(*value),
            StatValue::UInt32(value) => StatValueView::UInt32(*value),
            StatValue::UInt64(value) => StatValueView::UInt64(*value),
            StatValue::Float64(bits) => StatValueView::Float64(*bits),
            StatValue::Utf8(value) => StatValueView::Utf8(value@),
        }
    }
}

/// Equality of two values; a NaN equals nothing and both zeros are equal.
pub open spec fn stat_equal(left: StatValueView, right: StatValueView) -> bool {
    match (left, right) {
        (StatValueView::Float64(left), StatValueView::Float64(right)) => floats::float_equal(left, right),
        _ => left == right,
    }
}

/// Order of two values of one type.
pub open spec fn stat_less(left: StatValueView, right: StatValueView) -> Option<bool> {
    match (left, right) {
        (StatValueView::Bool(left), StatValueView::Bool(right)) => Some(!left && right),
        (StatValueView::Int32(left), StatValueView::Int32(right)) => Some(left < right),
        (StatValueView::Int64(left), StatValueView::Int64(right)) => Some(left < right),
        (StatValueView::UInt16(left), StatValueView::UInt16(right)) => Some(left < right),
        (StatValueView::UInt32(left), StatValueView::UInt32(right)) => Some(left < right),
        (StatValueView::UInt64(left), StatValueView::UInt64(right)) => Some(left < right),
        (StatValueView::Float64(left), StatValueView::Float64(right)) => Some(
            floats::float_less(left, right),
        ),
        (StatValueView::Utf8(left), StatValueView::Utf8(right)) => Some(text::text_lt(left, right)),
        _ => None,
    }
}

/// Column type stored for a value.
pub open spec fn stat_type(value: StatValueView) -> DataTypeView {
    match value {
        StatValueView::Bool(_) => DataTypeView::Boolean,
        StatValueView::Int32(_) => DataTypeView::Int32,
        StatValueView::Int64(_) => DataTypeView::Int64,
        StatValueView::UInt16(_) => DataTypeView::UInt16,
        StatValueView::UInt32(_) => DataTypeView::UInt32,
        StatValueView::UInt64(_) => DataTypeView::UInt64,
        StatValueView::Float64(_) => DataTypeView::Float64,
        StatValueView::Utf8(_) => DataTypeView::Utf8,
    }
}

/// Whether the value is an infinity or a NaN.
pub open spec fn stat_not_finite(value: StatValueView) -> bool {
    match value {
        StatValueView::Float64(bits) => !floats::float_finite(bits),
        _ => false,
    }
}

impl Clone for StatValue {
    fn clone(&self) -> (copy: Self)
        ensures
            copy.deep_view() == self.deep_view(),
    {
        match self {
            StatValue::Bool(value) => StatValue::Bool(*value),
            StatValue::Int32(value) => StatValue::Int32(*value),
            StatValue::Int64(value) => StatValue::Int64(*value),
            StatValue::UInt16(value) => StatValue::UInt16(*value),
            StatValue::UInt32(value) => StatValue::UInt32(*value),
            StatValue::UInt64(value) => StatValue::UInt64(*value),
            StatValue::Float64(bits) => StatValue::Float64(*bits),
            StatValue::Utf8(value) => StatValue::Utf8(value.clone()),
        }
    }
}

impl PartialEq for StatValue {
    fn eq(&self, other: &Self) -> (equal: bool) {
        self.same(other)
    }
}

impl vstd::std_specs::cmp::PartialEqSpecImpl for StatValue {
    open spec fn obeys_eq_spec() -> bool {
        true
    }

    open spec fn eq_spec(&self, other: &Self) -> bool {
        stat_equal(self.deep_view(), other.deep_view())
    }
}

impl StatValue {
    /// Tests two values for equality.
    pub fn same(&self, other: &Self) -> (same: bool)
        ensures
            same == stat_equal(self.deep_view(), other.deep_view()),
    {
        match (self, other) {
            (StatValue::Bool(left), StatValue::Bool(right)) => *left == *right,
            (StatValue::Int32(left), StatValue::Int32(right)) => *left == *right,
            (StatValue::Int64(left), StatValue::Int64(right)) => *left == *right,
            (StatValue::UInt16(left), StatValue::UInt16(right)) => *left == *right,
            (StatValue::UInt32(left), StatValue::UInt32(right)) => *left == *right,
            (StatValue::UInt64(left), StatValue::UInt64(right)) => *left == *right,
            (StatValue::Float64(left), StatValue::Float64(right)) => !is_float_nan(*left)
                && !is_float_nan(*right) && rank_of_float(*left) == rank_of_float(*right),
            (StatValue::Utf8(left), StatValue::Utf8(right)) => same_text(left, right),
            _ => false,
        }
    }

    /// `Some(true)` when both values have the same type and `self` is strictly smaller.
    #[must_use]
    pub fn less_than(&self, other: &Self) -> (less: Option<bool>)
        ensures
            less == stat_less(self.deep_view(), other.deep_view()),
    {
        proof {
            if self is Utf8 && other is Utf8 {
                text::lemma_text_lt_irreflexive(self->Utf8_0@);
            }
        }
        match (self, other) {
            (StatValue::Bool(left), StatValue::Bool(right)) => Some(!*left && *right),
            (StatValue::Int32(left), StatValue::Int32(right)) => Some(*left < *right),
            (StatValue::Int64(left), StatValue::Int64(right)) => Some(*left < *right),
            (StatValue::UInt16(left), StatValue::UInt16(right)) => Some(*left < *right),
            (StatValue::UInt32(left), StatValue::UInt32(right)) => Some(*left < *right),
            (StatValue::UInt64(left), StatValue::UInt64(right)) => Some(*left < *right),
            (StatValue::Float64(left), StatValue::Float64(right)) => Some(
                !is_float_nan(*left) && !is_float_nan(*right) && rank_of_float(*left)
                    < rank_of_float(*right),
            ),
            (StatValue::Utf8(left), StatValue::Utf8(right)) => Some(
                matches!(order_text(left, right), TextOrder::Before),
            ),
            _ => None,
        }
    }

    /// Column type stored for this value.
    #[must_use]
    pub fn data_type(&self) -> (data_type: DataType)
        ensures
            data_type.deep_view() == stat_type(self.deep_view()),
    {
        match self {
            StatValue::Bool(_) => DataType::Boolean,
            StatValue::Int32(_) => DataType::Int32,
            StatValue::Int64(_) => DataType::Int64,
            StatValue::UInt16(_) => DataType::UInt16,
            StatValue::UInt32(_) => DataType::UInt32,
            StatValue::UInt64(_) => DataType::UInt64,
            StatValue::Float64(_) => DataType::Float64,
            StatValue::Utf8(_) => DataType::Utf8,
        }
    }

    fn not_finite(&self) -> (not_finite: bool)
        ensures
            not_finite == stat_not_finite(self.deep_view()),
    {
        match self {
            StatValue::Float64(bits) => !is_float_finite(*bits),
            _ => false,
        }
    }
}

/// Null count and optional inclusive bounds for one column.
#[derive(Debug)]
pub struct ColumnStatistics {
    /// Physical column name.
    pub name: String,
    /// Nulls in this column, including rows whose generation lacks the column.
    pub null_count: u64,
    /// Inclusive minimum and maximum of the non-null values.
    pub bounds: Option<(StatValue, StatValue)>,
}

#[verifier::ext_equal]
pub struct ColumnStatisticsView {
    pub name: Seq<char>,
    pub null_count: u64,
    pub bounds: Option<(StatValueView, StatValueView)>,
}

impl DeepView for ColumnStatistics {
    type V = ColumnStatisticsView;

    open spec fn deep_view(&self) -> ColumnStatisticsView {
        ColumnStatisticsView {
            name: self.name@,
            null_count: self.null_count,
            bounds: match self.bounds {
                None => None,
                Some((min, max)) => Some((min.deep_view(), max.deep_view())),
            },
        }
    }
}

impl Clone for ColumnStatistics {
    fn clone(&self) -> (copy: Self)
        ensures
            copy.deep_view() == self.deep_view(),
    {
        ColumnStatistics {
            name: self.name.clone(),
            null_count: self.null_count,
            bounds: match &self.bounds {
                None => None,
                Some((min, max)) => Some((min.clone(), max.clone())),
            },
        }
    }
}

/// Equality of two column statistics.
pub open spec fn column_statistics_equal(
    left: ColumnStatisticsView,
    right: ColumnStatisticsView,
) -> bool {
    left.name == right.name && left.null_count == right.null_count && match (
        left.bounds,
        right.bounds,
    ) {
        (None, None) => true,
        (Some(left), Some(right)) => stat_equal(left.0, right.0) && stat_equal(left.1, right.1),
        _ => false,
    }
}

impl ColumnStatistics {
    /// Tests two column statistics for equality.
    pub fn same(&self, other: &Self) -> (same: bool)
        ensures
            same == column_statistics_equal(self.deep_view(), other.deep_view()),
    {
        same_text(&self.name, &other.name) && self.null_count == other.null_count && match (
            &self.bounds,
            &other.bounds,
        ) {
            (None, None) => true,
            (Some((min, max)), Some((other_min, other_max))) => min.same(other_min) && max.same(
                other_max,
            ),
            _ => false,
        }
    }
}

/// Statistics recorded for one hour file.
#[derive(Debug)]
pub struct FileStatistics {
    /// Byte length of the file.
    pub size_bytes: u64,
    /// Rows stored in the file.
    pub rows: u64,
    /// Inclusive minimum `event_time_unix_nano`.
    pub event_time_min: u64,
    /// Inclusive maximum `event_time_unix_nano`.
    pub event_time_max: u64,
    /// Inclusive minimum `received_time_unix_nano`.
    pub received_time_min: u64,
    /// Inclusive maximum `received_time_unix_nano`.
    pub received_time_max: u64,
    /// Inclusive minimum `wal_sequence`.
    pub wal_min: u64,
    /// Inclusive maximum `wal_sequence`.
    pub wal_max: u64,
    /// Rows run from the newest event to the oldest.
    pub ordered: bool,
    /// One entry per schema field, in schema order.
    pub columns: Vec<ColumnStatistics>,
}

#[verifier::ext_equal]
pub struct FileStatisticsView {
    pub size_bytes: u64,
    pub rows: u64,
    pub event_time_min: u64,
    pub event_time_max: u64,
    pub received_time_min: u64,
    pub received_time_max: u64,
    pub wal_min: u64,
    pub wal_max: u64,
    pub ordered: bool,
    pub columns: Seq<ColumnStatisticsView>,
}

impl DeepView for FileStatistics {
    type V = FileStatisticsView;

    open spec fn deep_view(&self) -> FileStatisticsView {
        FileStatisticsView {
            size_bytes: self.size_bytes,
            rows: self.rows,
            event_time_min: self.event_time_min,
            event_time_max: self.event_time_max,
            received_time_min: self.received_time_min,
            received_time_max: self.received_time_max,
            wal_min: self.wal_min,
            wal_max: self.wal_max,
            ordered: self.ordered,
            columns: self.columns.deep_view(),
        }
    }
}

impl Clone for FileStatistics {
    fn clone(&self) -> (copy: Self)
        ensures
            copy.deep_view() == self.deep_view(),
    {
        let mut columns: Vec<ColumnStatistics> = Vec::new();
        let mut i: usize = 0;
        let ghost all = self.columns.deep_view();
        while i < self.columns.len()
            invariant
                i <= self.columns.len(),
                all == self.columns.deep_view(),
                columns.deep_view() == all.take(i as int),
            decreases self.columns.len() - i,
        {
            let ghost before = columns.deep_view();
            columns.push(self.columns[i].clone());
            assert(columns.deep_view() =~= before.push(all[i as int]));
            assert(columns.deep_view() =~= all.take(i + 1));
            i = i + 1;
        }
        assert(all.take(i as int) =~= all);
        FileStatistics {
            size_bytes: self.size_bytes,
            rows: self.rows,
            event_time_min: self.event_time_min,
            event_time_max: self.event_time_max,
            received_time_min: self.received_time_min,
            received_time_max: self.received_time_max,
            wal_min: self.wal_min,
            wal_max: self.wal_max,
            ordered: self.ordered,
            columns,
        }
    }
}

/// Equality of two file statistics.
pub open spec fn file_statistics_equal(left: FileStatisticsView, right: FileStatisticsView) -> bool {
    &&& left.size_bytes == right.size_bytes
    &&& left.rows == right.rows
    &&& left.event_time_min == right.event_time_min
    &&& left.event_time_max == right.event_time_max
    &&& left.received_time_min == right.received_time_min
    &&& left.received_time_max == right.received_time_max
    &&& left.wal_min == right.wal_min
    &&& left.wal_max == right.wal_max
    &&& left.ordered == right.ordered
    &&& left.columns.len() == right.columns.len()
    &&& forall|i: int|
        0 <= i < left.columns.len() ==> column_statistics_equal(
            #[trigger] left.columns[i],
            right.columns[i],
        )
}

impl FileStatistics {
    /// Tests two file statistics for equality.
    pub fn same(&self, other: &Self) -> (same: bool)
        ensures
            same == file_statistics_equal(self.deep_view(), other.deep_view()),
    {
        if self.size_bytes != other.size_bytes || self.rows != other.rows || self.event_time_min
            != other.event_time_min || self.event_time_max != other.event_time_max
            || self.received_time_min != other.received_time_min || self.received_time_max
            != other.received_time_max || self.wal_min != other.wal_min || self.wal_max
            != other.wal_max || self.ordered != other.ordered || self.columns.len()
            != other.columns.len() {
            return false;
        }
        let mut i: usize = 0;
        let ghost left = self.columns.deep_view();
        let ghost right = other.columns.deep_view();
        while i < self.columns.len()
            invariant
                i <= self.columns.len(),
                self.columns.len() == other.columns.len(),
                left == self.columns.deep_view(),
                right == other.columns.deep_view(),
                forall|k: int|
                    0 <= k < i ==> column_statistics_equal(#[trigger] left[k], right[k]),
            decreases self.columns.len() - i,
        {
            if !self.columns[i].same(&other.columns[i]) {
                assert(!column_statistics_equal(left[i as int], right[i as int]));
                return false;
            }
            i = i + 1;
        }
        true
    }
}

/// The value that a cell contributes to bounds.
pub open spec fn stat_of(cell: CellView) -> Option<StatValueView> {
    match cell {
        CellView::Bool(value) => Some(StatValueView::Bool(value)),
        CellView::Int32(value) => Some(StatValueView::Int32(value)),
        CellView::Int64(value) => Some(StatValueView::Int64(value)),
        CellView::UInt16(value) => Some(StatValueView::UInt16(value)),
        CellView::UInt32(value) => Some(StatValueView::UInt32(value)),
        CellView::UInt64(value) => Some(StatValueView::UInt64(value)),
        CellView::Float64(bits) => Some(StatValueView::Float64(bits)),
        CellView::Text(value) => Some(StatValueView::Utf8(value)),
        CellView::Bytes(_) => None,
        CellView::Null => None,
    }
}

/// The value at one row, if the row has a value that can be ordered.
fn stat_value(cell: &Cell) -> (value: Option<StatValue>)
    ensures
        value is Some == stat_of(cell.deep_view()) is Some,
        value is Some ==> value->0.deep_view() == stat_of(cell.deep_view())->0,
{
    match cell {
        Cell::Bool(value) => Some(StatValue::Bool(*value)),
        Cell::Int32(value) => Some(StatValue::Int32(*value)),
        Cell::Int64(value) => Some(StatValue::Int64(*value)),
        Cell::UInt16(value) => Some(StatValue::UInt16(*value)),
        Cell::UInt32(value) => Some(StatValue::UInt32(*value)),
        Cell::UInt64(value) => Some(StatValue::UInt64(*value)),
        Cell::Float64(bits) => Some(StatValue::Float64(*bits)),
        Cell::Text(value) => Some(StatValue::Utf8(value.clone())),
        Cell::Bytes(_) => None,
        Cell::Null => None,
    }
}

/// The least and the greatest value of a column; of equal values the first.
pub open spec fn cell_bounds(cells: Seq<CellView>) -> Option<(StatValueView, StatValueView)>
    decreases cells.len(),
{
    if cells.len() == 0 {
        None
    } else {
        widen(cell_bounds(cells.drop_last()), cells.last())
    }
}

/// Bounds that take one more value into account.
pub open spec fn widen(
    bounds: Option<(StatValueView, StatValueView)>,
    cell: CellView,
) -> Option<(StatValueView, StatValueView)> {
    match stat_of(cell) {
        None => bounds,
        Some(value) => match bounds {
            None => Some((value, value)),
            Some((min, max)) => Some(
                (
                    if stat_less(value, min) == Some(true) {
                        value
                    } else {
                        min
                    },
                    if stat_less(max, value) == Some(true) {
                        value
                    } else {
                        max
                    },
                ),
            ),
        },
    }
}

/// Whether a value is a float without order.
pub open spec fn has_non_finite(cells: Seq<CellView>) -> bool {
    exists|i: int|
        0 <= i < cells.len() && match #[trigger] cells[i] {
            CellView::Float64(bits) => !floats::float_finite(bits),
            _ => false,
        }
}

/// Whether bounds are kept for a column.
pub open spec fn bounds_kept(field: FieldView) -> bool {
    &&& field.name != COLUMN_RESOURCE_ATTRIBUTES@
    &&& field.name != COLUMN_SCOPE_ATTRIBUTES@
    &&& field.name != COLUMN_LOG_ATTRIBUTES@
    &&& sorted::lookup(field.metadata, FIELD_KIND@) != Some(DynamicKind::Json.text())
    &&& match field.data_type {
        DataTypeView::Boolean => true,
        DataTypeView::Int32 => true,
        DataTypeView::Int64 => true,
        DataTypeView::UInt16 => true,
        DataTypeView::UInt32 => true,
        DataTypeView::UInt64 => true,
        DataTypeView::Float64 => true,
        DataTypeView::Utf8 => true,
        _ => false,
    }
}

fn bounds_supported(field: &Field) -> (supported: bool)
    ensures
        supported == bounds_kept(field.deep_view()),
{
    if same_text(&field.name, COLUMN_RESOURCE_ATTRIBUTES) || same_text(
        &field.name,
        COLUMN_SCOPE_ATTRIBUTES,
    ) || same_text(&field.name, COLUMN_LOG_ATTRIBUTES) {
        return false;
    }
    if let Some(kind) = field.metadata.get(FIELD_KIND) {
        if same_text(kind, DynamicKind::Json.as_str()) {
            return false;
        }
    }
    match &field.data_type {
        DataType::Boolean => true,
        DataType::Int32 => true,
        DataType::Int64 => true,
        DataType::UInt16 => true,
        DataType::UInt32 => true,
        DataType::UInt64 => true,
        DataType::Float64 => true,
        DataType::Utf8 => true,
        _ => false,
    }
}

/// Whether every batch holds the column with the type of `field`.
pub open spec fn column_present(field: FieldView, batches: Seq<BatchView>) -> bool {
    forall|i: int|
        0 <= i < batches.len() ==> (#[trigger] batches[i]).column_by_name(field.name) is Some
            && batches[i].column_by_name(field.name)->0.data_type == field.data_type
}

/// The cells of one column over all batches, in batch order.
pub open spec fn column_cells(name: Seq<char>, batches: Seq<BatchView>) -> Seq<CellView>
    decreases batches.len(),
{
    if batches.len() == 0 {
        Seq::empty()
    } else {
        column_cells(name, batches.drop_last()) + batches.last().column_by_name(name)->0.cells
    }
}

/// Rows over all batches.
pub open spec fn total_rows(batches: Seq<BatchView>) -> nat
    decreases batches.len(),
{
    if batches.len() == 0 {
        0
    } else {
        total_rows(batches.drop_last()) + batches.last().rows
    }
}

/// What is recorded for one column, if it can be summarized.
pub open spec fn column_summary(field: FieldView, batches: Seq<BatchView>) -> Option<
    ColumnStatisticsView,
> {
    let cells = column_cells(field.name, batches);
    if !column_present(field, batches) || batch::null_count(cells) > u64::MAX {
        None
    } else {
        Some(
            ColumnStatisticsView {
                name: field.name,
                null_count: batch::null_count(cells) as u64,
                bounds: if bounds_kept(field) && !has_non_finite(cells) {
                    cell_bounds(cells)
                } else {
                    None
                },
            },
        )
    }
}

proof fn lemma_null_count_append(left: Seq<CellView>, right: Seq<CellView>)
    ensures
        batch::null_count(left + right) == batch::null_count(left) + batch::null_count(right),
    decreases right.len(),
{
    if right.len() == 0 {
        assert(left + right =~= left);
    } else {
        lemma_null_count_append(left, right.drop_last());
        assert((left + right).drop_last() =~= left + right.drop_last());
    }
}

proof fn lemma_non_finite_append(left: Seq<CellView>, right: Seq<CellView>)
    ensures
        has_non_finite(left + right) == (has_non_finite(left) || has_non_finite(right)),
{
    let both = left + right;
    if has_non_finite(left) {
        let i = choose|i: int|
            0 <= i < left.len() && match #[trigger] left[i] {
                CellView::Float64(bits) => !floats::float_finite(bits),
                _ => false,
            };
        assert(both[i] == left[i]);
    }
    if has_non_finite(right) {
        let i = choose|i: int|
            0 <= i < right.len() && match #[trigger] right[i] {
                CellView::Float64(bits) => !floats::float_finite(bits),
                _ => false,
            };
        assert(both[left.len() + i] == right[i]);
    }
    if has_non_finite(both) {
        let i = choose|i: int|
            0 <= i < both.len() && match #[trigger] both[i] {
                CellView::Float64(bits) => !floats::float_finite(bits),
                _ => false,
            };
        if i < left.len() {
            assert(left[i] == both[i]);
        } else {
            assert(right[i - left.len()] == both[i]);
        }
    }
}

proof fn lemma_column_cells_take(name: Seq<char>, batches: Seq<BatchView>, count: int)
    requires
        0 <= count <= batches.len(),
    ensures
        batch::null_count(column_cells(name, batches.take(count))) <= batch::null_count(
            column_cells(name, batches),
        ),
    decreases batches.len() - count,
{
    if count < batches.len() {
        lemma_column_cells_take(name, batches, count + 1);
        assert(batches.take(count + 1).drop_last() =~= batches.take(count));
        lemma_null_count_append(
            column_cells(name, batches.take(count)),
            batches[count].column_by_name(name)->0.cells,
        );
    } else {
        assert(batches.take(count) =~= batches);
    }
}

/// Widens `bounds` by the values of one column, until a value without order.
///
/// The result is whether every value has an order.
fn fold_bounds(cells: &Vec<Cell>, bounds: &mut Option<(StatValue, StatValue)>, before: Ghost<
    Seq<CellView>,
>) -> (ordered: bool)
    requires
        old(bounds).deep_view() == cell_bounds(before@),
    ensures
        ordered == !has_non_finite(cells.deep_view()),
        ordered ==> final(bounds).deep_view() == cell_bounds(before@ + cells.deep_view()),
{
    let mut row: usize = 0;
    let ghost all = cells.deep_view();
    assert(before@ + all.take(0) =~= before@);
    while row < cells.len()
        invariant
            row <= cells.len(),
            all == cells.deep_view(),
            bounds.deep_view() == cell_bounds(before@ + all.take(row as int)),
            forall|k: int|
                0 <= k < row ==> match #[trigger] all[k] {
                    CellView::Float64(bits) => floats::float_finite(bits),
                    _ => true,
                },
        decreases cells.len() - row,
    {
        let ghost seen = before@ + all.take(row as int);
        assert((before@ + all.take(row + 1)).drop_last() =~= seen);
        assert((before@ + all.take(row + 1)).last() == all[row as int]);
        if let Some(value) = stat_value(&cells[row]) {
            if value.not_finite() {
                assert(match all[row as int] {
                    CellView::Float64(bits) => !floats::float_finite(bits),
                    _ => false,
                });
                return false;
            }
            let widened = match bounds.take() {
                None => (value.clone(), value),
                Some((min, max)) => {
                    let new_min = if value.less_than(&min) == Some(true) {
                        value.clone()
                    } else {
                        min
                    };
                    let new_max = if max.less_than(&value) == Some(true) {
                        value
                    } else {
                        max
                    };
                    (new_min, new_max)
                },
            };
            *bounds = Some(widened);
        }
        row = row + 1;
    }
    assert(all.take(row as int) =~= all);
    true
}

/// Summary of one column over `batches`.
fn column_statistics(field: &Field, batches: &Vec<RecordBatch>) -> (summary: Option<
    ColumnStatistics,
>)
    ensures
        summary.deep_view() == column_summary(field.deep_view(), batches.deep_view()),
{
    let ghost all = batches.deep_view();
    let ghost name = field.name@;
    let mut null_count: u64 = 0;
    let mut bounds: Option<(StatValue, StatValue)> = None;
    let supported = bounds_supported(field);
    let mut drop_bounds = !supported;
    let mut i: usize = 0;
    assert(all.take(0) =~= Seq::empty());
    while i < batches.len()
        invariant
            i <= batches.len(),
            all == batches.deep_view(),
            name == field.name@,
            supported == bounds_kept(field.deep_view()),
            column_present(field.deep_view(), all.take(i as int)),
            null_count == batch::null_count(column_cells(name, all.take(i as int))),
            drop_bounds == (!supported || has_non_finite(column_cells(name, all.take(i as int)))),
            !drop_bounds ==> bounds.deep_view() == cell_bounds(
                column_cells(name, all.take(i as int)),
            ),
        decreases batches.len() - i,
    {
        let ghost seen = column_cells(name, all.take(i as int));
        assert(all.take(i + 1).drop_last() =~= all.take(i as int));
        assert(all[i as int] == batches@[i as int].deep_view());
        let column = match batches[i].column_by_name(&field.name) {
            Some(column) => column,
            None => {
                return None;
            },
        };
        if !column.data_type.same(&field.data_type) {
            return None;
        }
        let ghost cells = column.cells.deep_view();
        proof {
            lemma_null_count_append(seen, cells);
            lemma_non_finite_append(seen, cells);
            lemma_column_cells_take(name, all, i + 1);
        }
        let nulls = column.null_count();
        null_count = match null_count.checked_add(nulls as u64) {
            Some(total) => total,
            None => {
                return None;
            },
        };
        if !drop_bounds {
            if !fold_bounds(&column.cells, &mut bounds, Ghost(seen)) {
                drop_bounds = true;
            }
        }
        assert(column_present(field.deep_view(), all.take(i + 1))) by {
            assert forall|k: int| 0 <= k < i + 1 implies (#[trigger] all.take(
                i + 1,
            )[k]).column_by_name(name) is Some && all.take(i + 1)[k].column_by_name(
                name,
            )->0.data_type == field.data_type.deep_view() by {
                if k < i {
                    assert(all.take(i as int)[k] == all[k]);
                }
            }
        }
        i = i + 1;
    }
    assert(all.take(i as int) =~= all);
    if drop_bounds {
        bounds = None;
    }
    Some(ColumnStatistics { name: field.name.clone(), null_count, bounds })
}

/// The bounds of the first column called `name`, where they are unsigned 64-bit integers.
pub open spec fn named_bounds(columns: Seq<ColumnStatisticsView>, name: Seq<char>) -> Option<
    (u64, u64),
>
    decreases columns.len(),
{
    if columns.len() == 0 {
        None
    } else if columns[0].name == name {
        match columns[0].bounds {
            Some((StatValueView::UInt64(min), StatValueView::UInt64(max))) => Some((min, max)),
            _ => None,
        }
    } else {
        named_bounds(columns.drop_first(), name)
    }
}

fn u64_bounds(columns: &Vec<ColumnStatistics>, name: &str) -> (bounds: Option<(u64, u64)>)
    ensures
        bounds == named_bounds(columns.deep_view(), name@),
{
    let ghost all = columns.deep_view();
    let mut i: usize = 0;
    assert(all.skip(0) =~= all);
    while i < columns.len()
        invariant
            i <= columns.len(),
            all == columns.deep_view(),
            named_bounds(all, name@) == named_bounds(all.skip(i as int), name@),
        decreases columns.len() - i,
    {
        assert(all.skip(i as int).drop_first() =~= all.skip(i + 1));
        assert(all.skip(i as int)[0] == columns@[i as int].deep_view());
        if same_text(&columns[i].name, name) {
            return match &columns[i].bounds {
                Some((StatValue::UInt64(min), StatValue::UInt64(max))) => Some((*min, *max)),
                _ => None,
            };
        }
        i = i + 1;
    }
    None
}

/// Whether the rows run from the newest event to the oldest, and from the highest WAL sequence to
/// the lowest among equal event times.
pub open spec fn newest_first(event_times: Seq<CellView>, sequences: Seq<CellView>) -> bool {
    &&& event_times.len() == sequences.len()
    &&& forall|i: int|
        0 <= i < event_times.len() ==> (#[trigger] event_times[i]) is UInt64 && sequences[i] is UInt64
    &&& forall|i: int, j: int|
        0 <= i < j < event_times.len() ==> not_older(
            (#[trigger] event_times[i])->UInt64_0,
            sequences[i]->UInt64_0,
            (#[trigger] event_times[j])->UInt64_0,
            sequences[j]->UInt64_0,
        )
}

/// Whether the first row may stand before the second.
pub open spec fn not_older(
    first_time: u64,
    first_sequence: u64,
    second_time: u64,
    second_sequence: u64,
) -> bool {
    first_time > second_time || (first_time == second_time && first_sequence >= second_sequence)
}

/// Appends the cells of one column over all batches.
fn gather(batches: &Vec<RecordBatch>, name: &str) -> (cells: Option<Vec<Cell>>)
    ensures
        cells is Some == (forall|i: int|
            0 <= i < batches.deep_view().len() ==> (
            #[trigger] batches.deep_view()[i]).column_by_name(name@) is Some),
        cells is Some ==> cells->0.deep_view() == column_cells(name@, batches.deep_view()),
{
    let ghost all = batches.deep_view();
    let mut cells: Vec<Cell> = Vec::new();
    let mut i: usize = 0;
    assert(all.take(0) =~= Seq::empty());
    assert(cells.deep_view() =~= column_cells(name@, all.take(0)));
    while i < batches.len()
        invariant
            i <= batches.len(),
            all == batches.deep_view(),
            cells.deep_view() == column_cells(name@, all.take(i as int)),
            forall|k: int| 0 <= k < i ==> (#[trigger] all[k]).column_by_name(name@) is Some,
        decreases batches.len() - i,
    {
        assert(all.take(i + 1).drop_last() =~= all.take(i as int));
        assert(all[i as int] == batches@[i as int].deep_view());
        match batches[i].column_by_name(name) {
            None => {
                return None;
            },
            Some(column) => {
                let mut more = batch::copy_cells(&column.cells);
                let ghost before = cells.deep_view();
                let ghost added = more.deep_view();
                cells.append(&mut more);
                assert(cells.deep_view() =~= before + added);
            },
        }
        i = i + 1;
    }
    assert(all.take(i as int) =~= all);
    Some(cells)
}

fn is_newest_first(event_times: &Vec<Cell>, sequences: &Vec<Cell>) -> (ordered: bool)
    ensures
        ordered == newest_first(event_times.deep_view(), sequences.deep_view()),
{
    let ghost times = event_times.deep_view();
    let ghost seqs = sequences.deep_view();
    if event_times.len() != sequences.len() {
        return false;
    }
    let mut i: usize = 0;
    while i < event_times.len()
        invariant
            i <= event_times.len(),
            event_times.len() == sequences.len(),
            times == event_times.deep_view(),
            seqs == sequences.deep_view(),
            forall|k: int| 0 <= k < i ==> (#[trigger] times[k]) is UInt64 && seqs[k] is UInt64,
            forall|k: int, j: int|
                0 <= k < j < i ==> not_older(
                    (#[trigger] times[k])->UInt64_0,
                    seqs[k]->UInt64_0,
                    (#[trigger] times[j])->UInt64_0,
                    seqs[j]->UInt64_0,
                ),
        decreases event_times.len() - i,
    {
        assert(times[i as int] == event_times@[i as int].deep_view());
        assert(seqs[i as int] == sequences@[i as int].deep_view());
        match (&event_times[i], &sequences[i]) {
            (Cell::UInt64(time), Cell::UInt64(sequence)) => {
                if i > 0 {
                    assert(times[i - 1] == event_times@[i - 1].deep_view());
                    assert(seqs[i - 1] == sequences@[i - 1].deep_view());
                    if let (Cell::UInt64(last_time), Cell::UInt64(last_sequence)) = (
                        &event_times[i - 1],
                        &sequences[i - 1],
                    ) {
                        if !(*last_time > *time || (*last_time == *time && *last_sequence
                            >= *sequence)) {
                            assert(!not_older(
                                times[i - 1]->UInt64_0,
                                seqs[i - 1]->UInt64_0,
                                times[i as int]->UInt64_0,
                                seqs[i as int]->UInt64_0,
                            ));
                            return false;
                        }
                    }
                }
            },
            _ => {
                return false;
            },
        }
        i = i + 1;
    }
    true
}

/// Whether the batches run from the newest event to the oldest.
pub open spec fn batches_newest_first(batches: Seq<BatchView>) -> bool {
    newest_first(
        column_cells(COLUMN_EVENT_TIME_UNIX_NANO@, batches),
        column_cells(COLUMN_WAL_SEQUENCE@, batches),
    )
}

/// Summaries of every field, if every field can be summarized.
pub open spec fn column_summaries(fields: Seq<FieldView>, batches: Seq<BatchView>) -> Option<
    Seq<ColumnStatisticsView>,
>
    decreases fields.len(),
{
    if fields.len() == 0 {
        Some(Seq::empty())
    } else {
        match (
            column_summaries(fields.drop_last(), batches),
            column_summary(fields.last(), batches),
        ) {
            (Some(columns), Some(column)) => Some(columns.push(column)),
            _ => None,
        }
    }
}

proof fn lemma_summaries_fail(fields: Seq<FieldView>, batches: Seq<BatchView>, at: int)
    requires
        0 <= at < fields.len(),
        column_summary(fields[at], batches) is None,
    ensures
        column_summaries(fields, batches) is None,
    decreases fields.len(),
{
    if at < fields.len() - 1 {
        lemma_summaries_fail(fields.drop_last(), batches, at);
    }
}

/// Receive-time bounds: those of the column, or every instant where there is no such column.
pub open spec fn received_bounds(fields: Seq<FieldView>, columns: Seq<ColumnStatisticsView>) -> Option<
    (u64, u64),
> {
    if schema::field_index(fields, COLUMN_RECEIVED_TIME_UNIX_NANO@) == fields.len() {
        Some((0u64, u64::MAX))
    } else {
        named_bounds(columns, COLUMN_RECEIVED_TIME_UNIX_NANO@)
    }
}

/// What is recorded for one file, if event time and WAL sequence have bounds.
pub open spec fn file_summary(
    fields: Seq<FieldView>,
    batches: Seq<BatchView>,
    size_bytes: u64,
) -> Option<FileStatisticsView> {
    match column_summaries(fields, batches) {
        None => None,
        Some(columns) => match (
            named_bounds(columns, COLUMN_EVENT_TIME_UNIX_NANO@),
            received_bounds(fields, columns),
            named_bounds(columns, COLUMN_WAL_SEQUENCE@),
        ) {
            (Some(event_time), Some(received), Some(wal)) => if total_rows(batches) > u64::MAX {
                None
            } else {
                Some(
                    FileStatisticsView {
                        size_bytes,
                        rows: total_rows(batches) as u64,
                        event_time_min: event_time.0,
                        event_time_max: event_time.1,
                        received_time_min: received.0,
                        received_time_max: received.1,
                        wal_min: wal.0,
                        wal_max: wal.1,
                        ordered: batches_newest_first(batches),
                        columns,
                    },
                )
            },
            _ => None,
        },
    }
}

proof fn lemma_total_rows_take(batches: Seq<BatchView>, count: int)
    requires
        0 <= count <= batches.len(),
    ensures
        total_rows(batches.take(count)) <= total_rows(batches),
    decreases batches.len() - count,
{
    if count < batches.len() {
        lemma_total_rows_take(batches, count + 1);
        assert(batches.take(count + 1).drop_last() =~= batches.take(count));
    } else {
        assert(batches.take(count) =~= batches);
    }
}

proof fn lemma_summary_names(fields: Seq<FieldView>, batches: Seq<BatchView>)
    requires
        column_summaries(fields, batches) is Some,
    ensures
        ({
            let columns = column_summaries(fields, batches)->0;
            &&& columns.len() == fields.len()
            &&& forall|i: int|
                0 <= i < fields.len() ==> column_summary(fields[i], batches) == Some(
                    #[trigger] columns[i],
                )
        }),
    decreases fields.len(),
{
    if fields.len() > 0 {
        lemma_summary_names(fields.drop_last(), batches);
    }
}

proof fn lemma_named_bounds_found(columns: Seq<ColumnStatisticsView>, name: Seq<char>)
    requires
        named_bounds(columns, name) is Some,
    ensures
        exists|i: int| 0 <= i < columns.len() && (#[trigger] columns[i]).name == name,
    decreases columns.len(),
{
    if columns.len() > 0 && columns[0].name != name {
        lemma_named_bounds_found(columns.drop_first(), name);
        let i = choose|i: int|
            0 <= i < columns.drop_first().len() && (#[trigger] columns.drop_first()[i]).name == name;
        assert(columns[i + 1].name == name);
    }
}

/// Summarize `batches`, which already share `schema`.
///
/// Returns [`None`] when event time or WAL sequence has no finite bounds.
#[must_use]
pub fn file_statistics(schema: &Schema, batches: &Vec<RecordBatch>, size_bytes: u64) -> (summary:
    Option<FileStatistics>)
    ensures
        summary.deep_view() == file_summary(
            schema.deep_view().fields,
            batches.deep_view(),
            size_bytes,
        ),
{
    let ghost fields = schema.fields.deep_view();
    let ghost all = batches.deep_view();
    let mut columns: Vec<ColumnStatistics> = Vec::new();
    let mut i: usize = 0;
    assert(fields.take(0) =~= Seq::empty());
    assert(columns.deep_view() =~= Seq::empty());
    while i < schema.fields.len()
        invariant
            i <= schema.fields.len(),
            fields == schema.fields.deep_view(),
            all == batches.deep_view(),
            column_summaries(fields.take(i as int), all) == Some(columns.deep_view()),
        decreases schema.fields.len() - i,
    {
        assert(fields.take(i + 1).drop_last() =~= fields.take(i as int));
        match column_statistics(&schema.fields[i], batches) {
            Some(column) => {
                let ghost before = columns.deep_view();
                columns.push(column);
                assert(columns.deep_view() =~= before.push(column.deep_view()));
            },
            None => {
                proof {
                    assert(column_summary(fields[i as int], all) is None);
                    lemma_summaries_fail(fields, all, i as int);
                }
                return None;
            },
        }
        i = i + 1;
    }
    assert(fields.take(i as int) =~= fields);
    let event_time = match u64_bounds(&columns, COLUMN_EVENT_TIME_UNIX_NANO) {
        Some(bounds) => bounds,
        None => {
            return None;
        },
    };
    let received = match schema.index_of(COLUMN_RECEIVED_TIME_UNIX_NANO) {
        None => (0u64, u64::MAX),
        Some(_) => match u64_bounds(&columns, COLUMN_RECEIVED_TIME_UNIX_NANO) {
            Some(bounds) => bounds,
            None => {
                return None;
            },
        },
    };
    let wal = match u64_bounds(&columns, COLUMN_WAL_SEQUENCE) {
        Some(bounds) => bounds,
        None => {
            return None;
        },
    };
    let mut rows: u64 = 0;
    let mut b: usize = 0;
    assert(all.take(0) =~= Seq::empty());
    while b < batches.len()
        invariant
            b <= batches.len(),
            all == batches.deep_view(),
            rows == total_rows(all.take(b as int)),
        decreases batches.len() - b,
    {
        assert(all.take(b + 1).drop_last() =~= all.take(b as int));
        proof {
            lemma_total_rows_take(all, b + 1);
        }
        rows = match rows.checked_add(batches[b].num_rows() as u64) {
            Some(total) => total,
            None => {
                assert(total_rows(all) > u64::MAX);
                assert(file_summary(fields, all, size_bytes) is None);
                return None;
            },
        };
        b = b + 1;
    }
    assert(all.take(b as int) =~= all);
    let event_times = gather(batches, COLUMN_EVENT_TIME_UNIX_NANO);
    let sequences = gather(batches, COLUMN_WAL_SEQUENCE);
    proof {
        lemma_summary_names(fields, all);
        lemma_named_bounds_found(columns.deep_view(), COLUMN_EVENT_TIME_UNIX_NANO@);
        lemma_named_bounds_found(columns.deep_view(), COLUMN_WAL_SEQUENCE@);
        assert(event_times is Some && sequences is Some);
    }
    let ordered = match (event_times, sequences) {
        (Some(event_times), Some(sequences)) => is_newest_first(&event_times, &sequences),
        _ => false,
    };
    Some(
        FileStatistics {
            size_bytes,
            rows,
            event_time_min: event_time.0,
            event_time_max: event_time.1,
            received_time_min: received.0,
            received_time_max: received.1,
            wal_min: wal.0,
            wal_max: wal.1,
            ordered,
            columns,
        },
    )
}

/// Whether some column called `name` has exactly these bounds.
pub open spec fn bounds_recorded(
    columns: Seq<ColumnStatisticsView>,
    name: Seq<char>,
    min: u64,
    max: u64,
) -> bool {
    exists|i: int|
        0 <= i < columns.len() && (#[trigger] columns[i]).name == name && columns[i].bounds == Some(
            (StatValueView::UInt64(min), StatValueView::UInt64(max)),
        )
}

fn bounds_match(columns: &Vec<ColumnStatistics>, name: &str, min: u64, max: u64) -> (found: bool)
    ensures
        found == bounds_recorded(columns.deep_view(), name@, min, max),
{
    let ghost all = columns.deep_view();
    let mut i: usize = 0;
    while i < columns.len()
        invariant
            i <= columns.len(),
            all == columns.deep_view(),
            forall|k: int|
                0 <= k < i ==> !((#[trigger] all[k]).name == name@ && all[k].bounds == Some(
                    (StatValueView::UInt64(min), StatValueView::UInt64(max)),
                )),
        decreases columns.len() - i,
    {
        assert(all[i as int] == columns@[i as int].deep_view());
        if same_text(&columns[i].name, name) {
            if let Some((StatValue::UInt64(low), StatValue::UInt64(high))) = &columns[i].bounds {
                if *low == min && *high == max {
                    return true;
                }
            }
        }
        i = i + 1;
    }
    false
}

/// Whether one column's statistics agree with its field and the row count.
pub open spec fn column_usable(column: ColumnStatisticsView, field: FieldView, rows: u64) -> bool {
    &&& column.name == field.name
    &&& column.null_count <= rows
    &&& !field.nullable ==> column.null_count == 0
    &&& match column.bounds {
        None => true,
        Some((min, max)) => {
            &&& stat_type(min) == field.data_type
            &&& stat_type(max) == field.data_type
            &&& !stat_not_finite(min)
            &&& !stat_not_finite(max)
            &&& stat_less(min, max) == Some(true) || stat_equal(min, max)
        },
    }
}

/// Whether statistics can exclude a file: every bound agrees with the schema and the commit range.
pub open spec fn usable(
    statistics: FileStatisticsView,
    fields: Seq<FieldView>,
    rows: u64,
    hour_start: u64,
    hour_end: u64,
    first_sequence: u64,
    next_sequence: u64,
) -> bool {
    &&& statistics.size_bytes != 0
    &&& statistics.rows == rows
    &&& hour_start <= statistics.event_time_min <= statistics.event_time_max < hour_end
    &&& statistics.received_time_min <= statistics.received_time_max
    &&& first_sequence <= statistics.wal_min <= statistics.wal_max < next_sequence
    &&& statistics.columns.len() == fields.len()
    &&& forall|i: int|
        0 <= i < fields.len() ==> column_usable(#[trigger] statistics.columns[i], fields[i], rows)
    &&& bounds_recorded(
        statistics.columns,
        COLUMN_EVENT_TIME_UNIX_NANO@,
        statistics.event_time_min,
        statistics.event_time_max,
    )
    &&& bounds_recorded(
        statistics.columns,
        COLUMN_WAL_SEQUENCE@,
        statistics.wal_min,
        statistics.wal_max,
    )
    &&& schema::field_index(fields, COLUMN_RECEIVED_TIME_UNIX_NANO@) < fields.len()
        ==> bounds_recorded(
        statistics.columns,
        COLUMN_RECEIVED_TIME_UNIX_NANO@,
        statistics.received_time_min,
        statistics.received_time_max,
    )
}

fn is_column_usable(column: &ColumnStatistics, field: &Field, rows: u64) -> (usable: bool)
    ensures
        usable == column_usable(column.deep_view(), field.deep_view(), rows),
{
    if !same_text(&column.name, &field.name) || column.null_count > rows {
        return false;
    }
    if !field.nullable && column.null_count != 0 {
        return false;
    }
    match &column.bounds {
        None => true,
        Some((min, max)) => {
            min.data_type().same(&field.data_type) && max.data_type().same(&field.data_type)
                && !min.not_finite() && !max.not_finite() && (min.less_than(max) == Some(true)
                || min.same(max))
        },
    }
}

/// `statistics` can exclude a file only when every bound agrees with `schema` and the commit range.
#[must_use]
pub fn statistics_usable(
    statistics: &FileStatistics,
    schema: &Schema,
    rows: u64,
    hour_start: u64,
    hour_end: u64,
    first_sequence: u64,
    next_sequence: u64,
) -> (usable: bool)
    ensures
        usable == self::usable(
            statistics.deep_view(),
            schema.deep_view().fields,
            rows,
            hour_start,
            hour_end,
            first_sequence,
            next_sequence,
        ),
{
    if statistics.size_bytes == 0 || statistics.rows != rows || statistics.event_time_min
        > statistics.event_time_max || statistics.received_time_min > statistics.received_time_max
        || statistics.wal_min > statistics.wal_max || statistics.event_time_min < hour_start
        || statistics.event_time_max >= hour_end || statistics.wal_min < first_sequence
        || statistics.wal_max >= next_sequence || statistics.columns.len() != schema.fields.len() {
        return false;
    }
    let ghost columns = statistics.columns.deep_view();
    let ghost fields = schema.fields.deep_view();
    let mut i: usize = 0;
    while i < statistics.columns.len()
        invariant
            i <= statistics.columns.len(),
            statistics.columns.len() == schema.fields.len(),
            columns == statistics.columns.deep_view(),
            fields == schema.fields.deep_view(),
            forall|k: int| 0 <= k < i ==> column_usable(#[trigger] columns[k], fields[k], rows),
        decreases statistics.columns.len() - i,
    {
        if !is_column_usable(&statistics.columns[i], &schema.fields[i], rows) {
            assert(!column_usable(columns[i as int], fields[i as int], rows));
            return false;
        }
        i = i + 1;
    }
    let received_recorded = match schema.index_of(COLUMN_RECEIVED_TIME_UNIX_NANO) {
        None => true,
        Some(_) => bounds_match(
            &statistics.columns,
            COLUMN_RECEIVED_TIME_UNIX_NANO,
            statistics.received_time_min,
            statistics.received_time_max,
        ),
    };
    bounds_match(
        &statistics.columns,
        COLUMN_EVENT_TIME_UNIX_NANO,
        statistics.event_time_min,
        statistics.event_time_max,
    ) && bounds_match(
        &statistics.columns,
        COLUMN_WAL_SEQUENCE,
        statistics.wal_min,
        statistics.wal_max,
    ) && received_recorded
}

/// Whether usable statistics show that every row of a file was received before `cutoff`.
pub open spec fn retired_by_receipt(
    statistics: Option<FileStatisticsView>,
    fields: Seq<FieldView>,
    rows: u64,
    hour: u64,
    first_sequence: u64,
    next_sequence: u64,
    cutoff: u64,
) -> bool {
    match statistics {
        None => false,
        Some(statistics) => usable(
            statistics,
            fields,
            rows,
            hour,
            layout::hour_end(hour),
            first_sequence,
            next_sequence,
        ) && statistics.received_time_max < cutoff,
    }
}

/// Whether usable statistics show that every row of a file was received before `cutoff_unix_nano`.
#[must_use]
pub fn eligible_for_received_retention(
    statistics: Option<&FileStatistics>,
    schema: &Schema,
    rows: u64,
    hour: EventHour,
    first_sequence: u64,
    next_sequence: u64,
    cutoff_unix_nano: u64,
) -> (eligible: bool)
    ensures
        eligible == retired_by_receipt(
            statistics.deep_view(),
            schema.deep_view().fields,
            rows,
            hour@,
            first_sequence,
            next_sequence,
            cutoff_unix_nano,
        ),
{
    match statistics {
        None => false,
        Some(statistics) => statistics_usable(
            statistics,
            schema,
            rows,
            hour.start_unix_nano(),
            hour_end_unix_nano(hour),
            first_sequence,
            next_sequence,
        ) && statistics.received_time_max < cutoff_unix_nano,
    }
}

/// The order of values is transitive.
proof fn lemma_less_transitive(a: StatValueView, b: StatValueView, c: StatValueView)
    requires
        stat_less(a, b) == Some(true),
        stat_less(b, c) == Some(true),
    ensures
        stat_less(a, c) == Some(true),
{
    if a is Utf8 {
        text::lemma_text_lt_transitive(a->Utf8_0, b->Utf8_0, c->Utf8_0);
    }
}

/// No value is below itself.
proof fn lemma_less_irreflexive(value: StatValueView)
    ensures
        stat_less(value, value) == Some(false),
{
    if value is Utf8 {
        text::lemma_text_lt_irreflexive(value->Utf8_0);
    }
}

/// Whether the cells that have a value have it of one type.
pub open spec fn cells_typed(cells: Seq<CellView>, data_type: DataTypeView) -> bool {
    forall|i: int|
        0 <= i < cells.len() && stat_of(#[trigger] cells[i]) is Some ==> stat_type(
            stat_of(cells[i])->0,
        ) == data_type
}

/// Whether a value is neither below nor above bounds of its type.
pub open spec fn lies_within(
    value: StatValueView,
    bounds: Option<(StatValueView, StatValueView)>,
) -> bool {
    match bounds {
        Some((min, max)) => stat_less(value, min) == Some(false) && stat_less(max, value) == Some(
            false,
        ),
        None => false,
    }
}

/// Bounds are conservative: no value of a column lies outside them, and they are values of the
/// column's type.
pub proof fn bounds_cover_every_value(cells: Seq<CellView>, data_type: DataTypeView)
    requires
        cells_typed(cells, data_type),
    ensures
        match cell_bounds(cells) {
            Some((min, max)) => stat_type(min) == data_type && stat_type(max) == data_type,
            None => true,
        },
        forall|i: int|
            0 <= i < cells.len() && stat_of(#[trigger] cells[i]) is Some ==> lies_within(
                stat_of(cells[i])->0,
                cell_bounds(cells),
            ),
    decreases cells.len(),
{
    if cells.len() > 0 {
        let front = cells.drop_last();
        let last = cells.last();
        assert(forall|i: int| 0 <= i < front.len() ==> front[i] == cells[i]);
        assert(cells[cells.len() - 1] == last);
        bounds_cover_every_value(front, data_type);
        if stat_of(last) is Some {
            let value = stat_of(last)->0;
            lemma_less_irreflexive(value);
            assert forall|i: int|
                0 <= i < cells.len() && stat_of(#[trigger] cells[i]) is Some implies lies_within(
                stat_of(cells[i])->0,
                cell_bounds(cells),
            ) by {
                let bounds = cell_bounds(cells)->0;
                let here = stat_of(cells[i])->0;
                if i < front.len() {
                    assert(front[i] == cells[i]);
                    let before = cell_bounds(front)->0;
                    if stat_less(here, bounds.0) == Some(true) && stat_less(value, before.0)
                        == Some(true) {
                        lemma_less_transitive(here, value, before.0);
                    }
                    if stat_less(bounds.1, here) == Some(true) && stat_less(before.1, value)
                        == Some(true) {
                        lemma_less_transitive(before.1, value, here);
                    }
                }
            }
        }
    }
}

proof fn lemma_summaries_at(fields: Seq<FieldView>, batches: Seq<BatchView>, at: int)
    requires
        column_summaries(fields, batches) is Some,
        0 <= at < fields.len(),
    ensures
        column_summaries(fields, batches)->0.len() == fields.len(),
        column_summary(fields[at], batches) == Some(column_summaries(fields, batches)->0[at]),
    decreases fields.len(),
{
    let front = fields.drop_last();
    if at < front.len() {
        lemma_summaries_at(front, batches, at);
    } else if front.len() > 0 {
        lemma_summaries_at(front, batches, 0);
    }
}

proof fn lemma_named_bounds(columns: Seq<ColumnStatisticsView>, name: Seq<char>) -> (at: int)
    requires
        named_bounds(columns, name) is Some,
    ensures
        0 <= at < columns.len(),
        columns[at].name == name,
        ({
            let bounds = named_bounds(columns, name)->0;
            columns[at].bounds == Some(
                (StatValueView::UInt64(bounds.0), StatValueView::UInt64(bounds.1)),
            )
        }),
    decreases columns.len(),
{
    if columns[0].name == name {
        0
    } else {
        lemma_named_bounds(columns.drop_first(), name) + 1
    }
}

proof fn lemma_column_typed(field: FieldView, batches: Seq<BatchView>)
    requires
        column_present(field, batches),
        forall|i: int| 0 <= i < batches.len() ==> (#[trigger] batches[i]).wf(),
    ensures
        cells_typed(column_cells(field.name, batches), field.data_type),
    decreases batches.len(),
{
    if batches.len() > 0 {
        let front = batches.drop_last();
        assert forall|i: int| 0 <= i < front.len() implies (#[trigger] front[i]).wf()
            && front[i].column_by_name(field.name) is Some && front[i].column_by_name(
            field.name,
        )->0.data_type == field.data_type by {
            assert(front[i] == batches[i]);
        }
        lemma_column_typed(field, front);
        let last = batches[batches.len() - 1];
        assert(last.wf());
        let at = schema::field_index(last.schema.fields, field.name);
        schema::lemma_field_index(last.schema.fields, field.name);
        let column = last.columns[at];
        assert(last.column_by_name(field.name) == Some(column));
        let before = column_cells(field.name, front);
        let cells = column_cells(field.name, batches);
        assert(cells == before + column.cells);
        assert(batch::cells_fit(column.cells, column.data_type));
        assert forall|i: int|
            0 <= i < cells.len() && stat_of(#[trigger] cells[i]) is Some implies stat_type(
            stat_of(cells[i])->0,
        ) == field.data_type by {
            if i < before.len() {
                assert(cells[i] == before[i]);
            } else {
                assert(cells[i] == column.cells[i - before.len()]);
            }
        }
    }
}

/// Whether every time or sequence in a column lies between two values.
pub open spec fn column_within(
    name: Seq<char>,
    batches: Seq<BatchView>,
    min: u64,
    max: u64,
) -> bool {
    let cells = column_cells(name, batches);
    forall|i: int|
        0 <= i < cells.len() ==> match #[trigger] cells[i] {
            CellView::UInt64(value) => min <= value <= max,
            _ => true,
        }
}

proof fn lemma_named_bounds_cover(
    fields: Seq<FieldView>,
    batches: Seq<BatchView>,
    name: Seq<char>,
)
    requires
        column_summaries(fields, batches) is Some,
        named_bounds(column_summaries(fields, batches)->0, name) is Some,
        forall|i: int| 0 <= i < batches.len() ==> (#[trigger] batches[i]).wf(),
    ensures
        ({
            let bounds = named_bounds(column_summaries(fields, batches)->0, name)->0;
            column_within(name, batches, bounds.0, bounds.1)
        }),
{
    let columns = column_summaries(fields, batches)->0;
    assert(fields.len() > 0);
    lemma_summaries_at(fields, batches, 0);
    let at = lemma_named_bounds(columns, name);
    lemma_summaries_at(fields, batches, at);
    lemma_column_typed(fields[at], batches);
    let cells = column_cells(name, batches);
    let bounds = named_bounds(columns, name)->0;
    bounds_cover_every_value(cells, fields[at].data_type);
    assert forall|i: int| 0 <= i < cells.len() implies match #[trigger] cells[i] {
        CellView::UInt64(value) => bounds.0 <= value <= bounds.1,
        _ => true,
    } by {
        if cells[i] is UInt64 {
            assert(stat_of(cells[i]) is Some);
            assert(lies_within(stat_of(cells[i])->0, cell_bounds(cells)));
        }
    }
}

/// The bounds recorded of a file cover the event time, the receive time and the sequence of every
/// row.
pub proof fn recorded_bounds_cover_every_row(
    fields: Seq<FieldView>,
    batches: Seq<BatchView>,
    size_bytes: u64,
)
    requires
        file_summary(fields, batches, size_bytes) is Some,
        forall|i: int| 0 <= i < batches.len() ==> (#[trigger] batches[i]).wf(),
    ensures
        ({
            let recorded = file_summary(fields, batches, size_bytes)->0;
            &&& column_within(
                COLUMN_EVENT_TIME_UNIX_NANO@,
                batches,
                recorded.event_time_min,
                recorded.event_time_max,
            )
            &&& column_within(
                COLUMN_RECEIVED_TIME_UNIX_NANO@,
                batches,
                recorded.received_time_min,
                recorded.received_time_max,
            )
            &&& column_within(COLUMN_WAL_SEQUENCE@, batches, recorded.wal_min, recorded.wal_max)
        }),
{
    lemma_named_bounds_cover(fields, batches, COLUMN_EVENT_TIME_UNIX_NANO@);
    lemma_named_bounds_cover(fields, batches, COLUMN_WAL_SEQUENCE@);
    schema::lemma_field_index(fields, COLUMN_RECEIVED_TIME_UNIX_NANO@);
    if schema::field_index(fields, COLUMN_RECEIVED_TIME_UNIX_NANO@) < fields.len() {
        lemma_named_bounds_cover(fields, batches, COLUMN_RECEIVED_TIME_UNIX_NANO@);
    }
}

/// Retention hides no row that was received at the cutoff or later.
pub proof fn retention_spares_newer_rows(
    fields: Seq<FieldView>,
    batches: Seq<BatchView>,
    size_bytes: u64,
    rows: u64,
    hour: u64,
    first_sequence: u64,
    next_sequence: u64,
    cutoff: u64,
)
    requires
        forall|i: int| 0 <= i < batches.len() ==> (#[trigger] batches[i]).wf(),
        retired_by_receipt(
            file_summary(fields, batches, size_bytes),
            fields,
            rows,
            hour,
            first_sequence,
            next_sequence,
            cutoff,
        ),
    ensures
        cutoff > 0,
        column_within(COLUMN_RECEIVED_TIME_UNIX_NANO@, batches, 0, (cutoff - 1) as u64),
{
    recorded_bounds_cover_every_row(fields, batches, size_bytes);
}

// What is recorded of a written file.

/// Bounds are tight: where a column has a value, its bounds are values of the column.
pub proof fn bounds_are_values(cells: Seq<CellView>)
    ensures
        match cell_bounds(cells) {
            Some((min, max)) => (exists|i: int|
                0 <= i < cells.len() && stat_of(#[trigger] cells[i]) == Some(min)) && (exists|i: int|
                0 <= i < cells.len() && stat_of(#[trigger] cells[i]) == Some(max)),
            None => forall|i: int|
                0 <= i < cells.len() ==> stat_of(#[trigger] cells[i]) is None,
        },
    decreases cells.len(),
{
    if cells.len() > 0 {
        let front = cells.drop_last();
        let last = cells[cells.len() - 1];
        bounds_are_values(front);
        assert(forall|i: int| 0 <= i < front.len() ==> #[trigger] front[i] == cells[i]);
        if cell_bounds(front) is Some {
            let (min, max) = cell_bounds(front)->0;
            let a = choose|i: int| 0 <= i < front.len() && stat_of(#[trigger] front[i]) == Some(min);
            let b = choose|i: int| 0 <= i < front.len() && stat_of(#[trigger] front[i]) == Some(max);
            assert(stat_of(cells[a]) == Some(min));
            assert(stat_of(cells[b]) == Some(max));
        }
        if cell_bounds(cells) is None {
            assert forall|i: int| 0 <= i < cells.len() implies stat_of(#[trigger] cells[i]) is None by {
                if i < front.len() {
                    assert(front[i] == cells[i]);
                }
            }
        }
    }
}

/// Whether no two fields share a name.
pub open spec fn names_differ(fields: Seq<FieldView>) -> bool {
    forall|i: int, j: int|
        0 <= i < j < fields.len() ==> (#[trigger] fields[i]).name != (#[trigger] fields[j]).name
}

/// Whether batches are well-formed batches of these fields.
pub open spec fn batches_of(batches: Seq<BatchView>, fields: Seq<FieldView>) -> bool {
    forall|b: int|
        0 <= b < batches.len() ==> (#[trigger] batches[b]).wf() && batches[b].schema.fields == fields
}

/// Whether a column of one of the batches holds this cell.
pub open spec fn column_holds(batches: Seq<BatchView>, column: int, cell: CellView) -> bool {
    exists|b: int, r: int|
        0 <= b < batches.len() && 0 <= r < batches[b].rows
            && #[trigger] batches[b].columns[column].cells[r] == cell
}

/// The cells of a column over all batches are those of the batches.
proof fn lemma_cells_of_batches(fields: Seq<FieldView>, batches: Seq<BatchView>, at: int)
    requires
        names_differ(fields),
        batches_of(batches, fields),
        0 <= at < fields.len(),
    ensures
        column_present(fields[at], batches),
        column_cells(fields[at].name, batches).len() == total_rows(batches),
        batch::cells_fit(column_cells(fields[at].name, batches), fields[at].data_type),
        !fields[at].nullable ==> !batch::has_null(column_cells(fields[at].name, batches)),
        forall|k: int|
            0 <= k < column_cells(fields[at].name, batches).len() ==> column_holds(
                batches,
                at,
                #[trigger] column_cells(fields[at].name, batches)[k],
            ),
    decreases batches.len(),
{
    let name = fields[at].name;
    schema::lemma_field_index_is(fields, name, at);
    let cells = column_cells(name, batches);
    if batches.len() > 0 {
        let front = batches.drop_last();
        let end = batches.len() - 1;
        let last = batches[end];
        assert forall|b: int| 0 <= b < front.len() implies (#[trigger] front[b]).wf()
            && front[b].schema.fields == fields by {
            assert(front[b] == batches[b]);
        }
        lemma_cells_of_batches(fields, front, at);
        assert(last.wf() && last.schema.fields == fields);
        assert(last.column_by_name(name) == Some(last.columns[at]));
        let before = column_cells(name, front);
        let here = last.columns[at].cells;
        assert(cells == before + here);
        assert(last.columns[at].data_type == fields[at].data_type);
        assert(batch::cells_fit(here, last.columns[at].data_type));
        assert forall|k: int| 0 <= k < cells.len() implies batch::cell_fits(
            #[trigger] cells[k],
            fields[at].data_type,
        ) by {
            if k < before.len() {
                assert(cells[k] == before[k]);
                assert(batch::cell_fits(before[k], fields[at].data_type));
            } else {
                assert(cells[k] == here[k - before.len()]);
                assert(batch::cell_fits(here[k - before.len()], fields[at].data_type));
            }
        }
        if !fields[at].nullable {
            assert(!batch::has_null(last.columns[at].cells));
            assert forall|k: int| 0 <= k < cells.len() implies !(#[trigger] cells[k] is Null) by {
                if k < before.len() {
                    assert(cells[k] == before[k]);
                    assert(!(before[k] is Null));
                } else {
                    assert(cells[k] == here[k - before.len()]);
                    assert(!(here[k - before.len()] is Null));
                }
            }
        }
        assert forall|k: int| 0 <= k < cells.len() implies column_holds(
            batches,
            at,
            #[trigger] cells[k],
        ) by {
            if k < before.len() {
                assert(before[k] == cells[k]);
                assert(column_holds(front, at, before[k]));
                let (b, r) = choose|b: int, r: int|
                    0 <= b < front.len() && 0 <= r < front[b].rows
                        && #[trigger] front[b].columns[at].cells[r] == before[k];
                assert(batches[b] == front[b]);
                assert(batches[b].columns[at].cells[r] == cells[k]);
            } else {
                assert(batches[end].columns[at].cells[k - before.len()] == cells[k]);
            }
        }
        assert forall|b: int| 0 <= b < batches.len() implies (
        #[trigger] batches[b]).column_by_name(name) is Some && batches[b].column_by_name(
            name,
        )->0.data_type == fields[at].data_type by {
            assert(batches[b].wf() && batches[b].schema.fields == fields);
        }
    }
}

proof fn lemma_null_count_bound(cells: Seq<CellView>)
    ensures
        batch::null_count(cells) <= cells.len(),
        !batch::has_null(cells) ==> batch::null_count(cells) == 0,
    decreases cells.len(),
{
    if cells.len() > 0 {
        let front = cells.drop_last();
        lemma_null_count_bound(front);
        if !batch::has_null(cells) {
            assert forall|i: int| 0 <= i < front.len() implies !(#[trigger] front[i] is Null) by {
                assert(front[i] == cells[i]);
                assert(!(cells[i] is Null));
            }
            assert(!(cells[cells.len() - 1] is Null));
        }
    }
}

proof fn lemma_all_summaries(fields: Seq<FieldView>, batches: Seq<BatchView>)
    requires
        forall|i: int|
            0 <= i < fields.len() ==> column_summary(#[trigger] fields[i], batches) is Some,
    ensures
        column_summaries(fields, batches) is Some,
    decreases fields.len(),
{
    if fields.len() > 0 {
        let front = fields.drop_last();
        assert forall|i: int| 0 <= i < front.len() implies column_summary(
            #[trigger] front[i],
            batches,
        ) is Some by {
            assert(front[i] == fields[i]);
        }
        lemma_all_summaries(front, batches);
        assert(column_summary(fields[fields.len() - 1], batches) is Some);
    }
}

/// Values of one type that are no infinity and no NaN are ordered.
proof fn lemma_less_total(left: StatValueView, right: StatValueView)
    requires
        stat_type(left) == stat_type(right),
        !stat_not_finite(left),
        !stat_not_finite(right),
        stat_less(right, left) == Some(false),
    ensures
        stat_less(left, right) == Some(true) || stat_equal(left, right),
{
    if left is Utf8 {
        text::lemma_text_lt_total(left->Utf8_0, right->Utf8_0);
    }
}

/// A summarized column of a file is usable.
proof fn lemma_column_usable(
    fields: Seq<FieldView>,
    batches: Seq<BatchView>,
    at: int,
)
    requires
        names_differ(fields),
        batches_of(batches, fields),
        0 <= at < fields.len(),
        total_rows(batches) <= u64::MAX,
    ensures
        column_summary(fields[at], batches) is Some,
        column_usable(
            column_summary(fields[at], batches)->0,
            fields[at],
            total_rows(batches) as u64,
        ),
{
    let field = fields[at];
    let cells = column_cells(field.name, batches);
    lemma_cells_of_batches(fields, batches, at);
    lemma_null_count_bound(cells);
    let column = column_summary(field, batches)->0;
    if column.bounds is Some {
        let (min, max) = column.bounds->0;
        assert(cells_typed(cells, field.data_type)) by {
            assert forall|i: int|
                0 <= i < cells.len() && stat_of(#[trigger] cells[i]) is Some implies stat_type(
                stat_of(cells[i])->0,
            ) == field.data_type by {
                assert(batch::cell_fits(cells[i], field.data_type));
            }
        }
        bounds_cover_every_value(cells, field.data_type);
        bounds_are_values(cells);
        let a = choose|i: int| 0 <= i < cells.len() && stat_of(#[trigger] cells[i]) == Some(min);
        let b = choose|i: int| 0 <= i < cells.len() && stat_of(#[trigger] cells[i]) == Some(max);
        assert(lies_within(stat_of(cells[a])->0, cell_bounds(cells)));
        assert(!has_non_finite(cells));
        assert(!stat_not_finite(min)) by {
            assert(cells[a] is Float64 ==> floats::float_finite(cells[a]->Float64_0));
        }
        assert(!stat_not_finite(max)) by {
            assert(cells[b] is Float64 ==> floats::float_finite(cells[b]->Float64_0));
        }
        lemma_less_total(min, max);
    }
}

/// The bounds under a name are those of its column.
proof fn lemma_named_bounds_at(columns: Seq<ColumnStatisticsView>, name: Seq<char>, at: int)
    requires
        0 <= at < columns.len(),
        columns[at].name == name,
        forall|i: int| 0 <= i < at ==> (#[trigger] columns[i]).name != name,
    ensures
        named_bounds(columns, name) == match columns[at].bounds {
            Some((StatValueView::UInt64(min), StatValueView::UInt64(max))) => Some((min, max)),
            _ => None,
        },
    decreases columns.len(),
{
    if at > 0 {
        let rest = columns.drop_first();
        assert(columns[0].name != name);
        assert(rest[at - 1] == columns[at]);
        assert forall|i: int| 0 <= i < at - 1 implies (#[trigger] rest[i]).name != name by {
            assert(rest[i] == columns[i + 1]);
        }
        lemma_named_bounds_at(rest, name, at - 1);
    }
}

/// A column of unsigned integers without nulls has bounds, and they are two of its values.
proof fn lemma_number_bounds(fields: Seq<FieldView>, batches: Seq<BatchView>, at: int)
    requires
        names_differ(fields),
        batches_of(batches, fields),
        0 <= at < fields.len(),
        0 < total_rows(batches) <= u64::MAX,
        !fields[at].nullable,
        fields[at].data_type == DataTypeView::UInt64,
        bounds_kept(fields[at]),
    ensures
        column_summary(fields[at], batches) is Some,
        match column_summary(fields[at], batches)->0.bounds {
            Some((StatValueView::UInt64(min), StatValueView::UInt64(max))) => min <= max
                && column_holds(batches, at, CellView::UInt64(min)) && column_holds(
                batches,
                at,
                CellView::UInt64(max),
            ),
            _ => false,
        },
{
    let field = fields[at];
    let cells = column_cells(field.name, batches);
    lemma_column_usable(fields, batches, at);
    lemma_cells_of_batches(fields, batches, at);
    bounds_are_values(cells);
    assert forall|k: int| 0 <= k < cells.len() implies #[trigger] cells[k] is UInt64 by {
        assert(batch::cell_fits(cells[k], field.data_type));
        assert(!(cells[k] is Null));
    }
    assert(!has_non_finite(cells));
    assert(stat_of(cells[0]) is Some);
    let (min, max) = cell_bounds(cells)->0;
    let a = choose|i: int| 0 <= i < cells.len() && stat_of(#[trigger] cells[i]) == Some(min);
    let b = choose|i: int| 0 <= i < cells.len() && stat_of(#[trigger] cells[i]) == Some(max);
    assert(cells[a] == CellView::UInt64(min->UInt64_0));
    assert(cells[b] == CellView::UInt64(max->UInt64_0));
}

/// Whether the cells of a column of every batch are numbers from `low` on and below `high`.
pub open spec fn numbers_between(batches: Seq<BatchView>, column: int, low: int, high: int) -> bool {
    forall|b: int, r: int|
        0 <= b < batches.len() && 0 <= r < batches[b].rows
            ==> match #[trigger] batches[b].columns[column].cells[r] {
            CellView::UInt64(value) => low <= value < high,
            _ => false,
        }
}

/// A file of the logs schema with rows, all of one hour and of one range of sequences, has usable
/// statistics.
pub proof fn written_statistics_are_usable(
    fields: Seq<FieldView>,
    batches: Seq<BatchView>,
    size_bytes: u64,
    hour: u64,
    first_sequence: u64,
    next_sequence: u64,
)
    requires
        schema::core_fields().len() <= fields.len(),
        fields.take(schema::core_fields().len() as int) == schema::core_fields(),
        names_differ(fields),
        batches_of(batches, fields),
        0 < total_rows(batches) <= u64::MAX,
        size_bytes > 0,
        numbers_between(batches, 7, hour as int, hour + schema::NANOS_PER_HOUR),
        numbers_between(batches, 7, 0, u64::MAX as int),
        numbers_between(batches, 2, first_sequence as int, next_sequence as int),
    ensures
        file_summary(fields, batches, size_bytes) is Some,
        usable(
            file_summary(fields, batches, size_bytes)->0,
            fields,
            total_rows(batches) as u64,
            hour,
            layout::hour_end(hour),
            first_sequence,
            next_sequence,
        ),
        column_holds(
            batches,
            6,
            CellView::UInt64(file_summary(fields, batches, size_bytes)->0.received_time_max),
        ),
{
    let core = schema::core_fields();
    assert(forall|i: int| 0 <= i < core.len() ==> #[trigger] fields[i] == core[i]) by {
        assert forall|i: int| 0 <= i < core.len() implies #[trigger] fields[i] == core[i] by {
            assert(fields.take(core.len() as int)[i] == core[i]);
        }
    }
    assert(fields[2].name != fields[14].name && fields[2].name != fields[15].name && fields[2].name
        != fields[16].name);
    assert(fields[6].name != fields[14].name && fields[6].name != fields[15].name && fields[6].name
        != fields[16].name);
    assert(fields[7].name != fields[14].name && fields[7].name != fields[15].name && fields[7].name
        != fields[16].name);
    assert(bounds_kept(fields[2]) && bounds_kept(fields[6]) && bounds_kept(fields[7]));
    lemma_number_bounds(fields, batches, 2);
    lemma_number_bounds(fields, batches, 6);
    lemma_number_bounds(fields, batches, 7);
    assert forall|i: int| 0 <= i < fields.len() implies column_summary(
        #[trigger] fields[i],
        batches,
    ) is Some by {
        lemma_column_usable(fields, batches, i);
    }
    lemma_all_summaries(fields, batches);
    lemma_summary_names(fields, batches);
    let columns = column_summaries(fields, batches)->0;
    assert forall|i: int| 0 <= i < fields.len() implies (#[trigger] columns[i]).name
        == fields[i].name && column_usable(columns[i], fields[i], total_rows(batches) as u64) by {
        lemma_column_usable(fields, batches, i);
        assert(column_summary(fields[i], batches) == Some(columns[i]));
    }
    assert(column_summary(fields[2], batches) == Some(columns[2]));
    assert(column_summary(fields[6], batches) == Some(columns[6]));
    assert(column_summary(fields[7], batches) == Some(columns[7]));
    lemma_named_bounds_at(columns, fields[2].name, 2);
    lemma_named_bounds_at(columns, fields[6].name, 6);
    lemma_named_bounds_at(columns, fields[7].name, 7);
    schema::lemma_field_index_is(fields, fields[6].name, 6);
    assert(file_summary(fields, batches, size_bytes) is Some);
}

/// Retention goes by the greatest receive time alone: a file with usable statistics is retired if and
/// only if that time lies before the cutoff. A file without usable statistics never is.
pub proof fn retention_goes_by_the_latest_receipt(
    statistics: FileStatisticsView,
    fields: Seq<FieldView>,
    rows: u64,
    hour: u64,
    first_sequence: u64,
    next_sequence: u64,
    cutoff: u64,
)
    ensures
        usable(
            statistics,
            fields,
            rows,
            hour,
            layout::hour_end(hour),
            first_sequence,
            next_sequence,
        ) ==> (retired_by_receipt(
            Some(statistics),
            fields,
            rows,
            hour,
            first_sequence,
            next_sequence,
            cutoff,
        ) <==> statistics.received_time_max < cutoff),
        !usable(
            statistics,
            fields,
            rows,
            hour,
            layout::hour_end(hour),
            first_sequence,
            next_sequence,
        ) ==> !retired_by_receipt(
            Some(statistics),
            fields,
            rows,
            hour,
            first_sequence,
            next_sequence,
            cutoff,
        ),
        !retired_by_receipt(None, fields, rows, hour, first_sequence, next_sequence, cutoff),
{
}

/// A file whose statistics disagree with its commit, its hour or its schema is never retired.
pub proof fn doubtful_files_are_never_retired(
    statistics: FileStatisticsView,
    fields: Seq<FieldView>,
    rows: u64,
    hour: u64,
    first_sequence: u64,
    next_sequence: u64,
    cutoff: u64,
)
    requires
        statistics.size_bytes == 0 || statistics.rows != rows || statistics.event_time_min < hour
            || statistics.event_time_max >= hour + schema::NANOS_PER_HOUR
            || statistics.event_time_min > statistics.event_time_max || statistics.received_time_min
            > statistics.received_time_max || statistics.wal_min < first_sequence
            || statistics.wal_max >= next_sequence || statistics.wal_min > statistics.wal_max
            || statistics.columns.len() != fields.len() || exists|i: int|
            0 <= i < fields.len() && ((#[trigger] statistics.columns[i]).name != fields[i].name
                || statistics.columns[i].null_count > rows || (!fields[i].nullable
                && statistics.columns[i].null_count > 0) || match statistics.columns[i].bounds {
                Some((min, max)) => stat_type(min) != fields[i].data_type || stat_type(max)
                    != fields[i].data_type || stat_less(max, min) == Some(true),
                None => false,
            }),
    ensures
        !retired_by_receipt(
            Some(statistics),
            fields,
            rows,
            hour,
            first_sequence,
            next_sequence,
            cutoff,
        ),
{
    if retired_by_receipt(
        Some(statistics),
        fields,
        rows,
        hour,
        first_sequence,
        next_sequence,
        cutoff,
    ) {
        let i = choose|i: int|
            0 <= i < fields.len() && ((#[trigger] statistics.columns[i]).name != fields[i].name
                || statistics.columns[i].null_count > rows || (!fields[i].nullable
                && statistics.columns[i].null_count > 0) || match statistics.columns[i].bounds {
                Some((min, max)) => stat_type(min) != fields[i].data_type || stat_type(max)
                    != fields[i].data_type || stat_less(max, min) == Some(true),
                None => false,
            });
        assert(column_usable(statistics.columns[i], fields[i], rows));
        if statistics.columns[i].bounds is Some {
            let (min, max) = statistics.columns[i].bounds->0;
            if stat_less(min, max) == Some(true) && stat_less(max, min) == Some(true) {
                lemma_less_transitive(min, max, min);
            }
            lemma_less_irreflexive(min);
            if stat_equal(min, max) && !(min is Float64) {
                assert(min == max);
            }
        }
    }
}

/// Retention takes every old file: a file of the logs schema whose rows lie in its hour and its range
/// of sequences is retired if and only if all of them were received before the cutoff.
pub proof fn old_files_are_retired(
    fields: Seq<FieldView>,
    batches: Seq<BatchView>,
    size_bytes: u64,
    hour: u64,
    first_sequence: u64,
    next_sequence: u64,
    cutoff: u64,
)
    requires
        schema::core_fields().len() <= fields.len(),
        fields.take(schema::core_fields().len() as int) == schema::core_fields(),
        names_differ(fields),
        batches_of(batches, fields),
        0 < total_rows(batches) <= u64::MAX,
        size_bytes > 0,
        numbers_between(batches, 7, hour as int, hour + schema::NANOS_PER_HOUR),
        numbers_between(batches, 7, 0, u64::MAX as int),
        numbers_between(batches, 2, first_sequence as int, next_sequence as int),
    ensures
        retired_by_receipt(
            file_summary(fields, batches, size_bytes),
            fields,
            total_rows(batches) as u64,
            hour,
            first_sequence,
            next_sequence,
            cutoff,
        ) <==> numbers_between(batches, 6, 0, cutoff as int),
{
    written_statistics_are_usable(
        fields,
        batches,
        size_bytes,
        hour,
        first_sequence,
        next_sequence,
    );
    let recorded = file_summary(fields, batches, size_bytes)->0;
    let (b, r) = choose|b: int, r: int|
        0 <= b < batches.len() && 0 <= r < batches[b].rows
            && #[trigger] batches[b].columns[6].cells[r] == CellView::UInt64(
            recorded.received_time_max,
        );
    assert(batches[b].columns[6].cells[r] == CellView::UInt64(recorded.received_time_max));
    if recorded.received_time_max < cutoff {
        lemma_received_below(fields, batches, size_bytes, cutoff);
    }
}

/// Every receive time is at most the greatest that is recorded.
proof fn lemma_received_below(
    fields: Seq<FieldView>,
    batches: Seq<BatchView>,
    size_bytes: u64,
    cutoff: u64,
)
    requires
        schema::core_fields().len() <= fields.len(),
        fields.take(schema::core_fields().len() as int) == schema::core_fields(),
        names_differ(fields),
        batches_of(batches, fields),
        file_summary(fields, batches, size_bytes) is Some,
        file_summary(fields, batches, size_bytes)->0.received_time_max < cutoff,
    ensures
        numbers_between(batches, 6, 0, cutoff as int),
{
    assert(fields.take(schema::core_fields().len() as int)[6] == fields[6]);
    recorded_bounds_cover_every_row(fields, batches, size_bytes);
    let recorded = file_summary(fields, batches, size_bytes)->0;
    let cells = column_cells(fields[6].name, batches);
    assert forall|b: int, r: int|
        0 <= b < batches.len() && 0 <= r < batches[b].rows implies match
        #[trigger] batches[b].columns[6].cells[r] {
        CellView::UInt64(value) => 0 <= value < cutoff,
        _ => false,
    } by {
        lemma_cells_of_batches(fields, batches, 6);
        let k = lemma_cell_in_column(fields, batches, 6, b, r);
        assert(batch::cell_fits(cells[k], fields[6].data_type));
        assert(!(cells[k] is Null));
    }
}

proof fn lemma_cell_in_column(
    fields: Seq<FieldView>,
    batches: Seq<BatchView>,
    at: int,
    b: int,
    r: int,
) -> (k: int)
    requires
        names_differ(fields),
        batches_of(batches, fields),
        0 <= at < fields.len(),
        0 <= b < batches.len(),
        0 <= r < batches[b].rows,
    ensures
        0 <= k < column_cells(fields[at].name, batches).len(),
        column_cells(fields[at].name, batches)[k] == batches[b].columns[at].cells[r],
    decreases batches.len(),
{
    let name = fields[at].name;
    schema::lemma_field_index_is(fields, name, at);
    let front = batches.drop_last();
    let end = batches.len() - 1;
    let before = column_cells(name, front);
    assert(batches[end].wf() && batches[end].schema.fields == fields);
    if b < end {
        assert forall|i: int| 0 <= i < front.len() implies (#[trigger] front[i]).wf()
            && front[i].schema.fields == fields by {
            assert(front[i] == batches[i]);
        }
        lemma_cell_in_column(fields, front, at, b, r)
    } else {
        before.len() + r
    }
}

/// Values are ordered as what they stand for is: numbers by size, false before true, and texts by their
/// characters. A value is of the type of its cell, and only nulls and bytes have none.
pub proof fn values_are_ordered_by_what_they_stand_for(
    a: i64,
    b: i64,
    c: u64,
    d: u64,
    e: bool,
    f: bool,
    g: Seq<char>,
    h: Seq<char>,
)
    ensures
        stat_less(stat_of(CellView::Int64(a))->0, stat_of(CellView::Int64(b))->0) == Some(a < b),
        stat_less(stat_of(CellView::UInt64(c))->0, stat_of(CellView::UInt64(d))->0) == Some(c < d),
        a as i32 == a && b as i32 == b ==> stat_less(
            stat_of(CellView::Int32(a as i32))->0,
            stat_of(CellView::Int32(b as i32))->0,
        ) == Some(a < b),
        c <= u32::MAX && d <= u32::MAX ==> stat_less(
            stat_of(CellView::UInt32(c as u32))->0,
            stat_of(CellView::UInt32(d as u32))->0,
        ) == Some(c < d),
        c <= u16::MAX && d <= u16::MAX ==> stat_less(
            stat_of(CellView::UInt16(c as u16))->0,
            stat_of(CellView::UInt16(d as u16))->0,
        ) == Some(c < d),
        stat_less(stat_of(CellView::Bool(e))->0, stat_of(CellView::Bool(f))->0) == Some(
            e == false && f == true,
        ),
        stat_less(stat_of(CellView::Text(g))->0, stat_of(CellView::Text(h))->0) == Some(
            text::text_lt(g, h),
        ),
        stat_less(stat_of(CellView::Float64(c))->0, stat_of(CellView::Float64(d))->0) == Some(
            floats::float_less(c, d),
        ),
        stat_of(CellView::Null) is None,
{
}

/// Nulls are counted: one for each cell without a value, and none for any other.
pub proof fn nulls_are_counted_once(left: Seq<CellView>, right: Seq<CellView>, cell: CellView)
    ensures
        batch::null_count(left + right) == batch::null_count(left) + batch::null_count(right),
        batch::null_count(seq![cell]) == if cell == CellView::Null {
            1int
        } else {
            0
        },
        batch::null_count(Seq::empty()) == 0,
{
    lemma_null_count_append(left, right);
    assert(seq![cell].drop_last() =~= Seq::empty());
    assert(batch::null_count(Seq::empty()) == 0);
}

/// What is recorded of a file counts its rows and its nulls, and says whether its rows run from the newest
/// event to the oldest: no row has a later event time than one before it, nor the same with a higher WAL
/// sequence.
pub proof fn summaries_record_rows_nulls_and_order(
    fields: Seq<FieldView>,
    batches: Seq<BatchView>,
    size_bytes: u64,
    c: int,
)
    requires
        file_summary(fields, batches, size_bytes) is Some,
    ensures
        ({
            let summary = file_summary(fields, batches, size_bytes)->0;
            let times = column_cells(COLUMN_EVENT_TIME_UNIX_NANO@, batches);
            let sequences = column_cells(COLUMN_WAL_SEQUENCE@, batches);
            &&& summary.size_bytes == size_bytes
            &&& summary.rows == total_rows(batches)
            &&& summary.columns.len() == fields.len()
            &&& 0 <= c < fields.len() ==> summary.columns[c].name == fields[c].name
                && summary.columns[c].null_count == batch::null_count(
                column_cells(fields[c].name, batches),
            )
            &&& summary.ordered && times.len() == sequences.len() ==> forall|i: int, j: int|
                0 <= i < j < times.len() ==> (#[trigger] times[i])->UInt64_0 > (
                #[trigger] times[j])->UInt64_0 || (times[i]->UInt64_0 == times[j]->UInt64_0
                    && sequences[i]->UInt64_0 >= sequences[j]->UInt64_0)
            &&& !summary.ordered && times.len() == sequences.len() && (forall|i: int|
                0 <= i < times.len() ==> (#[trigger] times[i]) is UInt64 && sequences[i] is UInt64)
                ==> exists|i: int, j: int|
                0 <= i < j < times.len() && ((#[trigger] times[i])->UInt64_0 < (
                #[trigger] times[j])->UInt64_0 || (times[i]->UInt64_0 == times[j]->UInt64_0
                    && sequences[i]->UInt64_0 < sequences[j]->UInt64_0))
        }),
{
    lemma_summary_columns(fields, batches, c);
    let summary = file_summary(fields, batches, size_bytes)->0;
    let times = column_cells(COLUMN_EVENT_TIME_UNIX_NANO@, batches);
    let sequences = column_cells(COLUMN_WAL_SEQUENCE@, batches);
    if !summary.ordered && times.len() == sequences.len() && (forall|i: int|
        0 <= i < times.len() ==> (#[trigger] times[i]) is UInt64 && sequences[i] is UInt64) {
        let (i, j) = choose|i: int, j: int|
            0 <= i < j < times.len() && !not_older(
                (#[trigger] times[i])->UInt64_0,
                sequences[i]->UInt64_0,
                (#[trigger] times[j])->UInt64_0,
                sequences[j]->UInt64_0,
            );
        assert(times[i]->UInt64_0 < times[j]->UInt64_0 || (times[i]->UInt64_0 == times[j]->UInt64_0
            && sequences[i]->UInt64_0 < sequences[j]->UInt64_0));
    }
}

proof fn lemma_summary_columns(fields: Seq<FieldView>, batches: Seq<BatchView>, c: int)
    requires
        column_summaries(fields, batches) is Some,
    ensures
        column_summaries(fields, batches)->0.len() == fields.len(),
        0 <= c < fields.len() ==> Some(column_summaries(fields, batches)->0[c]) == column_summary(
            fields[c],
            batches,
        ),
    decreases fields.len(),
{
    if fields.len() > 0 {
        lemma_summary_columns(fields.drop_last(), batches, c);
    }
}

/// A column that can be ordered has bounds wherever it has a value and none that is without order; a column
/// of JSON, of bytes, or with such a value has none.
pub proof fn columns_have_bounds_where_they_have_order(
    field: FieldView,
    batches: Seq<BatchView>,
    i: int,
)
    requires
        column_summary(field, batches) is Some,
        0 <= i < column_cells(field.name, batches).len(),
    ensures
        ({
            let cells = column_cells(field.name, batches);
            let summary = column_summary(field, batches)->0;
            let json = field.name == COLUMN_RESOURCE_ATTRIBUTES@ || field.name
                == COLUMN_SCOPE_ATTRIBUTES@ || field.name == COLUMN_LOG_ATTRIBUTES@
                || sorted::lookup(field.metadata, FIELD_KIND@) == Some(DynamicKind::Json.text());
            let ordered_type = field.data_type is Boolean || field.data_type is Int32
                || field.data_type is Int64 || field.data_type is UInt16
                || field.data_type is UInt32 || field.data_type is UInt64
                || field.data_type is Float64 || field.data_type is Utf8;
            &&& json || !ordered_type ==> summary.bounds is None
            &&& cells[i] is Float64 && !floats::float_finite(cells[i]->Float64_0)
                ==> summary.bounds is None
            &&& !json && ordered_type && !(cells[i] is Null) && !(cells[i] is Bytes) && (forall|
                k: int,
            |
                0 <= k < cells.len() && (#[trigger] cells[k]) is Float64 ==> floats::float_finite(
                    cells[k]->Float64_0,
                )) ==> summary.bounds is Some
        }),
{
    let cells = column_cells(field.name, batches);
    bounds_are_values(cells);
    if cells[i] is Float64 && !floats::float_finite(cells[i]->Float64_0) {
        assert(has_non_finite(cells));
    }
}

} // verus!
