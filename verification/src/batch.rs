//! Typed, nullable columns and the batches that hold them.
use std::sync::Arc;
use arrow_array::Array;
use vstd::prelude::*;
use vstd::utf8;
use crate::generation;
use crate::schema;
use crate::schema::{DataType, DataTypeView, Schema, SchemaView};
use crate::text;
use crate::text::same_text;

verus! {

/// `Arc::clone` hands out another handle to the same value.
#[verifier::external_body]
pub(crate) fn share<T>(handle: &Arc<T>) -> (copy: Arc<T>)
    ensures
        copy == *handle,
{
    Arc::clone(handle)
}

/// One value of a column. A 64-bit float is held by its IEEE 754 bits.
#[derive(Debug)]
pub enum Cell {
    Null,
    Bool(bool),
    Int32(i32),
    Int64(i64),
    UInt16(u16),
    UInt32(u32),
    UInt64(u64),
    Float64(u64),
    Bytes(Vec<u8>),
    Text(String),
}

pub enum CellView {
    Null,
    Bool(bool),
    Int32(i32),
    Int64(i64),
    UInt16(u16),
    UInt32(u32),
    UInt64(u64),
    Float64(u64),
    Bytes(Seq<u8>),
    Text(Seq<char>),
}

impl DeepView for Cell {
    type V = CellView;

    open spec fn deep_view(&self) -> CellView {
        match self {
            Cell::Null => CellView::Null,
            Cell::Bool(value) => CellView::Bool(*value),
            Cell::Int32(value) => CellView::Int32(*value),
            Cell::Int64(value) => CellView::Int64(*value),
            Cell::UInt16(value) => CellView::UInt16(*value),
            Cell::UInt32(value) => CellView::UInt32(*value),
            Cell::UInt64(value) => CellView::UInt64(*value),
            Cell::Float64(bits) => CellView::Float64(*bits),
            Cell::Bytes(bytes) => CellView::Bytes(bytes@),
            Cell::Text(value) => CellView::Text(value@),
        }
    }
}

/// Copies bytes.
pub fn copy_bytes(bytes: &Vec<u8>) -> (copy: Vec<u8>)
    ensures
        copy@ == bytes@,
{
    let mut copy: Vec<u8> = Vec::new();
    let mut i: usize = 0;
    while i < bytes.len()
        invariant
            i <= bytes.len(),
            copy@ == bytes@.take(i as int),
        decreases bytes.len() - i,
    {
        copy.push(bytes[i]);
        i = i + 1;
    }
    copy
}

/// Tests two byte sequences for equality.
pub fn same_bytes(left: &Vec<u8>, right: &Vec<u8>) -> (same: bool)
    ensures
        same == (left@ == right@),
{
    if left.len() != right.len() {
        return false;
    }
    let mut i: usize = 0;
    while i < left.len()
        invariant
            i <= left.len(),
            left.len() == right.len(),
            forall|k: int| 0 <= k < i ==> left@[k] == right@[k],
        decreases left.len() - i,
    {
        if left[i] != right[i] {
            return false;
        }
        i = i + 1;
    }
    assert(left@ =~= right@);
    true
}

impl Clone for Cell {
    fn clone(&self) -> (copy: Self)
        ensures
            copy.deep_view() == self.deep_view(),
    {
        match self {
            Cell::Null => Cell::Null,
            Cell::Bool(value) => Cell::Bool(*value),
            Cell::Int32(value) => Cell::Int32(*value),
            Cell::Int64(value) => Cell::Int64(*value),
            Cell::UInt16(value) => Cell::UInt16(*value),
            Cell::UInt32(value) => Cell::UInt32(*value),
            Cell::UInt64(value) => Cell::UInt64(*value),
            Cell::Float64(bits) => Cell::Float64(*bits),
            Cell::Bytes(bytes) => Cell::Bytes(copy_bytes(bytes)),
            Cell::Text(value) => Cell::Text(value.clone()),
        }
    }
}

/// Whether a column of type `data_type` can hold `cell`.
pub open spec fn cell_fits(cell: CellView, data_type: DataTypeView) -> bool {
    match cell {
        CellView::Null => true,
        CellView::Bool(_) => data_type == DataTypeView::Boolean,
        CellView::Int32(_) => data_type == DataTypeView::Int32,
        CellView::Int64(_) => data_type == DataTypeView::Int64,
        CellView::UInt16(_) => data_type == DataTypeView::UInt16,
        CellView::UInt32(_) => data_type == DataTypeView::UInt32,
        CellView::UInt64(_) => data_type == DataTypeView::UInt64,
        CellView::Float64(_) => data_type == DataTypeView::Float64,
        CellView::Bytes(bytes) => match data_type {
            DataTypeView::Binary => true,
            DataTypeView::FixedSizeBinary(width) => bytes.len() == width,
            DataTypeView::Other(_) => true,
            _ => false,
        },
        CellView::Text(_) => data_type == DataTypeView::Utf8,
    }
}

/// Bytes that a variable-width value takes.
pub open spec fn cell_bytes(cell: CellView) -> nat {
    match cell {
        CellView::Bytes(bytes) => bytes.len(),
        CellView::Text(value) => utf8::encode_utf8(value).len(),
        _ => 0,
    }
}

/// Bytes that the variable-width values of a column take.
pub open spec fn value_bytes(cells: Seq<CellView>) -> nat
    decreases cells.len(),
{
    if cells.len() == 0 {
        0
    } else {
        value_bytes(cells.drop_last()) + cell_bytes(cells.last())
    }
}

/// Bytes that Arrow takes at least to hold a column: the room of its fixed-width values, or the
/// bytes of its other values.
pub open spec fn least_bytes(column: ColumnView) -> nat {
    let rows = column.cells.len();
    match column.data_type {
        DataTypeView::Boolean => (rows + 7) / 8,
        DataTypeView::UInt16 => 2 * rows,
        DataTypeView::Int32 | DataTypeView::UInt32 => 4 * rows,
        DataTypeView::Int64 | DataTypeView::UInt64 | DataTypeView::Float64 => 8 * rows,
        _ => value_bytes(column.cells),
    }
}

/// Bytes that Arrow takes at least to hold columns.
pub open spec fn least_columns_bytes(columns: Seq<ColumnView>) -> nat
    decreases columns.len(),
{
    if columns.len() == 0 {
        0
    } else {
        least_columns_bytes(columns.drop_last()) + least_bytes(columns.last())
    }
}

/// Whether a measured size covers `least` bytes, as far as it can count.
pub open spec fn covers(measured: u64, least: nat) -> bool {
    measured == u64::MAX || measured >= least
}

/// The sum of measured sizes.
pub open spec fn sum_of(sizes: Seq<u64>) -> nat
    decreases sizes.len(),
{
    if sizes.len() == 0 {
        0
    } else {
        sum_of(sizes.drop_last()) + sizes.last() as nat
    }
}

/// The sum of measured sizes, as far as 64 bits hold it.
pub fn total_bytes(sizes: &Vec<u64>) -> (total: u64)
    ensures
        total == generation::clamped(sum_of(sizes@) as int),
{
    let mut total: u64 = 0;
    let mut i: usize = 0;
    assert(sizes@.take(0) =~= Seq::empty());
    while i < sizes.len()
        invariant
            i <= sizes.len(),
            total == generation::clamped(sum_of(sizes@.take(i as int)) as int),
        decreases sizes.len() - i,
    {
        assert(sizes@.take(i + 1).drop_last() =~= sizes@.take(i as int));
        total = total.saturating_add(sizes[i]);
        i = i + 1;
    }
    assert(sizes@.take(i as int) =~= sizes@);
    total
}

/// Whether each size can be that of the column at its place.
pub open spec fn column_sizes(sizes: Seq<u64>, columns: Seq<ColumnView>) -> bool {
    &&& sizes.len() == columns.len()
    &&& forall|i: int| 0 <= i < sizes.len() ==> covers(#[trigger] sizes[i], least_bytes(columns[i]))
}

/// Whether each size can be that of the batch at its place.
pub open spec fn batch_sizes(sizes: Seq<u64>, batches: Seq<BatchView>) -> bool {
    &&& sizes.len() == batches.len()
    &&& forall|i: int|
        0 <= i < sizes.len() ==> covers(
            #[trigger] sizes[i],
            least_columns_bytes(batches[i].columns),
        )
}

/// Whether `bytes` is the sum of what batches can measure, one size for each.
pub open spec fn measures(bytes: u64, batches: Seq<BatchView>) -> bool {
    exists|sizes: Seq<u64>| #[trigger]
        batch_sizes(sizes, batches) && bytes == generation::clamped(sum_of(sizes) as int)
}

proof fn lemma_column_sizes(sizes: Seq<u64>, columns: Seq<ColumnView>)
    requires
        column_sizes(sizes, columns),
    ensures
        sum_of(sizes) >= u64::MAX || sum_of(sizes) >= least_columns_bytes(columns),
    decreases sizes.len(),
{
    if sizes.len() > 0 {
        let (front, rest) = (sizes.drop_last(), columns.drop_last());
        assert forall|i: int| 0 <= i < front.len() implies covers(
            #[trigger] front[i],
            least_bytes(rest[i]),
        ) by {
            assert(covers(sizes[i], least_bytes(columns[i])));
        }
        lemma_column_sizes(front, rest);
        assert(covers(sizes[sizes.len() - 1], least_bytes(columns[sizes.len() - 1])));
    }
}

proof fn lemma_batch_sizes(sizes: Seq<u64>, batches: Seq<BatchView>)
    requires
        batch_sizes(sizes, batches),
    ensures
        sum_of(sizes) >= u64::MAX || sum_of(sizes) >= generation::batch_bytes(batches),
    decreases sizes.len(),
{
    if sizes.len() > 0 {
        let (front, rest) = (sizes.drop_last(), batches.drop_last());
        assert forall|i: int| 0 <= i < front.len() implies covers(
            #[trigger] front[i],
            least_columns_bytes(rest[i].columns),
        ) by {
            assert(covers(sizes[i], least_columns_bytes(batches[i].columns)));
        }
        lemma_batch_sizes(front, rest);
        assert(covers(
            sizes[sizes.len() - 1],
            least_columns_bytes(batches[sizes.len() - 1].columns),
        ));
    }
}

/// What batches measure together covers their values.
pub proof fn measures_cover_values(bytes: u64, batches: Seq<BatchView>)
    requires
        measures(bytes, batches),
    ensures
        covers(bytes, generation::batch_bytes(batches)),
{
    let sizes = choose|sizes: Seq<u64>| #[trigger]
        batch_sizes(sizes, batches) && bytes == generation::clamped(sum_of(sizes) as int);
    lemma_batch_sizes(sizes, batches);
}

/// Rows at which a column has no value.
pub open spec fn null_count(cells: Seq<CellView>) -> nat
    decreases cells.len(),
{
    if cells.len() == 0 {
        0
    } else {
        null_count(cells.drop_last()) + if cells.last() is Null {
            1nat
        } else {
            0
        }
    }
}

impl Cell {
    pub fn is_null(&self) -> (null: bool)
        ensures
            null == (self.deep_view() is Null),
    {
        matches!(self, Cell::Null)
    }

    /// Whether a column of type `data_type` can hold this value.
    pub fn fits(&self, data_type: &DataType) -> (fits: bool)
        ensures
            fits == cell_fits(self.deep_view(), data_type.deep_view()),
    {
        match (self, data_type) {
            (Cell::Null, _) => true,
            (Cell::Bool(_), DataType::Boolean) => true,
            (Cell::Int32(_), DataType::Int32) => true,
            (Cell::Int64(_), DataType::Int64) => true,
            (Cell::UInt16(_), DataType::UInt16) => true,
            (Cell::UInt32(_), DataType::UInt32) => true,
            (Cell::UInt64(_), DataType::UInt64) => true,
            (Cell::Float64(_), DataType::Float64) => true,
            (Cell::Bytes(_), DataType::Binary) => true,
            (Cell::Bytes(bytes), DataType::FixedSizeBinary(width)) => *width >= 0 && bytes.len()
                == *width as usize,
            (Cell::Bytes(_), DataType::Other(_)) => true,
            (Cell::Text(_), DataType::Utf8) => true,
            _ => false,
        }
    }

    /// Bytes that a variable-width value takes.
    pub fn byte_len(&self) -> (len: usize)
        ensures
            len == cell_bytes(self.deep_view()),
    {
        match self {
            Cell::Bytes(bytes) => bytes.len(),
            Cell::Text(value) => value.as_str().as_bytes().len(),
            _ => 0,
        }
    }

    /// Tests two values for equality; floats are compared by their bits.
    pub fn same(&self, other: &Cell) -> (same: bool)
        ensures
            same == (self.deep_view() == other.deep_view()),
    {
        match (self, other) {
            (Cell::Null, Cell::Null) => true,
            (Cell::Bool(left), Cell::Bool(right)) => *left == *right,
            (Cell::Int32(left), Cell::Int32(right)) => *left == *right,
            (Cell::Int64(left), Cell::Int64(right)) => *left == *right,
            (Cell::UInt16(left), Cell::UInt16(right)) => *left == *right,
            (Cell::UInt32(left), Cell::UInt32(right)) => *left == *right,
            (Cell::UInt64(left), Cell::UInt64(right)) => *left == *right,
            (Cell::Float64(left), Cell::Float64(right)) => *left == *right,
            (Cell::Bytes(left), Cell::Bytes(right)) => same_bytes(left, right),
            (Cell::Text(left), Cell::Text(right)) => same_text(left, right),
            _ => false,
        }
    }

    pub fn as_bool(&self) -> (value: Option<bool>)
        ensures
            value == match self.deep_view() {
                CellView::Bool(value) => Some(value),
                _ => None,
            },
    {
        match self {
            Cell::Bool(value) => Some(*value),
            _ => None,
        }
    }

    pub fn as_i32(&self) -> (value: Option<i32>)
        ensures
            value == match self.deep_view() {
                CellView::Int32(value) => Some(value),
                _ => None,
            },
    {
        match self {
            Cell::Int32(value) => Some(*value),
            _ => None,
        }
    }

    pub fn as_i64(&self) -> (value: Option<i64>)
        ensures
            value == match self.deep_view() {
                CellView::Int64(value) => Some(value),
                _ => None,
            },
    {
        match self {
            Cell::Int64(value) => Some(*value),
            _ => None,
        }
    }

    pub fn as_u16(&self) -> (value: Option<u16>)
        ensures
            value == match self.deep_view() {
                CellView::UInt16(value) => Some(value),
                _ => None,
            },
    {
        match self {
            Cell::UInt16(value) => Some(*value),
            _ => None,
        }
    }

    pub fn as_u32(&self) -> (value: Option<u32>)
        ensures
            value == match self.deep_view() {
                CellView::UInt32(value) => Some(value),
                _ => None,
            },
    {
        match self {
            Cell::UInt32(value) => Some(*value),
            _ => None,
        }
    }

    /// The number, or the bits of the float.
    pub fn as_u64(&self) -> (value: Option<u64>)
        ensures
            value == match self.deep_view() {
                CellView::UInt64(value) => Some(value),
                CellView::Float64(bits) => Some(bits),
                _ => None,
            },
    {
        match self {
            Cell::UInt64(value) => Some(*value),
            Cell::Float64(bits) => Some(*bits),
            _ => None,
        }
    }

    pub fn as_bytes(&self) -> (value: Option<&Vec<u8>>)
        ensures
            value is Some == self.deep_view() is Bytes,
            value is Some ==> value->0@ == self.deep_view()->Bytes_0,
    {
        match self {
            Cell::Bytes(bytes) => Some(bytes),
            _ => None,
        }
    }

    pub fn as_text(&self) -> (value: Option<&String>)
        ensures
            value is Some == self.deep_view() is Text,
            value is Some ==> value->0@ == self.deep_view()->Text_0,
    {
        match self {
            Cell::Text(value) => Some(value),
            _ => None,
        }
    }
}

/// Values of one type, one per row.
#[derive(Debug)]
pub struct Column {
    pub data_type: DataType,
    pub cells: Vec<Cell>,
}

#[verifier::ext_equal]
pub struct ColumnView {
    pub data_type: DataTypeView,
    pub cells: Seq<CellView>,
}

impl DeepView for Column {
    type V = ColumnView;

    open spec fn deep_view(&self) -> ColumnView {
        ColumnView { data_type: self.data_type.deep_view(), cells: self.cells.deep_view() }
    }
}

/// Copies cells.
pub fn copy_cells(cells: &Vec<Cell>) -> (copy: Vec<Cell>)
    ensures
        copy.deep_view() == cells.deep_view(),
{
    let mut copy: Vec<Cell> = Vec::new();
    let mut i: usize = 0;
    while i < cells.len()
        invariant
            i <= cells.len(),
            copy.deep_view() == cells.deep_view().take(i as int),
        decreases cells.len() - i,
    {
        let ghost before = copy.deep_view();
        copy.push(cells[i].clone());
        assert(copy.deep_view() =~= before.push(cells.deep_view()[i as int]));
        assert(copy.deep_view() =~= cells.deep_view().take(i + 1));
        i = i + 1;
    }
    assert(cells.deep_view().take(i as int) =~= cells.deep_view());
    copy
}

impl Clone for Column {
    fn clone(&self) -> (copy: Self)
        ensures
            copy.deep_view() == self.deep_view(),
    {
        Column { data_type: self.data_type.clone(), cells: copy_cells(&self.cells) }
    }
}

/// Largest total of variable-width bytes that one column can hold.
pub const MAX_VALUE_BYTES: usize = 0x7fff_ffff;

/// Whether the offsets of a column can count its values. Only texts and bytes have offsets.
pub open spec fn offsets_hold(column: ColumnView) -> bool {
    column.data_type is Utf8 || column.data_type is Binary ==> value_bytes(column.cells)
        <= MAX_VALUE_BYTES
}

/// Bytes that one Arrow buffer can hold: what an allocation can, less what rounding adds.
pub open spec fn buffer_limit() -> int {
    isize::MAX - 127
}

pub open spec fn cells_fit(cells: Seq<CellView>, data_type: DataTypeView) -> bool {
    forall|i: int| 0 <= i < cells.len() ==> cell_fits(#[trigger] cells[i], data_type)
}

pub open spec fn has_null(cells: Seq<CellView>) -> bool {
    exists|i: int| 0 <= i < cells.len() && #[trigger] cells[i] is Null
}

/// A column without values.
pub open spec fn null_cells(rows: nat) -> Seq<CellView> {
    Seq::new(rows, |i: int| CellView::Null)
}

impl Column {
    /// A column of `rows` nulls.
    pub fn nulls(data_type: &DataType, rows: usize) -> (column: Self)
        ensures
            column.deep_view() == (ColumnView {
                data_type: data_type.deep_view(),
                cells: null_cells(rows as nat),
            }),
    {
        let mut cells: Vec<Cell> = Vec::new();
        let mut i: usize = 0;
        while i < rows
            invariant
                i <= rows,
                cells@.len() == i,
                forall|k: int| 0 <= k < i ==> (#[trigger] cells@[k]).deep_view() is Null,
            decreases rows - i,
        {
            cells.push(Cell::Null);
            i = i + 1;
        }
        assert(cells.deep_view() =~= null_cells(rows as nat));
        Column { data_type: data_type.clone(), cells }
    }

    /// Whether every cell has the column's type.
    fn holds_its_type(&self) -> (holds: bool)
        ensures
            holds == cells_fit(self.cells.deep_view(), self.data_type.deep_view()),
    {
        let mut i: usize = 0;
        while i < self.cells.len()
            invariant
                i <= self.cells.len(),
                forall|k: int|
                    0 <= k < i ==> cell_fits(
                        #[trigger] self.cells.deep_view()[k],
                        self.data_type.deep_view(),
                    ),
            decreases self.cells.len() - i,
        {
            if !self.cells[i].fits(&self.data_type) {
                assert(!cell_fits(
                    self.cells.deep_view()[i as int],
                    self.data_type.deep_view(),
                ));
                return false;
            }
            i = i + 1;
        }
        true
    }

    /// Whether a row has no value.
    pub fn has_null(&self) -> (null: bool)
        ensures
            null == has_null(self.cells.deep_view()),
    {
        let mut i: usize = 0;
        while i < self.cells.len()
            invariant
                i <= self.cells.len(),
                forall|k: int| 0 <= k < i ==> !(#[trigger] self.cells.deep_view()[k] is Null),
            decreases self.cells.len() - i,
        {
            if self.cells[i].is_null() {
                assert(self.cells.deep_view()[i as int] is Null);
                return true;
            }
            i = i + 1;
        }
        false
    }

    /// Whether the offsets of a column of texts or bytes can count its values.
    fn values_fit(&self) -> (fits: bool)
        ensures
            fits == offsets_hold(self.deep_view()),
    {
        match &self.data_type {
            DataType::Utf8 | DataType::Binary => {},
            _ => {
                return true;
            },
        }
        let mut i: usize = 0;
        let mut total: usize = 0;
        let ghost cells = self.cells.deep_view();
        while i < self.cells.len()
            invariant
                i <= self.cells.len(),
                cells == self.cells.deep_view(),
                total == value_bytes(cells.take(i as int)),
                total <= MAX_VALUE_BYTES,
                self.deep_view().data_type is Utf8 || self.deep_view().data_type is Binary,
            decreases self.cells.len() - i,
        {
            let len = self.cells[i].byte_len();
            proof {
                assert(cells.take(i + 1).drop_last() =~= cells.take(i as int));
                lemma_value_bytes_grow(cells, i + 1);
            }
            if len > MAX_VALUE_BYTES - total {
                return false;
            }
            total = total + len;
            i = i + 1;
        }
        assert(cells.take(i as int) =~= cells);
        true
    }

    /// Nulls in the column.
    pub fn null_count(&self) -> (count: usize)
        ensures
            count == null_count(self.cells.deep_view()),
            count <= self.cells.len(),
    {
        let ghost cells = self.cells.deep_view();
        let mut i: usize = 0;
        let mut count: usize = 0;
        while i < self.cells.len()
            invariant
                i <= self.cells.len(),
                count <= i,
                cells == self.cells.deep_view(),
                count == null_count(cells.take(i as int)),
            decreases self.cells.len() - i,
        {
            assert(cells.take(i + 1).drop_last() =~= cells.take(i as int));
            if self.cells[i].is_null() {
                count = count + 1;
            }
            i = i + 1;
        }
        assert(cells.take(i as int) =~= cells);
        count
    }

    /// Bytes that Arrow takes to hold this column, or `usize::MAX` where no memory could.
    fn memory_size(&self) -> (size: usize)
        requires
            offsets_hold(self.deep_view()),
            cells_fit(self.cells.deep_view(), self.data_type.deep_view()),
        ensures
            size == usize::MAX || size >= least_bytes(self.deep_view()),
    {
        match &self.data_type {
            DataType::Boolean => bool_array_size(&self.cells),
            DataType::Int32 => i32_array_size(&self.cells),
            DataType::Int64 => i64_array_size(&self.cells),
            DataType::UInt16 => u16_array_size(&self.cells),
            DataType::UInt32 => u32_array_size(&self.cells),
            DataType::UInt64 => u64_array_size(&self.cells),
            DataType::Float64 => u64_array_size(&self.cells),
            DataType::Utf8 => text_array_size(&self.cells),
            DataType::FixedSizeBinary(width) => {
                let limit: usize = isize::MAX as usize - 127;
                if *width > 0 && self.cells.len() > limit / (*width as usize) {
                    return usize::MAX;
                }
                proof {
                    lemma_fixed_room(self.cells@.len() as int, *width as int, buffer_limit());
                }
                fixed_array_size(&self.cells, *width)
            },
            DataType::Binary => bytes_array_size(&self.cells),
            DataType::Other(_) => self.sum_bytes(),
        }
    }

    /// Bytes of all values, or `usize::MAX` where they are not counted by less.
    fn sum_bytes(&self) -> (size: usize)
        ensures
            size == usize::MAX || size == value_bytes(self.cells.deep_view()),
    {
        let ghost cells = self.cells.deep_view();
        let mut total: usize = 0;
        let mut i: usize = 0;
        assert(cells.take(0) =~= Seq::empty());
        while i < self.cells.len()
            invariant
                i <= self.cells.len(),
                cells == self.cells.deep_view(),
                total == usize::MAX || total == value_bytes(cells.take(i as int)),
            decreases self.cells.len() - i,
        {
            assert(cells.take(i + 1).drop_last() =~= cells.take(i as int));
            total = total.saturating_add(self.cells[i].byte_len());
            i = i + 1;
        }
        assert(cells.take(i as int) =~= cells);
        total
    }
}

proof fn lemma_fixed_room(rows: int, width: int, limit: int)
    requires
        0 <= rows,
        0 <= limit,
        width > 0 ==> rows <= limit / width,
    ensures
        rows * width <= limit,
{
    if width > 0 {
        let most = limit / width;
        assert(rows * width <= most * width) by (nonlinear_arith)
            requires
                rows <= most,
                width > 0,
        ;
        vstd::arithmetic::div_mod::lemma_fundamental_div_mod(limit, width);
        assert(most * width <= limit) by (nonlinear_arith)
            requires
                limit == width * most + limit % width,
                limit % width >= 0,
        ;
    } else {
        assert(rows * width <= 0) by (nonlinear_arith)
            requires
                rows >= 0,
                width <= 0,
        ;
    }
}

proof fn lemma_value_bytes_grow(cells: Seq<CellView>, count: int)
    requires
        0 <= count <= cells.len(),
    ensures
        value_bytes(cells.take(count)) <= value_bytes(cells),
    decreases cells.len() - count,
{
    if count < cells.len() {
        lemma_value_bytes_grow(cells, count + 1);
        assert(cells.take(count + 1).drop_last() =~= cells.take(count));
    } else {
        assert(cells.take(count) =~= cells);
    }
}

/// `BooleanArray::get_array_memory_size` of the array of these values: the capacity of its buffers,
/// which hold a bit a row, and a little more. How much more rests on the allocator and is left
/// open.
#[verifier::external_body]
fn bool_array_size(cells: &Vec<Cell>) -> (size: usize)
    ensures
        size >= (cells@.len() + 7) / 8,
{
    let array = cells.iter().map(|cell| cell.as_bool()).collect::<arrow_array::BooleanArray>();
    array.get_array_memory_size()
}

/// `Int32Array::get_array_memory_size` of the array of these values: the capacity of its buffers,
/// which hold four bytes a row, and a little more. How much more rests on the allocator and is left
/// open.
#[verifier::external_body]
fn i32_array_size(cells: &Vec<Cell>) -> (size: usize)
    ensures
        size >= 4 * cells@.len(),
{
    let array = cells.iter().map(|cell| cell.as_i32()).collect::<arrow_array::Int32Array>();
    array.get_array_memory_size()
}

/// `Int64Array::get_array_memory_size` of the array of these values: the capacity of its buffers,
/// which hold eight bytes a row, and a little more. How much more rests on the allocator and is left
/// open.
#[verifier::external_body]
fn i64_array_size(cells: &Vec<Cell>) -> (size: usize)
    ensures
        size >= 8 * cells@.len(),
{
    let array = cells.iter().map(|cell| cell.as_i64()).collect::<arrow_array::Int64Array>();
    array.get_array_memory_size()
}

/// `UInt16Array::get_array_memory_size` of the array of these values: the capacity of its buffers,
/// which hold two bytes a row, and a little more. How much more rests on the allocator and is left
/// open.
#[verifier::external_body]
fn u16_array_size(cells: &Vec<Cell>) -> (size: usize)
    ensures
        size >= 2 * cells@.len(),
{
    let array = cells.iter().map(|cell| cell.as_u16()).collect::<arrow_array::UInt16Array>();
    array.get_array_memory_size()
}

/// `UInt32Array::get_array_memory_size` of the array of these values: the capacity of its buffers,
/// which hold four bytes a row, and a little more. How much more rests on the allocator and is left
/// open.
#[verifier::external_body]
fn u32_array_size(cells: &Vec<Cell>) -> (size: usize)
    ensures
        size >= 4 * cells@.len(),
{
    let array = cells.iter().map(|cell| cell.as_u32()).collect::<arrow_array::UInt32Array>();
    array.get_array_memory_size()
}

/// `UInt64Array::get_array_memory_size` of the array of these values, or of the bits of these
/// floats, which take the same room: the capacity of its buffers, which hold eight bytes a row, and
/// a little more. How much more rests on the allocator and is left open.
#[verifier::external_body]
fn u64_array_size(cells: &Vec<Cell>) -> (size: usize)
    ensures
        size >= 8 * cells@.len(),
{
    let array = cells.iter().map(|cell| cell.as_u64()).collect::<arrow_array::UInt64Array>();
    array.get_array_memory_size()
}

/// `StringArray::get_array_memory_size` of the array of these values: the capacity of its buffers,
/// which hold the bytes of every text, and a little more. How much more rests on the allocator and
/// is left open. Collecting the array panics when the values take more bytes than a 32-bit offset
/// can count.
#[verifier::external_body]
fn text_array_size(cells: &Vec<Cell>) -> (size: usize)
    requires
        value_bytes(cells.deep_view()) <= MAX_VALUE_BYTES,
    ensures
        cells_fit(cells.deep_view(), DataTypeView::Utf8) ==> size >= value_bytes(cells.deep_view()),
{
    let array = cells.iter().map(|cell| cell.as_text()).collect::<arrow_array::StringArray>();
    array.get_array_memory_size()
}

/// `BinaryArray::get_array_memory_size` of the array of these values: the capacity of its buffers,
/// which hold every byte, and a little more. How much more rests on the allocator and is left open.
/// Collecting the array panics when the values take more bytes than a 32-bit offset can count.
#[verifier::external_body]
fn bytes_array_size(cells: &Vec<Cell>) -> (size: usize)
    requires
        value_bytes(cells.deep_view()) <= MAX_VALUE_BYTES,
    ensures
        cells_fit(cells.deep_view(), DataTypeView::Binary) ==> size >= value_bytes(
            cells.deep_view(),
        ),
{
    let array = cells.iter().map(|cell| cell.as_bytes()).collect::<arrow_array::BinaryArray>();
    array.get_array_memory_size()
}

/// `FixedSizeBinaryArray::get_array_memory_size` of the array of these values, 0 where Arrow
/// refuses the width: the capacity of its buffers, which hold every byte, and a little more. How
/// much more rests on the allocator and is left open. Building the array panics when its buffer is
/// larger than an allocation can be.
#[verifier::external_body]
fn fixed_array_size(cells: &Vec<Cell>, width: i32) -> (size: usize)
    requires
        cells@.len() * width <= buffer_limit(),
    ensures
        cells_fit(cells.deep_view(), DataTypeView::FixedSizeBinary(width)) ==> size >= value_bytes(
            cells.deep_view(),
        ),
{
    let values = cells.iter().map(|cell| cell.as_bytes());
    arrow_array::FixedSizeBinaryArray::try_from_sparse_iter_with_size(values, width).map_or(
        0,
        |array| array.get_array_memory_size(),
    )
}

/// Why columns do not form a batch.
#[derive(Debug)]
pub enum BatchFault {
    ColumnCount { columns: usize, fields: usize },
    NoRowCount,
    /// A column that must not, and does, contain nulls.
    NullInRequired(String),
    /// Columns of different lengths, or of another length than was specified.
    Length { specified: bool },
    ColumnType { expected: DataType, found: DataType, at: usize },
    CellType,
    ValueBytes,
}

#[verifier::ext_equal]
pub enum BatchFaultView {
    ColumnCount { columns: nat, fields: nat },
    NoRowCount,
    NullInRequired(Seq<char>),
    Length { specified: bool },
    ColumnType { expected: DataTypeView, found: DataTypeView, at: nat },
    CellType,
    ValueBytes,
}

impl DeepView for BatchFault {
    type V = BatchFaultView;

    open spec fn deep_view(&self) -> BatchFaultView {
        match self {
            BatchFault::ColumnCount { columns, fields } => BatchFaultView::ColumnCount {
                columns: *columns as nat,
                fields: *fields as nat,
            },
            BatchFault::NoRowCount => BatchFaultView::NoRowCount,
            BatchFault::NullInRequired(name) => BatchFaultView::NullInRequired(name@),
            BatchFault::Length { specified } => BatchFaultView::Length { specified: *specified },
            BatchFault::ColumnType { expected, found, at } => BatchFaultView::ColumnType {
                expected: expected.deep_view(),
                found: found.deep_view(),
                at: *at as nat,
            },
            BatchFault::CellType => BatchFaultView::CellType,
            BatchFault::ValueBytes => BatchFaultView::ValueBytes,
        }
    }
}

impl BatchFaultView {
    /// What is wrong.
    pub open spec fn reason(self) -> Seq<char> {
        match self {
            BatchFaultView::ColumnCount { columns, fields } => "number of columns("@
                + text::decimal_text(columns) + ") must match number of fields("@
                + text::decimal_text(fields) + ") in schema"@,
            BatchFaultView::NoRowCount =>
                "must either specify a row count or at least one column"@,
            BatchFaultView::NullInRequired(name) => "Column '"@ + name
                + "' is declared as non-nullable but contains null values"@,
            BatchFaultView::Length { specified } => if specified {
                "all columns in a record batch must have the specified row count"@
            } else {
                "all columns in a record batch must have the same length"@
            },
            BatchFaultView::ColumnType { expected, found, at } =>
                "column types must match schema types, expected "@ + type_text(expected)
                + " but found "@ + type_text(found) + " at column index "@ + text::decimal_text(at),
            BatchFaultView::CellType => "a value does not have the type of its column"@,
            BatchFaultView::ValueBytes => "the values of a column exceed its offsets"@,
        }
    }

    /// The message of this fault.
    pub open spec fn text(self) -> Seq<char> {
        "Invalid argument error: "@ + self.reason()
    }
}

impl BatchFault {
    /// What is wrong.
    pub fn reason(&self) -> (reason: String)
        ensures
            reason@ == self.deep_view().reason(),
    {
        match self {
            BatchFault::ColumnCount { columns, fields } => {
                let mut reason = "number of columns(".to_owned();
                text::push_decimal(&mut reason, *columns as u64);
                reason.append(") must match number of fields(");
                text::push_decimal(&mut reason, *fields as u64);
                reason.append(") in schema");
                reason
            },
            BatchFault::NoRowCount =>
                "must either specify a row count or at least one column".to_owned(),
            BatchFault::NullInRequired(name) => {
                let mut reason = "Column '".to_owned();
                reason.append(name);
                reason.append("' is declared as non-nullable but contains null values");
                reason
            },
            BatchFault::Length { specified } => if *specified {
                "all columns in a record batch must have the specified row count".to_owned()
            } else {
                "all columns in a record batch must have the same length".to_owned()
            },
            BatchFault::ColumnType { expected, found, at } => {
                let mut reason = "column types must match schema types, expected ".to_owned();
                reason.append(&expected.describe());
                reason.append(" but found ");
                reason.append(&found.describe());
                reason.append(" at column index ");
                text::push_decimal(&mut reason, *at as u64);
                reason
            },
            BatchFault::CellType => "a value does not have the type of its column".to_owned(),
            BatchFault::ValueBytes => "the values of a column exceed its offsets".to_owned(),
        }
    }

    /// The message of this fault.
    pub fn detail(&self) -> (detail: String)
        ensures
            detail@ == self.deep_view().text(),
    {
        let mut detail = "Invalid argument error: ".to_owned();
        detail.append(&self.reason());
        detail
    }
}

#[verifier::ext_equal]
pub struct BatchView {
    pub schema: SchemaView,
    pub columns: Seq<ColumnView>,
    pub rows: nat,
}

impl BatchView {
    /// What holds of every batch.
    pub open spec fn wf(self) -> bool {
        batch_fault(self.schema.fields, self.columns, Some(self.rows)) is None
    }

    /// The column called `name`: the first one, if several are.
    pub open spec fn column_by_name(self, name: Seq<char>) -> Option<ColumnView> {
        let at = schema::field_index(self.schema.fields, name);
        if at < self.schema.fields.len() {
            Some(self.columns[at])
        } else {
            None
        }
    }
}

pub open spec fn column_types_match(
    fields: Seq<schema::FieldView>,
    columns: Seq<ColumnView>,
) -> bool {
    forall|i: int|
        0 <= i < columns.len() ==> (#[trigger] columns[i]).data_type == fields[i].data_type
}

pub open spec fn required_columns_filled(
    fields: Seq<schema::FieldView>,
    columns: Seq<ColumnView>,
) -> bool {
    forall|i: int|
        0 <= i < columns.len() && !fields[i].nullable ==> !has_null((#[trigger] columns[i]).cells)
}

/// The first column from `at` on that has nulls and must not, or how many columns there are.
pub open spec fn null_column(
    fields: Seq<schema::FieldView>,
    columns: Seq<ColumnView>,
    at: int,
) -> int
    decreases columns.len() - at,
{
    if at >= columns.len() {
        columns.len() as int
    } else if !fields[at].nullable && has_null(columns[at].cells) {
        at
    } else {
        null_column(fields, columns, at + 1)
    }
}

/// The first column from `at` on that has another type than its field, or how many columns there
/// are.
pub open spec fn mistyped_column(
    fields: Seq<schema::FieldView>,
    columns: Seq<ColumnView>,
    at: int,
) -> int
    decreases columns.len() - at,
{
    if at >= columns.len() {
        columns.len() as int
    } else if columns[at].data_type != fields[at].data_type {
        at
    } else {
        mistyped_column(fields, columns, at + 1)
    }
}

proof fn lemma_null_column(
    fields: Seq<schema::FieldView>,
    columns: Seq<ColumnView>,
    at: int,
    found: int,
)
    requires
        0 <= at <= found < columns.len(),
        forall|k: int|
            at <= k < found && !fields[k].nullable ==> !has_null((#[trigger] columns[k]).cells),
        !fields[found].nullable && has_null(columns[found].cells),
    ensures
        null_column(fields, columns, at) == found,
    decreases found - at,
{
    if at < found {
        assert(!fields[at].nullable ==> !has_null(columns[at].cells));
        lemma_null_column(fields, columns, at + 1, found);
    }
}

proof fn lemma_mistyped_column(
    fields: Seq<schema::FieldView>,
    columns: Seq<ColumnView>,
    at: int,
    found: int,
)
    requires
        0 <= at <= found < columns.len(),
        forall|k: int|
            at <= k < found ==> (#[trigger] columns[k]).data_type == fields[k].data_type,
        columns[found].data_type != fields[found].data_type,
    ensures
        mistyped_column(fields, columns, at) == found,
    decreases found - at,
{
    if at < found {
        assert(columns[at].data_type == fields[at].data_type);
        lemma_mistyped_column(fields, columns, at + 1, found);
    }
}

/// Why `columns` do not form a batch of `fields`, if they do not.
pub open spec fn batch_fault(
    fields: Seq<schema::FieldView>,
    columns: Seq<ColumnView>,
    rows: Option<nat>,
) -> Option<BatchFaultView> {
    let count = match rows {
        Some(rows) => rows,
        None => columns[0].cells.len(),
    };
    if fields.len() != columns.len() {
        Some(BatchFaultView::ColumnCount { columns: columns.len(), fields: fields.len() })
    } else if rows is None && columns.len() == 0 {
        Some(BatchFaultView::NoRowCount)
    } else if !required_columns_filled(fields, columns) {
        Some(BatchFaultView::NullInRequired(fields[null_column(fields, columns, 0)].name))
    } else if !(forall|i: int|
        0 <= i < columns.len() ==> (#[trigger] columns[i]).cells.len() == count) {
        Some(BatchFaultView::Length { specified: rows is Some })
    } else if !column_types_match(fields, columns) {
        let at = mistyped_column(fields, columns, 0);
        Some(
            BatchFaultView::ColumnType {
                expected: fields[at].data_type,
                found: columns[at].data_type,
                at: at as nat,
            },
        )
    } else if !(forall|i: int|
        0 <= i < columns.len() ==> cells_fit(
            (#[trigger] columns[i]).cells,
            columns[i].data_type,
        )) {
        Some(BatchFaultView::CellType)
    } else if !(forall|i: int| 0 <= i < columns.len() ==> offsets_hold(#[trigger] columns[i])) {
        Some(BatchFaultView::ValueBytes)
    } else {
        None
    }
}

/// Columns of one length that share a schema.
#[derive(Debug)]
pub struct RecordBatch {
    schema: Schema,
    columns: Vec<Column>,
    rows: usize,
}

impl DeepView for RecordBatch {
    type V = BatchView;

    closed spec fn deep_view(&self) -> BatchView {
        BatchView {
            schema: self.schema.deep_view(),
            columns: self.columns.deep_view(),
            rows: self.rows as nat,
        }
    }
}

/// Why `columns` do not form a batch of `rows` rows, which were specified or are those of the first
/// column.
fn find_fault(
    fields: &Vec<schema::Field>,
    columns: &Vec<Column>,
    rows: usize,
    specified: bool,
) -> (fault: Option<BatchFault>)
    requires
        !specified ==> columns@.len() > 0 && rows == columns.deep_view()[0].cells.len(),
    ensures
        fault.deep_view() == batch_fault(
            fields.deep_view(),
            columns.deep_view(),
            if specified {
                Some(rows as nat)
            } else {
                None
            },
        ),
{
    let ghost fs = fields.deep_view();
    let ghost cs = columns.deep_view();
    if fields.len() != columns.len() {
        return Some(BatchFault::ColumnCount { columns: columns.len(), fields: fields.len() });
    }
    let mut i: usize = 0;
    while i < columns.len()
        invariant
            i <= columns.len(),
            columns.len() == fields.len(),
            fs == fields.deep_view(),
            cs == columns.deep_view(),
            forall|k: int|
                0 <= k < i && !fs[k].nullable ==> !has_null((#[trigger] cs[k]).cells),
        decreases columns.len() - i,
    {
        if !fields[i].nullable && columns[i].has_null() {
            proof {
                assert(!fs[i as int].nullable && has_null(cs[i as int].cells));
                lemma_null_column(fs, cs, 0, i as int);
            }
            return Some(BatchFault::NullInRequired(fields[i].name.clone()));
        }
        i = i + 1;
    }
    i = 0;
    while i < columns.len()
        invariant
            i <= columns.len(),
            columns.len() == fields.len(),
            fs == fields.deep_view(),
            cs == columns.deep_view(),
            required_columns_filled(fs, cs),
            forall|k: int| 0 <= k < i ==> (#[trigger] cs[k]).cells.len() == rows,
            !specified ==> cs.len() > 0 && rows == cs[0].cells.len(),
        decreases columns.len() - i,
    {
        if columns[i].cells.len() != rows {
            assert(cs[i as int].cells.len() != rows);
            return Some(BatchFault::Length { specified });
        }
        i = i + 1;
    }
    i = 0;
    while i < columns.len()
        invariant
            i <= columns.len(),
            columns.len() == fields.len(),
            fs == fields.deep_view(),
            cs == columns.deep_view(),
            required_columns_filled(fs, cs),
            forall|k: int| 0 <= k < cs.len() ==> (#[trigger] cs[k]).cells.len() == rows,
            forall|k: int| 0 <= k < i ==> (#[trigger] cs[k]).data_type == fs[k].data_type,
        decreases columns.len() - i,
    {
        if !columns[i].data_type.same(&fields[i].data_type) {
            proof {
                assert(cs[i as int].data_type != fs[i as int].data_type);
                lemma_mistyped_column(fs, cs, 0, i as int);
            }
            return Some(
                BatchFault::ColumnType {
                    expected: fields[i].data_type.clone(),
                    found: columns[i].data_type.clone(),
                    at: i,
                },
            );
        }
        i = i + 1;
    }
    i = 0;
    while i < columns.len()
        invariant
            i <= columns.len(),
            columns.len() == fields.len(),
            fs == fields.deep_view(),
            cs == columns.deep_view(),
            required_columns_filled(fs, cs),
            forall|k: int| 0 <= k < cs.len() ==> (#[trigger] cs[k]).cells.len() == rows,
            column_types_match(fs, cs),
            forall|k: int| 0 <= k < i ==> cells_fit((#[trigger] cs[k]).cells, cs[k].data_type),
        decreases columns.len() - i,
    {
        if !columns[i].holds_its_type() {
            assert(!cells_fit(cs[i as int].cells, cs[i as int].data_type));
            return Some(BatchFault::CellType);
        }
        i = i + 1;
    }
    i = 0;
    while i < columns.len()
        invariant
            i <= columns.len(),
            columns.len() == fields.len(),
            fs == fields.deep_view(),
            cs == columns.deep_view(),
            required_columns_filled(fs, cs),
            forall|k: int| 0 <= k < cs.len() ==> (#[trigger] cs[k]).cells.len() == rows,
            column_types_match(fs, cs),
            forall|k: int|
                0 <= k < cs.len() ==> cells_fit((#[trigger] cs[k]).cells, cs[k].data_type),
            forall|k: int| 0 <= k < i ==> offsets_hold(#[trigger] cs[k]),
        decreases columns.len() - i,
    {
        if !columns[i].values_fit() {
            assert(!offsets_hold(cs[i as int]));
            return Some(BatchFault::ValueBytes);
        }
        i = i + 1;
    }
    None
}

impl RecordBatch {
    #[verifier::type_invariant]
    spec fn well_formed(self) -> bool {
        self.deep_view().wf()
    }

    /// A batch of `columns`, whose first column gives the number of rows.
    pub fn try_new(schema: Schema, columns: Vec<Column>) -> (batch: Result<Self, BatchFault>)
        ensures
            match batch {
                Ok(batch) => batch_fault(
                    schema.deep_view().fields,
                    columns.deep_view(),
                    None,
                ) is None && batch.deep_view() == (BatchView {
                    schema: schema.deep_view(),
                    columns: columns.deep_view(),
                    rows: columns.deep_view()[0].cells.len(),
                }) && batch.deep_view().wf(),
                Err(fault) => batch_fault(schema.deep_view().fields, columns.deep_view(), None)
                    == Some(fault.deep_view()),
            },
    {
        if schema.fields.len() != columns.len() {
            return Err(
                BatchFault::ColumnCount { columns: columns.len(), fields: schema.fields.len() },
            );
        }
        if columns.len() == 0 {
            return Err(BatchFault::NoRowCount);
        }
        assert(columns.deep_view()[0] == columns@[0].deep_view());
        let rows = columns[0].cells.len();
        match find_fault(&schema.fields, &columns, rows, false) {
            Some(fault) => Err(fault),
            None => Ok(RecordBatch { schema, columns, rows }),
        }
    }

    /// A batch of `rows` rows.
    pub fn try_new_with_rows(schema: Schema, columns: Vec<Column>, rows: usize) -> (batch: Result<
        Self,
        BatchFault,
    >)
        ensures
            match batch {
                Ok(batch) => batch_fault(
                    schema.deep_view().fields,
                    columns.deep_view(),
                    Some(rows as nat),
                ) is None && batch.deep_view() == (BatchView {
                    schema: schema.deep_view(),
                    columns: columns.deep_view(),
                    rows: rows as nat,
                }) && batch.deep_view().wf(),
                Err(fault) => batch_fault(
                    schema.deep_view().fields,
                    columns.deep_view(),
                    Some(rows as nat),
                ) == Some(fault.deep_view()),
            },
    {
        match find_fault(&schema.fields, &columns, rows, true) {
            Some(fault) => Err(fault),
            None => Ok(RecordBatch { schema, columns, rows }),
        }
    }

    pub fn schema(&self) -> (schema: &Schema)
        ensures
            schema.deep_view() == self.deep_view().schema,
            self.deep_view().wf(),
    {
        proof {
            use_type_invariant(self);
        }
        &self.schema
    }

    pub fn num_rows(&self) -> (rows: usize)
        ensures
            rows == self.deep_view().rows,
            self.deep_view().wf(),
    {
        proof {
            use_type_invariant(self);
        }
        self.rows
    }

    pub fn num_columns(&self) -> (count: usize)
        ensures
            count == self.deep_view().columns.len(),
            self.deep_view().wf(),
    {
        proof {
            use_type_invariant(self);
        }
        self.columns.len()
    }

    pub fn column(&self, index: usize) -> (column: &Column)
        requires
            index < self.deep_view().columns.len(),
        ensures
            column.deep_view() == self.deep_view().columns[index as int],
    {
        &self.columns[index]
    }

    /// The first column called `name`.
    pub fn column_by_name(&self, name: &str) -> (column: Option<&Column>)
        ensures
            column is Some == self.deep_view().column_by_name(name@) is Some,
            column is Some ==> column->0.deep_view() == self.deep_view().column_by_name(name@)->0,
    {
        proof {
            use_type_invariant(self);
        }
        match self.schema.index_of(name) {
            Some(index) => Some(&self.columns[index]),
            None => None,
        }
    }

    /// Bytes that Arrow takes to hold the columns: the sum over the columns.
    pub fn get_array_memory_size(&self) -> (size: u64)
        ensures
            exists|sizes: Seq<u64>| #[trigger]
                column_sizes(sizes, self.deep_view().columns) && size == generation::clamped(
                    sum_of(sizes) as int,
                ),
            covers(size, least_columns_bytes(self.deep_view().columns)),
    {
        proof {
            use_type_invariant(self);
        }
        let ghost all = self.columns.deep_view();
        let mut sizes: Vec<u64> = Vec::new();
        let mut i: usize = 0;
        while i < self.columns.len()
            invariant
                i <= self.columns.len(),
                all == self.columns.deep_view(),
                all == self.deep_view().columns,
                self.deep_view().wf(),
                sizes@.len() == i,
                forall|k: int| 0 <= k < i ==> covers(#[trigger] sizes@[k], least_bytes(all[k])),
            decreases self.columns.len() - i,
        {
            assert(all[i as int] == self.columns@[i as int].deep_view());
            let size = self.columns[i].memory_size();
            if size == usize::MAX {
                sizes.push(u64::MAX);
            } else {
                sizes.push(size as u64);
            }
            i = i + 1;
        }
        assert(column_sizes(sizes@, all));
        proof {
            lemma_column_sizes(sizes@, all);
        }
        total_bytes(&sizes)
    }

    /// Copies of the columns.
    pub fn copy_columns(&self) -> (columns: Vec<Column>)
        ensures
            columns.deep_view() == self.deep_view().columns,
    {
        let mut columns: Vec<Column> = Vec::new();
        let mut i: usize = 0;
        let ghost all = self.columns.deep_view();
        while i < self.columns.len()
            invariant
                i <= self.columns.len(),
                all == self.columns.deep_view(),
                columns.deep_view() == all.take(i as int),
            decreases self.columns.len() - i,
        {
            let ghost before = columns.deep_view();
            columns.push(self.columns[i].clone());
            assert(columns.deep_view() =~= before.push(all[i as int]));
            assert(columns.deep_view() =~= all.take(i + 1));
            i = i + 1;
        }
        assert(all.take(i as int) =~= all);
        columns
    }
}

impl Clone for RecordBatch {
    fn clone(&self) -> (copy: Self)
        ensures
            copy.deep_view() == self.deep_view(),
            copy.deep_view().wf(),
    {
        proof {
            use_type_invariant(self);
        }
        let schema = self.schema.clone();
        let columns = self.copy_columns();
        RecordBatch { schema, columns, rows: self.rows }
    }
}

/// The name of a column type.
pub open spec fn type_text(data_type: DataTypeView) -> Seq<char> {
    match data_type {
        DataTypeView::Boolean => "Boolean"@,
        DataTypeView::Int32 => "Int32"@,
        DataTypeView::Int64 => "Int64"@,
        DataTypeView::UInt16 => "UInt16"@,
        DataTypeView::UInt32 => "UInt32"@,
        DataTypeView::UInt64 => "UInt64"@,
        DataTypeView::Float64 => "Float64"@,
        DataTypeView::Binary => "Binary"@,
        DataTypeView::Utf8 => "Utf8"@,
        DataTypeView::FixedSizeBinary(width) => "FixedSizeBinary("@ + text::signed_text(width as int)
            + ")"@,
        DataTypeView::Other(name) => name,
    }
}

impl DataType {
    /// The name of this type.
    pub fn describe(&self) -> (name: String)
        ensures
            name@ == type_text(self.deep_view()),
    {
        match self {
            DataType::Boolean => "Boolean".to_owned(),
            DataType::Int32 => "Int32".to_owned(),
            DataType::Int64 => "Int64".to_owned(),
            DataType::UInt16 => "UInt16".to_owned(),
            DataType::UInt32 => "UInt32".to_owned(),
            DataType::UInt64 => "UInt64".to_owned(),
            DataType::Float64 => "Float64".to_owned(),
            DataType::Binary => "Binary".to_owned(),
            DataType::Utf8 => "Utf8".to_owned(),
            DataType::FixedSizeBinary(width) => {
                let mut name = "FixedSizeBinary(".to_owned();
                text::push_signed(&mut name, *width as i64);
                name.append(")");
                name
            },
            DataType::Other(name) => name.clone(),
        }
    }
}

/// A batch is sound exactly where it has one column for each field, of its type and with a cell for each
/// row, each cell holds a value of that type or none, none is missing where the field takes no nulls, and
/// the texts and bytes of a column can be counted.
pub proof fn sound_batches_hold_typed_rows(batch: BatchView)
    ensures
        batch.wf() <==> batch.columns.len() == batch.schema.fields.len() && (forall|c: int|
            0 <= c < batch.columns.len() ==> is_sound_column(
                #[trigger] batch.columns[c],
                batch.schema.fields[c],
                batch.rows,
            )),
{
    let fields = batch.schema.fields;
    if batch.wf() {
        assert forall|c: int| 0 <= c < batch.columns.len() implies is_sound_column(
            #[trigger] batch.columns[c],
            fields[c],
            batch.rows,
        ) by {
            let column = batch.columns[c];
            assert(cells_fit(column.cells, column.data_type));
            assert(offsets_hold(column));
            assert(!fields[c].nullable ==> !has_null(column.cells));
        }
    }
    if batch.columns.len() == fields.len() && (forall|c: int|
        0 <= c < batch.columns.len() ==> is_sound_column(
            #[trigger] batch.columns[c],
            fields[c],
            batch.rows,
        )) {
        assert forall|c: int| 0 <= c < batch.columns.len() && !fields[c].nullable implies !has_null(
            (#[trigger] batch.columns[c]).cells,
        ) by {
            assert(is_sound_column(batch.columns[c], fields[c], batch.rows));
        }
        assert forall|c: int| 0 <= c < batch.columns.len() implies cells_fit(
            (#[trigger] batch.columns[c]).cells,
            batch.columns[c].data_type,
        ) && offsets_hold(batch.columns[c]) && batch.columns[c].cells.len() == batch.rows
            && batch.columns[c].data_type == fields[c].data_type by {
            assert(is_sound_column(batch.columns[c], fields[c], batch.rows));
        }
    }
}

/// Whether a column holds these many rows for its field.
pub open spec fn is_sound_column(
    column: ColumnView,
    field: schema::FieldView,
    rows: nat,
) -> bool {
    &&& column.data_type == field.data_type
    &&& column.cells.len() == rows
    &&& forall|r: int|
        0 <= r < rows ==> (match #[trigger] column.cells[r] {
            CellView::Null => field.nullable,
            CellView::Bool(_) => field.data_type is Boolean,
            CellView::Int32(_) => field.data_type is Int32,
            CellView::Int64(_) => field.data_type is Int64,
            CellView::UInt16(_) => field.data_type is UInt16,
            CellView::UInt32(_) => field.data_type is UInt32,
            CellView::UInt64(_) => field.data_type is UInt64,
            CellView::Float64(_) => field.data_type is Float64,
            CellView::Text(_) => field.data_type is Utf8,
            CellView::Bytes(bytes) => field.data_type is Binary || field.data_type is Other || (
            field.data_type is FixedSizeBinary && bytes.len() == field.data_type->FixedSizeBinary_0),
        })
    &&& field.data_type is Utf8 || field.data_type is Binary ==> value_bytes(column.cells)
        <= 0x7fff_ffff
}

} // verus!
