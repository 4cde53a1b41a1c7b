//! Batches of one generation under one schema.
use vstd::prelude::*;
use vstd::utf8;
use crate::batch;
use crate::batch::{BatchView, Column, ColumnView, RecordBatch};
use crate::codec;
use crate::identity;
use crate::identity::{
    dynamic_identity, DynamicField, DynamicFieldView, DynamicIdentity, IdentityView,
};
use crate::naming;
use crate::naming::{hash_bytes, hex_encode, write_be, DynamicError};
use crate::schema;
use crate::schema::{
    same_fields, schema_fields, DataType, DataTypeView, Field, FieldView, Schema, SchemaView,
};
use crate::sorted::TextMap;
use crate::text;
use crate::text::same_text;

verus! {

/// Why a memtable operation was rejected.
#[allow(inconsistent_fields)]
#[derive(Debug)]
pub enum MemtableError {
    /// `max_frozen` was zero, so a generation could never freeze.
    FrozenLimitZero,
    /// The decoded frame belongs to another tenant.
    TenantMismatch { expected: String, actual: String },
    /// The frame sequence is not the next exclusive sequence.
    NonContiguous { expected: u64, actual: u64 },
    /// The frame sequence has no following exclusive bound.
    SequenceOverflow { sequence: u64 },
    /// The memtable had already accepted a sequence when it was resumed.
    NotResumable,
    /// Freezing this append or rotation would exceed `max_frozen`. Nothing was stored.
    FrozenLimit,
    /// A batch does not use the core logs schema, or a dynamic column has no identity metadata.
    IncompatibleBatch(String),
    /// Collision suffixes could not be assigned for the generation schema.
    Dynamic(DynamicError),
}

#[allow(inconsistent_fields)]
#[verifier::ext_equal]
pub enum MemtableErrorView {
    FrozenLimitZero,
    TenantMismatch { expected: Seq<char>, actual: Seq<char> },
    NonContiguous { expected: u64, actual: u64 },
    SequenceOverflow { sequence: u64 },
    NotResumable,
    FrozenLimit,
    IncompatibleBatch(Seq<char>),
    Dynamic(DynamicError),
}

impl DeepView for MemtableError {
    type V = MemtableErrorView;

    open spec fn deep_view(&self) -> MemtableErrorView {
        match self {
            MemtableError::FrozenLimitZero => MemtableErrorView::FrozenLimitZero,
            MemtableError::TenantMismatch { expected, actual } =>
                MemtableErrorView::TenantMismatch { expected: expected@, actual: actual@ },
            MemtableError::NonContiguous { expected, actual } =>
                MemtableErrorView::NonContiguous { expected: *expected, actual: *actual },
            MemtableError::SequenceOverflow { sequence } =>
                MemtableErrorView::SequenceOverflow { sequence: *sequence },
            MemtableError::NotResumable => MemtableErrorView::NotResumable,
            MemtableError::FrozenLimit => MemtableErrorView::FrozenLimit,
            MemtableError::IncompatibleBatch(detail) =>
                MemtableErrorView::IncompatibleBatch(detail@),
            MemtableError::Dynamic(error) => MemtableErrorView::Dynamic(*error),
        }
    }
}

impl MemtableErrorView {
    pub open spec fn text(self) -> Seq<char> {
        match self {
            MemtableErrorView::FrozenLimitZero => "frozen generation limit must be non-zero"@,
            MemtableErrorView::TenantMismatch { expected, actual } => "memtable tenant is "@
                + expected + ", frame tenant is "@ + actual,
            MemtableErrorView::NonContiguous { expected, actual } => "WAL sequence "@
                + text::decimal_text(actual as nat) + " does not continue from "@
                + text::decimal_text(expected as nat),
            MemtableErrorView::SequenceOverflow { sequence } => "WAL sequence "@
                + text::decimal_text(sequence as nat) + " has no exclusive successor"@,
            MemtableErrorView::NotResumable =>
                "memtable already has a sequence and cannot resume"@,
            MemtableErrorView::FrozenLimit => "frozen generation limit has been reached"@,
            MemtableErrorView::IncompatibleBatch(detail) => "incompatible log batch: "@ + detail,
            MemtableErrorView::Dynamic(error) => "dynamic log columns: "@ + error.text(),
        }
    }
}

impl MemtableError {
    /// The message of this error.
    pub fn message(&self) -> (message: String)
        ensures
            message@ == self.deep_view().text(),
    {
        match self {
            MemtableError::FrozenLimitZero => "frozen generation limit must be non-zero".to_owned(),
            MemtableError::TenantMismatch { expected, actual } => {
                let mut message = "memtable tenant is ".to_owned();
                message.append(expected);
                message.append(", frame tenant is ");
                message.append(actual);
                message
            },
            MemtableError::NonContiguous { expected, actual } => {
                let mut message = "WAL sequence ".to_owned();
                text::push_decimal(&mut message, *actual);
                message.append(" does not continue from ");
                text::push_decimal(&mut message, *expected);
                message
            },
            MemtableError::SequenceOverflow { sequence } => {
                let mut message = "WAL sequence ".to_owned();
                text::push_decimal(&mut message, *sequence);
                message.append(" has no exclusive successor");
                message
            },
            MemtableError::NotResumable =>
                "memtable already has a sequence and cannot resume".to_owned(),
            MemtableError::FrozenLimit => "frozen generation limit has been reached".to_owned(),
            MemtableError::IncompatibleBatch(detail) => "incompatible log batch: ".to_owned().concat(
                detail,
            ),
            MemtableError::Dynamic(error) => "dynamic log columns: ".to_owned().concat(
                &error.message(),
            ),
        }
    }
}

// Alignment.

/// The column of `batch` that stands under `field`: the one of that name, or typed nulls.
pub open spec fn column_for(batch: BatchView, field: FieldView) -> ColumnView {
    match batch.column_by_name(field.name) {
        Some(column) => column,
        None => ColumnView { data_type: field.data_type, cells: batch::null_cells(batch.rows) },
    }
}

/// Why no column of `batch` can stand under `field`.
pub open spec fn column_fault(batch: BatchView, field: FieldView) -> Option<Seq<char>> {
    match batch.column_by_name(field.name) {
        Some(column) => if column.data_type != field.data_type {
            Some(
                "column "@ + field.name + " has type "@ + batch::type_text(column.data_type)
                    + ", schema expects "@ + batch::type_text(field.data_type),
            )
        } else {
            None
        },
        None => if field.nullable {
            None
        } else {
            Some("missing required column "@ + field.name)
        },
    }
}

/// The first fault among `fields`.
pub open spec fn first_fault(batch: BatchView, fields: Seq<FieldView>) -> Option<Seq<char>>
    decreases fields.len(),
{
    if fields.len() == 0 {
        None
    } else {
        match first_fault(batch, fields.drop_last()) {
            Some(fault) => Some(fault),
            None => column_fault(batch, fields.last()),
        }
    }
}

/// Whether the first of `fields` that no column can stand under has a column of another type, rather
/// than none.
pub open spec fn type_fault_first(batch: BatchView, fields: Seq<FieldView>) -> bool
    decreases fields.len(),
{
    if fields.len() == 0 {
        false
    } else if first_fault(batch, fields.drop_last()) is Some {
        type_fault_first(batch, fields.drop_last())
    } else {
        &&& column_fault(batch, fields.last()) is Some
        &&& batch.column_by_name(fields.last().name) is Some
    }
}

/// The columns of `batch` in the order of `fields`.
pub open spec fn columns_for(batch: BatchView, fields: Seq<FieldView>) -> Seq<ColumnView> {
    fields.map_values(|field: FieldView| column_for(batch, field))
}

/// A batch of `columns` whose first column gives the number of rows, or why there is none.
pub open spec fn formed(schema: SchemaView, columns: Seq<ColumnView>) -> Result<
    BatchView,
    Seq<char>,
> {
    match batch::batch_fault(schema.fields, columns, None) {
        Some(fault) => Err(fault.text()),
        None => Ok(BatchView { schema, columns, rows: columns[0].cells.len() }),
    }
}

/// `batch` under `schema`, or why it does not fit.
pub open spec fn aligned(batch: BatchView, schema: SchemaView) -> Result<BatchView, Seq<char>> {
    match first_fault(batch, schema.fields) {
        Some(fault) => Err(fault),
        None => formed(schema, columns_for(batch, schema.fields)),
    }
}

proof fn lemma_first_fault(batch: BatchView, fields: Seq<FieldView>, count: int)
    requires
        0 <= count <= fields.len(),
        first_fault(batch, fields.take(count)) is Some,
    ensures
        first_fault(batch, fields) == first_fault(batch, fields.take(count)),
        type_fault_first(batch, fields) == type_fault_first(batch, fields.take(count)),
    decreases fields.len() - count,
{
    if count < fields.len() {
        assert(fields.take(count + 1).drop_last() =~= fields.take(count));
        lemma_first_fault(batch, fields, count + 1);
    } else {
        assert(fields.take(count) =~= fields);
    }
}

pub proof fn lemma_no_fault(batch: BatchView, fields: Seq<FieldView>)
    ensures
        first_fault(batch, fields) is None <==> forall|i: int|
            0 <= i < fields.len() ==> column_fault(batch, #[trigger] fields[i]) is None,
    decreases fields.len(),
{
    if fields.len() > 0 {
        let front = fields.drop_last();
        lemma_no_fault(batch, front);
        if first_fault(batch, fields) is None {
            assert forall|i: int| 0 <= i < fields.len() implies column_fault(
                batch,
                #[trigger] fields[i],
            ) is None by {
                if i < front.len() {
                    assert(front[i] == fields[i]);
                }
            }
        }
        if forall|i: int| 0 <= i < fields.len() ==> column_fault(batch, #[trigger] fields[i]) is None {
            assert forall|i: int| 0 <= i < front.len() implies column_fault(
                batch,
                #[trigger] front[i],
            ) is None by {
                assert(fields[i] == front[i]);
            }
            assert(fields[fields.len() - 1] == fields.last());
        }
    }
}

/// Alignment keeps every column that `batch` has, unchanged and under its name, and gives typed
/// nulls for the others. It keeps the rows.
pub proof fn alignment_keeps_columns(batch: BatchView, schema: SchemaView, result: BatchView)
    requires
        batch.wf(),
        aligned(batch, schema) == Ok::<BatchView, Seq<char>>(result),
    ensures
        result.wf(),
        result.schema == schema,
        result.rows == batch.rows,
        forall|i: int|
            0 <= i < schema.fields.len() ==> (#[trigger] result.columns[i]) == (
            match batch.column_by_name(schema.fields[i].name) {
                Some(column) => column,
                None => ColumnView {
                    data_type: schema.fields[i].data_type,
                    cells: batch::null_cells(batch.rows),
                },
            }),
{
    let columns = columns_for(batch, schema.fields);
    assert(columns[0] == column_for(batch, schema.fields[0]));
    schema::lemma_field_index(batch.schema.fields, schema.fields[0].name);
    assert(columns[0].cells.len() == batch.rows);
}

/// Whether the first field of `schema` that no column of `batch` can stand under has a column of
/// another type, rather than none.
pub fn finds_type_fault_first(batch: &RecordBatch, schema: &Schema) -> (first: bool)
    ensures
        first == type_fault_first(batch.deep_view(), schema.deep_view().fields),
{
    let ghost view = batch.deep_view();
    let ghost fields = schema.fields.deep_view();
    let mut i: usize = 0;
    assert(fields.take(0) =~= Seq::empty());
    while i < schema.fields.len()
        invariant
            i <= schema.fields.len(),
            view == batch.deep_view(),
            fields == schema.fields.deep_view(),
            first_fault(view, fields.take(i as int)) is None,
            !type_fault_first(view, fields.take(i as int)),
        decreases schema.fields.len() - i,
    {
        let ghost head = fields.take(i + 1);
        assert(head.drop_last() =~= fields.take(i as int));
        assert(head.last() == schema.fields@[i as int].deep_view());
        let field = &schema.fields[i];
        match batch.column_by_name(&field.name) {
            Some(column) => {
                if !column.data_type.same(&field.data_type) {
                    proof {
                        lemma_first_fault(view, fields, i + 1);
                    }
                    return true;
                }
            },
            None => {
                if !field.nullable {
                    proof {
                        lemma_first_fault(view, fields, i + 1);
                    }
                    return false;
                }
            },
        }
        i = i + 1;
    }
    assert(fields.take(i as int) =~= fields);
    false
}

/// Reorder `batch` to `schema` and fill missing nullable columns with typed nulls.
///
/// # Errors
///
/// Returns [`MemtableError::IncompatibleBatch`] when a required column is missing or a present
/// column has a different type.
pub fn align_batch(batch: &RecordBatch, schema: &Schema) -> (result: Result<
    RecordBatch,
    MemtableError,
>)
    ensures
        match result {
            Ok(result) => aligned(batch.deep_view(), schema.deep_view()) == Ok::<
                BatchView,
                Seq<char>,
            >(result.deep_view()),
            Err(error) => aligned(batch.deep_view(), schema.deep_view()) is Err
                && error.deep_view() == MemtableErrorView::IncompatibleBatch(
                aligned(batch.deep_view(), schema.deep_view())->Err_0,
            ),
        },
{
    let ghost view = batch.deep_view();
    let ghost fields = schema.fields.deep_view();
    let rows = batch.num_rows();
    let mut columns: Vec<Column> = Vec::new();
    let mut i: usize = 0;
    assert(fields.take(0) =~= Seq::empty());
    assert(columns.deep_view() =~= columns_for(view, fields.take(0)));
    while i < schema.fields.len()
        invariant
            i <= schema.fields.len(),
            view == batch.deep_view(),
            fields == schema.fields.deep_view(),
            rows == view.rows,
            first_fault(view, fields.take(i as int)) is None,
            columns.deep_view() == columns_for(view, fields.take(i as int)),
        decreases schema.fields.len() - i,
    {
        let ghost head = fields.take(i + 1);
        let ghost before = columns.deep_view();
        assert(head.drop_last() =~= fields.take(i as int));
        assert(head.last() == schema.fields@[i as int].deep_view());
        let field = &schema.fields[i];
        match batch.column_by_name(&field.name) {
            Some(column) => {
                if !column.data_type.same(&field.data_type) {
                    let mut detail = "column ".to_owned();
                    detail.append(&field.name);
                    detail.append(" has type ");
                    detail.append(&column.data_type.describe());
                    detail.append(", schema expects ");
                    detail.append(&field.data_type.describe());
                    proof {
                        lemma_first_fault(view, fields, i + 1);
                    }
                    return Err(MemtableError::IncompatibleBatch(detail));
                }
                columns.push(column.clone());
            },
            None => {
                if !field.nullable {
                    let detail = "missing required column ".to_owned().concat(&field.name);
                    proof {
                        lemma_first_fault(view, fields, i + 1);
                    }
                    return Err(MemtableError::IncompatibleBatch(detail));
                }
                columns.push(Column::nulls(&field.data_type, rows));
            },
        }
        assert(columns.deep_view() =~= before.push(column_for(view, head.last())));
        assert(columns.deep_view() =~= columns_for(view, head));
        i = i + 1;
    }
    assert(fields.take(i as int) =~= fields);
    match RecordBatch::try_new(schema.clone(), columns) {
        Ok(batch) => Ok(batch),
        Err(fault) => Err(MemtableError::IncompatibleBatch(fault.detail())),
    }
}

// Projection.

/// The first field with this identity.
pub open spec fn named_as(fields: Seq<DynamicFieldView>, identity: IdentityView) -> Option<
    DynamicFieldView,
>
    decreases fields.len(),
{
    if fields.len() == 0 {
        None
    } else if fields[0].identity == identity {
        Some(fields[0])
    } else {
        named_as(fields.drop_first(), identity)
    }
}

pub proof fn lemma_named_as(fields: Seq<DynamicFieldView>, identity: IdentityView)
    ensures
        named_as(fields, identity) is Some == naming::has_column(fields, identity),
        named_as(fields, identity) is Some ==> named_as(fields, identity)->0.identity == identity
            && fields.contains(named_as(fields, identity)->0),
    decreases fields.len(),
{
    if fields.len() > 0 && fields[0].identity != identity {
        let rest = fields.drop_first();
        lemma_named_as(rest, identity);
        if naming::has_column(rest, identity) {
            let i = choose|i: int| 0 <= i < rest.len() && (#[trigger] rest[i]).identity == identity;
            assert(fields[i + 1].identity == identity);
            let found = named_as(rest, identity)->0;
            let k = choose|k: int| 0 <= k < rest.len() && rest[k] == found;
            assert(fields[k + 1] == found);
        }
        if naming::has_column(fields, identity) {
            let i = choose|i: int|
                0 <= i < fields.len() && (#[trigger] fields[i]).identity == identity;
            assert(rest[i - 1].identity == identity);
        }
    }
}

fn find_named<'a>(fields: &'a Vec<DynamicField>, identity: &DynamicIdentity) -> (found: Option<
    &'a DynamicField,
>)
    ensures
        found is Some == named_as(fields.deep_view(), identity.deep_view()) is Some,
        found is Some ==> found->0.deep_view() == named_as(
            fields.deep_view(),
            identity.deep_view(),
        )->0,
{
    let ghost all = fields.deep_view();
    let mut i: usize = 0;
    assert(all.skip(0) =~= all);
    while i < fields.len()
        invariant
            i <= fields.len(),
            all == fields.deep_view(),
            named_as(all, identity.deep_view()) == named_as(
                all.skip(i as int),
                identity.deep_view(),
            ),
        decreases fields.len() - i,
    {
        assert(all[i as int] == fields@[i as int].deep_view());
        if fields[i].identity.same(identity) {
            return Some(&fields[i]);
        }
        assert(all.skip(i as int).drop_first() =~= all.skip(i + 1));
        i = i + 1;
    }
    None
}

/// What becomes of a field under `named`: dynamic fields take the name of their identity, and those
/// without a name are left out.
pub open spec fn renamed_field(field: FieldView, named: Seq<DynamicFieldView>) -> Option<
    FieldView,
> {
    match identity::identity_of(field) {
        None => Some(field),
        Some(identity) => match named_as(named, identity) {
            None => None,
            Some(name) => Some(identity::dynamic_field(name)),
        },
    }
}

pub open spec fn projected_fields(fields: Seq<FieldView>, named: Seq<DynamicFieldView>) -> Seq<
    FieldView,
>
    decreases fields.len(),
{
    if fields.len() == 0 {
        Seq::empty()
    } else {
        let before = projected_fields(fields.drop_last(), named);
        match renamed_field(fields.last(), named) {
            Some(field) => before.push(field),
            None => before,
        }
    }
}

pub open spec fn projected_columns(
    fields: Seq<FieldView>,
    columns: Seq<ColumnView>,
    named: Seq<DynamicFieldView>,
) -> Seq<ColumnView>
    decreases fields.len(),
{
    if fields.len() == 0 {
        Seq::empty()
    } else {
        let before = projected_columns(fields.drop_last(), columns, named);
        match renamed_field(fields.last(), named) {
            Some(_) => before.push(columns[fields.len() - 1]),
            None => before,
        }
    }
}

/// `batch` with the dynamic columns that `named` admits, under their names.
pub open spec fn projected(batch: BatchView, named: Seq<DynamicFieldView>) -> Result<
    BatchView,
    Seq<char>,
> {
    let fields = projected_fields(batch.schema.fields, named);
    if fields == batch.schema.fields {
        Ok(batch)
    } else {
        formed(
            schema::plain_schema(fields),
            projected_columns(batch.schema.fields, batch.columns, named),
        )
    }
}

/// `batch` with the dynamic columns that `fields` admits, under their names.
///
/// # Errors
///
/// Returns [`MemtableError::IncompatibleBatch`] when the columns do not form a batch.
pub fn project_batch(batch: &RecordBatch, fields: &Vec<DynamicField>) -> (result: Result<
    RecordBatch,
    MemtableError,
>)
    ensures
        match result {
            Ok(result) => projected(batch.deep_view(), fields.deep_view()) == Ok::<
                BatchView,
                Seq<char>,
            >(result.deep_view()),
            Err(error) => projected(batch.deep_view(), fields.deep_view()) is Err
                && error.deep_view() == MemtableErrorView::IncompatibleBatch(
                projected(batch.deep_view(), fields.deep_view())->Err_0,
            ),
        },
{
    let ghost view = batch.deep_view();
    let ghost all = view.schema.fields;
    let ghost named = fields.deep_view();
    let current = batch.schema();
    let mut columns: Vec<Column> = Vec::new();
    let mut kept: Vec<Field> = Vec::new();
    let mut i: usize = 0;
    assert(all.take(0) =~= Seq::empty());
    assert(columns.deep_view() =~= Seq::empty());
    assert(kept.deep_view() =~= Seq::empty());
    while i < current.fields.len()
        invariant
            i <= current.fields.len(),
            view == batch.deep_view(),
            view.wf(),
            all == view.schema.fields,
            current.deep_view() == view.schema,
            named == fields.deep_view(),
            kept.deep_view() == projected_fields(all.take(i as int), named),
            columns.deep_view() == projected_columns(all.take(i as int), view.columns, named),
        decreases current.fields.len() - i,
    {
        let ghost head = all.take(i + 1);
        let ghost fields_before = kept.deep_view();
        let ghost columns_before = columns.deep_view();
        assert(head.drop_last() =~= all.take(i as int));
        assert(head.last() == current.fields@[i as int].deep_view());
        let renamed = match dynamic_identity(&current.fields[i]) {
            Some(identity) => match find_named(fields, &identity) {
                Some(name) => Some(name.arrow_field()),
                None => None,
            },
            None => Some(current.fields[i].clone()),
        };
        match renamed {
            Some(field) => {
                kept.push(field);
                columns.push(batch.column(i).clone());
                assert(kept.deep_view() =~= fields_before.push(
                    renamed_field(head.last(), named)->0,
                ));
                assert(columns.deep_view() =~= columns_before.push(view.columns[i as int]));
            },
            None => {},
        }
        i = i + 1;
    }
    assert(all.take(i as int) =~= all);
    if same_fields(&kept, &current.fields) {
        return Ok(batch.clone());
    }
    let schema = Schema { fields: kept, metadata: TextMap::new() };
    match RecordBatch::try_new(schema, columns) {
        Ok(batch) => Ok(batch),
        Err(fault) => Err(MemtableError::IncompatibleBatch(fault.detail())),
    }
}

/// Whether a batch starts with the core logs schema.
pub open spec fn starts_with_core(fields: Seq<FieldView>) -> bool {
    fields.len() >= schema::core_fields().len() && fields.take(schema::core_fields().len() as int)
        == schema::core_fields()
}

/// Whether a batch starts with the core logs schema.
pub fn core_columns_match(batch: &RecordBatch) -> (matches: bool)
    ensures
        matches == starts_with_core(batch.deep_view().schema.fields),
{
    let core = schema_fields();
    let current = batch.schema();
    let ghost all = current.fields.deep_view();
    let ghost expected = schema::core_fields();
    if current.fields.len() < core.len() {
        return false;
    }
    let mut i: usize = 0;
    while i < core.len()
        invariant
            i <= core.len(),
            core.len() <= current.fields.len(),
            all == current.fields.deep_view(),
            all == batch.deep_view().schema.fields,
            expected == core.deep_view(),
            expected == schema::core_fields(),
            forall|k: int| 0 <= k < i ==> all[k] == #[trigger] expected[k],
        decreases core.len() - i,
    {
        assert(all[i as int] == current.fields@[i as int].deep_view());
        if !current.fields[i].same(&core[i]) {
            proof {
                let head = all.take(expected.len() as int);
                assert(head[i as int] == all[i as int]);
                assert(head != expected);
            }
            return false;
        }
        i = i + 1;
    }
    assert(all.take(expected.len() as int) =~= expected);
    true
}

/// Whether a field of `current` has another name, or none, in `updated`.
pub open spec fn some_name_changed(
    current: Seq<DynamicFieldView>,
    updated: Seq<DynamicFieldView>,
) -> bool {
    exists|i: int|
        0 <= i < current.len() && named_as(updated, (#[trigger] current[i]).identity) != Some(
            current[i],
        )
}

/// Whether a field of `current` has another name, or none, in `updated`.
pub fn names_changed(current: &Vec<DynamicField>, updated: &Vec<DynamicField>) -> (changed: bool)
    ensures
        changed == some_name_changed(current.deep_view(), updated.deep_view()),
{
    let ghost was = current.deep_view();
    let ghost now = updated.deep_view();
    let mut i: usize = 0;
    while i < current.len()
        invariant
            i <= current.len(),
            was == current.deep_view(),
            now == updated.deep_view(),
            forall|k: int|
                0 <= k < i ==> named_as(now, (#[trigger] was[k]).identity) == Some(was[k]),
        decreases current.len() - i,
    {
        let field = &current[i];
        assert(was[i as int] == field.deep_view());
        proof {
            lemma_named_as(now, was[i as int].identity);
        }
        match find_named(updated, &field.identity) {
            Some(candidate) => {
                if !same_text(&candidate.physical_name, &field.physical_name) {
                    return true;
                }
            },
            None => {
                return true;
            },
        }
        i = i + 1;
    }
    false
}

// Fingerprint.

/// Text behind its byte length.
pub open spec fn text_bytes(value: Seq<char>) -> Seq<u8> {
    naming::be_bytes(utf8::encode_utf8(value).len(), 4) + utf8::encode_utf8(value)
}

/// A column type behind its tag.
pub open spec fn type_bytes(data_type: DataTypeView) -> Seq<u8> {
    match data_type {
        DataTypeView::Boolean => seq![1u8],
        DataTypeView::Int32 => seq![2u8],
        DataTypeView::Int64 => seq![3u8],
        DataTypeView::UInt16 => seq![4u8],
        DataTypeView::UInt32 => seq![5u8],
        DataTypeView::UInt64 => seq![6u8],
        DataTypeView::Float64 => seq![7u8],
        DataTypeView::Binary => seq![8u8],
        DataTypeView::Utf8 => seq![9u8],
        DataTypeView::FixedSizeBinary(width) => seq![10u8] + naming::be_bytes(
            (width as int % 0x1_0000_0000) as nat,
            4,
        ),
        DataTypeView::Other(name) => seq![11u8] + text_bytes(name),
    }
}

pub open spec fn entry_encoding() -> spec_fn((Seq<char>, Seq<char>)) -> Seq<u8> {
    |entry: (Seq<char>, Seq<char>)| text_bytes(entry.0) + text_bytes(entry.1)
}

pub open spec fn field_bytes(field: FieldView) -> Seq<u8> {
    text_bytes(field.name) + type_bytes(field.data_type) + seq![
        if field.nullable {
            1u8
        } else {
            0u8
        },
    ] + naming::be_bytes(field.metadata.len(), 4) + codec::concat(
        entry_encoding(),
        field.metadata,
    )
}

pub open spec fn field_encoding() -> spec_fn(FieldView) -> Seq<u8> {
    |field: FieldView| field_bytes(field)
}

/// The bytes of a schema that its fingerprint covers.
pub open spec fn schema_bytes(fields: Seq<FieldView>) -> Seq<u8> {
    naming::be_bytes(fields.len(), 4) + codec::concat(field_encoding(), fields)
}

/// BLAKE3 of a schema, in hex.
pub open spec fn fingerprint_of(fields: Seq<FieldView>) -> Seq<char> {
    naming::hex_text(naming::blake3_hash(schema_bytes(fields)))
}

fn write_fingerprint_str(bytes: &mut Vec<u8>, value: &str)
    ensures
        final(bytes)@ == old(bytes)@ + text_bytes(value@),
{
    let ghost before = bytes@;
    let encoded = value.as_bytes();
    write_be(bytes, encoded.len() as u64, 4);
    bytes.extend_from_slice(encoded);
    assert(bytes@ =~= before + text_bytes(value@));
}

fn write_fingerprint_type(bytes: &mut Vec<u8>, data_type: &DataType)
    ensures
        final(bytes)@ == old(bytes)@ + type_bytes(data_type.deep_view()),
{
    let ghost before = bytes@;
    match data_type {
        DataType::Boolean => bytes.push(1),
        DataType::Int32 => bytes.push(2),
        DataType::Int64 => bytes.push(3),
        DataType::UInt16 => bytes.push(4),
        DataType::UInt32 => bytes.push(5),
        DataType::UInt64 => bytes.push(6),
        DataType::Float64 => bytes.push(7),
        DataType::Binary => bytes.push(8),
        DataType::Utf8 => bytes.push(9),
        DataType::FixedSizeBinary(width) => {
            bytes.push(10);
            let shifted: i64 = *width as i64 + 0x1_0000_0000;
            write_be(bytes, (shifted % 0x1_0000_0000) as u64, 4);
        },
        DataType::Other(name) => {
            bytes.push(11);
            write_fingerprint_str(bytes, name);
        },
    }
    assert(bytes@ =~= before + type_bytes(data_type.deep_view()));
}

fn write_fingerprint_field(bytes: &mut Vec<u8>, field: &Field)
    ensures
        final(bytes)@ == old(bytes)@ + field_bytes(field.deep_view()),
{
    let ghost before = bytes@;
    write_fingerprint_str(bytes, &field.name);
    write_fingerprint_type(bytes, &field.data_type);
    bytes.push(if field.nullable {
        1u8
    } else {
        0u8
    });
    write_be(bytes, field.metadata.len() as u64, 4);
    let ghost head = bytes@;
    let ghost entries = field.metadata@;
    let mut i: usize = 0;
    assert(entries.take(0) =~= Seq::empty());
    assert(bytes@ =~= head + codec::concat(entry_encoding(), entries.take(0)));
    while i < field.metadata.len()
        invariant
            i <= entries.len(),
            entries == field.metadata@,
            bytes@ == head + codec::concat(entry_encoding(), entries.take(i as int)),
        decreases entries.len() - i,
    {
        let ghost so_far = bytes@;
        proof {
            codec::lemma_concat_push(entry_encoding(), entries.take(i as int), entries[i as int]);
            assert(entries.take(i as int).push(entries[i as int]) =~= entries.take(i + 1));
        }
        write_fingerprint_str(bytes, field.metadata.key_at(i));
        write_fingerprint_str(bytes, field.metadata.value_at(i));
        assert(bytes@ =~= so_far + entry_encoding()(entries[i as int]));
        assert(bytes@ =~= head + codec::concat(entry_encoding(), entries.take(i + 1)));
        i = i + 1;
    }
    assert(entries.take(i as int) =~= entries);
    assert(bytes@ =~= before + field_bytes(field.deep_view()));
}

/// BLAKE3 of a schema, in hex. Lengths count in 32 bits.
pub fn schema_fingerprint(schema: &Schema) -> (fingerprint: String)
    ensures
        fingerprint@ == fingerprint_of(schema.deep_view().fields),
{
    let ghost fields = schema.fields.deep_view();
    let mut bytes: Vec<u8> = Vec::new();
    write_be(&mut bytes, schema.fields.len() as u64, 4);
    let ghost head = bytes@;
    let mut i: usize = 0;
    assert(fields.take(0) =~= Seq::empty());
    assert(bytes@ =~= head + codec::concat(field_encoding(), fields.take(0)));
    while i < schema.fields.len()
        invariant
            i <= schema.fields.len(),
            fields == schema.fields.deep_view(),
            bytes@ == head + codec::concat(field_encoding(), fields.take(i as int)),
        decreases schema.fields.len() - i,
    {
        let ghost so_far = bytes@;
        proof {
            codec::lemma_concat_push(field_encoding(), fields.take(i as int), fields[i as int]);
            assert(fields.take(i as int).push(fields[i as int]) =~= fields.take(i + 1));
        }
        write_fingerprint_field(&mut bytes, &schema.fields[i]);
        assert(bytes@ =~= head + codec::concat(field_encoding(), fields.take(i + 1)));
        i = i + 1;
    }
    assert(fields.take(i as int) =~= fields);
    assert(bytes@ =~= schema_bytes(fields));
    hex_encode(&hash_bytes(&bytes))
}

// Laws of projection.

/// Whether a field stands under its name among `named`: one without an identity stands as it is, and a
/// dynamic one under the name of its identity.
pub open spec fn stands_as(
    field: FieldView,
    named: Seq<DynamicFieldView>,
    renamed: FieldView,
) -> bool {
    match identity::identity_of(field) {
        None => renamed == field,
        Some(identity) => exists|d: int|
            0 <= d < named.len() && (#[trigger] named[d]).identity == identity && renamed
                == identity::dynamic_field(named[d]),
    }
}

/// Whether this column stands under a field that is this one under its name.
pub open spec fn holds_column(
    fields: Seq<FieldView>,
    columns: Seq<ColumnView>,
    named: Seq<DynamicFieldView>,
    field: FieldView,
    column: ColumnView,
) -> bool {
    exists|p: int|
        0 <= p < fields.len() && stands_as(field, named, #[trigger] fields[p]) && columns[p]
            == column
}

/// Whether a column of a projected batch is one of these columns under its name.
pub open spec fn comes_from(
    fields: Seq<FieldView>,
    columns: Seq<ColumnView>,
    named: Seq<DynamicFieldView>,
    renamed: FieldView,
    column: ColumnView,
) -> bool {
    exists|k: int|
        0 <= k < fields.len() && stands_as(#[trigger] fields[k], named, renamed) && columns[k]
            == column
}

/// Whether a field has a name among `named`, or needs none.
pub open spec fn is_named(field: FieldView, named: Seq<DynamicFieldView>) -> bool {
    match identity::identity_of(field) {
        None => true,
        Some(identity) => exists|d: int|
            0 <= d < named.len() && (#[trigger] named[d]).identity == identity,
    }
}

proof fn lemma_renamed(field: FieldView, named: Seq<DynamicFieldView>)
    ensures
        renamed_field(field, named) is Some <==> is_named(field, named),
        renamed_field(field, named) is Some ==> stands_as(
            field,
            named,
            renamed_field(field, named)->0,
        ),
{
    if let Some(identity) = identity::identity_of(field) {
        lemma_named_as(named, identity);
        if let Some(name) = named_as(named, identity) {
            let d = choose|d: int| 0 <= d < named.len() && named[d] == name;
            assert(named[d].identity == identity);
        }
    }
}

proof fn lemma_projected_columns(
    fields: Seq<FieldView>,
    columns: Seq<ColumnView>,
    named: Seq<DynamicFieldView>,
)
    requires
        fields.len() <= columns.len(),
    ensures
        ({
            let names = projected_fields(fields, named);
            let kept = projected_columns(fields, columns, named);
            &&& names.len() == kept.len()
            &&& names.len() <= fields.len()
            &&& names.len() == fields.len() ==> kept == columns.take(fields.len() as int)
            &&& forall|k: int|
                0 <= k < fields.len() && is_named(#[trigger] fields[k], named) ==> holds_column(
                    names,
                    kept,
                    named,
                    fields[k],
                    columns[k],
                )
            &&& forall|p: int|
                0 <= p < names.len() ==> comes_from(
                    fields,
                    columns,
                    named,
                    #[trigger] names[p],
                    kept[p],
                )
        }),
    decreases fields.len(),
{
    let names = projected_fields(fields, named);
    let kept = projected_columns(fields, columns, named);
    if fields.len() == 0 {
        assert(kept =~= columns.take(0));
    } else {
        let front = fields.drop_last();
        let end = fields.len() - 1;
        let last = fields[end];
        let names_before = projected_fields(front, named);
        let kept_before = projected_columns(front, columns, named);
        lemma_projected_columns(front, columns, named);
        lemma_renamed(last, named);
        if names.len() == fields.len() {
            assert(kept =~= columns.take(fields.len() as int));
        }
        assert forall|k: int|
            0 <= k < fields.len() && is_named(#[trigger] fields[k], named) implies holds_column(
            names,
            kept,
            named,
            fields[k],
            columns[k],
        ) by {
            if k < end {
                assert(front[k] == fields[k]);
                let p = choose|p: int|
                    0 <= p < names_before.len() && stands_as(
                        front[k],
                        named,
                        #[trigger] names_before[p],
                    ) && kept_before[p] == columns[k];
                assert(names[p] == names_before[p] && kept[p] == kept_before[p]);
            } else {
                let p = names_before.len() as int;
                assert(stands_as(fields[k], named, names[p]) && kept[p] == columns[k]);
            }
        }
        assert forall|p: int| 0 <= p < names.len() implies comes_from(
            fields,
            columns,
            named,
            #[trigger] names[p],
            kept[p],
        ) by {
            if p < names_before.len() {
                assert(names[p] == names_before[p] && kept[p] == kept_before[p]);
                let k = choose|k: int|
                    0 <= k < front.len() && stands_as(#[trigger] front[k], named, names_before[p])
                        && columns[k] == kept_before[p];
                assert(fields[k] == front[k]);
            } else {
                assert(stands_as(fields[end], named, names[p]) && columns[end] == kept[p]);
            }
        }
    }
}

/// Projection keeps every column that needs no name or has one, with its values and under that name,
/// leaves the others out, and adds none.
pub proof fn projection_keeps_named_columns(batch: BatchView, named: Seq<DynamicFieldView>)
    requires
        batch.wf(),
        projected(batch, named) is Ok,
    ensures
        ({
            let result = projected(batch, named)->Ok_0;
            &&& result.schema.fields.len() == result.columns.len()
            &&& forall|k: int|
                0 <= k < batch.columns.len() && is_named(
                    #[trigger] batch.schema.fields[k],
                    named,
                ) ==> holds_column(
                    result.schema.fields,
                    result.columns,
                    named,
                    batch.schema.fields[k],
                    batch.columns[k],
                )
            &&& forall|p: int|
                0 <= p < result.columns.len() ==> comes_from(
                    batch.schema.fields,
                    batch.columns,
                    named,
                    #[trigger] result.schema.fields[p],
                    result.columns[p],
                )
        }),
{
    lemma_projected_columns(batch.schema.fields, batch.columns, named);
    if projected_fields(batch.schema.fields, named) == batch.schema.fields {
        assert(batch.columns.take(batch.schema.fields.len() as int) =~= batch.columns);
    }
}

/// Whether a batch has this value for a field of a schema: a column of the name with the type, and
/// without nulls where the field takes none; or no column of the name where the field takes nulls.
pub open spec fn fits_field(batch: BatchView, field: FieldView) -> bool {
    if exists|k: int|
        0 <= k < batch.schema.fields.len() && (#[trigger] batch.schema.fields[k]).name
            == field.name {
        exists|k: int| #[trigger] is_first_of_name(batch, field.name, k)
            && batch.columns[k].data_type == field.data_type && (field.nullable || !batch::has_null(
            batch.columns[k].cells,
        ))
    } else {
        field.nullable
    }
}

/// Whether the first column of this name stands at this place.
pub open spec fn is_first_of_name(batch: BatchView, name: Seq<char>, k: int) -> bool {
    &&& 0 <= k < batch.schema.fields.len()
    &&& batch.schema.fields[k].name == name
    &&& forall|i: int| 0 <= i < k ==> (#[trigger] batch.schema.fields[i]).name != name
}

/// A batch aligns with a schema exactly where it fits every field of it.
pub proof fn fitting_batches_align(batch: BatchView, schema: SchemaView)
    requires
        batch.wf(),
        schema.fields.len() > 0,
    ensures
        aligned(batch, schema) is Ok <==> forall|i: int|
            0 <= i < schema.fields.len() ==> fits_field(batch, #[trigger] schema.fields[i]),
{
    let fields = schema.fields;
    let columns = columns_for(batch, fields);
    lemma_no_fault(batch, fields);
    assert forall|i: int| 0 <= i < fields.len() implies {
        &&& fits_field(batch, #[trigger] fields[i]) <==> column_fault(batch, fields[i]) is None && (
        fields[i].nullable || !batch::has_null(columns[i].cells))
        &&& columns[i].cells.len() == batch.rows
        &&& column_fault(batch, fields[i]) is None ==> columns[i].data_type == fields[i].data_type
        &&& batch::cells_fit(columns[i].cells, columns[i].data_type)
        &&& batch::offsets_hold(columns[i])
    } by {
        let name = fields[i].name;
        let at = schema::field_index(batch.schema.fields, name);
        schema::lemma_field_index(batch.schema.fields, name);
        assert(columns[i] == column_for(batch, fields[i]));
        if at < batch.schema.fields.len() {
            assert(is_first_of_name(batch, name, at));
            assert forall|k: int| #[trigger] is_first_of_name(batch, name, k) implies k == at by {
                if k < at {
                    assert(batch.schema.fields[k].name != name);
                } else if at < k {
                    assert(batch.schema.fields[at].name != name);
                }
            }
            assert(columns[i] == batch.columns[at]);
        } else {
            lemma_null_column_fits(fields[i].data_type, batch.rows);
        }
    }
    if aligned(batch, schema) is Ok {
        assert forall|i: int| 0 <= i < fields.len() implies fits_field(
            batch,
            #[trigger] fields[i],
        ) by {
            assert(column_fault(batch, fields[i]) is None);
            assert(!fields[i].nullable ==> !batch::has_null(columns[i].cells));
        }
    }
    if forall|i: int| 0 <= i < fields.len() ==> fits_field(batch, #[trigger] fields[i]) {
        assert forall|i: int| 0 <= i < fields.len() implies column_fault(
            batch,
            #[trigger] fields[i],
        ) is None by {
            assert(fits_field(batch, fields[i]));
        }
        assert forall|i: int| 0 <= i < columns.len() && !fields[i].nullable implies !batch::has_null(
            (#[trigger] columns[i]).cells,
        ) by {
            assert(fits_field(batch, fields[i]));
        }
        assert forall|i: int| 0 <= i < columns.len() implies (#[trigger] columns[i]).cells.len()
            == columns[0].cells.len() && columns[i].data_type == fields[i].data_type
            && batch::cells_fit(columns[i].cells, columns[i].data_type) && batch::offsets_hold(
            columns[i],
        ) by {
            assert(fits_field(batch, fields[i]));
            assert(fits_field(batch, fields[0]));
        }
    }
}

proof fn lemma_null_column_fits(data_type: DataTypeView, rows: nat)
    ensures
        batch::null_cells(rows).len() == rows,
        batch::cells_fit(batch::null_cells(rows), data_type),
        batch::offsets_hold(ColumnView { data_type, cells: batch::null_cells(rows) }),
{
    crate::generation::lemma_null_bytes(rows);
}

// What fingerprints cover.

/// Whether the length of a text can be written.
pub open spec fn text_fits(value: Seq<char>) -> bool {
    utf8::encode_utf8(value).len() < codec::byte_range(4)
}

/// Whether the lengths of a field can be written.
pub open spec fn field_fits(field: FieldView) -> bool {
    &&& text_fits(field.name)
    &&& field.data_type is Other ==> text_fits(field.data_type->Other_0)
    &&& field.metadata.len() < codec::byte_range(4)
    &&& forall|i: int|
        0 <= i < field.metadata.len() ==> text_fits((#[trigger] field.metadata[i]).0) && text_fits(
            field.metadata[i].1,
        )
}

proof fn lemma_text_told_apart(left: Seq<char>, right: Seq<char>, x: Seq<u8>, y: Seq<u8>)
    requires
        text_fits(left),
        text_fits(right),
        text_bytes(left) + x == text_bytes(right) + y,
    ensures
        left == right,
        x == y,
{
    naming::lemma_prefixed_text(left, right, 4, x, y);
}

proof fn lemma_type_told_apart(
    left: DataTypeView,
    right: DataTypeView,
    x: Seq<u8>,
    y: Seq<u8>,
)
    requires
        left is Other ==> text_fits(left->Other_0),
        right is Other ==> text_fits(right->Other_0),
        type_bytes(left) + x == type_bytes(right) + y,
    ensures
        left == right,
        x == y,
{
    let a = type_bytes(left) + x;
    let b = type_bytes(right) + y;
    assert(a[0] == type_bytes(left)[0]);
    assert(b[0] == type_bytes(right)[0]);
    codec::lemma_byte_ranges();
    match left {
        DataTypeView::FixedSizeBinary(width) => {
            assert(right is FixedSizeBinary);
            let other = right->FixedSizeBinary_0;
            let l = (width as int % 0x1_0000_0000) as nat;
            let r = (other as int % 0x1_0000_0000) as nat;
            naming::lemma_be_round_trip(l, 4);
            naming::lemma_be_round_trip(r, 4);
            assert(naming::be_bytes(l, 4) =~= a.subrange(1, 5));
            assert(naming::be_bytes(r, 4) =~= b.subrange(1, 5));
            assert(l == r);
            assert(x =~= a.skip(5));
            assert(y =~= b.skip(5));
        },
        DataTypeView::Other(name) => {
            assert(right is Other);
            let other = right->Other_0;
            assert(text_bytes(name) + x =~= a.skip(1));
            assert(text_bytes(other) + y =~= b.skip(1));
            lemma_text_told_apart(name, other, x, y);
        },
        _ => {
            assert(type_bytes(left).len() == 1);
            assert(!(right is FixedSizeBinary) && !(right is Other));
            assert(type_bytes(right).len() == 1);
            assert(left == right);
            assert(x =~= a.skip(1));
            assert(y =~= b.skip(1));
        },
    }
}

/// Whether the lengths of a metadata entry can be written.
spec fn entry_fits() -> spec_fn((Seq<char>, Seq<char>)) -> bool {
    |entry: (Seq<char>, Seq<char>)| text_fits(entry.0) && text_fits(entry.1)
}

proof fn lemma_entries_told_apart()
    ensures
        codec::tells_apart(entry_encoding(), entry_fits()),
{
    assert forall|p: (Seq<char>, Seq<char>), q: (Seq<char>, Seq<char>), u: Seq<u8>, v: Seq<u8>|
        entry_fits()(p) && entry_fits()(q) && #[trigger] (entry_encoding()(p) + u) == #[trigger] (
        entry_encoding()(q) + v) implies p == q && u == v by {
        assert(entry_encoding()(p) + u =~= text_bytes(p.0) + (text_bytes(p.1) + u));
        assert(entry_encoding()(q) + v =~= text_bytes(q.0) + (text_bytes(q.1) + v));
        lemma_text_told_apart(p.0, q.0, text_bytes(p.1) + u, text_bytes(q.1) + v);
        lemma_text_told_apart(p.1, q.1, u, v);
    }
}

/// What stands behind the type of a field.
spec fn tail_bytes(field: FieldView, x: Seq<u8>) -> Seq<u8> {
    seq![
        if field.nullable {
            1u8
        } else {
            0u8
        },
    ] + (naming::be_bytes(field.metadata.len(), 4) + (codec::concat(
        entry_encoding(),
        field.metadata,
    ) + x))
}

proof fn lemma_field_parts(field: FieldView, x: Seq<u8>)
    ensures
        field_bytes(field) + x == text_bytes(field.name) + (type_bytes(field.data_type)
            + tail_bytes(field, x)),
{
    assert(field_bytes(field) + x =~= text_bytes(field.name) + (type_bytes(field.data_type)
        + tail_bytes(field, x)));
}

proof fn lemma_tail_told_apart(left: FieldView, right: FieldView, x: Seq<u8>, y: Seq<u8>)
    requires
        field_fits(left),
        field_fits(right),
        tail_bytes(left, x) == tail_bytes(right, y),
    ensures
        left.nullable == right.nullable,
        left.metadata == right.metadata,
        x == y,
{
    let a = tail_bytes(left, x);
    let b = tail_bytes(right, y);
    let list_a = codec::concat(entry_encoding(), left.metadata);
    let list_b = codec::concat(entry_encoding(), right.metadata);
    assert(a[0] == if left.nullable { 1u8 } else { 0u8 });
    assert(b[0] == if right.nullable { 1u8 } else { 0u8 });
    naming::lemma_be_round_trip(left.metadata.len(), 4);
    naming::lemma_be_round_trip(right.metadata.len(), 4);
    assert(naming::be_bytes(left.metadata.len(), 4) =~= a.subrange(1, 5));
    assert(naming::be_bytes(right.metadata.len(), 4) =~= b.subrange(1, 5));
    assert(left.metadata.len() == right.metadata.len());
    assert(list_a + x =~= a.skip(5));
    assert(list_b + y =~= b.skip(5));
    lemma_entries_told_apart();
    assert forall|i: int| 0 <= i < left.metadata.len() implies entry_fits()(
        #[trigger] left.metadata[i],
    ) by {}
    assert forall|i: int| 0 <= i < right.metadata.len() implies entry_fits()(
        #[trigger] right.metadata[i],
    ) by {}
    codec::lemma_lists_told_apart(
        entry_encoding(),
        entry_fits(),
        left.metadata,
        right.metadata,
        x,
        y,
    );
}

proof fn lemma_field_told_apart(left: FieldView, right: FieldView, x: Seq<u8>, y: Seq<u8>)
    requires
        field_fits(left),
        field_fits(right),
        field_bytes(left) + x == field_bytes(right) + y,
    ensures
        left == right,
        x == y,
{
    lemma_field_parts(left, x);
    lemma_field_parts(right, y);
    lemma_text_told_apart(
        left.name,
        right.name,
        type_bytes(left.data_type) + tail_bytes(left, x),
        type_bytes(right.data_type) + tail_bytes(right, y),
    );
    lemma_type_told_apart(
        left.data_type,
        right.data_type,
        tail_bytes(left, x),
        tail_bytes(right, y),
    );
    lemma_tail_told_apart(left, right, x, y);
}

/// The bytes that a fingerprint covers tell schemas apart: two that differ in the order, the names, the
/// types, the nullability or the metadata of their fields have different ones.
pub proof fn fingerprints_cover_the_schema(left: Seq<FieldView>, right: Seq<FieldView>)
    requires
        left.len() < codec::byte_range(4),
        right.len() < codec::byte_range(4),
        forall|i: int| 0 <= i < left.len() ==> field_fits(#[trigger] left[i]),
        forall|i: int| 0 <= i < right.len() ==> field_fits(#[trigger] right[i]),
        schema_bytes(left) == schema_bytes(right),
    ensures
        left == right,
{
    let none = Seq::<u8>::empty();
    let fits = |field: FieldView| field_fits(field);
    let a = schema_bytes(left);
    let b = schema_bytes(right);
    let list_a = codec::concat(field_encoding(), left);
    let list_b = codec::concat(field_encoding(), right);
    naming::lemma_be_round_trip(left.len(), 4);
    naming::lemma_be_round_trip(right.len(), 4);
    assert(naming::be_bytes(left.len(), 4) =~= a.take(4));
    assert(naming::be_bytes(right.len(), 4) =~= b.take(4));
    assert(left.len() == right.len());
    assert(list_a + none =~= a.skip(4));
    assert(list_b + none =~= b.skip(4));
    assert(codec::tells_apart(field_encoding(), fits)) by {
        assert forall|p: FieldView, q: FieldView, x: Seq<u8>, y: Seq<u8>|
            fits(p) && fits(q) && #[trigger] (field_encoding()(p) + x) == #[trigger] (
            field_encoding()(q) + y) implies p == q && x == y by {
            lemma_field_told_apart(p, q, x, y);
        }
    }
    codec::lemma_lists_told_apart(field_encoding(), fits, left, right, none, none);
}

} // verus!
