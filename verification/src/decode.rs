//! Decode one raw OTLP logs WAL frame into partitioned batches.
use vstd::prelude::*;
use crate::batch;
use crate::batch::{BatchFaultView, BatchView, Cell, CellView, Column, ColumnView, RecordBatch};
use crate::canonical_json;
use crate::canonical_json::{
    canonical_any_value_json, canonical_attributes_json, CanonicalJsonError,
};
use crate::dynamic;
use crate::dynamic::{
    find_leaf, record_dynamic_values, DynamicLimits, DynamicValueView, Leaf, LeafView,
};
use crate::identity;
use crate::identity::{
    DynamicField, DynamicFieldView, DynamicIdentity, DynamicKind, IdentityView,
};
use crate::naming;
use crate::naming::{discover_dynamic_schema, DynamicError};
use crate::otlp::{
    AnyValue, ExportLogsServiceRequest, InstrumentationScope, KeyValue, LogRecord, Resource,
    ResourceLogs, ScopeLogs, Value,
};
use crate::schema;
use crate::schema::{
    logs_batch_schema, EventHour, Field, FieldView, SCHEMA_VERSION, SERVICE_NAME_ATTRIBUTE,
    SPAN_ID_BYTES, TRACE_ID_BYTES,
};
use crate::text::same_text;

verus! {

/// Which telemetry a WAL frame carries.
#[derive(Clone, Copy, Debug, PartialEq, Eq, Structural)]
pub enum FrameSignal {
    Logs,
    Traces,
}

/// One complete WAL frame.
#[derive(Debug)]
pub struct Frame {
    pub sequence: u64,
    pub signal: FrameSignal,
    pub received_at_unix_nanos: u64,
    pub tenant_id: String,
    pub payload: Vec<u8>,
}

/// What a frame stamps on its rows.
pub struct StampView {
    pub sequence: u64,
    pub received_at_unix_nanos: u64,
    pub tenant_id: Seq<char>,
}

impl Frame {
    pub open spec fn stamp(&self) -> StampView {
        StampView {
            sequence: self.sequence,
            received_at_unix_nanos: self.received_at_unix_nanos,
            tenant_id: self.tenant_id@,
        }
    }
}

/// Why a logs WAL frame could not be projected into the v1 schema.
#[derive(Debug)]
pub enum DecodeError {
    /// The frame is not a logs frame.
    UnsupportedSignal(FrameSignal),
    /// The payload is not a valid `ExportLogsServiceRequest`, or it contains too many records.
    InvalidPayload(String),
    /// An `AnyValue` is nested deeper than the canonical JSON limit.
    CanonicalJson(CanonicalJsonError),
    /// Collision suffixes could not be assigned for the frame's columns.
    Dynamic(DynamicError),
    /// The columns of an hour do not form a batch.
    Arrow(String),
}

#[verifier::ext_equal]
pub enum DecodeErrorView {
    UnsupportedSignal(FrameSignal),
    InvalidPayload(Seq<char>),
    CanonicalJson(CanonicalJsonError),
    Dynamic(DynamicError),
    Arrow(Seq<char>),
}

impl DeepView for DecodeError {
    type V = DecodeErrorView;

    open spec fn deep_view(&self) -> DecodeErrorView {
        match self {
            DecodeError::UnsupportedSignal(signal) => DecodeErrorView::UnsupportedSignal(*signal),
            DecodeError::InvalidPayload(detail) => DecodeErrorView::InvalidPayload(detail@),
            DecodeError::CanonicalJson(error) => DecodeErrorView::CanonicalJson(*error),
            DecodeError::Dynamic(error) => DecodeErrorView::Dynamic(*error),
            DecodeError::Arrow(detail) => DecodeErrorView::Arrow(detail@),
        }
    }
}

impl DecodeError {
    pub open spec fn text(&self) -> Seq<char> {
        match self {
            DecodeError::UnsupportedSignal(FrameSignal::Logs) => "unsupported WAL signal Logs"@,
            DecodeError::UnsupportedSignal(FrameSignal::Traces) => "unsupported WAL signal Traces"@,
            DecodeError::InvalidPayload(detail) => "invalid OTLP logs payload: "@ + detail@,
            DecodeError::CanonicalJson(_) => "invalid OTLP logs payload: "@
                + "OTLP value nesting is too deep"@,
            DecodeError::Dynamic(error) => "dynamic log columns: "@ + error.text(),
            DecodeError::Arrow(detail) => "arrow record batch: "@ + detail@,
        }
    }

    /// The message of this error.
    pub fn message(&self) -> (message: String)
        ensures
            message@ == self.text(),
    {
        match self {
            DecodeError::UnsupportedSignal(FrameSignal::Logs) =>
                "unsupported WAL signal Logs".to_owned(),
            DecodeError::UnsupportedSignal(FrameSignal::Traces) =>
                "unsupported WAL signal Traces".to_owned(),
            DecodeError::InvalidPayload(detail) => "invalid OTLP logs payload: ".to_owned().concat(
                detail,
            ),
            DecodeError::CanonicalJson(error) => "invalid OTLP logs payload: ".to_owned().concat(
                &error.message(),
            ),
            DecodeError::Dynamic(error) => "dynamic log columns: ".to_owned().concat(
                &error.message(),
            ),
            DecodeError::Arrow(detail) => "arrow record batch: ".to_owned().concat(detail),
        }
    }
}

/// Batches produced from one complete logs frame.
#[derive(Debug)]
pub struct DecodedLogs {
    /// WAL sequence of the decoded frame.
    pub sequence: u64,
    /// Tenant stamped on every row.
    pub tenant_id: String,
    /// Receive time copied from the WAL frame.
    pub received_at_unix_nanos: u64,
    /// Log records walked in resource, scope, then record order.
    pub record_count: u32,
    /// Hour partitions ordered by UTC event hour.
    pub partitions: Vec<DecodedPartition>,
}

#[verifier::ext_equal]
pub struct DecodedView {
    pub sequence: u64,
    pub tenant_id: Seq<char>,
    pub received_at_unix_nanos: u64,
    pub record_count: u32,
    pub partitions: Seq<PartitionView>,
}

impl DeepView for DecodedLogs {
    type V = DecodedView;

    open spec fn deep_view(&self) -> DecodedView {
        DecodedView {
            sequence: self.sequence,
            tenant_id: self.tenant_id@,
            received_at_unix_nanos: self.received_at_unix_nanos,
            record_count: self.record_count,
            partitions: self.partitions.deep_view(),
        }
    }
}

/// Rows from one frame that share a derived UTC event hour.
#[derive(Debug)]
pub struct DecodedPartition {
    pub hour: EventHour,
    pub batch: RecordBatch,
}

#[verifier::ext_equal]
pub struct PartitionView {
    pub hour: u64,
    pub batch: BatchView,
}

impl DeepView for DecodedPartition {
    type V = PartitionView;

    open spec fn deep_view(&self) -> PartitionView {
        PartitionView { hour: self.hour@, batch: self.batch.deep_view() }
    }
}

/// An OTLP time: zero means that it is missing.
pub open spec fn time_present(unix_nano: u64) -> Option<u64> {
    if unix_nano != 0 {
        Some(unix_nano)
    } else {
        None
    }
}

/// An OTLP time: zero means that it is missing.
pub fn present_time(unix_nano: u64) -> (time: Option<u64>)
    ensures
        time == time_present(unix_nano),
{
    if unix_nano != 0 {
        Some(unix_nano)
    } else {
        None
    }
}

/// The event time, else the observed time, else the receive time.
pub open spec fn event_time(record: LogRecord, received_at_unix_nanos: u64) -> u64 {
    match time_present(record.time_unix_nano) {
        Some(time) => time,
        None => match time_present(record.observed_time_unix_nano) {
            Some(time) => time,
            None => received_at_unix_nanos,
        },
    }
}

/// The text of a body: a string unchanged, every other present body as canonical JSON.
pub open spec fn body_of(body: Option<AnyValue>) -> Option<Option<Seq<char>>> {
    match body {
        None => Some(None),
        Some(body) => match body.value {
            None => Some(None),
            Some(Value::StringValueStrindex(_)) => Some(None),
            Some(Value::StringValue(value)) => Some(Some(value@)),
            Some(_) => match canonical_json::value_text(body, 0) {
                None => None,
                Some(json) => Some(Some(json)),
            },
        },
    }
}

/// The text of a body: a string unchanged, every other present body as canonical JSON.
pub fn body_text(body: &Option<AnyValue>) -> (text: Result<Option<String>, DecodeError>)
    ensures
        match text {
            Ok(text) => body_of(*body) == Some(text.deep_view()),
            Err(error) => body_of(*body) is None && error is CanonicalJson,
        },
{
    let body = match body {
        None => {
            return Ok(None);
        },
        Some(body) => body,
    };
    match &body.value {
        None => Ok(None),
        Some(Value::StringValueStrindex(_)) => Ok(None),
        Some(Value::StringValue(value)) => Ok(Some(value.clone())),
        Some(_) => match canonical_any_value_json(body) {
            Ok(json) => Ok(Some(json)),
            Err(error) => Err(DecodeError::CanonicalJson(error)),
        },
    }
}

/// The last `service.name`, where it is a string.
pub open spec fn service_name_of(attributes: Seq<KeyValue>) -> Option<Seq<char>>
    decreases attributes.len(),
{
    if attributes.len() == 0 {
        None
    } else if attributes.last().key@ == SERVICE_NAME_ATTRIBUTE@ {
        match attributes.last().value {
            Some(value) => match value.value {
                Some(Value::StringValue(name)) => Some(name@),
                _ => None,
            },
            None => None,
        }
    } else {
        service_name_of(attributes.drop_last())
    }
}

/// The last `service.name`, where it is a string.
pub fn promoted_service_name(attributes: &[KeyValue]) -> (name: Option<String>)
    ensures
        name.deep_view() == service_name_of(attributes@),
{
    let mut service_name: Option<String> = None;
    let mut i: usize = 0;
    assert(attributes@.take(0) =~= Seq::empty());
    while i < attributes.len()
        invariant
            i <= attributes.len(),
            service_name.deep_view() == service_name_of(attributes@.take(i as int)),
        decreases attributes.len() - i,
    {
        assert(attributes@.take(i + 1).drop_last() =~= attributes@.take(i as int));
        let attribute = &attributes[i];
        if same_text(&attribute.key, SERVICE_NAME_ATTRIBUTE) {
            service_name = match &attribute.value {
                Some(value) => match &value.value {
                    Some(Value::StringValue(name)) => Some(name.clone()),
                    _ => None,
                },
                None => None,
            };
        }
        i = i + 1;
    }
    assert(attributes@.take(i as int) =~= attributes@);
    service_name
}

/// An id of the right width that is not all zero.
pub open spec fn id_of(bytes: Seq<u8>, width: nat) -> Option<Seq<u8>> {
    if bytes.len() == width && exists|i: int| 0 <= i < bytes.len() && #[trigger] bytes[i] != 0 {
        Some(bytes)
    } else {
        None
    }
}

/// An id of the right width that is not all zero.
pub fn fixed_id(bytes: &Vec<u8>, width: usize) -> (id: Option<Vec<u8>>)
    ensures
        id is Some == id_of(bytes@, width as nat) is Some,
        id is Some ==> id->0@ == bytes@,
{
    if bytes.len() != width {
        return None;
    }
    let mut i: usize = 0;
    while i < bytes.len()
        invariant
            i <= bytes.len(),
            bytes@.len() == width,
            forall|k: int| 0 <= k < i ==> bytes@[k] == 0,
        decreases bytes.len() - i,
    {
        if bytes[i] != 0 {
            return Some(batch::copy_bytes(bytes));
        }
        i = i + 1;
    }
    None
}

pub open spec fn optional_u64_cell(value: Option<u64>) -> CellView {
    match value {
        Some(value) => CellView::UInt64(value),
        None => CellView::Null,
    }
}

pub open spec fn optional_text_cell(value: Option<Seq<char>>) -> CellView {
    match value {
        Some(value) => CellView::Text(value),
        None => CellView::Null,
    }
}

pub open spec fn optional_bytes_cell(value: Option<Seq<u8>>) -> CellView {
    match value {
        Some(value) => CellView::Bytes(value),
        None => CellView::Null,
    }
}

fn u64_cell(value: Option<u64>) -> (cell: Cell)
    ensures
        cell.deep_view() == optional_u64_cell(value),
{
    match value {
        Some(value) => Cell::UInt64(value),
        None => Cell::Null,
    }
}

fn text_cell(value: Option<String>) -> (cell: Cell)
    ensures
        cell.deep_view() == optional_text_cell(value.deep_view()),
{
    match value {
        Some(value) => Cell::Text(value),
        None => Cell::Null,
    }
}

fn bytes_cell(value: Option<Vec<u8>>) -> (cell: Cell)
    ensures
        value is None ==> cell.deep_view() is Null,
        value is Some ==> cell.deep_view() == CellView::Bytes(value->0@),
{
    match value {
        Some(value) => Cell::Bytes(value),
        None => Cell::Null,
    }
}

/// Attributes of a resource, if there is one.
pub open spec fn resource_attributes(resource: Option<Resource>) -> Seq<KeyValue> {
    match resource {
        Some(resource) => resource.attributes@,
        None => Seq::empty(),
    }
}

/// Attributes of a scope, if there is one.
pub open spec fn scope_attributes(scope: Option<InstrumentationScope>) -> Seq<KeyValue> {
    match scope {
        Some(scope) => scope.attributes@,
        None => Seq::empty(),
    }
}

/// One projected record: its hour, its core cells, and the leaves of its attributes.
#[verifier::ext_equal]
pub struct RowView {
    pub hour: u64,
    pub cells: Seq<CellView>,
    pub leaves: Seq<LeafView>,
}

/// What a record becomes, unless one of its values is nested too deep.
pub open spec fn row_of(
    stamp: StampView,
    resource: Option<Resource>,
    scope: Option<InstrumentationScope>,
    record: LogRecord,
    record_index: u32,
    max_depth: nat,
) -> Option<RowView> {
    let event = event_time(record, stamp.received_at_unix_nanos);
    match (
        body_of(record.body),
        canonical_json::attributes_text(resource_attributes(resource)),
        canonical_json::attributes_text(scope_attributes(scope)),
        canonical_json::attributes_text(record.attributes@),
        dynamic::record_leaves(
            resource_attributes(resource),
            scope_attributes(scope),
            record.attributes@,
            max_depth,
        ),
    ) {
        (Some(body), Some(resource_json), Some(scope_json), Some(log_json), Some(leaves)) => Some(
            RowView {
                hour: schema::hour_start(event),
                cells: seq![
                    CellView::UInt16(SCHEMA_VERSION),
                    CellView::Text(stamp.tenant_id),
                    CellView::UInt64(stamp.sequence),
                    CellView::UInt32(record_index),
                    optional_u64_cell(time_present(record.time_unix_nano)),
                    optional_u64_cell(time_present(record.observed_time_unix_nano)),
                    CellView::UInt64(stamp.received_at_unix_nanos),
                    CellView::UInt64(event),
                    if record.severity_number != 0 {
                        CellView::Int32(record.severity_number)
                    } else {
                        CellView::Null
                    },
                    if record.severity_text@.len() > 0 {
                        CellView::Text(record.severity_text@)
                    } else {
                        CellView::Null
                    },
                    optional_text_cell(body),
                    optional_bytes_cell(id_of(record.trace_id@, TRACE_ID_BYTES as nat)),
                    optional_bytes_cell(id_of(record.span_id@, SPAN_ID_BYTES as nat)),
                    optional_text_cell(service_name_of(resource_attributes(resource))),
                    CellView::Text(resource_json),
                    CellView::Text(scope_json),
                    CellView::Text(log_json),
                ],
                leaves,
            },
        ),
        _ => None,
    }
}

/// A projected record.
struct Row {
    hour: EventHour,
    cells: Vec<Cell>,
    leaves: Vec<Leaf>,
}

impl DeepView for Row {
    type V = RowView;

    closed spec fn deep_view(&self) -> RowView {
        RowView {
            hour: self.hour@,
            cells: self.cells.deep_view(),
            leaves: self.leaves.deep_view(),
        }
    }
}

/// The rows after the records of one scope, or why a record is refused.
pub open spec fn add_records(
    rows: Seq<RowView>,
    stamp: StampView,
    resource: Option<Resource>,
    scope: Option<InstrumentationScope>,
    records: Seq<LogRecord>,
    max_depth: nat,
) -> Result<Seq<RowView>, DecodeErrorView>
    decreases records.len(),
{
    if records.len() == 0 {
        Ok(rows)
    } else {
        match add_records(rows, stamp, resource, scope, records.drop_last(), max_depth) {
            Err(error) => Err(error),
            Ok(before) => if before.len() >= u32::MAX {
                Err(DecodeErrorView::InvalidPayload("log record index overflowed u32"@))
            } else {
                match row_of(
                    stamp,
                    resource,
                    scope,
                    records.last(),
                    before.len() as u32,
                    max_depth,
                ) {
                    None => Err(
                        DecodeErrorView::CanonicalJson(CanonicalJsonError::NestingTooDeep),
                    ),
                    Some(row) => Ok(before.push(row)),
                }
            },
        }
    }
}

/// The rows after the scopes of one resource, or why one is refused.
pub open spec fn add_scopes(
    rows: Seq<RowView>,
    stamp: StampView,
    resource: Option<Resource>,
    scopes: Seq<ScopeLogs>,
    max_depth: nat,
) -> Result<Seq<RowView>, DecodeErrorView>
    decreases scopes.len(),
{
    if scopes.len() == 0 {
        Ok(rows)
    } else {
        match add_scopes(rows, stamp, resource, scopes.drop_last(), max_depth) {
            Err(error) => Err(error),
            Ok(before) => if canonical_json::attributes_text(
                scope_attributes(scopes.last().scope),
            ) is None {
                Err(DecodeErrorView::CanonicalJson(CanonicalJsonError::NestingTooDeep))
            } else {
                add_records(
                    before,
                    stamp,
                    resource,
                    scopes.last().scope,
                    scopes.last().log_records@,
                    max_depth,
                )
            },
        }
    }
}

/// The rows of a request in resource, scope, then record order, or why one is refused.
pub open spec fn rows_of(
    stamp: StampView,
    resources: Seq<ResourceLogs>,
    max_depth: nat,
) -> Result<Seq<RowView>, DecodeErrorView>
    decreases resources.len(),
{
    if resources.len() == 0 {
        Ok(Seq::empty())
    } else {
        match rows_of(stamp, resources.drop_last(), max_depth) {
            Err(error) => Err(error),
            Ok(before) => if canonical_json::attributes_text(
                resource_attributes(resources.last().resource),
            ) is None {
                Err(DecodeErrorView::CanonicalJson(CanonicalJsonError::NestingTooDeep))
            } else {
                add_scopes(
                    before,
                    stamp,
                    resources.last().resource,
                    resources.last().scope_logs@,
                    max_depth,
                )
            },
        }
    }
}

proof fn lemma_records_fail(
    rows: Seq<RowView>,
    stamp: StampView,
    resource: Option<Resource>,
    scope: Option<InstrumentationScope>,
    records: Seq<LogRecord>,
    max_depth: nat,
    count: int,
)
    requires
        0 <= count <= records.len(),
        add_records(rows, stamp, resource, scope, records.take(count), max_depth) is Err,
    ensures
        add_records(rows, stamp, resource, scope, records, max_depth) == add_records(
            rows,
            stamp,
            resource,
            scope,
            records.take(count),
            max_depth,
        ),
    decreases records.len() - count,
{
    if count < records.len() {
        assert(records.take(count + 1).drop_last() =~= records.take(count));
        lemma_records_fail(rows, stamp, resource, scope, records, max_depth, count + 1);
    } else {
        assert(records.take(count) =~= records);
    }
}

proof fn lemma_scopes_fail(
    rows: Seq<RowView>,
    stamp: StampView,
    resource: Option<Resource>,
    scopes: Seq<ScopeLogs>,
    max_depth: nat,
    count: int,
)
    requires
        0 <= count <= scopes.len(),
        add_scopes(rows, stamp, resource, scopes.take(count), max_depth) is Err,
    ensures
        add_scopes(rows, stamp, resource, scopes, max_depth) == add_scopes(
            rows,
            stamp,
            resource,
            scopes.take(count),
            max_depth,
        ),
    decreases scopes.len() - count,
{
    if count < scopes.len() {
        assert(scopes.take(count + 1).drop_last() =~= scopes.take(count));
        lemma_scopes_fail(rows, stamp, resource, scopes, max_depth, count + 1);
    } else {
        assert(scopes.take(count) =~= scopes);
    }
}

proof fn lemma_resources_fail(
    stamp: StampView,
    resources: Seq<ResourceLogs>,
    max_depth: nat,
    count: int,
)
    requires
        0 <= count <= resources.len(),
        rows_of(stamp, resources.take(count), max_depth) is Err,
    ensures
        rows_of(stamp, resources, max_depth) == rows_of(stamp, resources.take(count), max_depth),
    decreases resources.len() - count,
{
    if count < resources.len() {
        assert(resources.take(count + 1).drop_last() =~= resources.take(count));
        lemma_resources_fail(stamp, resources, max_depth, count + 1);
    } else {
        assert(resources.take(count) =~= resources);
    }
}

fn resource_list(resource: &Option<Resource>) -> (attributes: &[KeyValue])
    ensures
        attributes@ == resource_attributes(*resource),
{
    match resource {
        Some(resource) => resource.attributes.as_slice(),
        None => {
            let none: &[KeyValue] = &[];
            assert(none@ =~= Seq::empty());
            none
        },
    }
}

fn scope_list(scope: &Option<InstrumentationScope>) -> (attributes: &[KeyValue])
    ensures
        attributes@ == scope_attributes(*scope),
{
    match scope {
        Some(scope) => scope.attributes.as_slice(),
        None => {
            let none: &[KeyValue] = &[];
            assert(none@ =~= Seq::empty());
            none
        },
    }
}

/// Projects one record.
fn project_record(
    frame: &Frame,
    resource: &Option<Resource>,
    scope: &Option<InstrumentationScope>,
    resource_json: &String,
    scope_json: &String,
    record: &LogRecord,
    record_index: u32,
    max_depth: usize,
) -> (row: Result<Row, DecodeError>)
    requires
        canonical_json::attributes_text(resource_attributes(*resource)) == Some(resource_json@),
        canonical_json::attributes_text(scope_attributes(*scope)) == Some(scope_json@),
    ensures
        match row {
            Ok(row) => row_of(
                frame.stamp(),
                *resource,
                *scope,
                *record,
                record_index,
                max_depth as nat,
            ) == Some(row.deep_view()),
            Err(error) => row_of(
                frame.stamp(),
                *resource,
                *scope,
                *record,
                record_index,
                max_depth as nat,
            ) is None && error.deep_view() == DecodeErrorView::CanonicalJson(
                CanonicalJsonError::NestingTooDeep,
            ),
        },
{
    let time_unix_nano = present_time(record.time_unix_nano);
    let observed_time_unix_nano = present_time(record.observed_time_unix_nano);
    let event_time_unix_nano = match time_unix_nano {
        Some(time) => time,
        None => match observed_time_unix_nano {
            Some(time) => time,
            None => frame.received_at_unix_nanos,
        },
    };
    let body = body_text(&record.body)?;
    let log_json = match canonical_attributes_json(record.attributes.as_slice()) {
        Ok(json) => json,
        Err(error) => {
            return Err(DecodeError::CanonicalJson(error));
        },
    };
    let resource_attributes = resource_list(resource);
    let leaves = match record_dynamic_values(
        resource_attributes,
        scope_list(scope),
        record.attributes.as_slice(),
        max_depth,
    ) {
        Ok(leaves) => leaves,
        Err(_) => {
            return Err(DecodeError::CanonicalJson(CanonicalJsonError::NestingTooDeep));
        },
    };
    let severity_number = if record.severity_number != 0 {
        Cell::Int32(record.severity_number)
    } else {
        Cell::Null
    };
    let severity_text = if record.severity_text.as_str().is_empty() {
        Cell::Null
    } else {
        Cell::Text(record.severity_text.clone())
    };
    let cells: Vec<Cell> = vec![
        Cell::UInt16(SCHEMA_VERSION),
        Cell::Text(frame.tenant_id.clone()),
        Cell::UInt64(frame.sequence),
        Cell::UInt32(record_index),
        u64_cell(time_unix_nano),
        u64_cell(observed_time_unix_nano),
        Cell::UInt64(frame.received_at_unix_nanos),
        Cell::UInt64(event_time_unix_nano),
        severity_number,
        severity_text,
        text_cell(body),
        bytes_cell(fixed_id(&record.trace_id, TRACE_ID_BYTES)),
        bytes_cell(fixed_id(&record.span_id, SPAN_ID_BYTES)),
        text_cell(promoted_service_name(resource_attributes)),
        Cell::Text(resource_json.clone()),
        Cell::Text(scope_json.clone()),
        Cell::Text(log_json),
    ];
    let row = Row { hour: EventHour::containing(event_time_unix_nano), cells, leaves };
    proof {
        let expected = row_of(
            frame.stamp(),
            *resource,
            *scope,
            *record,
            record_index,
            max_depth as nat,
        );
        assert(expected is Some);
        assert(row.deep_view().cells =~= expected->0.cells);
        assert(row.deep_view() =~= expected->0);
    }
    Ok(row)
}

/// Appends the records of one scope.
fn read_records(
    rows: &mut Vec<Row>,
    frame: &Frame,
    resource: &Option<Resource>,
    scope: &Option<InstrumentationScope>,
    resource_json: &String,
    scope_json: &String,
    records: &Vec<LogRecord>,
    max_depth: usize,
) -> (result: Result<(), DecodeError>)
    requires
        old(rows)@.len() <= u32::MAX,
        canonical_json::attributes_text(resource_attributes(*resource)) == Some(resource_json@),
        canonical_json::attributes_text(scope_attributes(*scope)) == Some(scope_json@),
    ensures
        final(rows)@.len() <= u32::MAX,
        match result {
            Ok(_) => add_records(
                old(rows).deep_view(),
                frame.stamp(),
                *resource,
                *scope,
                records@,
                max_depth as nat,
            ) == Ok::<Seq<RowView>, DecodeErrorView>(final(rows).deep_view()),
            Err(error) => add_records(
                old(rows).deep_view(),
                frame.stamp(),
                *resource,
                *scope,
                records@,
                max_depth as nat,
            ) == Err::<Seq<RowView>, DecodeErrorView>(error.deep_view()),
        },
{
    let ghost start = rows.deep_view();
    let mut i: usize = 0;
    assert(records@.take(0) =~= Seq::empty());
    while i < records.len()
        invariant
            i <= records.len(),
            rows@.len() <= u32::MAX,
            start == old(rows).deep_view(),
            canonical_json::attributes_text(resource_attributes(*resource)) == Some(
                resource_json@,
            ),
            canonical_json::attributes_text(scope_attributes(*scope)) == Some(scope_json@),
            add_records(
                start,
                frame.stamp(),
                *resource,
                *scope,
                records@.take(i as int),
                max_depth as nat,
            ) == Ok::<Seq<RowView>, DecodeErrorView>(rows.deep_view()),
        decreases records.len() - i,
    {
        assert(records@.take(i + 1).drop_last() =~= records@.take(i as int));
        if rows.len() >= u32::MAX as usize {
            proof {
                lemma_records_fail(
                    start,
                    frame.stamp(),
                    *resource,
                    *scope,
                    records@,
                    max_depth as nat,
                    i + 1,
                );
            }
            return Err(DecodeError::InvalidPayload("log record index overflowed u32".to_owned()));
        }
        match project_record(
            frame,
            resource,
            scope,
            resource_json,
            scope_json,
            &records[i],
            rows.len() as u32,
            max_depth,
        ) {
            Ok(row) => {
                let ghost before = rows.deep_view();
                let ghost view = row.deep_view();
                rows.push(row);
                assert(rows.deep_view() =~= before.push(view));
            },
            Err(error) => {
                proof {
                    lemma_records_fail(
                        start,
                        frame.stamp(),
                        *resource,
                        *scope,
                        records@,
                        max_depth as nat,
                        i + 1,
                    );
                }
                return Err(error);
            },
        }
        i = i + 1;
    }
    assert(records@.take(i as int) =~= records@);
    Ok(())
}

/// Appends the scopes of one resource.
fn read_scopes(
    rows: &mut Vec<Row>,
    frame: &Frame,
    resource: &Option<Resource>,
    resource_json: &String,
    scopes: &Vec<ScopeLogs>,
    max_depth: usize,
) -> (result: Result<(), DecodeError>)
    requires
        old(rows)@.len() <= u32::MAX,
        canonical_json::attributes_text(resource_attributes(*resource)) == Some(resource_json@),
    ensures
        final(rows)@.len() <= u32::MAX,
        match result {
            Ok(_) => add_scopes(
                old(rows).deep_view(),
                frame.stamp(),
                *resource,
                scopes@,
                max_depth as nat,
            ) == Ok::<Seq<RowView>, DecodeErrorView>(final(rows).deep_view()),
            Err(error) => add_scopes(
                old(rows).deep_view(),
                frame.stamp(),
                *resource,
                scopes@,
                max_depth as nat,
            ) == Err::<Seq<RowView>, DecodeErrorView>(error.deep_view()),
        },
{
    let ghost start = rows.deep_view();
    let mut i: usize = 0;
    assert(scopes@.take(0) =~= Seq::empty());
    while i < scopes.len()
        invariant
            i <= scopes.len(),
            rows@.len() <= u32::MAX,
            start == old(rows).deep_view(),
            canonical_json::attributes_text(resource_attributes(*resource)) == Some(
                resource_json@,
            ),
            add_scopes(start, frame.stamp(), *resource, scopes@.take(i as int), max_depth as nat)
                == Ok::<Seq<RowView>, DecodeErrorView>(rows.deep_view()),
        decreases scopes.len() - i,
    {
        assert(scopes@.take(i + 1).drop_last() =~= scopes@.take(i as int));
        let scope = &scopes[i].scope;
        let scope_json = match canonical_attributes_json(scope_list(scope)) {
            Ok(json) => json,
            Err(error) => {
                proof {
                    lemma_scopes_fail(
                        start,
                        frame.stamp(),
                        *resource,
                        scopes@,
                        max_depth as nat,
                        i + 1,
                    );
                }
                return Err(DecodeError::CanonicalJson(error));
            },
        };
        match read_records(
            rows,
            frame,
            resource,
            scope,
            resource_json,
            &scope_json,
            &scopes[i].log_records,
            max_depth,
        ) {
            Ok(()) => {},
            Err(error) => {
                proof {
                    lemma_scopes_fail(
                        start,
                        frame.stamp(),
                        *resource,
                        scopes@,
                        max_depth as nat,
                        i + 1,
                    );
                }
                return Err(error);
            },
        }
        i = i + 1;
    }
    assert(scopes@.take(i as int) =~= scopes@);
    Ok(())
}

/// Projects every record of a request.
fn read_resources(frame: &Frame, resources: &Vec<ResourceLogs>, max_depth: usize) -> (rows: Result<
    Vec<Row>,
    DecodeError,
>)
    ensures
        match rows {
            Ok(rows) => rows@.len() <= u32::MAX && rows_of(
                frame.stamp(),
                resources@,
                max_depth as nat,
            ) == Ok::<Seq<RowView>, DecodeErrorView>(rows.deep_view()),
            Err(error) => rows_of(frame.stamp(), resources@, max_depth as nat) == Err::<
                Seq<RowView>,
                DecodeErrorView,
            >(error.deep_view()),
        },
{
    let mut rows: Vec<Row> = Vec::new();
    let mut i: usize = 0;
    assert(resources@.take(0) =~= Seq::empty());
    assert(rows.deep_view() =~= Seq::empty());
    while i < resources.len()
        invariant
            i <= resources.len(),
            rows@.len() <= u32::MAX,
            rows_of(frame.stamp(), resources@.take(i as int), max_depth as nat) == Ok::<
                Seq<RowView>,
                DecodeErrorView,
            >(rows.deep_view()),
        decreases resources.len() - i,
    {
        assert(resources@.take(i + 1).drop_last() =~= resources@.take(i as int));
        let resource = &resources[i].resource;
        let resource_json = match canonical_attributes_json(resource_list(resource)) {
            Ok(json) => json,
            Err(error) => {
                proof {
                    lemma_resources_fail(frame.stamp(), resources@, max_depth as nat, i + 1);
                }
                return Err(DecodeError::CanonicalJson(error));
            },
        };
        match read_scopes(
            &mut rows,
            frame,
            resource,
            &resource_json,
            &resources[i].scope_logs,
            max_depth,
        ) {
            Ok(()) => {},
            Err(error) => {
                proof {
                    lemma_resources_fail(frame.stamp(), resources@, max_depth as nat, i + 1);
                }
                return Err(error);
            },
        }
        i = i + 1;
    }
    assert(resources@.take(i as int) =~= resources@);
    Ok(rows)
}

// Partitions.

/// Hours with one more, in ascending order and without repeats.
pub open spec fn insert_hour(hours: Seq<u64>, hour: u64) -> Seq<u64>
    decreases hours.len(),
{
    if hours.len() == 0 {
        seq![hour]
    } else if hours.last() == hour {
        hours
    } else if hours.last() < hour {
        hours.push(hour)
    } else {
        insert_hour(hours.drop_last(), hour).push(hours.last())
    }
}

/// The hours that rows fall into, in ascending order.
pub open spec fn hours_of(rows: Seq<RowView>) -> Seq<u64>
    decreases rows.len(),
{
    if rows.len() == 0 {
        Seq::empty()
    } else {
        insert_hour(hours_of(rows.drop_last()), rows.last().hour)
    }
}

/// The rows of one hour, in their order.
pub open spec fn rows_at(rows: Seq<RowView>, hour: u64) -> Seq<RowView>
    decreases rows.len(),
{
    if rows.len() == 0 {
        Seq::empty()
    } else if rows.last().hour == hour {
        rows_at(rows.drop_last(), hour).push(rows.last())
    } else {
        rows_at(rows.drop_last(), hour)
    }
}

pub open spec fn hours_ascend(hours: Seq<u64>) -> bool {
    forall|i: int, j: int| 0 <= i < j < hours.len() ==> hours[i] < hours[j]
}

proof fn lemma_insert_hour(hours: Seq<u64>, hour: u64)
    requires
        hours_ascend(hours),
    ensures
        hours_ascend(insert_hour(hours, hour)),
        forall|h: u64|
            #[trigger] insert_hour(hours, hour).contains(h) <==> hours.contains(h) || h == hour,
    decreases hours.len(),
{
    let result = insert_hour(hours, hour);
    if hours.len() == 0 {
        assert(result[0] == hour);
    } else if hours.last() == hour {
        assert(hours[hours.len() - 1] == hour);
    } else if hours.last() < hour {
        assert(result[hours.len() as int] == hour);
        assert forall|h: u64| #[trigger] result.contains(h) <==> hours.contains(h) || h == hour by {
            if hours.contains(h) {
                let i = choose|i: int| 0 <= i < hours.len() && hours[i] == h;
                assert(result[i] == h);
            }
            if result.contains(h) {
                let i = choose|i: int| 0 <= i < result.len() && result[i] == h;
                assert(i < hours.len() ==> hours[i] == h);
            }
        }
    } else {
        let front = hours.drop_last();
        let inner = insert_hour(front, hour);
        lemma_insert_hour(front, hour);
        assert forall|i: int, j: int| 0 <= i < j < result.len() implies result[i] < result[j] by {
            if j == inner.len() {
                assert(inner.contains(inner[i]));
                if inner[i] != hour {
                    let k = choose|k: int| 0 <= k < front.len() && front[k] == inner[i];
                    assert(hours[k] < hours[hours.len() - 1]);
                }
            }
        }
        assert forall|h: u64| #[trigger] result.contains(h) <==> hours.contains(h) || h == hour by {
            if result.contains(h) {
                let i = choose|i: int| 0 <= i < result.len() && result[i] == h;
                if i < inner.len() {
                    assert(inner.contains(h));
                    if front.contains(h) {
                        let k = choose|k: int| 0 <= k < front.len() && front[k] == h;
                        assert(hours[k] == h);
                    }
                } else {
                    assert(hours[hours.len() - 1] == h);
                }
            }
            if hours.contains(h) || h == hour {
                if h == hours.last() {
                    assert(result[inner.len() as int] == h);
                } else {
                    if hours.contains(h) {
                        let i = choose|i: int| 0 <= i < hours.len() && hours[i] == h;
                        assert(front[i] == h);
                    }
                    assert(inner.contains(h));
                    let k = choose|k: int| 0 <= k < inner.len() && inner[k] == h;
                    assert(result[k] == h);
                }
            }
        }
    }
}

/// Every row falls into exactly one of the hours, and the hours ascend.
pub proof fn hours_cover_the_rows(rows: Seq<RowView>)
    ensures
        hours_ascend(hours_of(rows)),
        forall|i: int| 0 <= i < rows.len() ==> hours_of(rows).contains((#[trigger] rows[i]).hour),
        forall|h: u64|
            #[trigger] hours_of(rows).contains(h) ==> rows_at(rows, h).len() > 0,
    decreases rows.len(),
{
    if rows.len() > 0 {
        let front = rows.drop_last();
        hours_cover_the_rows(front);
        lemma_insert_hour(hours_of(front), rows.last().hour);
        assert forall|i: int| 0 <= i < rows.len() implies hours_of(rows).contains(
            (#[trigger] rows[i]).hour,
        ) by {
            if i < front.len() {
                assert(front[i] == rows[i]);
            }
        }
    }
}

fn place_hour(hours: &mut Vec<EventHour>, hour: EventHour)
    requires
        hours_ascend(old(hours).deep_view()),
    ensures
        final(hours).deep_view() == insert_hour(old(hours).deep_view(), hour@),
        hours_ascend(final(hours).deep_view()),
{
    let ghost all = hours.deep_view();
    proof {
        lemma_insert_hour(all, hour@);
    }
    let mut at: usize = hours.len();
    while at > 0
        invariant
            at <= hours.len(),
            all == hours.deep_view(),
            hours_ascend(all),
            forall|i: int| at <= i < all.len() ==> all[i] > hour@,
        ensures
            at <= hours.len(),
            at > 0 ==> all[at - 1] < hour@,
            forall|i: int| at <= i < all.len() ==> all[i] > hour@,
        decreases at,
    {
        assert(all[at - 1] == hours@[at - 1]@);
        let start = hours[at - 1].start_unix_nano();
        if start < hour.start_unix_nano() {
            break;
        }
        if start == hour.start_unix_nano() {
            proof {
                lemma_insert_hour_present(all, hour@, at - 1);
            }
            return;
        }
        at = at - 1;
    }
    proof {
        lemma_insert_hour_at(all, hour@, at as int);
    }
    hours.insert(at, hour);
    assert(hours.deep_view() =~= all.insert(at as int, hour@));
}

proof fn lemma_insert_hour_at(hours: Seq<u64>, hour: u64, at: int)
    requires
        0 <= at <= hours.len(),
        at > 0 ==> hours[at - 1] < hour,
        forall|i: int| at <= i < hours.len() ==> hours[i] > hour,
    ensures
        insert_hour(hours, hour) == hours.insert(at, hour),
    decreases hours.len(),
{
    if at == hours.len() {
        assert(hours.insert(at, hour) =~= insert_hour(hours, hour));
    } else {
        lemma_insert_hour_at(hours.drop_last(), hour, at);
        assert(hours.insert(at, hour) =~= hours.drop_last().insert(at, hour).push(hours.last()));
    }
}

proof fn lemma_insert_hour_present(hours: Seq<u64>, hour: u64, at: int)
    requires
        hours_ascend(hours),
        0 <= at < hours.len(),
        hours[at] == hour,
    ensures
        insert_hour(hours, hour) == hours,
    decreases hours.len(),
{
    if at < hours.len() - 1 {
        lemma_insert_hour_present(hours.drop_last(), hour, at);
        assert(hours.drop_last().push(hours.last()) =~= hours);
    }
}

/// The value of one row in one column: the core cells first, then the dynamic ones.
pub open spec fn row_cell(row: RowView, fields: Seq<DynamicFieldView>, column: int) -> CellView {
    let core = schema::core_fields().len();
    if column < core {
        row.cells[column]
    } else {
        match dynamic::leaf_value(row.leaves, fields[column - core].identity) {
            Some(value) => value.cell(),
            None => CellView::Null,
        }
    }
}

/// The fields of a partition: the core fields first, then the dynamic ones.
pub open spec fn partition_fields(fields: Seq<DynamicFieldView>) -> Seq<FieldView> {
    schema::core_fields() + fields.map_values(
        |field: DynamicFieldView| identity::dynamic_field(field),
    )
}

pub open spec fn partition_column(
    rows: Seq<RowView>,
    fields: Seq<DynamicFieldView>,
    column: int,
) -> ColumnView {
    ColumnView {
        data_type: partition_fields(fields)[column].data_type,
        cells: Seq::new(rows.len(), |row: int| row_cell(rows[row], fields, column)),
    }
}

/// The columns of a partition.
pub open spec fn partition_columns(rows: Seq<RowView>, fields: Seq<DynamicFieldView>) -> Seq<
    ColumnView,
> {
    Seq::new(
        partition_fields(fields).len(),
        |column: int| partition_column(rows, fields, column),
    )
}

/// The batch of one hour.
pub open spec fn partition_batch(rows: Seq<RowView>, fields: Seq<DynamicFieldView>) -> BatchView {
    BatchView {
        schema: schema::plain_schema(partition_fields(fields)),
        columns: partition_columns(rows, fields),
        rows: rows.len(),
    }
}

/// Whether a row has the shape of the core columns.
pub open spec fn row_shaped(row: RowView) -> bool {
    let core = schema::core_fields();
    &&& row.cells.len() == core.len()
    &&& forall|i: int|
        0 <= i < core.len() ==> batch::cell_fits(#[trigger] row.cells[i], core[i].data_type) && (
        !core[i].nullable ==> !(row.cells[i] is Null))
}

proof fn lemma_row_shaped(
    stamp: StampView,
    resource: Option<Resource>,
    scope: Option<InstrumentationScope>,
    record: LogRecord,
    record_index: u32,
    max_depth: nat,
)
    requires
        row_of(stamp, resource, scope, record, record_index, max_depth) is Some,
    ensures
        row_shaped(row_of(stamp, resource, scope, record, record_index, max_depth)->0),
{
}

proof fn lemma_records_shaped(
    rows: Seq<RowView>,
    stamp: StampView,
    resource: Option<Resource>,
    scope: Option<InstrumentationScope>,
    records: Seq<LogRecord>,
    max_depth: nat,
)
    requires
        forall|i: int| 0 <= i < rows.len() ==> row_shaped(#[trigger] rows[i]),
        add_records(rows, stamp, resource, scope, records, max_depth) is Ok,
    ensures
        forall|i: int|
            0 <= i < add_records(rows, stamp, resource, scope, records, max_depth)->Ok_0.len()
                ==> row_shaped(
                #[trigger] add_records(
                    rows,
                    stamp,
                    resource,
                    scope,
                    records,
                    max_depth,
                )->Ok_0[i],
            ),
    decreases records.len(),
{
    if records.len() > 0 {
        lemma_records_shaped(rows, stamp, resource, scope, records.drop_last(), max_depth);
        let before = add_records(
            rows,
            stamp,
            resource,
            scope,
            records.drop_last(),
            max_depth,
        )->Ok_0;
        lemma_row_shaped(
            stamp,
            resource,
            scope,
            records.last(),
            before.len() as u32,
            max_depth,
        );
    }
}

proof fn lemma_scopes_shaped(
    rows: Seq<RowView>,
    stamp: StampView,
    resource: Option<Resource>,
    scopes: Seq<ScopeLogs>,
    max_depth: nat,
)
    requires
        forall|i: int| 0 <= i < rows.len() ==> row_shaped(#[trigger] rows[i]),
        add_scopes(rows, stamp, resource, scopes, max_depth) is Ok,
    ensures
        forall|i: int|
            0 <= i < add_scopes(rows, stamp, resource, scopes, max_depth)->Ok_0.len() ==> row_shaped(
                #[trigger] add_scopes(rows, stamp, resource, scopes, max_depth)->Ok_0[i],
            ),
    decreases scopes.len(),
{
    if scopes.len() > 0 {
        lemma_scopes_shaped(rows, stamp, resource, scopes.drop_last(), max_depth);
        lemma_records_shaped(
            add_scopes(rows, stamp, resource, scopes.drop_last(), max_depth)->Ok_0,
            stamp,
            resource,
            scopes.last().scope,
            scopes.last().log_records@,
            max_depth,
        );
    }
}

proof fn lemma_rows_shaped(stamp: StampView, resources: Seq<ResourceLogs>, max_depth: nat)
    requires
        rows_of(stamp, resources, max_depth) is Ok,
    ensures
        forall|i: int|
            0 <= i < rows_of(stamp, resources, max_depth)->Ok_0.len() ==> row_shaped(
                #[trigger] rows_of(stamp, resources, max_depth)->Ok_0[i],
            ),
    decreases resources.len(),
{
    if resources.len() > 0 {
        lemma_rows_shaped(stamp, resources.drop_last(), max_depth);
        lemma_scopes_shaped(
            rows_of(stamp, resources.drop_last(), max_depth)->Ok_0,
            stamp,
            resources.last().resource,
            resources.last().scope_logs@,
            max_depth,
        );
    }
}

proof fn lemma_rows_at_members(rows: Seq<RowView>, hour: u64)
    requires
        forall|i: int| 0 <= i < rows.len() ==> row_shaped(#[trigger] rows[i]),
    ensures
        forall|i: int|
            0 <= i < rows_at(rows, hour).len() ==> row_shaped(#[trigger] rows_at(rows, hour)[i]),
    decreases rows.len(),
{
    if rows.len() > 0 {
        let front = rows.drop_last();
        assert forall|i: int| 0 <= i < front.len() implies row_shaped(#[trigger] front[i]) by {
            assert(front[i] == rows[i]);
        }
        lemma_rows_at_members(front, hour);
        let last = rows[rows.len() - 1];
        assert(row_shaped(last));
        let inner = rows_at(front, hour);
        assert forall|i: int| 0 <= i < rows_at(rows, hour).len() implies row_shaped(
            #[trigger] rows_at(rows, hour)[i],
        ) by {
            if i < inner.len() {
                assert(rows_at(rows, hour)[i] == inner[i]);
                assert(row_shaped(inner[i]));
            } else {
                assert(rows_at(rows, hour)[i] == last);
            }
        }
    }
}

proof fn lemma_leaf_value_kind(leaves: Seq<LeafView>, identity: IdentityView)
    requires
        dynamic::leaf_value(leaves, identity) is Some,
    ensures
        dynamic::leaf_value(leaves, identity)->0.kind() == identity.kind,
    decreases leaves.len(),
{
    if leaves.len() > 0 && leaves[0].identity() != identity {
        lemma_leaf_value_kind(leaves.drop_first(), identity);
    }
}

/// The columns of an hour form a batch unless the values of one of them take too many bytes.
pub proof fn partitions_only_fail_by_size(rows: Seq<RowView>, fields: Seq<DynamicFieldView>)
    requires
        forall|i: int| 0 <= i < rows.len() ==> row_shaped(#[trigger] rows[i]),
    ensures
        ({
            let fault = batch::batch_fault(
                partition_fields(fields),
                partition_columns(rows, fields),
                Some(rows.len()),
            );
            fault is None || fault == Some(BatchFaultView::ValueBytes)
        }),
{
    let core = schema::core_fields();
    let all = partition_fields(fields);
    let columns = partition_columns(rows, fields);
    assert forall|c: int, r: int| 0 <= c < columns.len() && 0 <= r < rows.len() implies
    batch::cell_fits(#[trigger] columns[c].cells[r], all[c].data_type) && (!all[c].nullable ==> !(
    columns[c].cells[r] is Null)) by {
        assert(columns[c].cells[r] == row_cell(rows[r], fields, c));
        assert(row_shaped(rows[r]));
        if c < core.len() {
            assert(all[c] == core[c]);
            assert(batch::cell_fits(rows[r].cells[c], core[c].data_type));
        } else {
            let field = fields[c - core.len()];
            assert(all[c] == identity::dynamic_field(field));
            if dynamic::leaf_value(rows[r].leaves, field.identity) is Some {
                lemma_leaf_value_kind(rows[r].leaves, field.identity);
            }
        }
    }
    assert(batch::required_columns_filled(all, columns)) by {
        assert forall|c: int| 0 <= c < columns.len() && !all[c].nullable implies !batch::has_null(
            (#[trigger] columns[c]).cells,
        ) by {
            assert forall|r: int| 0 <= r < columns[c].cells.len() implies !(
            #[trigger] columns[c].cells[r] is Null) by {
                assert(batch::cell_fits(columns[c].cells[r], all[c].data_type));
            }
        }
    }
    assert forall|c: int| 0 <= c < columns.len() implies batch::cells_fit(
        (#[trigger] columns[c]).cells,
        columns[c].data_type,
    ) by {
        assert forall|r: int| 0 <= r < columns[c].cells.len() implies batch::cell_fits(
            #[trigger] columns[c].cells[r],
            columns[c].data_type,
        ) by {}
    }
    assert(batch::column_types_match(all, columns));
}

/// The partitions of rows, or the size at which an hour does not fit a batch.
pub open spec fn partitions_of(
    rows: Seq<RowView>,
    fields: Seq<DynamicFieldView>,
    hours: Seq<u64>,
) -> Result<Seq<PartitionView>, DecodeErrorView>
    decreases hours.len(),
{
    if hours.len() == 0 {
        Ok(Seq::empty())
    } else {
        match partitions_of(rows, fields, hours.drop_last()) {
            Err(error) => Err(error),
            Ok(partitions) => {
                let batch = partition_batch(rows_at(rows, hours.last()), fields);
                if batch.wf() {
                    Ok(partitions.push(PartitionView { hour: hours.last(), batch }))
                } else {
                    Err(DecodeErrorView::Arrow(BatchFaultView::ValueBytes.text()))
                }
            },
        }
    }
}

proof fn lemma_partitions_fail(
    rows: Seq<RowView>,
    fields: Seq<DynamicFieldView>,
    hours: Seq<u64>,
    count: int,
)
    requires
        0 <= count <= hours.len(),
        partitions_of(rows, fields, hours.take(count)) is Err,
    ensures
        partitions_of(rows, fields, hours) == partitions_of(rows, fields, hours.take(count)),
    decreases hours.len() - count,
{
    if count < hours.len() {
        assert(hours.take(count + 1).drop_last() =~= hours.take(count));
        lemma_partitions_fail(rows, fields, hours, count + 1);
    } else {
        assert(hours.take(count) =~= hours);
    }
}

/// The identities of the leaves of all rows, in row order.
pub open spec fn frame_identities(rows: Seq<RowView>) -> Seq<IdentityView>
    decreases rows.len(),
{
    if rows.len() == 0 {
        Seq::empty()
    } else {
        frame_identities(rows.drop_last()) + dynamic::leaf_identities(rows.last().leaves)
    }
}

/// The resources of a parsed payload, or why it could not be parsed.
pub open spec fn parsed_request(request: Result<ExportLogsServiceRequest, String>) -> Result<
    Seq<ResourceLogs>,
    Seq<char>,
> {
    match request {
        Ok(request) => Ok(request.resource_logs@),
        Err(detail) => Err(detail@),
    }
}

/// What a frame decodes to, given what its payload holds.
pub open spec fn decoded(
    stamp: StampView,
    signal: FrameSignal,
    request: Result<Seq<ResourceLogs>, Seq<char>>,
    limits: DynamicLimits,
) -> Result<DecodedView, DecodeErrorView> {
    if signal != FrameSignal::Logs {
        Err(DecodeErrorView::UnsupportedSignal(signal))
    } else {
        match request {
            Err(detail) => Err(DecodeErrorView::InvalidPayload(detail)),
            Ok(resources) => match rows_of(stamp, resources, limits.max_depth as nat) {
                Err(error) => Err(error),
                Ok(rows) => match naming::discovered(
                    frame_identities(rows),
                    limits.max_columns as nat,
                ) {
                    None => Err(DecodeErrorView::Dynamic(DynamicError::DigestCollision)),
                    Some(fields) => match partitions_of(rows, fields, hours_of(rows)) {
                        Err(error) => Err(error),
                        Ok(partitions) => Ok(
                            DecodedView {
                                sequence: stamp.sequence,
                                tenant_id: stamp.tenant_id,
                                received_at_unix_nanos: stamp.received_at_unix_nanos,
                                record_count: rows.len() as u32,
                                partitions,
                            },
                        ),
                    },
                },
            },
        }
    }
}

fn collect_hours(rows: &Vec<Row>) -> (hours: Vec<EventHour>)
    ensures
        hours.deep_view() == hours_of(rows.deep_view()),
{
    let ghost all = rows.deep_view();
    let mut hours: Vec<EventHour> = Vec::new();
    let mut i: usize = 0;
    assert(all.take(0) =~= Seq::empty());
    assert(hours.deep_view() =~= Seq::empty());
    while i < rows.len()
        invariant
            i <= rows.len(),
            all == rows.deep_view(),
            hours_ascend(hours.deep_view()),
            hours.deep_view() == hours_of(all.take(i as int)),
        decreases rows.len() - i,
    {
        assert(all.take(i + 1).drop_last() =~= all.take(i as int));
        assert(all[i as int] == rows@[i as int].deep_view());
        place_hour(&mut hours, rows[i].hour);
        i = i + 1;
    }
    assert(all.take(i as int) =~= all);
    hours
}

fn collect_identities(rows: &Vec<Row>) -> (identities: Vec<DynamicIdentity>)
    ensures
        identities.deep_view() == frame_identities(rows.deep_view()),
{
    let ghost all = rows.deep_view();
    let mut identities: Vec<DynamicIdentity> = Vec::new();
    let mut i: usize = 0;
    assert(all.take(0) =~= Seq::empty());
    assert(identities.deep_view() =~= Seq::empty());
    while i < rows.len()
        invariant
            i <= rows.len(),
            all == rows.deep_view(),
            identities.deep_view() == frame_identities(all.take(i as int)),
        decreases rows.len() - i,
    {
        assert(all.take(i + 1).drop_last() =~= all.take(i as int));
        assert(all[i as int] == rows@[i as int].deep_view());
        let mut more = dynamic::identities_of(&rows[i].leaves);
        let ghost before = identities.deep_view();
        let ghost added = more.deep_view();
        identities.append(&mut more);
        assert(identities.deep_view() =~= before + added);
        i = i + 1;
    }
    assert(all.take(i as int) =~= all);
    identities
}

/// Positions of the rows of one hour.
fn positions_at(rows: &Vec<Row>, hour: EventHour) -> (positions: Vec<usize>)
    ensures
        positions@.len() == rows_at(rows.deep_view(), hour@).len(),
        forall|i: int|
            0 <= i < positions@.len() ==> (#[trigger] positions@[i]) < rows@.len()
                && rows.deep_view()[positions@[i] as int] == rows_at(rows.deep_view(), hour@)[i],
{
    let ghost all = rows.deep_view();
    let mut positions: Vec<usize> = Vec::new();
    let mut i: usize = 0;
    assert(all.take(0) =~= Seq::empty());
    while i < rows.len()
        invariant
            i <= rows.len(),
            all == rows.deep_view(),
            positions@.len() == rows_at(all.take(i as int), hour@).len(),
            forall|k: int|
                0 <= k < positions@.len() ==> (#[trigger] positions@[k]) < rows@.len()
                    && all[positions@[k] as int] == rows_at(all.take(i as int), hour@)[k],
        decreases rows.len() - i,
    {
        assert(all.take(i + 1).drop_last() =~= all.take(i as int));
        assert(all[i as int] == rows@[i as int].deep_view());
        if rows[i].hour.same(hour) {
            positions.push(i);
        }
        i = i + 1;
    }
    assert(all.take(i as int) =~= all);
    positions
}

fn read_cell(row: &Row, fields: &Vec<DynamicField>, column: usize) -> (cell: Cell)
    requires
        row.deep_view().cells.len() == schema::core_fields().len(),
        column < schema::core_fields().len() + fields@.len(),
    ensures
        cell.deep_view() == row_cell(row.deep_view(), fields.deep_view(), column as int),
{
    if column < row.cells.len() {
        row.cells[column].clone()
    } else {
        let at: usize = column - row.cells.len();
        assert(fields.deep_view()[at as int] == fields@[at as int].deep_view());
        match find_leaf(&row.leaves, &fields[at].identity) {
            Some(leaf) => leaf.value.to_cell(),
            None => Cell::Null,
        }
    }
}

/// Builds the batch of one hour.
fn build_partition(rows: &Vec<Row>, fields: &Vec<DynamicField>, hour: EventHour) -> (batch: Result<
    RecordBatch,
    DecodeError,
>)
    requires
        forall|i: int| 0 <= i < rows.deep_view().len() ==> row_shaped(#[trigger] rows.deep_view()[i]),
    ensures
        match batch {
            Ok(batch) => partition_batch(
                rows_at(rows.deep_view(), hour@),
                fields.deep_view(),
            ).wf() && batch.deep_view() == partition_batch(
                rows_at(rows.deep_view(), hour@),
                fields.deep_view(),
            ),
            Err(error) => !partition_batch(
                rows_at(rows.deep_view(), hour@),
                fields.deep_view(),
            ).wf() && error.deep_view() == DecodeErrorView::Arrow(BatchFaultView::ValueBytes.text()),
        },
{
    let ghost all = rows.deep_view();
    let ghost names = fields.deep_view();
    let ghost here = rows_at(all, hour@);
    proof {
        lemma_rows_at_members(all, hour@);
        partitions_only_fail_by_size(here, names);
    }
    let positions = positions_at(rows, hour);
    let mut dynamic_fields: Vec<Field> = Vec::new();
    let mut f: usize = 0;
    while f < fields.len()
        invariant
            f <= fields.len(),
            names == fields.deep_view(),
            dynamic_fields.deep_view() =~= names.map_values(
                |field: DynamicFieldView| identity::dynamic_field(field),
            ).take(f as int),
        decreases fields.len() - f,
    {
        let ghost before = dynamic_fields.deep_view();
        dynamic_fields.push(fields[f].arrow_field());
        assert(dynamic_fields.deep_view() =~= before.push(
            identity::dynamic_field(names[f as int]),
        ));
        f = f + 1;
    }
    assert(dynamic_fields.deep_view() =~= names.map_values(
        |field: DynamicFieldView| identity::dynamic_field(field),
    ));
    let schema = logs_batch_schema(&dynamic_fields);
    let ghost expected = partition_columns(here, names);
    assert(schema.deep_view() == schema::plain_schema(partition_fields(names)));
    let mut columns: Vec<Column> = Vec::new();
    let mut c: usize = 0;
    assert(columns.deep_view() =~= Seq::empty());
    while c < schema.fields.len()
        invariant
            c <= schema.fields.len(),
            schema.fields@.len() == schema::core_fields().len() + names.len(),
            schema.fields.deep_view() == partition_fields(names),
            all == rows.deep_view(),
            names == fields.deep_view(),
            here == rows_at(all, hour@),
            expected == partition_columns(here, names),
            positions@.len() == here.len(),
            forall|i: int| 0 <= i < all.len() ==> row_shaped(#[trigger] all[i]),
            forall|i: int|
                0 <= i < positions@.len() ==> (#[trigger] positions@[i]) < rows@.len()
                    && all[positions@[i] as int] == here[i],
            columns.deep_view() =~= expected.take(c as int),
        decreases schema.fields.len() - c,
    {
        let mut cells: Vec<Cell> = Vec::new();
        let mut r: usize = 0;
        let ghost target = partition_column(here, names, c as int);
        while r < positions.len()
            invariant
                r <= positions.len(),
                c < schema.fields@.len(),
                schema.fields@.len() == schema::core_fields().len() + names.len(),
                all == rows.deep_view(),
                names == fields.deep_view(),
                positions@.len() == here.len(),
                target == partition_column(here, names, c as int),
                forall|i: int| 0 <= i < all.len() ==> row_shaped(#[trigger] all[i]),
                forall|i: int|
                    0 <= i < positions@.len() ==> (#[trigger] positions@[i]) < rows@.len()
                        && all[positions@[i] as int] == here[i],
                cells.deep_view() =~= target.cells.take(r as int),
            decreases positions.len() - r,
        {
            let at = positions[r];
            assert(all[at as int] == here[r as int]);
            assert(row_shaped(all[at as int]));
            assert(all[at as int] == rows@[at as int].deep_view());
            let ghost before = cells.deep_view();
            let cell = read_cell(&rows[at], fields, c);
            let ghost view = cell.deep_view();
            cells.push(cell);
            assert(cells.deep_view() =~= before.push(view));
            assert(view == target.cells[r as int]);
            r = r + 1;
        }
        assert(cells.deep_view() =~= target.cells);
        let ghost before = columns.deep_view();
        assert(partition_fields(names)[c as int] == schema.fields@[c as int].deep_view());
        let column = Column { data_type: schema.fields[c].data_type.clone(), cells };
        let ghost view = column.deep_view();
        columns.push(column);
        assert(columns.deep_view() =~= before.push(view));
        assert(view =~= expected[c as int]);
        c = c + 1;
    }
    assert(columns.deep_view() =~= expected);
    match RecordBatch::try_new_with_rows(schema, columns, positions.len()) {
        Ok(batch) => Ok(batch),
        Err(fault) => Err(DecodeError::Arrow(fault.detail())),
    }
}

/// Builds the batches of all hours.
fn build_partitions(rows: &Vec<Row>, fields: &Vec<DynamicField>, hours: &Vec<EventHour>) -> (result:
    Result<Vec<DecodedPartition>, DecodeError>)
    requires
        forall|i: int| 0 <= i < rows.deep_view().len() ==> row_shaped(#[trigger] rows.deep_view()[i]),
    ensures
        match result {
            Ok(partitions) => partitions_of(
                rows.deep_view(),
                fields.deep_view(),
                hours.deep_view(),
            ) == Ok::<Seq<PartitionView>, DecodeErrorView>(partitions.deep_view()),
            Err(error) => partitions_of(
                rows.deep_view(),
                fields.deep_view(),
                hours.deep_view(),
            ) == Err::<Seq<PartitionView>, DecodeErrorView>(error.deep_view()),
        },
{
    let ghost all = rows.deep_view();
    let ghost names = fields.deep_view();
    let ghost starts = hours.deep_view();
    let mut partitions: Vec<DecodedPartition> = Vec::new();
    let mut i: usize = 0;
    assert(starts.take(0) =~= Seq::empty());
    assert(partitions.deep_view() =~= Seq::empty());
    while i < hours.len()
        invariant
            i <= hours.len(),
            all == rows.deep_view(),
            names == fields.deep_view(),
            starts == hours.deep_view(),
            forall|k: int| 0 <= k < all.len() ==> row_shaped(#[trigger] all[k]),
            partitions_of(all, names, starts.take(i as int)) == Ok::<
                Seq<PartitionView>,
                DecodeErrorView,
            >(partitions.deep_view()),
        decreases hours.len() - i,
    {
        assert(starts.take(i + 1).drop_last() =~= starts.take(i as int));
        assert(starts[i as int] == hours@[i as int]@);
        match build_partition(rows, fields, hours[i]) {
            Ok(batch) => {
                let ghost before = partitions.deep_view();
                let partition = DecodedPartition { hour: hours[i], batch };
                let ghost view = partition.deep_view();
                partitions.push(partition);
                assert(partitions.deep_view() =~= before.push(view));
            },
            Err(error) => {
                proof {
                    lemma_partitions_fail(all, names, starts, i + 1);
                }
                return Err(error);
            },
        }
        i = i + 1;
    }
    assert(starts.take(i as int) =~= starts);
    Ok(partitions)
}

/// Project one logs frame into schema-v1 batches, given what its payload holds.
///
/// `record_index` follows resource, scope, then record order and is not restarted per hour.
/// `event_time_unix_nano` uses the original event time, then the observed time, then the WAL
/// receive time. OTLP zero means the event or observed time is missing. String bodies are stored
/// unchanged; every other present body is canonical JSON. Invalid or all-zero trace and span ids
/// are null. Every partition has the core columns followed by the dynamic columns that the frame
/// admits.
///
/// # Errors
///
/// Returns [`DecodeError`] when the frame carries no logs, its payload could not be parsed, or a
/// value cannot be projected.
pub fn decode_logs_frame(
    frame: &Frame,
    request: &Result<ExportLogsServiceRequest, String>,
    limits: DynamicLimits,
) -> (logs: Result<DecodedLogs, DecodeError>)
    ensures
        match logs {
            Ok(logs) => decoded(frame.stamp(), frame.signal, parsed_request(*request), limits)
                == Ok::<DecodedView, DecodeErrorView>(logs.deep_view()),
            Err(error) => decoded(frame.stamp(), frame.signal, parsed_request(*request), limits)
                == Err::<DecodedView, DecodeErrorView>(error.deep_view()),
        },
{
    if frame.signal != FrameSignal::Logs {
        return Err(DecodeError::UnsupportedSignal(frame.signal));
    }
    let request = match request {
        Ok(request) => request,
        Err(detail) => {
            return Err(DecodeError::InvalidPayload(detail.clone()));
        },
    };
    let rows = read_resources(frame, &request.resource_logs, limits.max_depth)?;
    proof {
        lemma_rows_shaped(frame.stamp(), request.resource_logs@, limits.max_depth as nat);
    }
    let identities = collect_identities(&rows);
    let schema = match discover_dynamic_schema(&identities, limits.max_columns) {
        Ok(schema) => schema,
        Err(error) => {
            return Err(DecodeError::Dynamic(error));
        },
    };
    let hours = collect_hours(&rows);
    let partitions = build_partitions(&rows, &schema.fields, &hours)?;
    Ok(
        DecodedLogs {
            sequence: frame.sequence,
            tenant_id: frame.tenant_id.clone(),
            received_at_unix_nanos: frame.received_at_unix_nanos,
            record_count: rows.len() as u32,
            partitions,
        },
    )
}

// Laws.

/// Whether every row has the sequence of its frame and its own place as record index.
pub open spec fn indexed(stamp: StampView, rows: Seq<RowView>) -> bool {
    &&& rows.len() <= u32::MAX
    &&& forall|i: int|
        0 <= i < rows.len() ==> (#[trigger] rows[i]).cells.len() > 3 && rows[i].cells[2]
            == CellView::UInt64(stamp.sequence) && rows[i].cells[3] == CellView::UInt32(i as u32)
}

proof fn lemma_records_indexed(
    rows: Seq<RowView>,
    stamp: StampView,
    resource: Option<Resource>,
    scope: Option<InstrumentationScope>,
    records: Seq<LogRecord>,
    max_depth: nat,
)
    requires
        indexed(stamp, rows),
        add_records(rows, stamp, resource, scope, records, max_depth) is Ok,
    ensures
        indexed(stamp, add_records(rows, stamp, resource, scope, records, max_depth)->Ok_0),
    decreases records.len(),
{
    if records.len() > 0 {
        lemma_records_indexed(rows, stamp, resource, scope, records.drop_last(), max_depth);
    }
}

proof fn lemma_scopes_indexed(
    rows: Seq<RowView>,
    stamp: StampView,
    resource: Option<Resource>,
    scopes: Seq<ScopeLogs>,
    max_depth: nat,
)
    requires
        indexed(stamp, rows),
        add_scopes(rows, stamp, resource, scopes, max_depth) is Ok,
    ensures
        indexed(stamp, add_scopes(rows, stamp, resource, scopes, max_depth)->Ok_0),
    decreases scopes.len(),
{
    if scopes.len() > 0 {
        lemma_scopes_indexed(rows, stamp, resource, scopes.drop_last(), max_depth);
        lemma_records_indexed(
            add_scopes(rows, stamp, resource, scopes.drop_last(), max_depth)->Ok_0,
            stamp,
            resource,
            scopes.last().scope,
            scopes.last().log_records@,
            max_depth,
        );
    }
}

/// Record indexes follow resource, scope, then record order: the rows of a frame count from zero.
pub proof fn record_indexes_follow_the_source(
    stamp: StampView,
    resources: Seq<ResourceLogs>,
    max_depth: nat,
)
    requires
        rows_of(stamp, resources, max_depth) is Ok,
    ensures
        indexed(stamp, rows_of(stamp, resources, max_depth)->Ok_0),
    decreases resources.len(),
{
    if resources.len() > 0 {
        record_indexes_follow_the_source(stamp, resources.drop_last(), max_depth);
        lemma_scopes_indexed(
            rows_of(stamp, resources.drop_last(), max_depth)->Ok_0,
            stamp,
            resources.last().resource,
            resources.last().scope_logs@,
            max_depth,
        );
    }
}

/// The record index of a row.
pub open spec fn index_of(row: RowView) -> u32 {
    row.cells[3]->UInt32_0
}

proof fn lemma_hour_indexes(stamp: StampView, rows: Seq<RowView>, hour: u64)
    requires
        indexed(stamp, rows),
    ensures
        forall|i: int|
            0 <= i < rows_at(rows, hour).len() ==> rows.contains(#[trigger] rows_at(rows, hour)[i])
                && index_of(rows_at(rows, hour)[i]) < rows.len(),
        forall|i: int, j: int|
            0 <= i < j < rows_at(rows, hour).len() ==> index_of(#[trigger] rows_at(rows, hour)[i])
                < index_of(#[trigger] rows_at(rows, hour)[j]),
    decreases rows.len(),
{
    if rows.len() > 0 {
        let front = rows.drop_last();
        let last = rows[rows.len() - 1];
        assert forall|i: int| 0 <= i < front.len() implies (#[trigger] front[i]).cells.len() > 3
            && front[i].cells[2] == CellView::UInt64(stamp.sequence) && front[i].cells[3]
            == CellView::UInt32(i as u32) by {
            assert(front[i] == rows[i]);
        }
        lemma_hour_indexes(stamp, front, hour);
        let before = rows_at(front, hour);
        let after = rows_at(rows, hour);
        assert(index_of(last) == rows.len() - 1);
        assert forall|i: int| 0 <= i < after.len() implies rows.contains(#[trigger] after[i])
            && index_of(after[i]) < rows.len() by {
            if i < before.len() {
                assert(after[i] == before[i]);
                assert(front.contains(before[i]));
                let k = choose|k: int| 0 <= k < front.len() && front[k] == before[i];
                assert(rows[k] == before[i]);
            } else {
                assert(after[i] == last);
            }
        }
        assert forall|i: int, j: int| 0 <= i < j < after.len() implies index_of(
            #[trigger] after[i],
        ) < index_of(#[trigger] after[j]) by {
            assert(after[i] == before[i]);
            if j < before.len() {
                assert(after[j] == before[j]);
            }
        }
    }
}

proof fn lemma_partition_at(
    rows: Seq<RowView>,
    fields: Seq<DynamicFieldView>,
    hours: Seq<u64>,
    p: int,
)
    requires
        partitions_of(rows, fields, hours) is Ok,
        0 <= p < hours.len(),
    ensures
        partitions_of(rows, fields, hours)->Ok_0.len() == hours.len(),
        partitions_of(rows, fields, hours)->Ok_0[p] == (PartitionView {
            hour: hours[p],
            batch: partition_batch(rows_at(rows, hours[p]), fields),
        }),
    decreases hours.len(),
{
    let front = hours.drop_last();
    if p < front.len() {
        lemma_partition_at(rows, fields, front, p);
    } else if front.len() > 0 {
        lemma_partition_at(rows, fields, front, 0);
    }
}

/// Within an hour, the rows of a frame keep the order of the frame: all have its sequence, and their
/// record indexes ascend. Indexes are not restarted for an hour.
pub proof fn hours_keep_record_order(
    stamp: StampView,
    rows: Seq<RowView>,
    fields: Seq<DynamicFieldView>,
    p: int,
)
    requires
        indexed(stamp, rows),
        partitions_of(rows, fields, hours_of(rows)) is Ok,
        0 <= p < hours_of(rows).len(),
    ensures
        ({
            let batch = partitions_of(rows, fields, hours_of(rows))->Ok_0[p].batch;
            &&& forall|i: int|
                0 <= i < batch.rows ==> #[trigger] batch.columns[2].cells[i] == CellView::UInt64(
                    stamp.sequence,
                )
            &&& forall|i: int, j: int|
                0 <= i < j < batch.rows ==> (#[trigger] batch.columns[3].cells[i])->UInt32_0 < (
                #[trigger] batch.columns[3].cells[j])->UInt32_0
        }),
{
    let hour = hours_of(rows)[p];
    let here = rows_at(rows, hour);
    let batch = partitions_of(rows, fields, hours_of(rows))->Ok_0[p].batch;
    lemma_partition_at(rows, fields, hours_of(rows), p);
    lemma_hour_indexes(stamp, rows, hour);
    assert forall|i: int| 0 <= i < batch.rows implies #[trigger] batch.columns[2].cells[i]
        == CellView::UInt64(stamp.sequence) by {
        assert(rows.contains(here[i]));
        let k = choose|k: int| 0 <= k < rows.len() && rows[k] == here[i];
        assert(rows[k].cells[2] == CellView::UInt64(stamp.sequence));
    }
    assert forall|i: int, j: int| 0 <= i < j < batch.rows implies (
    #[trigger] batch.columns[3].cells[i])->UInt32_0 < (
    #[trigger] batch.columns[3].cells[j])->UInt32_0 by {
        assert(index_of(here[i]) < index_of(here[j]));
    }
}

// What a record's row holds.

/// The records of a request in resource, scope, then record order, each with the resource and the
/// scope that it stands under.
pub open spec fn sources_of(resources: Seq<ResourceLogs>) -> Seq<
    (Option<Resource>, Option<InstrumentationScope>, LogRecord),
>
    decreases resources.len(),
{
    if resources.len() == 0 {
        Seq::empty()
    } else {
        sources_of(resources.drop_last()) + scope_sources(
            resources.last().resource,
            resources.last().scope_logs@,
        )
    }
}

/// The records of the scopes of one resource.
pub open spec fn scope_sources(resource: Option<Resource>, scopes: Seq<ScopeLogs>) -> Seq<
    (Option<Resource>, Option<InstrumentationScope>, LogRecord),
>
    decreases scopes.len(),
{
    if scopes.len() == 0 {
        Seq::empty()
    } else {
        scope_sources(resource, scopes.drop_last()) + scopes.last().log_records@.map_values(
            |record: LogRecord| (resource, scopes.last().scope, record),
        )
    }
}

/// Whether rows are those of records, one by one.
spec fn rows_follow(
    stamp: StampView,
    rows: Seq<RowView>,
    sources: Seq<(Option<Resource>, Option<InstrumentationScope>, LogRecord)>,
    max_depth: nat,
) -> bool {
    &&& rows.len() == sources.len()
    &&& rows.len() <= u32::MAX
    &&& forall|i: int|
        0 <= i < rows.len() ==> row_of(
            stamp,
            sources[i].0,
            sources[i].1,
            sources[i].2,
            i as u32,
            max_depth,
        ) == Some(#[trigger] rows[i])
}

proof fn lemma_records_follow(
    rows: Seq<RowView>,
    sources: Seq<(Option<Resource>, Option<InstrumentationScope>, LogRecord)>,
    stamp: StampView,
    resource: Option<Resource>,
    scope: Option<InstrumentationScope>,
    records: Seq<LogRecord>,
    max_depth: nat,
)
    requires
        rows_follow(stamp, rows, sources, max_depth),
        add_records(rows, stamp, resource, scope, records, max_depth) is Ok,
    ensures
        rows_follow(
            stamp,
            add_records(rows, stamp, resource, scope, records, max_depth)->Ok_0,
            sources + records.map_values(|record: LogRecord| (resource, scope, record)),
            max_depth,
        ),
    decreases records.len(),
{
    let place = |record: LogRecord| (resource, scope, record);
    let all = sources + records.map_values(place);
    if records.len() > 0 {
        let front = records.drop_last();
        lemma_records_follow(rows, sources, stamp, resource, scope, front, max_depth);
        let before = add_records(rows, stamp, resource, scope, front, max_depth)->Ok_0;
        let after = add_records(rows, stamp, resource, scope, records, max_depth)->Ok_0;
        let some = sources + front.map_values(place);
        assert(all =~= some.push((resource, scope, records.last())));
        assert forall|i: int| 0 <= i < after.len() implies row_of(
            stamp,
            all[i].0,
            all[i].1,
            all[i].2,
            i as u32,
            max_depth,
        ) == Some(#[trigger] after[i]) by {
            if i < before.len() {
                assert(after[i] == before[i]);
                assert(all[i] == some[i]);
            }
        }
    } else {
        assert(all =~= sources);
    }
}

proof fn lemma_scopes_follow(
    rows: Seq<RowView>,
    sources: Seq<(Option<Resource>, Option<InstrumentationScope>, LogRecord)>,
    stamp: StampView,
    resource: Option<Resource>,
    scopes: Seq<ScopeLogs>,
    max_depth: nat,
)
    requires
        rows_follow(stamp, rows, sources, max_depth),
        add_scopes(rows, stamp, resource, scopes, max_depth) is Ok,
    ensures
        rows_follow(
            stamp,
            add_scopes(rows, stamp, resource, scopes, max_depth)->Ok_0,
            sources + scope_sources(resource, scopes),
            max_depth,
        ),
    decreases scopes.len(),
{
    if scopes.len() > 0 {
        let front = scopes.drop_last();
        lemma_scopes_follow(rows, sources, stamp, resource, front, max_depth);
        let before = add_scopes(rows, stamp, resource, front, max_depth)->Ok_0;
        let some = sources + scope_sources(resource, front);
        lemma_records_follow(
            before,
            some,
            stamp,
            resource,
            scopes.last().scope,
            scopes.last().log_records@,
            max_depth,
        );
        assert(sources + scope_sources(resource, scopes) =~= some
            + scopes.last().log_records@.map_values(
            |record: LogRecord| (resource, scopes.last().scope, record),
        ));
    } else {
        assert(sources + scope_sources(resource, scopes) =~= sources);
    }
}

proof fn lemma_rows_follow(stamp: StampView, resources: Seq<ResourceLogs>, max_depth: nat)
    requires
        rows_of(stamp, resources, max_depth) is Ok,
    ensures
        rows_follow(
            stamp,
            rows_of(stamp, resources, max_depth)->Ok_0,
            sources_of(resources),
            max_depth,
        ),
    decreases resources.len(),
{
    if resources.len() > 0 {
        let front = resources.drop_last();
        lemma_rows_follow(stamp, front, max_depth);
        lemma_scopes_follow(
            rows_of(stamp, front, max_depth)->Ok_0,
            sources_of(front),
            stamp,
            resources.last().resource,
            resources.last().scope_logs@,
            max_depth,
        );
    }
}

/// Whether an instant is that of a record: its event time where it has one, else the time at which it
/// was observed, else the time at which the frame was received. Zero is no time.
pub open spec fn is_event_time(record: LogRecord, received_at_unix_nanos: u64, time: u64) -> bool {
    &&& record.time_unix_nano != 0 ==> time == record.time_unix_nano
    &&& record.time_unix_nano == 0 && record.observed_time_unix_nano != 0 ==> time
        == record.observed_time_unix_nano
    &&& record.time_unix_nano == 0 && record.observed_time_unix_nano == 0 ==> time
        == received_at_unix_nanos
}

/// Whether a cell holds an id: the bytes where there are as many as there must be and one of them is
/// not zero, and nothing otherwise.
pub open spec fn shows_id(cell: CellView, bytes: Seq<u8>, width: nat) -> bool {
    let valid = bytes.len() == width && exists|i: int|
        0 <= i < bytes.len() && #[trigger] bytes[i] != 0;
    &&& valid ==> cell == CellView::Bytes(bytes)
    &&& !valid ==> cell is Null
}

/// Whether a cell holds the body: a string as it is, nothing where there is none, and any other body
/// as its canonical JSON.
pub open spec fn shows_body(cell: CellView, body: Option<AnyValue>) -> bool {
    match body {
        None => cell is Null,
        Some(value) => match value.value {
            None => cell is Null,
            Some(Value::StringValueStrindex(_)) => cell is Null,
            Some(Value::StringValue(text)) => cell == CellView::Text(text@),
            _ => canonical_json::value_text(value, 0) is Some && cell == CellView::Text(
                canonical_json::value_text(value, 0)->0,
            ),
        },
    }
}

/// Whether a cell holds the service name of a resource: that of its last `service.name`, where that is
/// a string.
pub open spec fn shows_service(cell: CellView, attributes: Seq<KeyValue>) -> bool {
    &&& forall|at: int|
        #[trigger] dynamic::is_last_of_key(attributes, at) && attributes[at].key@
            == SERVICE_NAME_ATTRIBUTE@ ==> match attributes[at].value {
            Some(value) => match value.value {
                Some(Value::StringValue(name)) => cell == CellView::Text(name@),
                _ => cell is Null,
            },
            None => cell is Null,
        }
    &&& (forall|at: int|
        0 <= at < attributes.len() ==> (#[trigger] attributes[at]).key@ != SERVICE_NAME_ATTRIBUTE@)
        ==> cell is Null
}

/// Whether a row of a batch is that of a record: cell by cell in the core columns.
pub open spec fn shows_record(
    batch: BatchView,
    row: int,
    stamp: StampView,
    source: (Option<Resource>, Option<InstrumentationScope>, LogRecord),
    index: int,
) -> bool {
    let record = source.2;
    let resource = match source.0 {
        Some(resource) => resource.attributes@,
        None => Seq::empty(),
    };
    let scope = match source.1 {
        Some(scope) => scope.attributes@,
        None => Seq::empty(),
    };
    &&& batch.columns[0].cells[row] == CellView::UInt16(SCHEMA_VERSION)
    &&& batch.columns[1].cells[row] == CellView::Text(stamp.tenant_id)
    &&& batch.columns[2].cells[row] == CellView::UInt64(stamp.sequence)
    &&& batch.columns[3].cells[row] == CellView::UInt32(index as u32)
    &&& record.time_unix_nano != 0 ==> batch.columns[4].cells[row] == CellView::UInt64(
        record.time_unix_nano,
    )
    &&& record.time_unix_nano == 0 ==> batch.columns[4].cells[row] is Null
    &&& record.observed_time_unix_nano != 0 ==> batch.columns[5].cells[row] == CellView::UInt64(
        record.observed_time_unix_nano,
    )
    &&& record.observed_time_unix_nano == 0 ==> batch.columns[5].cells[row] is Null
    &&& batch.columns[6].cells[row] == CellView::UInt64(stamp.received_at_unix_nanos)
    &&& batch.columns[7].cells[row] is UInt64
    &&& is_event_time(
        record,
        stamp.received_at_unix_nanos,
        batch.columns[7].cells[row]->UInt64_0,
    )
    &&& record.severity_number != 0 ==> batch.columns[8].cells[row] == CellView::Int32(
        record.severity_number,
    )
    &&& record.severity_number == 0 ==> batch.columns[8].cells[row] is Null
    &&& record.severity_text@.len() > 0 ==> batch.columns[9].cells[row] == CellView::Text(
        record.severity_text@,
    )
    &&& record.severity_text@.len() == 0 ==> batch.columns[9].cells[row] is Null
    &&& shows_body(batch.columns[10].cells[row], record.body)
    &&& shows_id(batch.columns[11].cells[row], record.trace_id@, 16)
    &&& shows_id(batch.columns[12].cells[row], record.span_id@, 8)
    &&& shows_service(batch.columns[13].cells[row], resource)
    &&& canonical_json::attributes_text(resource) is Some && batch.columns[14].cells[row]
        == CellView::Text(canonical_json::attributes_text(resource)->0)
    &&& canonical_json::attributes_text(scope) is Some && batch.columns[15].cells[row]
        == CellView::Text(canonical_json::attributes_text(scope)->0)
    &&& canonical_json::attributes_text(record.attributes@) is Some
        && batch.columns[16].cells[row] == CellView::Text(
        canonical_json::attributes_text(record.attributes@)->0,
    )
}

/// Whether the core columns of a batch have their names, in this order.
pub open spec fn core_named(batch: BatchView) -> bool {
    let fields = batch.schema.fields;
    &&& batch.columns.len() == fields.len()
    &&& fields.len() >= 17
    &&& fields[0].name == schema::COLUMN_SCHEMA_VERSION@
    &&& fields[1].name == schema::COLUMN_TENANT_ID@
    &&& fields[2].name == schema::COLUMN_WAL_SEQUENCE@
    &&& fields[3].name == schema::COLUMN_RECORD_INDEX@
    &&& fields[4].name == schema::COLUMN_TIME_UNIX_NANO@
    &&& fields[5].name == schema::COLUMN_OBSERVED_TIME_UNIX_NANO@
    &&& fields[6].name == schema::COLUMN_RECEIVED_TIME_UNIX_NANO@
    &&& fields[7].name == schema::COLUMN_EVENT_TIME_UNIX_NANO@
    &&& fields[8].name == schema::COLUMN_SEVERITY_NUMBER@
    &&& fields[9].name == schema::COLUMN_SEVERITY_TEXT@
    &&& fields[10].name == schema::COLUMN_BODY@
    &&& fields[11].name == schema::COLUMN_TRACE_ID@
    &&& fields[12].name == schema::COLUMN_SPAN_ID@
    &&& fields[13].name == schema::COLUMN_SERVICE_NAME@
    &&& fields[14].name == schema::COLUMN_RESOURCE_ATTRIBUTES@
    &&& fields[15].name == schema::COLUMN_SCOPE_ATTRIBUTES@
    &&& fields[16].name == schema::COLUMN_LOG_ATTRIBUTES@
}

/// Whether an hour is the one that the event time of a row lies in.
pub open spec fn in_its_hour(hour: u64, batch: BatchView, row: int) -> bool {
    &&& hour % schema::NANOS_PER_HOUR == 0
    &&& hour <= batch.columns[7].cells[row]->UInt64_0 < hour + schema::NANOS_PER_HOUR
}

proof fn lemma_service_name(attributes: Seq<KeyValue>)
    ensures
        shows_service(optional_text_cell(service_name_of(attributes)), attributes),
    decreases attributes.len(),
{
    let cell = optional_text_cell(service_name_of(attributes));
    if attributes.len() > 0 {
        let front = attributes.drop_last();
        let end = attributes.len() - 1;
        lemma_service_name(front);
        assert forall|at: int|
            #[trigger] dynamic::is_last_of_key(attributes, at) && attributes[at].key@
                == SERVICE_NAME_ATTRIBUTE@ implies match attributes[at].value {
            Some(value) => match value.value {
                Some(Value::StringValue(name)) => cell == CellView::Text(name@),
                _ => cell is Null,
            },
            None => cell is Null,
        } by {
            if at < end {
                assert(attributes[end].key@ != attributes[at].key@);
                assert(front[at] == attributes[at]);
                assert forall|later: int| at < later < front.len() implies (
                #[trigger] front[later]).key@ != front[at].key@ by {
                    assert(front[later] == attributes[later]);
                }
                assert(dynamic::is_last_of_key(front, at));
            }
        }
        if forall|at: int|
            0 <= at < attributes.len() ==> (#[trigger] attributes[at]).key@
                != SERVICE_NAME_ATTRIBUTE@ {
            assert(attributes[end].key@ != SERVICE_NAME_ATTRIBUTE@);
            assert forall|at: int| 0 <= at < front.len() implies (#[trigger] front[at]).key@
                != SERVICE_NAME_ATTRIBUTE@ by {
                assert(front[at] == attributes[at]);
            }
        }
    }
}

proof fn lemma_row_shows(
    stamp: StampView,
    source: (Option<Resource>, Option<InstrumentationScope>, LogRecord),
    index: int,
    max_depth: nat,
    rows: Seq<RowView>,
    fields: Seq<DynamicFieldView>,
    j: int,
)
    requires
        0 <= index <= u32::MAX,
        0 <= j < rows.len(),
        row_of(stamp, source.0, source.1, source.2, index as u32, max_depth) == Some(rows[j]),
    ensures
        core_named(partition_batch(rows, fields)),
        shows_record(partition_batch(rows, fields), j, stamp, source, index),
        in_its_hour(rows[j].hour, partition_batch(rows, fields), j),
{
    let batch = partition_batch(rows, fields);
    let row = rows[j];
    assert forall|c: int| 0 <= c < 17 implies #[trigger] batch.columns[c].cells[j]
        == row.cells[c] by {
        assert(batch.columns[c] == partition_column(rows, fields, c));
    }
    assert forall|c: int| 0 <= c < 17 implies #[trigger] batch.schema.fields[c]
        == schema::core_fields()[c] by {}
    let time = batch.columns[7].cells[j]->UInt64_0;
    schema::hours_partition_time(time, schema::hour_start(time));
    lemma_service_name(resource_attributes(source.0));
}

proof fn lemma_rows_at_row(rows: Seq<RowView>, hour: u64, i: int) -> (j: int)
    requires
        0 <= i < rows.len(),
        rows[i].hour == hour,
    ensures
        0 <= j < rows_at(rows, hour).len(),
        rows_at(rows, hour)[j] == rows[i],
    decreases rows.len(),
{
    let front = rows.drop_last();
    if i < front.len() {
        lemma_rows_at_row(front, hour, i)
    } else {
        rows_at(front, hour).len() as int
    }
}

proof fn lemma_rows_at_origin(rows: Seq<RowView>, hour: u64, j: int) -> (i: int)
    requires
        0 <= j < rows_at(rows, hour).len(),
    ensures
        0 <= i < rows.len(),
        rows[i].hour == hour,
        rows_at(rows, hour)[j] == rows[i],
    decreases rows.len(),
{
    let front = rows.drop_last();
    if j < rows_at(front, hour).len() {
        lemma_rows_at_origin(front, hour, j)
    } else {
        rows.len() - 1
    }
}

/// Every record of a frame has its row: in the partition of the hour in which its event time lies, and
/// with its own values in the core columns.
pub proof fn every_record_has_its_row(
    stamp: StampView,
    signal: FrameSignal,
    resources: Seq<ResourceLogs>,
    limits: DynamicLimits,
    index: int,
) -> (place: (int, int))
    requires
        decoded(stamp, signal, Ok(resources), limits) is Ok,
        0 <= index < sources_of(resources).len(),
    ensures
        ({
            let logs = decoded(stamp, signal, Ok(resources), limits)->Ok_0;
            let (p, j) = place;
            &&& 0 <= p < logs.partitions.len()
            &&& 0 <= j < logs.partitions[p].batch.rows
            &&& core_named(logs.partitions[p].batch)
            &&& shows_record(logs.partitions[p].batch, j, stamp, sources_of(resources)[index], index)
            &&& in_its_hour(logs.partitions[p].hour, logs.partitions[p].batch, j)
        }),
{
    let max_depth = limits.max_depth as nat;
    let rows = rows_of(stamp, resources, max_depth)->Ok_0;
    let fields = naming::discovered(frame_identities(rows), limits.max_columns as nat)->0;
    lemma_rows_follow(stamp, resources, max_depth);
    hours_cover_the_rows(rows);
    let hours = hours_of(rows);
    let hour = rows[index].hour;
    assert(hours.contains(hour));
    let p = choose|p: int| 0 <= p < hours.len() && hours[p] == hour;
    lemma_partition_at(rows, fields, hours, p);
    let j = lemma_rows_at_row(rows, hour, index);
    lemma_row_shows(
        stamp,
        sources_of(resources)[index],
        index,
        max_depth,
        rows_at(rows, hour),
        fields,
        j,
    );
    (p, j)
}

/// Every row of a frame is that of one of its records, the one of its record index, and there are as
/// many records as the frame says. Hours ascend, and none is without rows.
pub proof fn every_row_has_its_record(
    stamp: StampView,
    signal: FrameSignal,
    resources: Seq<ResourceLogs>,
    limits: DynamicLimits,
    p: int,
    j: int,
) -> (index: int)
    requires
        decoded(stamp, signal, Ok(resources), limits) is Ok,
        0 <= p < decoded(stamp, signal, Ok(resources), limits)->Ok_0.partitions.len(),
        0 <= j < decoded(stamp, signal, Ok(resources), limits)->Ok_0.partitions[p].batch.rows,
    ensures
        ({
            let logs = decoded(stamp, signal, Ok(resources), limits)->Ok_0;
            &&& signal == FrameSignal::Logs
            &&& logs.sequence == stamp.sequence
            &&& logs.tenant_id == stamp.tenant_id
            &&& logs.received_at_unix_nanos == stamp.received_at_unix_nanos
            &&& logs.record_count == sources_of(resources).len()
            &&& 0 <= index < sources_of(resources).len()
            &&& core_named(logs.partitions[p].batch)
            &&& shows_record(logs.partitions[p].batch, j, stamp, sources_of(resources)[index], index)
            &&& in_its_hour(logs.partitions[p].hour, logs.partitions[p].batch, j)
            &&& forall|a: int, b: int|
                0 <= a < b < logs.partitions.len() ==> (#[trigger] logs.partitions[a]).hour < (
                #[trigger] logs.partitions[b]).hour
            &&& forall|a: int|
                0 <= a < logs.partitions.len() ==> (#[trigger] logs.partitions[a]).batch.rows > 0
        }),
{
    let max_depth = limits.max_depth as nat;
    let rows = rows_of(stamp, resources, max_depth)->Ok_0;
    let fields = naming::discovered(frame_identities(rows), limits.max_columns as nat)->0;
    lemma_rows_follow(stamp, resources, max_depth);
    hours_cover_the_rows(rows);
    let hours = hours_of(rows);
    let logs = decoded(stamp, signal, Ok(resources), limits)->Ok_0;
    lemma_partition_count(rows, fields, hours);
    lemma_partition_at(rows, fields, hours, p);
    assert forall|a: int, b: int| 0 <= a < b < logs.partitions.len() implies (
    #[trigger] logs.partitions[a]).hour < (#[trigger] logs.partitions[b]).hour by {
        lemma_partition_at(rows, fields, hours, a);
        lemma_partition_at(rows, fields, hours, b);
    }
    assert forall|a: int| 0 <= a < logs.partitions.len() implies (
    #[trigger] logs.partitions[a]).batch.rows > 0 by {
        lemma_partition_at(rows, fields, hours, a);
        assert(hours.contains(hours[a]));
    }
    let index = lemma_rows_at_origin(rows, hours[p], j);
    lemma_row_shows(
        stamp,
        sources_of(resources)[index],
        index,
        max_depth,
        rows_at(rows, hours[p]),
        fields,
        j,
    );
    index
}

proof fn lemma_partition_count(
    rows: Seq<RowView>,
    fields: Seq<DynamicFieldView>,
    hours: Seq<u64>,
)
    requires
        partitions_of(rows, fields, hours) is Ok,
    ensures
        partitions_of(rows, fields, hours)->Ok_0.len() == hours.len(),
    decreases hours.len(),
{
    if hours.len() > 0 {
        lemma_partition_count(rows, fields, hours.drop_last());
    }
}

// What a record's dynamic columns hold.

/// Whether a cell holds a typed value.
pub open spec fn shows_value(cell: CellView, value: DynamicValueView) -> bool {
    match value {
        DynamicValueView::Bool(flag) => cell == CellView::Bool(flag),
        DynamicValueView::Int64(integer) => cell == CellView::Int64(integer),
        DynamicValueView::Float64(bits) => cell == CellView::Float64(bits),
        DynamicValueView::String(text) => cell == CellView::Text(text),
        DynamicValueView::Bytes(bytes) => cell == CellView::Bytes(bytes),
        DynamicValueView::Json(json) => cell == CellView::Text(json),
    }
}

/// The kind of a typed value.
pub open spec fn is_kind(value: DynamicValueView, kind: DynamicKind) -> bool {
    match value {
        DynamicValueView::Bool(_) => kind == DynamicKind::Bool,
        DynamicValueView::Int64(_) => kind == DynamicKind::Int64,
        DynamicValueView::Float64(_) => kind == DynamicKind::Float64,
        DynamicValueView::String(_) => kind == DynamicKind::String,
        DynamicValueView::Bytes(_) => kind == DynamicKind::Bytes,
        DynamicValueView::Json(_) => kind == DynamicKind::Json,
    }
}

/// Whether the attributes of a record hold a typed value under an identity.
pub open spec fn record_holds(
    source: (Option<Resource>, Option<InstrumentationScope>, LogRecord),
    identity: IdentityView,
    max_depth: nat,
    value: DynamicValueView,
) -> bool {
    is_kind(value, identity.kind) && dynamic::leads_to(
        dynamic::list_of(
            identity.source,
            match source.0 {
                Some(resource) => resource.attributes@,
                None => Seq::empty(),
            },
            match source.1 {
                Some(scope) => scope.attributes@,
                None => Seq::empty(),
            },
            source.2.attributes@,
        ),
        identity.path,
        0,
        max_depth,
        value,
    )
}

proof fn lemma_leaf_value_member(leaves: Seq<LeafView>, identity: IdentityView) -> (at: int)
    requires
        dynamic::leaf_value(leaves, identity) is Some,
    ensures
        0 <= at < leaves.len(),
        leaves[at].identity() == identity,
        leaves[at].value == dynamic::leaf_value(leaves, identity)->0,
    decreases leaves.len(),
{
    if leaves[0].identity() == identity {
        0
    } else {
        lemma_leaf_value_member(leaves.drop_first(), identity) + 1
    }
}

/// What the leaf under an identity says of the record.
proof fn lemma_leaf_of_record(
    stamp: StampView,
    source: (Option<Resource>, Option<InstrumentationScope>, LogRecord),
    index: u32,
    max_depth: nat,
    row: RowView,
    identity: IdentityView,
    value: DynamicValueView,
)
    requires
        row_of(stamp, source.0, source.1, source.2, index, max_depth) == Some(row),
    ensures
        record_holds(source, identity, max_depth, value) <==> dynamic::leaf_value(
            row.leaves,
            identity,
        ) == Some(value),
        record_holds(source, identity, max_depth, value) ==> exists|k: int|
            0 <= k < row.leaves.len() && (#[trigger] row.leaves[k]).identity() == identity,
{
    let resource = resource_attributes(source.0);
    let scope = scope_attributes(source.1);
    let log = source.2.attributes@;
    let leaf = LeafView { source: identity.source, path: identity.path, value };
    dynamic::leaves_are_those_of_the_attributes(resource, scope, log, max_depth, leaf);
    dynamic::leaves_never_overlap(resource, scope, log, max_depth);
    if record_holds(source, identity, max_depth, value) {
        assert(row.leaves.contains(leaf));
        let k = choose|k: int| 0 <= k < row.leaves.len() && row.leaves[k] == leaf;
        assert(row.leaves[k].identity() == identity);
        dynamic::lemma_leaf_found(row.leaves, identity, k);
        let m = lemma_leaf_value_member(row.leaves, identity);
        if m != k {
            assert(row.leaves[m].source == row.leaves[k].source);
            assert(identity.path.take(identity.path.len() as int) =~= identity.path);
            assert(dynamic::continues(row.leaves[m].path, row.leaves[k].path));
        }
    }
    if dynamic::leaf_value(row.leaves, identity) == Some(value) {
        let m = lemma_leaf_value_member(row.leaves, identity);
        assert(row.leaves[m] == leaf);
        assert(row.leaves.contains(leaf));
    }
}

/// The dynamic columns of a frame hold the attributes of its records: behind the core columns stands
/// one column for each admitted identity; in the row of a record it holds the value that the record's
/// attributes have there, and nothing where they have none. An identity that some record has lacks a
/// column only where the cap on columns is reached.
#[verifier::rlimit(60)]
pub proof fn attributes_stand_in_their_columns(
    stamp: StampView,
    signal: FrameSignal,
    resources: Seq<ResourceLogs>,
    limits: DynamicLimits,
    index: int,
) -> (found: (int, int, Seq<DynamicFieldView>))
    requires
        decoded(stamp, signal, Ok(resources), limits) is Ok,
        0 <= index < sources_of(resources).len(),
    ensures
        ({
            let logs = decoded(stamp, signal, Ok(resources), limits)->Ok_0;
            let source = sources_of(resources)[index];
            let (p, j, columns) = found;
            let batch = logs.partitions[p].batch;
            &&& 0 <= p < logs.partitions.len()
            &&& 0 <= j < batch.rows
            &&& shows_record(batch, j, stamp, source, index)
            &&& batch.columns.len() == 17 + columns.len()
            &&& batch.schema.fields.len() == 17 + columns.len()
            &&& columns.len() <= limits.max_columns
            &&& forall|c: int|
                0 <= c < columns.len() ==> (#[trigger] batch.schema.fields[17 + c]).name
                    == columns[c].physical_name && batch.schema.fields[17 + c].nullable
            &&& forall|c: int, value: DynamicValueView|
                0 <= c < columns.len() && #[trigger] record_holds(
                    source,
                    columns[c].identity,
                    limits.max_depth as nat,
                    value,
                ) ==> shows_value(batch.columns[17 + c].cells[j], value)
            &&& forall|c: int|
                0 <= c < columns.len() && (forall|value: DynamicValueView|
                    !record_holds(
                        source,
                        (#[trigger] columns[c]).identity,
                        limits.max_depth as nat,
                        value,
                    )) ==> batch.columns[17 + c].cells[j] is Null
            &&& forall|identity: IdentityView, value: DynamicValueView|
                #[trigger] record_holds(source, identity, limits.max_depth as nat, value)
                    ==> naming::has_column(columns, identity) || columns.len()
                    == limits.max_columns
        }),
{
    let max_depth = limits.max_depth as nat;
    let rows = rows_of(stamp, resources, max_depth)->Ok_0;
    let identities = frame_identities(rows);
    let columns = naming::discovered(identities, limits.max_columns as nat)->0;
    lemma_rows_follow(stamp, resources, max_depth);
    hours_cover_the_rows(rows);
    let hours = hours_of(rows);
    let hour = rows[index].hour;
    let source = sources_of(resources)[index];
    assert(hours.contains(hour));
    let p = choose|p: int| 0 <= p < hours.len() && hours[p] == hour;
    lemma_partition_at(rows, columns, hours, p);
    let here = rows_at(rows, hour);
    let j = lemma_rows_at_row(rows, hour, index);
    let batch = partition_batch(here, columns);
    lemma_row_shows(stamp, source, index, max_depth, here, columns, j);
    naming::columns_fit_the_cap(identities, limits.max_columns as nat, columns);
    assert forall|c: int| 0 <= c < columns.len() implies (
    #[trigger] batch.schema.fields[17 + c]).name == columns[c].physical_name
        && batch.schema.fields[17 + c].nullable by {
        assert(batch.schema.fields[17 + c] == identity::dynamic_field(columns[c]));
    }
    assert forall|c: int| 0 <= c < columns.len() implies #[trigger] batch.columns[17 + c].cells[j]
        == row_cell(rows[index], columns, 17 + c) by {
        assert(batch.columns[17 + c] == partition_column(here, columns, 17 + c));
    }
    assert forall|c: int, value: DynamicValueView|
        0 <= c < columns.len() && #[trigger] record_holds(
            source,
            columns[c].identity,
            max_depth,
            value,
        ) implies shows_value(batch.columns[17 + c].cells[j], value) by {
        lemma_leaf_of_record(
            stamp,
            source,
            index as u32,
            max_depth,
            rows[index],
            columns[c].identity,
            value,
        );
        assert(batch.columns[17 + c].cells[j] == row_cell(rows[index], columns, 17 + c));
    }
    assert forall|c: int|
        0 <= c < columns.len() && (forall|value: DynamicValueView|
            !record_holds(
                source,
                (#[trigger] columns[c]).identity,
                max_depth,
                value,
            )) implies batch.columns[17 + c].cells[j] is Null by {
        assert(batch.columns[17 + c].cells[j] == row_cell(rows[index], columns, 17 + c));
        if dynamic::leaf_value(rows[index].leaves, columns[c].identity) is Some {
            let value = dynamic::leaf_value(rows[index].leaves, columns[c].identity)->0;
            lemma_leaf_of_record(
                stamp,
                source,
                index as u32,
                max_depth,
                rows[index],
                columns[c].identity,
                value,
            );
            assert(record_holds(source, columns[c].identity, max_depth, value));
        }
    }
    assert forall|identity: IdentityView, value: DynamicValueView|
        #[trigger] record_holds(source, identity, max_depth, value) implies naming::has_column(
        columns,
        identity,
    ) || columns.len() == limits.max_columns by {
        lemma_leaf_of_record(
            stamp,
            source,
            index as u32,
            max_depth,
            rows[index],
            identity,
            value,
        );
        let k = choose|k: int|
            0 <= k < rows[index].leaves.len() && (#[trigger] rows[index].leaves[k]).identity()
                == identity;
        let m = lemma_identity_listed(rows, index, k);
        if !naming::has_column(columns, identity) {
            naming::the_cap_keeps_the_first_names(
                identities,
                limits.max_columns as nat,
                columns,
                m,
            );
        }
    }
    (p, j, columns)
}

proof fn lemma_identity_listed(rows: Seq<RowView>, index: int, k: int) -> (m: int)
    requires
        0 <= index < rows.len(),
        0 <= k < rows[index].leaves.len(),
    ensures
        0 <= m < frame_identities(rows).len(),
        frame_identities(rows)[m] == rows[index].leaves[k].identity(),
    decreases rows.len(),
{
    let front = rows.drop_last();
    if index < front.len() {
        lemma_identity_listed(front, index, k)
    } else {
        frame_identities(front).len() + k
    }
}

// When a frame decodes.

/// Whether every attribute value can be encoded: none is nested too deep.
pub open spec fn shallow(attributes: Seq<KeyValue>) -> bool {
    forall|i: int|
        0 <= i < attributes.len() && (#[trigger] attributes[i]).value is Some
            ==> canonical_json::nested_below(attributes[i].value->0, 64)
}

/// Whether nothing in a record is nested too deep.
pub open spec fn shallow_record(record: LogRecord) -> bool {
    shallow(record.attributes@) && (record.body is Some ==> canonical_json::nested_below(
        record.body->0,
        64,
    ))
}

/// Whether nothing in a scope and its records is nested too deep.
pub open spec fn shallow_scope(scope: ScopeLogs) -> bool {
    &&& scope.scope is Some ==> shallow(scope.scope->0.attributes@)
    &&& forall|k: int|
        0 <= k < scope.log_records@.len() ==> shallow_record(#[trigger] scope.log_records@[k])
}

/// Whether nothing in a resource and its scopes is nested too deep.
pub open spec fn shallow_resource(resource: ResourceLogs) -> bool {
    &&& resource.resource is Some ==> shallow(resource.resource->0.attributes@)
    &&& forall|k: int|
        0 <= k < resource.scope_logs@.len() ==> shallow_scope(#[trigger] resource.scope_logs@[k])
}

proof fn lemma_records_decode(
    rows: Seq<RowView>,
    stamp: StampView,
    resource: Option<Resource>,
    scope: Option<InstrumentationScope>,
    records: Seq<LogRecord>,
    max_depth: nat,
)
    requires
        rows.len() + records.len() <= u32::MAX,
        canonical_json::attributes_text(resource_attributes(resource)) is Some,
        canonical_json::attributes_text(scope_attributes(scope)) is Some,
        forall|k: int| 0 <= k < records.len() ==> shallow_record(#[trigger] records[k]),
    ensures
        add_records(rows, stamp, resource, scope, records, max_depth) is Ok,
        add_records(rows, stamp, resource, scope, records, max_depth)->Ok_0.len() == rows.len()
            + records.len(),
    decreases records.len(),
{
    if records.len() > 0 {
        let front = records.drop_last();
        let last = records[records.len() - 1];
        assert forall|k: int| 0 <= k < front.len() implies shallow_record(#[trigger] front[k]) by {
            assert(front[k] == records[k]);
        }
        lemma_records_decode(rows, stamp, resource, scope, front, max_depth);
        assert(shallow_record(last));
        canonical_json::only_deep_attributes_are_refused(last.attributes@, 0);
        if last.body is Some {
            canonical_json::only_deep_values_are_refused(last.body->0, 0);
        }
        dynamic::encodable_attributes_have_leaves(
            resource_attributes(resource),
            scope_attributes(scope),
            last.attributes@,
            max_depth,
        );
    }
}

proof fn lemma_scopes_decode(
    rows: Seq<RowView>,
    stamp: StampView,
    resource: Option<Resource>,
    scopes: Seq<ScopeLogs>,
    max_depth: nat,
)
    requires
        rows.len() + scope_sources(resource, scopes).len() <= u32::MAX,
        canonical_json::attributes_text(resource_attributes(resource)) is Some,
        forall|k: int| 0 <= k < scopes.len() ==> shallow_scope(#[trigger] scopes[k]),
    ensures
        add_scopes(rows, stamp, resource, scopes, max_depth) is Ok,
        add_scopes(rows, stamp, resource, scopes, max_depth)->Ok_0.len() == rows.len()
            + scope_sources(resource, scopes).len(),
    decreases scopes.len(),
{
    if scopes.len() > 0 {
        let front = scopes.drop_last();
        let last = scopes[scopes.len() - 1];
        assert forall|k: int| 0 <= k < front.len() implies shallow_scope(#[trigger] front[k]) by {
            assert(front[k] == scopes[k]);
        }
        lemma_scopes_decode(rows, stamp, resource, front, max_depth);
        assert(shallow_scope(last));
        canonical_json::only_deep_attributes_are_refused(scope_attributes(last.scope), 0);
        lemma_records_decode(
            add_scopes(rows, stamp, resource, front, max_depth)->Ok_0,
            stamp,
            resource,
            last.scope,
            last.log_records@,
            max_depth,
        );
    }
}

proof fn lemma_rows_decode(stamp: StampView, resources: Seq<ResourceLogs>, max_depth: nat)
    requires
        sources_of(resources).len() <= u32::MAX,
        forall|k: int| 0 <= k < resources.len() ==> shallow_resource(#[trigger] resources[k]),
    ensures
        rows_of(stamp, resources, max_depth) is Ok,
        rows_of(stamp, resources, max_depth)->Ok_0.len() == sources_of(resources).len(),
    decreases resources.len(),
{
    if resources.len() > 0 {
        let front = resources.drop_last();
        let last = resources[resources.len() - 1];
        assert forall|k: int| 0 <= k < front.len() implies shallow_resource(
            #[trigger] front[k],
        ) by {
            assert(front[k] == resources[k]);
        }
        lemma_rows_decode(stamp, front, max_depth);
        assert(shallow_resource(last));
        canonical_json::only_deep_attributes_are_refused(resource_attributes(last.resource), 0);
        lemma_scopes_decode(
            rows_of(stamp, front, max_depth)->Ok_0,
            stamp,
            last.resource,
            last.scope_logs@,
            max_depth,
        );
    }
}

/// A logs frame decodes: where nothing in it is nested too deep and its records can be counted, it is
/// refused only where two columns cannot be told apart by their digests, or where the values of an
/// hour take too many bytes.
pub proof fn frames_decode(
    stamp: StampView,
    resources: Seq<ResourceLogs>,
    limits: DynamicLimits,
)
    requires
        sources_of(resources).len() <= u32::MAX,
        forall|k: int| 0 <= k < resources.len() ==> shallow_resource(#[trigger] resources[k]),
    ensures
        match decoded(stamp, FrameSignal::Logs, Ok(resources), limits) {
            Ok(logs) => logs.record_count == sources_of(resources).len(),
            Err(DecodeErrorView::Dynamic(DynamicError::DigestCollision)) => true,
            Err(DecodeErrorView::Arrow(detail)) => detail == BatchFaultView::ValueBytes.text(),
            Err(_) => false,
        },
{
    lemma_rows_decode(stamp, resources, limits.max_depth as nat);
    let rows = rows_of(stamp, resources, limits.max_depth as nat)->Ok_0;
    if naming::discovered(frame_identities(rows), limits.max_columns as nat) is Some {
        let fields = naming::discovered(frame_identities(rows), limits.max_columns as nat)->0;
        lemma_partitions_fault(rows, fields, hours_of(rows));
    }
}

proof fn lemma_partitions_fault(
    rows: Seq<RowView>,
    fields: Seq<DynamicFieldView>,
    hours: Seq<u64>,
)
    ensures
        partitions_of(rows, fields, hours) is Err ==> partitions_of(rows, fields, hours) == Err::<
            Seq<PartitionView>,
            DecodeErrorView,
        >(DecodeErrorView::Arrow(BatchFaultView::ValueBytes.text())),
    decreases hours.len(),
{
    if hours.len() > 0 {
        lemma_partitions_fault(rows, fields, hours.drop_last());
    }
}

} // verus!
