//! OTLP log records as plain values.
use vstd::prelude::*;

verus! {

/// A 64-bit float by its IEEE 754 bits, with the JSON number that stands for a finite one.
#[derive(Debug)]
pub struct Double {
    pub bits: u64,
    pub json: String,
}

/// The value of an attribute or of a log body.
#[derive(Debug)]
pub struct AnyValue {
    pub value: Option<Value>,
}

/// What an [`AnyValue`] holds.
#[derive(Debug)]
pub enum Value {
    StringValue(String),
    BoolValue(bool),
    IntValue(i64),
    DoubleValue(Double),
    ArrayValue(ArrayValue),
    KvlistValue(KeyValueList),
    BytesValue(Vec<u8>),
    /// Index into a string table that only profiles carry.
    StringValueStrindex(i32),
}

/// A list of values.
#[derive(Debug)]
pub struct ArrayValue {
    pub values: Vec<AnyValue>,
}

/// A list of keyed values.
#[derive(Debug)]
pub struct KeyValueList {
    pub values: Vec<KeyValue>,
}

/// One attribute.
#[derive(Debug)]
pub struct KeyValue {
    pub key: String,
    pub value: Option<AnyValue>,
}

/// What produced a group of log records.
#[derive(Debug)]
pub struct Resource {
    pub attributes: Vec<KeyValue>,
}

/// The library that emitted a group of log records.
#[derive(Debug)]
pub struct InstrumentationScope {
    pub attributes: Vec<KeyValue>,
}

/// One log record.
#[derive(Debug)]
pub struct LogRecord {
    pub time_unix_nano: u64,
    pub observed_time_unix_nano: u64,
    pub severity_number: i32,
    pub severity_text: String,
    pub body: Option<AnyValue>,
    pub attributes: Vec<KeyValue>,
    pub trace_id: Vec<u8>,
    pub span_id: Vec<u8>,
}

/// Log records of one scope.
#[derive(Debug)]
pub struct ScopeLogs {
    pub scope: Option<InstrumentationScope>,
    pub log_records: Vec<LogRecord>,
}

/// Log records of one resource.
#[derive(Debug)]
pub struct ResourceLogs {
    pub resource: Option<Resource>,
    pub scope_logs: Vec<ScopeLogs>,
}

/// One request to store log records.
#[derive(Debug)]
pub struct ExportLogsServiceRequest {
    pub resource_logs: Vec<ResourceLogs>,
}

} // verus!
