use std::sync::Arc;

use arrow_array::Array;
use observer::align::MemtableError;
use observer::batch::{total_bytes, Cell, Column, RecordBatch};
use observer::canonical_json::canonical_attributes_json;
use observer::clock::{show_nanos, Clock, ManualClock, SystemClock};
use observer::decode::{decode_logs_frame, DecodeError, DecodedLogs, Frame, FrameSignal};
use observer::dynamic::DynamicLimits;
use observer::generation::Generation;
use observer::identity::{dynamic_identity, DynamicIdentity};
use observer::memtable::{Appended, Memtable, MemtableConfig};
use observer::naming::discover_dynamic_schema;
use observer::otlp::{
    AnyValue, ExportLogsServiceRequest, InstrumentationScope, KeyValue, KeyValueList, LogRecord,
    Resource, ResourceLogs, ScopeLogs, Value,
};
use observer::schema::{
    core_logs_schema, logs_schema, DataType, EventHour, Field, Schema, COLUMN_BODY,
    COLUMN_EVENT_TIME_UNIX_NANO, COLUMN_LOG_ATTRIBUTES, COLUMN_OBSERVED_TIME_UNIX_NANO,
    COLUMN_RECEIVED_TIME_UNIX_NANO, COLUMN_RECORD_INDEX, COLUMN_RESOURCE_ATTRIBUTES,
    COLUMN_SCHEMA_VERSION, COLUMN_SCOPE_ATTRIBUTES, COLUMN_SERVICE_NAME, COLUMN_SEVERITY_NUMBER,
    COLUMN_SEVERITY_TEXT, COLUMN_SPAN_ID, COLUMN_TENANT_ID, COLUMN_TIME_UNIX_NANO,
    COLUMN_TRACE_ID, COLUMN_WAL_SEQUENCE, SCHEMA_VERSION, SERVICE_NAME_ATTRIBUTE,
};

const RECEIVED: u64 = 1_704_067_200_000_000_000;
const HOUR: u64 = 3_600_000_000_000;

// Building requests.

fn any(value: Value) -> AnyValue {
    AnyValue { value: Some(value) }
}

fn string_value(text: &str) -> AnyValue {
    any(Value::StringValue(text.to_owned()))
}

fn attribute(key: &str, value: AnyValue) -> KeyValue {
    KeyValue {
        key: key.to_owned(),
        value: Some(value),
    }
}

fn int_attribute(key: &str, value: i64) -> KeyValue {
    attribute(key, any(Value::IntValue(value)))
}

fn blank() -> LogRecord {
    LogRecord {
        time_unix_nano: 0,
        observed_time_unix_nano: 0,
        severity_number: 0,
        severity_text: String::new(),
        body: None,
        attributes: Vec::new(),
        trace_id: Vec::new(),
        span_id: Vec::new(),
    }
}

fn record(body: &str) -> LogRecord {
    LogRecord {
        body: Some(string_value(body)),
        ..blank()
    }
}

fn scope(log_records: Vec<LogRecord>) -> ScopeLogs {
    ScopeLogs {
        scope: None,
        log_records,
    }
}

fn resource(scope_logs: Vec<ScopeLogs>) -> ResourceLogs {
    ResourceLogs {
        resource: None,
        scope_logs,
    }
}

fn request(resource_logs: Vec<ResourceLogs>) -> ExportLogsServiceRequest {
    ExportLogsServiceRequest { resource_logs }
}

fn frame(signal: FrameSignal) -> Frame {
    Frame {
        sequence: 7,
        signal,
        received_at_unix_nanos: RECEIVED,
        tenant_id: "tenant-a".to_owned(),
        payload: Vec::new(),
    }
}

fn wide() -> DynamicLimits {
    DynamicLimits {
        max_depth: 4,
        max_columns: 32,
    }
}

fn no_columns() -> DynamicLimits {
    DynamicLimits {
        max_depth: 4,
        max_columns: 0,
    }
}

fn decoded(resource_logs: Vec<ResourceLogs>) -> DecodedLogs {
    decode_logs_frame(
        &frame(FrameSignal::Logs),
        &Ok(request(resource_logs)),
        no_columns(),
    )
    .expect("decode")
}

// Reading batches.

fn cell<'a>(batch: &'a RecordBatch, name: &str, row: usize) -> &'a Cell {
    &batch
        .column_by_name(name)
        .unwrap_or_else(|| panic!("missing {name}"))
        .cells[row]
}

fn optional_string(batch: &RecordBatch, name: &str, row: usize) -> Option<String> {
    let cell = cell(batch, name, row);
    if cell.is_null() {
        None
    } else {
        Some(cell.as_text().expect("utf8").clone())
    }
}

fn string_at(batch: &RecordBatch, name: &str, row: usize) -> String {
    optional_string(batch, name, row).expect("text")
}

fn optional_u64(batch: &RecordBatch, name: &str, row: usize) -> Option<u64> {
    let cell = cell(batch, name, row);
    if cell.is_null() {
        None
    } else {
        Some(cell.as_u64().expect("u64"))
    }
}

fn optional_i64(batch: &RecordBatch, name: &str, row: usize) -> Option<i64> {
    let cell = cell(batch, name, row);
    if cell.is_null() {
        None
    } else {
        Some(cell.as_i64().expect("i64"))
    }
}

fn fixed_at<'a>(batch: &'a RecordBatch, name: &str, row: usize) -> Option<&'a [u8]> {
    cell(batch, name, row).as_bytes().map(Vec::as_slice)
}

fn field_named(schema: &Schema, name: &str) -> bool {
    schema.index_of(name).is_some()
}

// Decoding.

#[test]
fn empty_and_invalid_payloads() {
    let empty = decode_logs_frame(
        &frame(FrameSignal::Logs),
        &Ok(request(Vec::new())),
        wide(),
    )
    .expect("empty");
    assert_eq!(empty.sequence, 7);
    assert_eq!(empty.tenant_id, "tenant-a");
    assert_eq!(empty.received_at_unix_nanos, RECEIVED);
    assert_eq!(empty.record_count, 0);
    assert!(empty.partitions.is_empty());

    let decoded = decoded(vec![resource(vec![scope(Vec::new())])]);
    assert_eq!(decoded.record_count, 0);
    assert!(decoded.partitions.is_empty());

    let invalid = decode_logs_frame(
        &frame(FrameSignal::Logs),
        &Err("invalid varint".to_owned()),
        wide(),
    );
    assert!(matches!(invalid, Err(DecodeError::InvalidPayload(_))));
    let traces = decode_logs_frame(
        &frame(FrameSignal::Traces),
        &Ok(request(Vec::new())),
        wide(),
    );
    assert!(matches!(
        traces,
        Err(DecodeError::UnsupportedSignal(FrameSignal::Traces))
    ));
}

#[test]
fn timestamp_fallback_splits_hours_without_restarting_indexes() {
    let decoded = decoded(vec![resource(vec![scope(vec![
        LogRecord {
            time_unix_nano: RECEIVED + 2 * HOUR,
            observed_time_unix_nano: RECEIVED + HOUR,
            ..record("event")
        },
        LogRecord {
            observed_time_unix_nano: RECEIVED + HOUR,
            ..record("observed")
        },
        record("received"),
    ])])]);

    assert_eq!(decoded.record_count, 3);
    assert_eq!(decoded.partitions.len(), 3);
    let expected = [
        (RECEIVED, 2, None, None, "received"),
        (RECEIVED + HOUR, 1, None, Some(RECEIVED + HOUR), "observed"),
        (
            RECEIVED + 2 * HOUR,
            0,
            Some(RECEIVED + 2 * HOUR),
            Some(RECEIVED + HOUR),
            "event",
        ),
    ];
    for (partition, (hour, index, event, observed, body)) in
        decoded.partitions.iter().zip(expected)
    {
        assert_eq!(partition.hour.start_unix_nano(), hour);
        assert!(partition.batch.schema().same(&logs_schema()));
        assert_eq!(partition.batch.num_rows(), 1);
        let batch = &partition.batch;
        assert_eq!(
            cell(batch, COLUMN_SCHEMA_VERSION, 0).as_u16(),
            Some(SCHEMA_VERSION)
        );
        assert_eq!(string_at(batch, COLUMN_TENANT_ID, 0), "tenant-a");
        assert_eq!(optional_u64(batch, COLUMN_WAL_SEQUENCE, 0), Some(7));
        assert_eq!(cell(batch, COLUMN_RECORD_INDEX, 0).as_u32(), Some(index));
        assert_eq!(optional_u64(batch, COLUMN_TIME_UNIX_NANO, 0), event);
        assert_eq!(
            optional_u64(batch, COLUMN_OBSERVED_TIME_UNIX_NANO, 0),
            observed
        );
        assert_eq!(
            optional_u64(batch, COLUMN_RECEIVED_TIME_UNIX_NANO, 0),
            Some(RECEIVED)
        );
        assert_eq!(
            optional_u64(batch, COLUMN_EVENT_TIME_UNIX_NANO, 0),
            Some(hour)
        );
        assert_eq!(
            optional_string(batch, COLUMN_BODY, 0).as_deref(),
            Some(body)
        );
        assert_eq!(string_at(batch, COLUMN_RESOURCE_ATTRIBUTES, 0), "{}");
        assert_eq!(string_at(batch, COLUMN_SCOPE_ATTRIBUTES, 0), "{}");
        assert_eq!(string_at(batch, COLUMN_LOG_ATTRIBUTES, 0), "{}");
    }
}

#[test]
fn same_hour_preserves_source_order_across_resources_and_scopes() {
    let decoded = decoded(vec![
        resource(vec![
            scope(vec![record("r0s0a"), record("r0s0b")]),
            scope(vec![record("r0s1")]),
        ]),
        resource(vec![scope(vec![record("r1s0")])]),
    ]);

    assert_eq!(decoded.partitions.len(), 1);
    let batch = &decoded.partitions[0].batch;
    let bodies: Vec<_> = (0..4)
        .map(|row| string_at(batch, COLUMN_BODY, row))
        .collect();
    assert_eq!(bodies, ["r0s0a", "r0s0b", "r0s1", "r1s0"]);
    let indexes: Vec<_> = (0..4)
        .map(|row| cell(batch, COLUMN_RECORD_INDEX, row).as_u32().expect("u32"))
        .collect();
    assert_eq!(indexes, [0, 1, 2, 3]);
}

#[test]
fn core_fields_service_promotion_and_ignored_metadata() {
    let trace_id = {
        let mut id = [0_u8; 16];
        id[0] = 1;
        id.to_vec()
    };
    let span_id = {
        let mut id = [0_u8; 8];
        id[7] = 2;
        id.to_vec()
    };
    let decoded = decoded(vec![ResourceLogs {
        resource: Some(Resource {
            attributes: vec![
                attribute("z", any(Value::IntValue(1))),
                attribute(SERVICE_NAME_ATTRIBUTE, string_value("old")),
                attribute("a", any(Value::BoolValue(true))),
                attribute(SERVICE_NAME_ATTRIBUTE, string_value("checkout")),
            ],
        }),
        scope_logs: vec![ScopeLogs {
            scope: Some(InstrumentationScope {
                attributes: vec![attribute("scope.key", string_value("scope"))],
            }),
            log_records: vec![LogRecord {
                severity_number: 9,
                severity_text: "INFO".to_owned(),
                body: Some(any(Value::KvlistValue(KeyValueList {
                    values: vec![attribute("message", string_value("structured"))],
                }))),
                attributes: vec![
                    attribute("b", any(Value::IntValue(1))),
                    attribute(SERVICE_NAME_ATTRIBUTE, string_value("not-promoted")),
                    attribute("b", any(Value::IntValue(2))),
                ],
                trace_id: trace_id.clone(),
                span_id: span_id.clone(),
                ..blank()
            }],
        }],
    }]);

    let batch = &decoded.partitions[0].batch;
    assert_eq!(cell(batch, COLUMN_SEVERITY_NUMBER, 0).as_i32(), Some(9));
    assert_eq!(
        optional_string(batch, COLUMN_SEVERITY_TEXT, 0).as_deref(),
        Some("INFO")
    );
    assert_eq!(
        optional_string(batch, COLUMN_BODY, 0).as_deref(),
        Some(r#"{"message":"structured"}"#)
    );
    assert_eq!(
        fixed_at(batch, COLUMN_TRACE_ID, 0),
        Some(trace_id.as_slice())
    );
    assert_eq!(fixed_at(batch, COLUMN_SPAN_ID, 0), Some(span_id.as_slice()));
    assert_eq!(
        optional_string(batch, COLUMN_SERVICE_NAME, 0).as_deref(),
        Some("checkout")
    );
    assert_eq!(
        string_at(batch, COLUMN_RESOURCE_ATTRIBUTES, 0),
        r#"{"a":true,"service.name":"checkout","z":1}"#
    );
    assert_eq!(
        string_at(batch, COLUMN_SCOPE_ATTRIBUTES, 0),
        r#"{"scope.key":"scope"}"#
    );
    assert_eq!(
        string_at(batch, COLUMN_LOG_ATTRIBUTES, 0),
        r#"{"b":2,"service.name":"not-promoted"}"#
    );
    assert!(!field_named(batch.schema(), "event_name"));
    assert!(!field_named(batch.schema(), "flags"));
}

#[test]
fn invalid_ids_missing_body_and_non_string_service_name_are_null() {
    let decoded = decoded(vec![ResourceLogs {
        resource: Some(Resource {
            attributes: vec![
                attribute(SERVICE_NAME_ATTRIBUTE, string_value("api")),
                attribute(SERVICE_NAME_ATTRIBUTE, any(Value::IntValue(5))),
            ],
        }),
        scope_logs: vec![scope(vec![LogRecord {
            body: Some(any(Value::StringValueStrindex(1))),
            trace_id: vec![0; 16],
            span_id: vec![1, 2, 3],
            ..blank()
        }])],
    }]);

    let batch = &decoded.partitions[0].batch;
    assert!(optional_string(batch, COLUMN_SEVERITY_TEXT, 0).is_none());
    assert!(cell(batch, COLUMN_SEVERITY_NUMBER, 0).is_null());
    assert!(optional_string(batch, COLUMN_BODY, 0).is_none());
    assert!(fixed_at(batch, COLUMN_TRACE_ID, 0).is_none());
    assert!(fixed_at(batch, COLUMN_SPAN_ID, 0).is_none());
    assert!(optional_string(batch, COLUMN_SERVICE_NAME, 0).is_none());
    assert_eq!(
        string_at(batch, COLUMN_RESOURCE_ATTRIBUTES, 0),
        r#"{"service.name":5}"#
    );
}

#[test]
fn string_body_is_raw_text_and_bytes_body_is_tagged_json() {
    let decoded = decoded(vec![resource(vec![scope(vec![
        LogRecord {
            time_unix_nano: RECEIVED,
            ..record("")
        },
        LogRecord {
            time_unix_nano: RECEIVED,
            body: Some(any(Value::BytesValue(b"hi".to_vec()))),
            ..blank()
        },
    ])])]);
    let batch = &decoded.partitions[0].batch;
    assert_eq!(optional_string(batch, COLUMN_BODY, 0).as_deref(), Some(""));
    assert_eq!(
        optional_string(batch, COLUMN_BODY, 1).as_deref(),
        Some(r#"{"$bytes":"aGk="}"#)
    );
}

#[test]
fn decoding_the_same_frame_is_deterministic() {
    let once = || decoded(vec![resource(vec![scope(vec![record("one"), record("two")])])]);
    assert_eq!(format!("{:?}", once()), format!("{:?}", once()));
}

#[test]
fn record_indexes_follow_source_order() {
    let records = (0..7)
        .map(|index| LogRecord {
            time_unix_nano: RECEIVED + index * HOUR,
            ..record(&format!("row-{index}"))
        })
        .collect();
    let decoded = decoded(vec![resource(vec![scope(records)])]);
    assert_eq!(decoded.record_count, 7);
    assert_eq!(decoded.partitions.len(), 7);
    for (offset, partition) in decoded.partitions.iter().enumerate() {
        assert_eq!(
            cell(&partition.batch, COLUMN_RECORD_INDEX, 0).as_u32(),
            Some(offset as u32)
        );
        assert_eq!(
            string_at(&partition.batch, COLUMN_BODY, 0),
            format!("row-{offset}")
        );
    }
}

#[test]
fn a_body_nested_too_deep_fails_the_frame() {
    let mut value = any(Value::IntValue(1));
    for _ in 0..64 {
        value = any(Value::KvlistValue(KeyValueList {
            values: vec![attribute("k", value)],
        }));
    }
    let error = decode_logs_frame(
        &frame(FrameSignal::Logs),
        &Ok(request(vec![resource(vec![scope(vec![LogRecord {
            body: Some(value),
            ..blank()
        }])])])),
        wide(),
    )
    .expect_err("too deep");
    assert!(matches!(error, DecodeError::CanonicalJson(_)));
}

// The memtable.

fn config(max_rows: u64, max_bytes: u64, max_frozen: usize) -> MemtableConfig {
    MemtableConfig {
        max_rows,
        max_bytes,
        max_age_nanos: 60_000_000_000,
        max_frozen,
        max_dynamic_columns: 32,
    }
}

fn open(config: MemtableConfig, clock: &ManualClock) -> Memtable {
    Memtable::new("tenant-a", config, Arc::new(clock.clone())).expect("memtable")
}

fn wal_frame(sequence: u64) -> Frame {
    Frame {
        sequence,
        signal: FrameSignal::Logs,
        received_at_unix_nanos: 1,
        tenant_id: "tenant-a".to_owned(),
        payload: Vec::new(),
    }
}

fn logs(sequence: u64, times: &[u64]) -> DecodedLogs {
    let log_records = times
        .iter()
        .map(|time| LogRecord {
            time_unix_nano: *time,
            ..record(&format!("row-{time}"))
        })
        .collect();
    decode_logs_frame(
        &wal_frame(sequence),
        &Ok(request(vec![resource(vec![scope(log_records)])])),
        wide(),
    )
    .expect("decode")
}

fn logs_with(sequence: u64, time: u64, attributes: Vec<KeyValue>) -> DecodedLogs {
    decode_logs_frame(
        &wal_frame(sequence),
        &Ok(request(vec![resource(vec![scope(vec![LogRecord {
            time_unix_nano: time,
            attributes,
            ..record(&format!("row-{time}"))
        }])])])),
        DynamicLimits {
            max_depth: 4,
            max_columns: 64,
        },
    )
    .expect("decode")
}

fn append(table: &mut Memtable, sequence: u64, time: u64) -> Appended {
    table.append(&logs(sequence, &[time])).expect("append")
}

fn bodies(generation: &Generation) -> Vec<String> {
    generation
        .partitions
        .iter()
        .flat_map(|partition| partition.batches.iter())
        .flat_map(|batch| {
            (0..batch.num_rows())
                .map(|row| string_at(batch, COLUMN_BODY, row))
                .collect::<Vec<_>>()
        })
        .collect()
}

fn shown(table: &Memtable) -> String {
    format!("{:?}", table.snapshot())
}

#[test]
fn sequence_range_includes_empty_frames_and_rejects_gaps() {
    let clock = ManualClock::new(0);
    let mut table = open(config(100, u64::MAX, 2), &clock);
    let empty = logs(4, &[]);
    assert_eq!(empty.record_count, 0);
    let appended = table.append(&empty).expect("empty");
    assert!(!appended.sealed);
    let snapshot = table.snapshot();
    let before = shown(&table);
    let active = snapshot.active.as_ref().expect("active");
    assert_eq!(active.first_sequence, 4);
    assert_eq!(active.next_sequence, 5);
    assert_eq!(active.rows, 0);
    assert!(active.partitions.is_empty());

    let error = table.append(&logs(7, &[1])).expect_err("gap");
    assert!(matches!(
        error,
        MemtableError::NonContiguous {
            expected: 5,
            actual: 7
        }
    ));
    assert_eq!(shown(&table), before);

    append(&mut table, 5, 1);
    let active = table.snapshot().active.expect("active");
    assert_eq!((active.first_sequence, active.next_sequence), (4, 6));
    assert_eq!(active.rows, 1);
}

#[test]
fn crossing_frame_stays_in_the_generation_that_freezes() {
    let clock = ManualClock::new(0);
    let mut table = open(config(1, u64::MAX, 2), &clock);
    let first = append(&mut table, 0, 1);
    assert!(!first.sealed);
    assert!(table.snapshot().frozen.is_empty());

    let second = append(&mut table, 1, 2);
    assert!(second.sealed);
    assert_eq!(second.generation_id, first.generation_id);
    let snapshot = table.snapshot();
    assert!(snapshot.active.is_none());
    assert_eq!(snapshot.frozen.len(), 1);
    let frozen = &snapshot.frozen[0];
    assert_eq!((frozen.first_sequence, frozen.next_sequence), (0, 2));
    assert_eq!(frozen.rows, 2);
    assert_eq!(bodies(frozen), ["row-1", "row-2"]);

    let third = append(&mut table, 2, 3);
    assert!(!third.sealed);
    assert_ne!(third.generation_id, frozen.id);
    let snapshot = table.snapshot();
    assert_eq!(snapshot.active.expect("active").first_sequence, 2);
    assert_eq!(snapshot.frozen[0].next_sequence, 2);
}

#[test]
fn one_oversized_frame_is_accepted_and_then_frozen() {
    let clock = ManualClock::new(0);
    let mut table = open(config(1, u64::MAX, 1), &clock);
    let decoded = logs(0, &[1, 2, 3]);
    let appended = table.append(&decoded).expect("oversized");
    assert!(appended.sealed);
    let snapshot = table.snapshot();
    assert!(snapshot.active.is_none());
    assert_eq!(snapshot.frozen[0].rows, 3);
    assert_eq!(snapshot.frozen[0].next_sequence, 1);
}

#[test]
fn byte_limit_uses_arrow_buffer_size() {
    let clock = ManualClock::new(0);
    let decoded = logs(0, &[1]);
    let bytes = decoded
        .partitions
        .iter()
        .map(|partition| partition.batch.get_array_memory_size())
        .sum::<u64>();
    let mut table = open(config(u64::MAX, bytes - 1, 1), &clock);
    let appended = table.append(&decoded).expect("append");
    assert!(appended.sealed);
    assert_eq!(table.snapshot().frozen[0].bytes, bytes);
}

#[test]
fn a_batch_weighs_what_its_arrow_arrays_weigh() {
    let schema = Schema {
        fields: vec![
            Field::new("n", DataType::UInt64, true),
            Field::new("t", DataType::Utf8, true),
        ],
        metadata: observer::sorted::TextMap::new(),
    };
    let batch = RecordBatch::try_new(
        schema,
        vec![
            Column {
                data_type: DataType::UInt64,
                cells: vec![Cell::UInt64(3), Cell::Null],
            },
            Column {
                data_type: DataType::Utf8,
                cells: vec![Cell::Text("hello".to_owned()), Cell::Null],
            },
        ],
    )
    .expect("batch");
    let numbers: arrow_array::UInt64Array = [Some(3_u64), None].into_iter().collect();
    let texts: arrow_array::StringArray = [Some("hello"), None].into_iter().collect();
    assert_eq!(
        batch.get_array_memory_size(),
        (numbers.get_array_memory_size() + texts.get_array_memory_size()) as u64
    );
}

#[test]
fn multi_hour_frame_stays_in_one_generation() {
    let clock = ManualClock::new(0);
    let mut table = open(config(10, u64::MAX, 1), &clock);
    table.append(&logs(0, &[HOUR, 0, HOUR])).expect("append");
    let active = table.snapshot().active.expect("active");
    assert_eq!(active.rows, 3);
    assert_eq!(active.partitions.len(), 2);
    assert_eq!(active.partitions[0].hour, EventHour::containing(0));
    assert_eq!(active.partitions[1].hour, EventHour::containing(HOUR));
    assert_eq!(
        bodies(&active),
        vec![
            "row-0".to_owned(),
            format!("row-{HOUR}"),
            format!("row-{HOUR}")
        ]
    );
}

#[test]
fn same_hour_batches_preserve_append_order() {
    let clock = ManualClock::new(0);
    let mut table = open(config(10, u64::MAX, 1), &clock);
    append(&mut table, 0, 5);
    append(&mut table, 1, 6);
    let active = table.snapshot().active.expect("active");
    assert_eq!(active.partitions.len(), 1);
    assert_eq!(active.partitions[0].batches.len(), 2);
    assert_eq!(bodies(&active), ["row-5", "row-6"]);
}

#[test]
fn age_freezes_before_the_next_frame() {
    let clock = ManualClock::new(1_000);
    let mut config = config(100, u64::MAX, 2);
    config.max_age_nanos = 10;
    let mut table = open(config, &clock);
    append(&mut table, 0, 1);
    clock.set(1_009);
    append(&mut table, 1, 2);
    let still_one = table.snapshot();
    assert_eq!(still_one.frozen.len(), 0);
    assert_eq!(still_one.active.expect("active").rows, 2);

    clock.set(1_010);
    let appended = append(&mut table, 2, 3);
    assert!(!appended.sealed);
    let snapshot = table.snapshot();
    assert_eq!(snapshot.frozen.len(), 1);
    assert_eq!(snapshot.frozen[0].next_sequence, 2);
    assert_eq!(snapshot.frozen[0].rows, 2);
    let active = snapshot.active.expect("active");
    assert_eq!(active.id, appended.generation_id);
    assert_eq!((active.first_sequence, active.next_sequence), (2, 3));
    assert_eq!(active.opened_at_unix_nanos, 1_010);
    assert_eq!(active.rows, 1);
}

#[test]
fn empty_generation_does_not_rotate_for_age() {
    let clock = ManualClock::new(0);
    let mut config = config(100, u64::MAX, 1);
    config.max_age_nanos = 1;
    let mut table = open(config, &clock);
    clock.set(50);
    let appended = append(&mut table, 0, 1);
    assert!(!appended.sealed);
    let snapshot = table.snapshot();
    assert!(snapshot.frozen.is_empty());
    assert_eq!(snapshot.active.expect("active").opened_at_unix_nanos, 50);
}

#[test]
fn frozen_limit_rejects_without_storing_and_release_makes_room() {
    let clock = ManualClock::new(0);
    let mut table = open(config(1, u64::MAX, 1), &clock);
    append(&mut table, 0, 1);
    append(&mut table, 1, 2);
    append(&mut table, 2, 3);
    let before = table.snapshot();
    let before_shown = shown(&table);
    assert_eq!(before.frozen.len(), 1);
    assert_eq!(before.active.as_ref().expect("active").rows, 1);

    let rejected = logs(3, &[4]);
    assert!(matches!(
        table.append(&rejected).expect_err("full"),
        MemtableError::FrozenLimit
    ));
    assert_eq!(shown(&table), before_shown);

    let released = table.release_oldest_frozen().expect("frozen");
    assert_eq!((released.first_sequence, released.next_sequence), (0, 2));
    let appended = table.append(&rejected).expect("retry");
    assert!(appended.sealed);
    let snapshot = table.snapshot();
    assert!(snapshot.active.is_none());
    assert_eq!(snapshot.frozen.len(), 1);
    assert_eq!(snapshot.frozen[0].first_sequence, 2);
    assert_eq!(snapshot.frozen[0].rows, 2);
    assert!(table.release_oldest_frozen().is_some());
    assert!(table.release_oldest_frozen().is_none());
}

#[test]
fn age_and_size_rotation_need_two_frozen_slots() {
    let clock = ManualClock::new(0);
    let mut config = config(1, u64::MAX, 1);
    config.max_age_nanos = 5;
    let mut table = open(config, &clock);
    append(&mut table, 0, 1);
    clock.set(5);
    let before = shown(&table);
    let rejected = table
        .append(&logs(1, &[2, 3]))
        .expect_err("age and size need two slots");
    assert!(matches!(rejected, MemtableError::FrozenLimit));
    assert_eq!(shown(&table), before);

    clock.set(0);
    config.max_frozen = 2;
    let mut table = open(config, &clock);
    append(&mut table, 0, 1);
    clock.set(5);
    let appended = table
        .append(&logs(1, &[2, 3]))
        .expect("two slots available");
    assert!(appended.sealed);
    let snapshot = table.snapshot();
    assert!(snapshot.active.is_none());
    assert_eq!(snapshot.frozen.len(), 2);
    assert_eq!(snapshot.frozen[0].rows, 1);
    assert_eq!(snapshot.frozen[0].next_sequence, 1);
    assert_eq!(snapshot.frozen[1].rows, 2);
    assert_eq!(snapshot.frozen[1].id, appended.generation_id);
}

#[test]
fn snapshot_keeps_the_batches_it_observed() {
    let clock = ManualClock::new(0);
    let mut table = open(config(10, u64::MAX, 2), &clock);
    append(&mut table, 0, 1);
    let first = table.snapshot();
    let first_active = first.active.as_ref().expect("active");
    let first_batch = Arc::clone(&first_active.partitions[0].batches[0]);
    append(&mut table, 1, 2);
    let second = table.snapshot();
    assert!(second.epoch > first.epoch);
    assert_eq!(first_active.partitions[0].batches.len(), 1);
    assert!(Arc::ptr_eq(
        &first_batch,
        &first_active.partitions[0].batches[0]
    ));
    let second_active = second.active.expect("active");
    assert_eq!(second_active.partitions[0].batches.len(), 2);
    assert!(Arc::ptr_eq(
        &first_batch,
        &second_active.partitions[0].batches[0]
    ));
}

#[test]
fn shutdown_rotation_seals_the_active_generation_once() {
    let clock = ManualClock::new(0);
    let mut table = open(config(100, u64::MAX, 1), &clock);
    assert_eq!(table.rotate().expect("empty"), None);
    append(&mut table, 0, 1);
    let sealed = table.rotate().expect("rotate").expect("sealed");
    let snapshot = table.snapshot();
    assert!(snapshot.active.is_none());
    assert_eq!(snapshot.frozen[0].id, sealed);
    assert_eq!(snapshot.frozen[0].rows, 1);
    assert_eq!(table.rotate().expect("already empty"), None);
    assert_eq!(table.snapshot().epoch, snapshot.epoch);

    append(&mut table, 1, 2);
    assert!(matches!(
        table.rotate().expect_err("full"),
        MemtableError::FrozenLimit
    ));
    assert!(table.snapshot().active.is_some());
}

#[test]
fn tenant_mismatch_and_zero_frozen_limit_are_rejected() {
    let clock = ManualClock::new(0);
    let error = match Memtable::new("tenant-a", config(1, 1, 0), Arc::new(clock.clone())) {
        Ok(_) => panic!("config"),
        Err(error) => error,
    };
    assert!(matches!(error, MemtableError::FrozenLimitZero));

    let mut table = open(config(10, u64::MAX, 1), &clock);
    let mut decoded = logs(0, &[1]);
    decoded.tenant_id = "tenant-b".to_owned();
    match table.append(&decoded).expect_err("tenant") {
        MemtableError::TenantMismatch { expected, actual } => {
            assert_eq!(expected, "tenant-a");
            assert_eq!(actual, "tenant-b");
        }
        other => panic!("expected a tenant mismatch, got {other:?}"),
    }
    assert!(table.snapshot().active.is_none());
    let before = shown(&table);
    assert!(matches!(
        table.append(&logs(u64::MAX, &[1])).expect_err("overflow"),
        MemtableError::SequenceOverflow {
            sequence: u64::MAX
        }
    ));
    assert_eq!(shown(&table), before);
}

#[test]
fn system_clock_reports_unix_time() {
    assert!(SystemClock.unix_nanos() > 1_000_000_000_000_000_000);
}

#[test]
fn a_clock_shows_what_fits() {
    assert_eq!(show_nanos(None), 0);
    assert_eq!(show_nanos(Some(17)), 17);
    assert_eq!(show_nanos(Some(u128::MAX)), u64::MAX);
}

#[test]
fn schema_grows_across_frames_and_freeze_fills_missing_columns() {
    let clock = ManualClock::new(0);
    let mut table = open(config(10, u64::MAX, 1), &clock);
    table
        .append(&logs_with(0, 1, vec![int_attribute("a", 1)]))
        .expect("first");
    let before = table.snapshot();
    let before_active = before.active.as_ref().expect("active");
    let before_batch = Arc::clone(&before_active.partitions[0].batches[0]);
    let before_fingerprint = before_active.fingerprint.clone();
    table
        .append(&logs_with(1, 1, vec![int_attribute("b", 2)]))
        .expect("second");
    let active = table.snapshot().active.expect("active");
    assert_ne!(active.fingerprint, before_fingerprint);
    assert_eq!(active.dynamic_fields.len(), 2);
    assert!(before_batch.column_by_name("log_b_i64").is_none());
    assert!(Arc::ptr_eq(&before_batch, &active.partitions[0].batches[0]));
    assert!(field_named(&active.schema, "log_b_i64"));
    assert_eq!(
        optional_i64(&active.partitions[0].batches[1], "log_b_i64", 0),
        Some(2)
    );

    let fingerprint = active.fingerprint.clone();
    table.rotate().expect("rotate").expect("sealed");
    let frozen = &table.snapshot().frozen[0];
    assert_eq!(frozen.fingerprint, fingerprint);
    assert_eq!(frozen.partitions[0].batches.len(), 2);
    for batch in &frozen.partitions[0].batches {
        assert!(batch.schema().same(&frozen.schema));
    }
    assert!(cell(&frozen.partitions[0].batches[0], "log_b_i64", 0).is_null());
    assert_eq!(
        optional_i64(&frozen.partitions[0].batches[0], "log_a_i64", 0),
        Some(1)
    );
    assert_eq!(
        optional_i64(&frozen.partitions[0].batches[1], "log_b_i64", 0),
        Some(2)
    );
    assert!(cell(&frozen.partitions[0].batches[1], "log_a_i64", 0).is_null());
}

fn dotted() -> Vec<KeyValue> {
    vec![int_attribute("http.status", 1)]
}

fn nested() -> Vec<KeyValue> {
    vec![attribute(
        "http",
        any(Value::KvlistValue(KeyValueList {
            values: vec![int_attribute("status", 2)],
        })),
    )]
}

fn identities_of(groups: Vec<Vec<KeyValue>>) -> Vec<DynamicIdentity> {
    groups
        .into_iter()
        .flat_map(|attributes| {
            logs_with(0, 1, attributes)
                .partitions
                .into_iter()
                .flat_map(|partition| {
                    partition
                        .batch
                        .schema()
                        .fields
                        .iter()
                        .filter_map(dynamic_identity)
                        .collect::<Vec<_>>()
                })
        })
        .collect()
}

#[test]
fn late_collision_renames_stored_batches_and_preserves_snapshots() {
    let clock = ManualClock::new(0);
    let mut table = open(config(10, u64::MAX, 1), &clock);
    table.append(&logs_with(0, 1, dotted())).expect("dotted");
    let pinned = table.snapshot();
    let pinned_batch =
        Arc::clone(&pinned.active.as_ref().expect("active").partitions[0].batches[0]);
    assert_eq!(
        pinned_batch.schema().fields[core_logs_schema().fields.len()].name,
        "log_http_status_i64"
    );
    table.append(&logs_with(1, HOUR, nested())).expect("nested");
    let active = table.snapshot().active.expect("active");
    assert!(Arc::ptr_eq(
        &pinned_batch,
        &pinned.active.as_ref().expect("active").partitions[0].batches[0]
    ));
    assert!(!Arc::ptr_eq(
        &pinned_batch,
        &active.partitions[0].batches[0]
    ));
    assert_eq!(active.dynamic_fields.len(), 2);
    assert!(active
        .dynamic_fields
        .iter()
        .all(|field| field.physical_name.starts_with("log_http_status_i64__")));
    let renamed = &active.partitions[0].batches[0];
    let values: Vec<Option<i64>> = active
        .dynamic_fields
        .iter()
        .map(|field| {
            renamed
                .column_by_name(&field.physical_name)
                .map(|_| optional_i64(renamed, &field.physical_name, 0).expect("renamed value"))
        })
        .collect();
    assert!(values.contains(&Some(1)));
    assert!(values.contains(&None));
    let identities = identities_of(vec![dotted(), nested()]);
    let expected = discover_dynamic_schema(&identities, 2).expect("names");
    assert_eq!(
        format!("{:?}", active.dynamic_fields),
        format!("{:?}", expected.fields)
    );

    table.rotate().expect("rotate").expect("sealed");
    let frozen = &table.snapshot().frozen[0];
    assert_eq!(frozen.partitions.len(), 2);
    for batch in frozen
        .partitions
        .iter()
        .flat_map(|partition| &partition.batches)
    {
        assert!(batch.schema().same(&frozen.schema));
        assert_eq!(batch.num_columns(), frozen.schema.fields.len());
    }
}

#[test]
fn generation_cap_keeps_overflow_in_json_only() {
    let clock = ManualClock::new(0);
    let mut config = config(10, u64::MAX, 1);
    config.max_dynamic_columns = 1;
    let mut table = open(config, &clock);
    table
        .append(&logs_with(
            0,
            1,
            vec![int_attribute("b", 2), int_attribute("a", 1)],
        ))
        .expect("capped");
    let active = table.snapshot().active.expect("active");
    assert_eq!(active.dynamic_fields.len(), 1);
    assert_eq!(active.dynamic_fields[0].physical_name, "log_a_i64");
    assert_eq!(
        optional_i64(&active.partitions[0].batches[0], "log_a_i64", 0),
        Some(1)
    );
    assert!(active.partitions[0].batches[0]
        .column_by_name("log_b_i64")
        .is_none());
    assert_eq!(
        string_at(&active.partitions[0].batches[0], COLUMN_LOG_ATTRIBUTES, 0),
        r#"{"a":1,"b":2}"#
    );
    table
        .append(&logs_with(1, 1, vec![int_attribute("c", 3)]))
        .expect("overflow");
    let active = table.snapshot().active.expect("active");
    assert_eq!(active.dynamic_fields.len(), 1);
    assert!(active.partitions[0].batches[1]
        .column_by_name("log_c_i64")
        .is_none());
    assert_eq!(
        string_at(&active.partitions[0].batches[1], COLUMN_LOG_ATTRIBUTES, 0),
        r#"{"c":3}"#
    );
    table.rotate().expect("rotate").expect("sealed");
    let frozen = &table.snapshot().frozen[0];
    assert!(cell(&frozen.partitions[0].batches[1], "log_a_i64", 0).is_null());
    assert!(frozen.schema.same(&active.schema));
}

#[test]
fn fingerprint_matches_for_the_same_admitted_fields() {
    let clock = ManualClock::new(0);
    let mut first = open(config(10, u64::MAX, 1), &clock);
    let mut second = open(config(10, u64::MAX, 1), &clock);
    first
        .append(&logs_with(0, 1, vec![int_attribute("b", 1)]))
        .expect("b");
    first
        .append(&logs_with(1, 1, vec![int_attribute("a", 2)]))
        .expect("a");
    second
        .append(&logs_with(0, HOUR, vec![int_attribute("a", 9)]))
        .expect("a");
    second
        .append(&logs_with(1, 1, vec![int_attribute("b", 8)]))
        .expect("b");
    let left = first.snapshot().active.expect("first");
    let right = second.snapshot().active.expect("second");
    assert_eq!(left.fingerprint, right.fingerprint);
    assert!(left.schema.same(&right.schema));
    assert_eq!(
        format!("{:?}", left.dynamic_fields),
        format!("{:?}", right.dynamic_fields)
    );
}

#[test]
fn generation_overflow_keeps_the_canonical_json() {
    let attributes = || {
        vec![
            int_attribute("d", 4),
            int_attribute("a", 1),
            int_attribute("d", 5),
            int_attribute("c", 3),
        ]
    };
    let clock = ManualClock::new(0);
    let mut limits = config(20, u64::MAX, 1);
    limits.max_dynamic_columns = 1;
    let mut table = open(limits, &clock);
    table.append(&logs_with(0, 1, attributes())).expect("append");
    let active = table.snapshot().active.expect("active");
    assert_eq!(active.dynamic_fields.len(), 1);
    assert_eq!(
        string_at(&active.partitions[0].batches[0], COLUMN_LOG_ATTRIBUTES, 0),
        canonical_attributes_json(&attributes()).expect("json")
    );
}

#[test]
fn a_memtable_resumes_only_while_it_is_empty() {
    let clock = ManualClock::new(0);
    let mut table = open(config(10, u64::MAX, 1), &clock);
    table.resume(9).expect("resume");
    assert!(matches!(
        table.append(&logs(3, &[1])).expect_err("behind"),
        MemtableError::NonContiguous {
            expected: 9,
            actual: 3
        }
    ));
    append(&mut table, 9, 1);
    assert!(matches!(
        table.resume(11).expect_err("not empty"),
        MemtableError::NotResumable
    ));
}

#[test]
fn a_foreign_batch_is_incompatible() {
    let clock = ManualClock::new(0);
    let mut table = open(config(10, u64::MAX, 1), &clock);
    let mut decoded = logs(0, &[1]);
    let schema = Schema {
        fields: vec![Field::new("x", DataType::Int64, true)],
        metadata: observer::sorted::TextMap::new(),
    };
    decoded.partitions[0].batch = RecordBatch::try_new(
        schema,
        vec![Column {
            data_type: DataType::Int64,
            cells: vec![Cell::Null],
        }],
    )
    .expect("batch");
    assert!(matches!(
        table.append(&decoded).expect_err("schema"),
        MemtableError::IncompatibleBatch(_)
    ));
    assert!(table.snapshot().active.is_none());
}

#[test]
fn freezing_and_appending_keep_every_row() {
    let clock = ManualClock::new(0);
    let mut table = open(config(3, u64::MAX, 4), &clock);
    for sequence in 0..6 {
        table
            .append(&logs(sequence, &[1, HOUR + sequence]))
            .expect("append");
        let snapshot = table.snapshot();
        let rows: u64 = snapshot.frozen.iter().map(|frozen| frozen.rows).sum::<u64>()
            + snapshot.active.map_or(0, |active| active.rows);
        assert_eq!(rows, 2 * (sequence + 1));
    }
}

#[test]
fn array_sizes_cover_their_values() {
    let cases = [
        (DataType::Boolean, Cell::Bool(true), 1),
        (DataType::Int32, Cell::Int32(-1), 4),
        (DataType::Int64, Cell::Int64(-1), 8),
        (DataType::UInt16, Cell::UInt16(1), 2),
        (DataType::UInt32, Cell::UInt32(1), 4),
        (DataType::UInt64, Cell::UInt64(1), 8),
        (DataType::Float64, Cell::Float64(1.5_f64.to_bits()), 8),
        (DataType::Utf8, Cell::Text("x".repeat(5_000)), 5_000),
        (DataType::Binary, Cell::Bytes(vec![7; 5_000]), 5_000),
        (DataType::FixedSizeBinary(16), Cell::Bytes(vec![7; 16]), 16),
    ];
    for (data_type, cell, least) in cases {
        let schema = Schema {
            fields: vec![Field::new("value", data_type.clone(), true)],
            metadata: core_logs_schema().metadata,
        };
        let cells: Vec<Cell> = (0..100).map(|_| cell.clone()).collect();
        let column = Column { data_type, cells };
        let batch = RecordBatch::try_new(schema, vec![column]).expect("batch");
        assert!(batch.get_array_memory_size() >= least * 100 / 8);
        if least > 1 {
            assert!(batch.get_array_memory_size() >= least * 100);
        }
    }
}

#[test]
fn a_frame_past_the_byte_limit_freezes_its_generation() {
    let clock = ManualClock::new(0);
    let mut table = open(config(100, 1_000, 2), &clock);
    let body = "x".repeat(2_000);
    let long = decode_logs_frame(
        &wal_frame(0),
        &Ok(request(vec![resource(vec![scope(vec![record(&body)])])])),
        wide(),
    )
    .expect("decode");
    assert!(table.append(&long).expect("append").sealed);
    let snapshot = table.snapshot();
    assert!(snapshot.active.is_none());
    assert_eq!(snapshot.frozen.len(), 1);
    assert!(snapshot.frozen[0].bytes >= 2_000);
}

#[test]
fn generations_of_a_snapshot_adjoin_in_the_order_they_were_opened() {
    let clock = ManualClock::new(0);
    let mut table = open(config(0, u64::MAX, 4), &clock);
    for sequence in 0..3 {
        assert!(append(&mut table, sequence, sequence).sealed);
    }
    let snapshot = table.snapshot();
    assert_eq!(snapshot.frozen.len(), 3);
    for pair in snapshot.frozen.windows(2) {
        assert!(pair[0].id < pair[1].id);
        assert_eq!(pair[0].next_sequence, pair[1].first_sequence);
    }
    for generation in &snapshot.frozen {
        assert!(generation.first_sequence < generation.next_sequence);
        let rows: usize = generation
            .partitions
            .iter()
            .flat_map(|partition| partition.batches.iter().map(|batch| batch.num_rows()))
            .sum();
        assert_eq!(generation.rows, rows as u64);
    }
}

#[test]
fn sizes_add_up_and_saturate() {
    assert_eq!(total_bytes(&Vec::new()), 0);
    assert_eq!(total_bytes(&vec![3, 5, 8]), 16);
    assert_eq!(total_bytes(&vec![u64::MAX - 1, 1]), u64::MAX);
    assert_eq!(total_bytes(&vec![u64::MAX - 1, 2, 7]), u64::MAX);
}
