use observer::batch::{Cell, Column, RecordBatch};
use observer::canonical_json::{
    canonical_any_value_json, canonical_attributes_json, CanonicalJsonError, MAX_JSON_DEPTH,
};
use observer::commit;
use observer::commit::{
    decode, encode, fits, Commit, CommitError, CommitFault, CommitFile, CommitWriteOptions,
};
use observer::dynamic::{
    ordered_field_names, project_dynamic_fields, record_dynamic_values, DynamicColumn,
    DynamicLimits, DynamicProjection, DynamicValue,
};
use observer::identity::{
    dynamic_identity, AttributeSource, DynamicIdentity, DynamicKind, FIELD_KIND, FIELD_PATH,
    FIELD_SOURCE,
};
use observer::layout::{
    commit_file_name, commit_path, commits_directory, hour_directory, hour_end_unix_nano,
    parquet_file_name, parquet_path, retirement_file_name, retirement_path,
    retirements_directory, sync_order, tenant_directory,
};
use observer::naming::{discover_dynamic_schema, normalize_segment, unique_hex_width, DynamicError};
use observer::otlp::{AnyValue, ArrayValue, Double, KeyValue, KeyValueList, Value};
use observer::retirement;
use observer::retirement::{
    RetiredFile, Retirement, RetirementError, RetirementFault, RetirementWriteOptions,
};
use observer::schema::{
    core_logs_schema, logs_batch_schema, logs_schema, schema_fields, DataType, EventHour, Field,
    Schema, COLUMN_BODY, COLUMN_EVENT_TIME_UNIX_NANO, COLUMN_LOG_ATTRIBUTES,
    COLUMN_RECEIVED_TIME_UNIX_NANO, COLUMN_TENANT_ID, COLUMN_WAL_SEQUENCE,
};
use observer::sorted::TextMap;
use observer::statistics::{
    eligible_for_received_retention, file_statistics, statistics_usable, FileStatistics, StatValue,
};

// Canonical JSON.

fn otlp_any(value: Value) -> AnyValue {
    AnyValue { value: Some(value) }
}

fn attribute(key: &str, value: Value) -> KeyValue {
    KeyValue {
        key: key.to_owned(),
        value: Some(otlp_any(value)),
    }
}

fn int_attribute(key: &str, value: i64) -> KeyValue {
    attribute(key, Value::IntValue(value))
}

fn string_attribute(key: &str, value: &str) -> KeyValue {
    attribute(key, Value::StringValue(value.to_owned()))
}

fn double(number: f64) -> Value {
    Value::DoubleValue(Double {
        bits: number.to_bits(),
        json: serde_json::Number::from_f64(number)
            .map(|number| number.to_string())
            .unwrap_or_default(),
    })
}

fn nested_arrays(depth: usize) -> AnyValue {
    let mut value = otlp_any(Value::IntValue(1));
    for _ in 0..depth {
        value = otlp_any(Value::ArrayValue(ArrayValue {
            values: vec![value],
        }));
    }
    value
}

#[test]
fn objects_sort_keys_and_keep_the_last_duplicate() {
    let json = canonical_attributes_json(&[
        int_attribute("b", 1),
        int_attribute("a", 1),
        int_attribute("a", 2),
    ])
    .expect("attributes");
    assert_eq!(json, r#"{"a":2,"b":1}"#);
}

#[test]
fn scalars_arrays_maps_and_tagged_bytes_keep_their_json_types() {
    let body = otlp_any(Value::KvlistValue(KeyValueList {
        values: vec![
            attribute("z", Value::BoolValue(true)),
            attribute(
                "a",
                Value::ArrayValue(ArrayValue {
                    values: vec![
                        otlp_any(Value::IntValue(1)),
                        otlp_any(Value::StringValue("x".to_owned())),
                        AnyValue { value: None },
                        otlp_any(Value::BytesValue(b"hi".to_vec())),
                    ],
                }),
            ),
        ],
    }));
    assert_eq!(
        canonical_any_value_json(&body).expect("value"),
        r#"{"a":[1,"x",null,{"$bytes":"aGk="}],"z":true}"#
    );
}

#[test]
fn non_finite_floats_and_empty_values_are_tagged_or_null() {
    assert_eq!(
        canonical_any_value_json(&otlp_any(double(f64::NAN))).expect("nan"),
        r#"{"$float":"NaN"}"#
    );
    assert_eq!(
        canonical_any_value_json(&otlp_any(double(f64::INFINITY))).expect("infinity"),
        r#"{"$float":"Infinity"}"#
    );
    assert_eq!(
        canonical_any_value_json(&otlp_any(double(f64::NEG_INFINITY))).expect("negative infinity"),
        r#"{"$float":"-Infinity"}"#
    );
    assert_eq!(
        canonical_attributes_json(&[KeyValue {
            key: "missing".to_owned(),
            value: None,
        }])
        .expect("missing"),
        r#"{"missing":null}"#
    );
    assert_eq!(
        canonical_any_value_json(&otlp_any(Value::StringValueStrindex(3))).expect("index"),
        "null"
    );
    assert_eq!(
        canonical_any_value_json(&otlp_any(Value::BytesValue(Vec::new()))).expect("empty"),
        r#"{"$bytes":""}"#
    );
}

#[test]
fn quoted_and_unicode_keys_follow_serde_json() {
    let attributes = [
        int_attribute("a\"b", 1),
        int_attribute("é", 2),
        int_attribute("a", 3),
    ];
    let mut expected = std::collections::BTreeMap::new();
    expected.insert("a\"b".to_owned(), serde_json::Value::from(1));
    expected.insert("é".to_owned(), serde_json::Value::from(2));
    expected.insert("a".to_owned(), serde_json::Value::from(3));
    let expected = serde_json::to_string(&serde_json::Value::Object(expected.into_iter().collect()))
        .expect("expected json");
    assert_eq!(
        canonical_attributes_json(&attributes).expect("attributes"),
        expected
    );
}

#[test]
fn nesting_limit_rejects_one_level_past_the_maximum() {
    assert!(canonical_any_value_json(&nested_arrays(MAX_JSON_DEPTH - 1)).is_ok());
    assert_eq!(
        canonical_any_value_json(&nested_arrays(MAX_JSON_DEPTH)),
        Err(CanonicalJsonError::NestingTooDeep)
    );
    assert_eq!(
        CanonicalJsonError::NestingTooDeep.message(),
        "OTLP value nesting is too deep"
    );
}

#[test]
fn attribute_maps_match_sorted_last_wins() {
    let pairs = [("b", 4), ("", -1), ("b", i64::MIN), ("zz", i64::MAX), ("a", 0)];
    let attributes: Vec<_> = pairs
        .iter()
        .map(|(key, value)| int_attribute(key, *value))
        .collect();
    let mut expected = std::collections::BTreeMap::new();
    for (key, value) in pairs {
        expected.insert(key.to_owned(), serde_json::Value::from(value));
    }
    let expected = serde_json::to_string(&serde_json::Value::Object(expected.into_iter().collect()))
        .unwrap();
    assert_eq!(canonical_attributes_json(&attributes).unwrap(), expected);
}

#[test]
fn finite_doubles_match_json_numbers() {
    for number in [0.0, -0.0, 1.5, -2.25, 1e300, f64::MIN_POSITIVE, f64::MAX] {
        let expected = serde_json::to_string(&serde_json::Value::from(number)).unwrap();
        assert_eq!(
            canonical_any_value_json(&otlp_any(double(number))).unwrap(),
            expected
        );
    }
}

#[test]
fn control_characters_are_escaped() {
    let value = otlp_any(Value::StringValue("a\n\u{1}\\".to_owned()));
    assert_eq!(
        canonical_any_value_json(&value).unwrap(),
        "\"a\\n\\u0001\\\\\""
    );
}

// Schema and hours.

fn nanos(seconds: u64) -> u64 {
    seconds * 1_000_000_000
}

#[test]
fn logs_schema_v1_columns() {
    let schema = logs_schema();
    let fields = schema_fields();
    assert_eq!(schema.fields.len(), fields.len());
    for (index, expected) in fields.iter().enumerate() {
        let field = &schema.fields[index];
        assert_eq!(field.name, expected.name);
        assert!(field.data_type.same(&expected.data_type));
        assert_eq!(field.nullable, expected.nullable);
    }
}

#[test]
fn batch_schema_keeps_core_fields_and_appends_dynamic_ones() {
    assert!(logs_batch_schema(&Vec::new()).same(&logs_schema()));
    let extra = Field::new("log_status_i64", DataType::Int64, true);
    let schema = logs_batch_schema(&vec![extra.clone()]);
    assert_eq!(schema.fields.len(), logs_schema().fields.len() + 1);
    assert!(schema.fields.last().expect("last").same(&extra));
    for (index, field) in logs_schema().fields.iter().enumerate() {
        assert!(schema.fields[index].same(field));
    }
}

#[test]
fn utc_hours_cover_epoch_leap_days_and_boundaries() {
    let cases = [
        (0, (1970, 1, 1), 0),
        (1_699_999_200, (2023, 11, 14), 22),
        (951_782_400, (2000, 2, 29), 0),
        (1_709_164_800, (2024, 2, 29), 0),
        (1_704_067_200, (2024, 1, 1), 0),
    ];
    for (seconds, date, hour) in cases {
        let event_hour = EventHour::containing(nanos(seconds));
        assert_eq!(event_hour.start_unix_nano(), nanos(seconds));
        assert_eq!(event_hour.utc_date(), date);
        assert_eq!(event_hour.utc_hour(), hour);
    }

    let before_new_year = EventHour::containing(nanos(1_704_067_200) - 1);
    assert_eq!(before_new_year.utc_date(), (2023, 12, 31));
    assert_eq!(before_new_year.utc_hour(), 23);
    assert_eq!(before_new_year.start_unix_nano(), nanos(1_704_063_600));
}

#[test]
fn the_last_hour_of_time_is_known() {
    let last = EventHour::containing(u64::MAX);
    assert_eq!(last.utc_date(), (2554, 7, 21));
    assert_eq!(last.utc_hour(), 23);
    assert_eq!(hour_end_unix_nano(last), u64::MAX);
    assert_eq!(hour_end_unix_nano(EventHour::containing(1)), 3_600_000_000_000);
}

// Layout.

#[test]
fn hour_paths_use_the_sequence_range() {
    let hour = EventHour::containing(0);
    let root = "/data";
    assert_eq!(
        hour_directory(root, "tenant-a", hour),
        "/data/tenants/tenant-a/date=1970-01-01/hour=00"
    );
    assert_eq!(parquet_file_name(4, 9), "4-9.parquet");
    assert_eq!(
        parquet_path(root, "tenant-a", hour, 4, 9),
        "/data/tenants/tenant-a/date=1970-01-01/hour=00/4-9.parquet"
    );
}

#[test]
fn directories_are_synced_up_to_the_data_root() {
    assert_eq!(
        sync_order("/data/tenants/a/commits", "/data").expect("below"),
        ["/data/tenants/a/commits", "/data/tenants/a", "/data/tenants", "/data"]
    );
    assert_eq!(sync_order("/data", "/data").expect("same"), ["/data"]);
    assert_eq!(sync_order("/data", "/").expect("root"), ["/data", "/"]);
    assert_eq!(sync_order("a/b", "a").expect("relative"), ["a/b", "a"]);
    assert!(sync_order("/database", "/data").is_none());
    assert!(sync_order("/data", "/data/tenants").is_none());
}

#[test]
fn descriptor_paths_lie_below_the_tenant() {
    assert_eq!(tenant_directory("/data", "a"), "/data/tenants/a");
    assert_eq!(tenant_directory("/data/", "a"), "/data/tenants/a");
    assert_eq!(commits_directory("/data", "a"), "/data/tenants/a/commits");
    assert_eq!(commit_file_name(0, 18), "0-18.commit");
    assert_eq!(commit_path("/data", "a", 0, 18), "/data/tenants/a/commits/0-18.commit");
    assert_eq!(retirements_directory("/data", "a"), "/data/tenants/a/retirements");
    assert_eq!(retirement_file_name(7, u64::MAX), "7-18446744073709551615.retire");
    assert_eq!(
        retirement_path("/data", "a", 7, 8),
        "/data/tenants/a/retirements/7-8.retire"
    );
}

#[test]
fn different_ranges_have_different_names() {
    let ranges = [(1, 11), (11, 1), (1, 1), (111, 0), (0, 111)];
    for left in ranges {
        for right in ranges {
            assert_eq!(
                parquet_file_name(left.0, left.1) == parquet_file_name(right.0, right.1),
                left == right
            );
        }
    }
}

// Commits.

fn metadata(pairs: &[(&str, &str)]) -> TextMap<String> {
    let mut map = TextMap::new();
    for (key, value) in pairs {
        map.insert((*key).to_owned(), (*value).to_owned());
    }
    map
}

fn schema(fields: Vec<Field>) -> Schema {
    Schema {
        fields,
        metadata: TextMap::new(),
    }
}

fn sample_commit(schema: Schema, statistics: Option<FileStatistics>) -> Commit {
    Commit {
        tenant: "tenant-a".to_owned(),
        projection_version: 1,
        fingerprint: "abc".to_owned(),
        schema,
        first_sequence: 4,
        next_sequence: 6,
        rows: 2,
        files: vec![CommitFile {
            hour: EventHour::containing(5),
            relative_path: "date=1970-01-01/hour=00/4-6.parquet".to_owned(),
            rows: 2,
            statistics,
        }],
        start_unix_nano: Some(0),
        end_unix_nano: Some(3_600_000_000_000),
    }
}

#[test]
fn descriptor_round_trips_schema_metadata_and_rejects_a_bad_checksum() {
    let mut dynamic = Field::new("log_a_i64", DataType::Int64, true);
    dynamic.metadata = metadata(&[("observer.attribute.path", r#"["a"]"#)]);
    let commit = sample_commit(
        schema(vec![core_logs_schema().fields[0].clone(), dynamic]),
        None,
    );
    assert!(fits(&commit));
    let bytes = encode(&commit).expect("encode");
    let decoded = decode(&bytes).expect("decode");
    assert_eq!(format!("{decoded:?}"), format!("{commit:?}"));
    let mut corrupt = bytes.clone();
    let last = corrupt.len() - 1;
    corrupt[last] ^= 0x01;
    assert!(matches!(decode(&corrupt), Err(CommitError::Checksum)));
    let mut flipped = bytes.clone();
    flipped[20] ^= 0x40;
    assert!(matches!(decode(&flipped), Err(CommitError::Checksum)));
    assert_eq!(
        decode(&bytes[..10]).expect_err("short").message(),
        "invalid commit: descriptor is truncated"
    );
}

#[test]
fn a_descriptor_ends_with_the_crc32c_of_the_rest() {
    let bytes = encode(&sample_commit(core_logs_schema(), None)).expect("encode");
    let (body, trailer) = bytes.split_at(bytes.len() - 4);
    assert_eq!(trailer, crc32c::crc32c(body).to_le_bytes());
}

#[test]
fn unusable_file_statistics_stay_with_the_file_but_cannot_prune_it() {
    let mut commit = sample_commit(
        core_logs_schema(),
        Some(FileStatistics {
            size_bytes: 8,
            rows: 2,
            event_time_min: 9,
            event_time_max: 1,
            received_time_min: 4,
            received_time_max: 4,
            wal_min: 4,
            wal_max: 4,
            ordered: true,
            columns: Vec::new(),
        }),
    );
    commit.files[0].hour = EventHour::containing(0);
    let decoded = decode(&encode(&commit).expect("encode")).expect("decode");
    assert!(decoded.files[0].statistics.is_none());
    assert_eq!(decoded.files[0].rows, 2);
    assert_eq!(
        decoded.files[0].relative_path,
        commit.files[0].relative_path
    );
}

fn u64_cells(values: &[u64]) -> Vec<Cell> {
    values.iter().map(|value| Cell::UInt64(*value)).collect()
}

fn column(data_type: DataType, cells: Vec<Cell>) -> Column {
    Column { data_type, cells }
}

#[test]
fn received_time_bounds_round_trip_when_statistics_are_usable() {
    let schema = schema(vec![
        Field::new(COLUMN_EVENT_TIME_UNIX_NANO, DataType::UInt64, false),
        Field::new(COLUMN_RECEIVED_TIME_UNIX_NANO, DataType::UInt64, false),
        Field::new(COLUMN_WAL_SEQUENCE, DataType::UInt64, false),
    ]);
    let batch = RecordBatch::try_new(
        schema.clone(),
        vec![
            column(DataType::UInt64, u64_cells(&[5, 8])),
            column(DataType::UInt64, u64_cells(&[50, 100])),
            column(DataType::UInt64, u64_cells(&[4, 5])),
        ],
    )
    .expect("batch");
    let statistics = file_statistics(&schema, &vec![batch], 12);
    let commit = sample_commit(schema, statistics);
    let decoded = decode(&encode(&commit).expect("encode")).expect("decode");
    let statistics = decoded.files[0].statistics.as_ref().expect("statistics");
    assert_eq!(statistics.received_time_min, 50);
    assert_eq!(statistics.received_time_max, 100);
    assert_eq!(statistics.event_time_min, 5);
    assert_eq!(statistics.event_time_max, 8);
}

#[test]
fn an_unsupported_type_cannot_be_committed() {
    let commit = sample_commit(
        schema(vec![Field::new("x", DataType::Other("Date32".to_owned()), true)]),
        None,
    );
    assert_eq!(
        encode(&commit).expect_err("type").message(),
        "invalid commit: unsupported arrow type Date32"
    );
}

#[test]
fn commit_faults_stop_at_their_step() {
    let options = CommitWriteOptions {
        fault: Some(CommitFault::Rename),
    };
    assert!(commit::fail(&options, CommitFault::Create).is_ok());
    assert!(matches!(
        commit::fail(&options, CommitFault::Rename),
        Err(CommitError::Fault(CommitFault::Rename))
    ));
    assert!(commit::fail(&CommitWriteOptions::default(), CommitFault::Rename).is_ok());
}

// Retirements.

fn sample_retirement() -> Retirement {
    Retirement {
        tenant: "tenant-a".to_owned(),
        first_sequence: 0,
        next_sequence: 2,
        received_before_unix_nano: 50,
        files: vec![RetiredFile {
            relative_path: "date=1970-01-01/hour=00/0-2.parquet".to_owned(),
            rows: 2,
        }],
    }
}

#[test]
fn descriptor_round_trips_and_rejects_a_bad_checksum() {
    let retired = sample_retirement();
    let bytes = retirement::encode(&retired).expect("encode");
    let decoded = retirement::decode(&bytes).expect("decode");
    assert_eq!(format!("{decoded:?}"), format!("{retired:?}"));
    let mut corrupt = bytes;
    let last = corrupt.len() - 1;
    corrupt[last] ^= 0x01;
    assert!(matches!(
        retirement::decode(&corrupt),
        Err(RetirementError::Checksum)
    ));
}

#[test]
fn an_empty_range_or_a_bad_path_is_rejected() {
    let mut retired = sample_retirement();
    retired.next_sequence = retired.first_sequence;
    assert!(retirement::encode(&retired).is_err());
    retired.next_sequence = 2;
    retired.files[0].relative_path = "../outside.parquet".to_owned();
    assert!(retirement::encode(&retired).is_err());
}

#[test]
fn retirement_faults_stop_at_their_step() {
    let options = RetirementWriteOptions {
        fault: Some(RetirementFault::SyncDir),
    };
    assert!(retirement::fail(&options, RetirementFault::Rename).is_ok());
    assert!(matches!(
        retirement::fail(&options, RetirementFault::SyncDir),
        Err(RetirementError::Fault(RetirementFault::SyncDir))
    ));
}

// Statistics.

#[test]
fn bounds_cover_scalars_and_skip_json_and_non_finite_floats() {
    let mut json = Field::new("log_doc_json", DataType::Utf8, true);
    json.metadata = metadata(&[(FIELD_KIND, "json")]);
    let schema = schema(vec![
        Field::new(COLUMN_EVENT_TIME_UNIX_NANO, DataType::UInt64, false),
        Field::new(COLUMN_WAL_SEQUENCE, DataType::UInt64, false),
        Field::new("log_a_i64", DataType::Int64, true),
        Field::new(COLUMN_LOG_ATTRIBUTES, DataType::Utf8, false),
        Field::new("log_n_f64", DataType::Float64, true),
        json,
    ]);
    let text = |value: &str| Cell::Text(value.to_owned());
    let batch = RecordBatch::try_new(
        schema.clone(),
        vec![
            column(DataType::UInt64, u64_cells(&[5, 8])),
            column(DataType::UInt64, u64_cells(&[3, 4])),
            column(DataType::Int64, vec![Cell::Int64(4), Cell::Null]),
            column(DataType::Utf8, vec![text("{}"), text("{}")]),
            column(
                DataType::Float64,
                vec![
                    Cell::Float64(1.5_f64.to_bits()),
                    Cell::Float64(f64::NAN.to_bits()),
                ],
            ),
            column(DataType::Utf8, vec![text("[]"), Cell::Null]),
        ],
    )
    .expect("batch");
    let stats = file_statistics(&schema, &vec![batch], 12).expect("stats");
    assert_eq!(stats.rows, 2);
    assert_eq!(stats.event_time_min, 5);
    assert_eq!(stats.event_time_max, 8);
    assert_eq!(stats.wal_min, 3);
    assert_eq!(stats.wal_max, 4);
    let find = |name: &str| {
        stats
            .columns
            .iter()
            .find(|column| column.name == name)
            .expect("column")
    };
    let value = find("log_a_i64");
    assert_eq!(value.null_count, 1);
    let (min, max) = value.bounds.as_ref().expect("bounds");
    assert!(*min == StatValue::Int64(4));
    assert!(*max == StatValue::Int64(4));
    assert!(find(COLUMN_LOG_ATTRIBUTES).bounds.is_none());
    assert!(find("log_n_f64").bounds.is_none());
    assert!(find("log_doc_json").bounds.is_none());
    assert!(statistics_usable(
        &stats,
        &schema,
        stats.rows,
        0,
        3_600_000_000_000,
        0,
        5
    ));
    let mut reversed = stats.clone();
    reversed.event_time_min = 9;
    assert!(!statistics_usable(
        &reversed,
        &schema,
        reversed.rows,
        0,
        3_600_000_000_000,
        0,
        5
    ));
}

#[test]
fn stat_values_are_ordered_within_their_type() {
    let float = |value: f64| StatValue::Float64(value.to_bits());
    assert_eq!(float(-1.0).less_than(&float(0.5)), Some(true));
    assert_eq!(float(0.0).less_than(&float(-0.0)), Some(false));
    assert_eq!(float(-2.0).less_than(&float(-1.0)), Some(true));
    assert!(float(0.0) == float(-0.0));
    assert!(float(f64::NAN) != float(f64::NAN));
    assert_eq!(
        StatValue::Utf8("a".to_owned()).less_than(&StatValue::Utf8("é".to_owned())),
        Some(true)
    );
    assert_eq!(StatValue::Bool(false).less_than(&StatValue::Bool(true)), Some(true));
    assert_eq!(StatValue::Int32(1).less_than(&StatValue::Int64(2)), None);
    assert!(StatValue::UInt16(1).data_type().same(&DataType::UInt16));
}

#[test]
fn only_files_received_before_the_cutoff_are_eligible() {
    let schema = schema(vec![
        Field::new(COLUMN_EVENT_TIME_UNIX_NANO, DataType::UInt64, false),
        Field::new(COLUMN_RECEIVED_TIME_UNIX_NANO, DataType::UInt64, false),
        Field::new(COLUMN_WAL_SEQUENCE, DataType::UInt64, false),
    ]);
    let batch = RecordBatch::try_new(
        schema.clone(),
        vec![
            column(DataType::UInt64, u64_cells(&[5])),
            column(DataType::UInt64, u64_cells(&[100])),
            column(DataType::UInt64, u64_cells(&[4])),
        ],
    )
    .expect("batch");
    let stats = file_statistics(&schema, &vec![batch], 12).expect("stats");
    let hour = EventHour::containing(5);
    let eligible = |cutoff: u64| {
        eligible_for_received_retention(Some(&stats), &schema, 1, hour, 4, 5, cutoff)
    };
    assert!(eligible(101));
    assert!(!eligible(100));
    assert!(!eligible_for_received_retention(None, &schema, 1, hour, 4, 5, 101));
    assert!(!eligible_for_received_retention(Some(&stats), &schema, 2, hour, 4, 5, 101));
}

// Dynamic columns.

fn limits(max_depth: usize, max_columns: usize) -> DynamicLimits {
    DynamicLimits {
        max_depth,
        max_columns,
    }
}

fn kvlist(values: Vec<KeyValue>) -> Value {
    Value::KvlistValue(KeyValueList { values })
}

fn project_log(attributes: &[KeyValue], max_depth: usize) -> DynamicProjection {
    project_dynamic_fields(&[(AttributeSource::Log, attributes)], limits(max_depth, 32))
        .expect("projection")
}

fn dynamic_column<'a>(projection: &'a DynamicProjection, path: &[&str]) -> &'a DynamicColumn {
    projection
        .columns
        .iter()
        .find(|column| {
            column
                .identity
                .path
                .iter()
                .map(String::as_str)
                .eq(path.iter().copied())
        })
        .expect("column")
}

fn value(projection: &DynamicProjection, path: &[&str]) -> String {
    format!("{:?}", dynamic_column(projection, path).value)
}

fn shown(value: DynamicValue) -> String {
    format!("{value:?}")
}

#[test]
fn sources_and_dotted_keys_stay_distinct_from_nested_paths() {
    let attributes = [int_attribute("http.status", 500)];
    let nested = [attribute(
        "http",
        kvlist(vec![int_attribute("status", 200)]),
    )];
    let resource = project_dynamic_fields(
        &[
            (AttributeSource::Resource, attributes.as_slice()),
            (AttributeSource::Scope, attributes.as_slice()),
            (AttributeSource::Log, nested.as_slice()),
        ],
        limits(4, 32),
    )
    .expect("projection");

    assert_eq!(
        dynamic_column(&resource, &["http.status"]).physical_name,
        "resource_http_status_i64"
    );
    assert!(resource
        .columns
        .iter()
        .any(|column| column.physical_name == "scope_http_status_i64"));
    assert_eq!(
        dynamic_column(&resource, &["http", "status"]).physical_name,
        "log_http_status_i64"
    );
    assert_eq!(
        value(&resource, &["http", "status"]),
        shown(DynamicValue::Int64(200))
    );
}

#[test]
fn dotted_and_nested_paths_that_normalize_together_all_receive_suffixes() {
    let attributes = [
        int_attribute("http.status", 1),
        attribute("http", kvlist(vec![int_attribute("status", 2)])),
    ];
    let projection = project_log(&attributes, 4);
    assert_eq!(projection.columns.len(), 2);
    for column in &projection.columns {
        assert!(column.physical_name.starts_with("log_http_status_i64__"));
        assert_eq!(
            column.physical_name.len(),
            "log_http_status_i64__".len() + 8
        );
    }
    assert_ne!(
        projection.columns[0].physical_name,
        projection.columns[1].physical_name
    );
    assert_eq!(
        value(&projection, &["http.status"]),
        shown(DynamicValue::Int64(1))
    );
    assert_eq!(
        value(&projection, &["http", "status"]),
        shown(DynamicValue::Int64(2))
    );
}

#[test]
fn normalization_collisions_keep_both_values() {
    let attributes = [
        int_attribute("HTTP-Status", 1),
        int_attribute("http_status", 2),
    ];
    let projection = project_log(&attributes, 4);
    assert_eq!(
        value(&projection, &["HTTP-Status"]),
        shown(DynamicValue::Int64(1))
    );
    assert_eq!(
        value(&projection, &["http_status"]),
        shown(DynamicValue::Int64(2))
    );
    assert!(projection
        .columns
        .iter()
        .all(|column| column.physical_name.starts_with("log_http_status_i64__")));
}

#[test]
fn scalars_arrays_and_absent_values_map_to_typed_leaves() {
    let attributes = [
        string_attribute("message", "hello"),
        attribute("ok", Value::BoolValue(true)),
        int_attribute("status", 500),
        attribute("latency", double(1.5)),
        attribute("nan", double(f64::NAN)),
        attribute("payload", Value::BytesValue(b"hi".to_vec())),
        attribute(
            "items",
            Value::ArrayValue(ArrayValue {
                values: vec![
                    otlp_any(Value::IntValue(1)),
                    otlp_any(Value::StringValue("x".to_owned())),
                ],
            }),
        ),
        KeyValue {
            key: "missing".to_owned(),
            value: None,
        },
        KeyValue {
            key: "empty".to_owned(),
            value: Some(AnyValue { value: None }),
        },
        attribute("indexed", Value::StringValueStrindex(3)),
    ];
    let projection = project_log(&attributes, 4);
    assert_eq!(
        value(&projection, &["message"]),
        shown(DynamicValue::String("hello".to_owned()))
    );
    assert_eq!(value(&projection, &["ok"]), shown(DynamicValue::Bool(true)));
    assert_eq!(
        value(&projection, &["status"]),
        shown(DynamicValue::Int64(500))
    );
    assert_eq!(
        value(&projection, &["latency"]),
        shown(DynamicValue::Float64(1.5_f64.to_bits()))
    );
    match &dynamic_column(&projection, &["nan"]).value {
        DynamicValue::Float64(bits) => assert!(f64::from_bits(*bits).is_nan()),
        other => panic!("expected nan, got {other:?}"),
    }
    assert_eq!(
        value(&projection, &["payload"]),
        shown(DynamicValue::Bytes(b"hi".to_vec()))
    );
    assert_eq!(
        value(&projection, &["items"]),
        shown(DynamicValue::Json("[1,\"x\"]".to_owned()))
    );
    assert_eq!(
        dynamic_column(&projection, &["items"]).identity.kind,
        DynamicKind::Json
    );
    assert!(projection.columns.iter().all(|column| {
        !matches!(
            column.identity.path.first().map(String::as_str),
            Some("missing" | "empty" | "indexed")
        )
    }));
    for (path, name) in [
        ("status", "log_status_i64"),
        ("message", "log_message_string"),
        ("ok", "log_ok_bool"),
        ("latency", "log_latency_f64"),
        ("payload", "log_payload_bytes"),
        ("items", "log_items_json"),
    ] {
        assert_eq!(dynamic_column(&projection, &[path]).physical_name, name);
    }
}

#[test]
fn arrow_metadata_preserves_the_original_path() {
    let projection = project_log(&[int_attribute("http.status", 500)], 4);
    let field = projection.columns[0].arrow_field();
    assert_eq!(field.name, "log_http_status_i64");
    assert!(field.data_type.same(&DataType::Int64));
    assert!(field.nullable);
    assert_eq!(
        field.metadata.get(FIELD_SOURCE).map(String::as_str),
        Some("log")
    );
    assert_eq!(
        field.metadata.get(FIELD_KIND).map(String::as_str),
        Some("i64")
    );
    assert_eq!(
        field.metadata.get(FIELD_PATH).map(String::as_str),
        Some(r#"["http.status"]"#)
    );
}

#[test]
fn an_identity_is_read_back_from_its_field() {
    let projection = project_log(
        &[attribute("a\"b", kvlist(vec![string_attribute("é", "x")]))],
        4,
    );
    let field = projection.columns[0].arrow_field();
    let identity = dynamic_identity(&field).expect("identity");
    assert_eq!(identity.source, AttributeSource::Log);
    assert_eq!(identity.path, ["a\"b", "é"]);
    assert_eq!(identity.kind, DynamicKind::String);
    assert!(dynamic_identity(&core_logs_schema().fields[0]).is_none());
    let mut broken = field.clone();
    broken.metadata.insert(FIELD_PATH.to_owned(), "{".to_owned());
    assert!(dynamic_identity(&broken).is_none());
}

#[test]
fn depth_boundary_emits_one_json_leaf_and_deeper_limits_flatten() {
    let attributes = [attribute(
        "http",
        kvlist(vec![
            int_attribute("status", 500),
            attribute("request", kvlist(vec![string_attribute("id", "abc")])),
        ]),
    )];

    let stopped = project_log(&attributes, 0);
    assert_eq!(stopped.columns.len(), 1);
    assert_eq!(stopped.columns[0].physical_name, "log_http_json");
    assert_eq!(
        format!("{:?}", stopped.columns[0].value),
        shown(DynamicValue::Json(
            r#"{"request":{"id":"abc"},"status":500}"#.to_owned()
        ))
    );

    let one_level = project_log(&attributes, 1);
    assert_eq!(
        value(&one_level, &["http", "status"]),
        shown(DynamicValue::Int64(500))
    );
    assert_eq!(
        value(&one_level, &["http", "request"]),
        shown(DynamicValue::Json(r#"{"id":"abc"}"#.to_owned()))
    );
    assert_eq!(
        dynamic_column(&one_level, &["http", "request"]).physical_name,
        "log_http_request_json"
    );

    let two_levels = project_log(&attributes, 2);
    assert_eq!(
        value(&two_levels, &["http", "request", "id"]),
        shown(DynamicValue::String("abc".to_owned()))
    );
    assert_eq!(
        dynamic_column(&two_levels, &["http", "request", "id"]).physical_name,
        "log_http_request_id_string"
    );
}

#[test]
fn duplicate_keys_keep_the_last_value_and_drop_replaced_children() {
    let attributes = [
        int_attribute("status", 1),
        string_attribute("status", "ok"),
        attribute("http", kvlist(vec![int_attribute("status", 200)])),
        int_attribute("http", 7),
    ];
    let projection = project_log(&attributes, 4);
    assert_eq!(projection.columns.len(), 2);
    assert_eq!(
        value(&projection, &["status"]),
        shown(DynamicValue::String("ok".to_owned()))
    );
    assert_eq!(value(&projection, &["http"]), shown(DynamicValue::Int64(7)));
}

#[test]
fn leaves_of_a_record_do_not_overlap() {
    let log = [
        int_attribute("a", 1),
        attribute("a", kvlist(vec![int_attribute("b", 2), int_attribute("b", 3)])),
    ];
    let resource = [int_attribute("a", 4)];
    let leaves = record_dynamic_values(&resource, &[], &log, 4).expect("leaves");
    let paths: Vec<_> = leaves
        .iter()
        .map(|leaf| (leaf.source, leaf.path.join("/")))
        .collect();
    assert_eq!(
        paths,
        [
            (AttributeSource::Resource, "a".to_owned()),
            (AttributeSource::Log, "a/b".to_owned()),
        ]
    );
    assert_eq!(
        format!("{:?}", leaves[1].value),
        shown(DynamicValue::Int64(3))
    );
}

#[test]
fn column_cap_keeps_the_first_names_and_reports_overflow() {
    let attributes = [
        int_attribute("c", 3),
        int_attribute("a", 1),
        int_attribute("b", 2),
    ];
    let projection = project_dynamic_fields(
        &[(AttributeSource::Log, attributes.as_slice())],
        limits(4, 2),
    )
    .expect("projection");
    let names: Vec<_> = projection
        .columns
        .iter()
        .map(|column| column.physical_name.as_str())
        .collect();
    assert_eq!(names, ["log_a_i64", "log_b_i64"]);
    assert_eq!(projection.overflow.len(), 1);
    assert_eq!(projection.overflow[0].path, ["c"]);

    let none = project_dynamic_fields(
        &[(AttributeSource::Log, attributes.as_slice())],
        limits(4, 0),
    )
    .expect("empty cap");
    assert!(none.columns.is_empty());
    assert_eq!(none.overflow.len(), 3);
}

#[test]
fn names_are_deterministic_and_core_columns_stay_first() {
    let attributes = [
        int_attribute("HTTP-Status", 1),
        int_attribute("http_status", 2),
    ];
    let first = project_log(&attributes, 4);
    let second = project_log(&attributes, 4);
    assert_eq!(format!("{first:?}"), format!("{second:?}"));
    let core = [COLUMN_TENANT_ID, COLUMN_BODY];
    let names = ordered_field_names(&core, &first.columns);
    assert_eq!(
        names,
        vec![
            COLUMN_TENANT_ID,
            COLUMN_BODY,
            first.columns[0].physical_name.as_str(),
            first.columns[1].physical_name.as_str(),
        ]
    );
}

#[test]
fn json_leaves_deeper_than_the_encoder_allow_fail() {
    let mut value = otlp_any(Value::IntValue(1));
    for _ in 0..MAX_JSON_DEPTH {
        value = otlp_any(Value::KvlistValue(KeyValueList {
            values: vec![KeyValue {
                key: "nested".to_owned(),
                value: Some(value),
            }],
        }));
    }
    let attributes = [KeyValue {
        key: "body".to_owned(),
        value: Some(value),
    }];
    let error = project_dynamic_fields(
        &[(AttributeSource::Log, attributes.as_slice())],
        limits(0, 8),
    )
    .expect_err("too deep");
    assert_eq!(
        error,
        DynamicError::CanonicalJson(CanonicalJsonError::NestingTooDeep)
    );
}

#[test]
fn digest_prefixes_widen_until_they_differ() {
    let shared = "01234567aaaaaaaa".to_owned();
    let other = "01234567bbbbbbbb".to_owned();
    assert_eq!(unique_hex_width(&vec![shared, other]).expect("width"), 16);
    let same = "0123456789abcdef".to_owned();
    assert_eq!(
        unique_hex_width(&vec![same.clone(), same]),
        Err(DynamicError::DigestCollision)
    );
}

#[test]
fn repeated_keys_keep_the_last_integer() {
    let values = [4, i64::MIN, 7, 7, -1];
    let attributes: Vec<_> = values
        .iter()
        .map(|value| int_attribute("status", *value))
        .collect();
    let projection = project_log(&attributes, 2);
    assert_eq!(projection.columns.len(), 1);
    assert_eq!(
        format!("{:?}", projection.columns[0].value),
        shown(DynamicValue::Int64(-1))
    );
    assert_eq!(projection.columns[0].physical_name, "log_status_i64");
}

#[test]
fn segments_are_lowercased_and_underscored() {
    assert_eq!(normalize_segment("HTTP.Status-Code"), "http_status_code");
    assert_eq!(normalize_segment("HTTP-Status"), "http_status");
    assert_eq!(normalize_segment("http2"), "http_");
    assert_eq!(normalize_segment("ÄB9"), "äb_");
    assert_eq!(normalize_segment("a b"), "a_b");
}

#[test]
fn a_column_cap_admits_identities_in_their_order() {
    let identity = |path: &str| DynamicIdentity {
        source: AttributeSource::Scope,
        path: vec![path.to_owned()],
        kind: DynamicKind::Bool,
    };
    let schema =
        discover_dynamic_schema(&vec![identity("b"), identity("a"), identity("b")], 1).expect("schema");
    assert_eq!(schema.fields.len(), 1);
    assert_eq!(schema.fields[0].physical_name, "scope_a_bool");
    assert_eq!(schema.overflow.len(), 1);
    assert_eq!(schema.overflow[0].path, ["b"]);
}

#[test]
fn a_colliding_name_ends_with_the_blake3_digest_of_its_identity() {
    let projection = project_log(
        &[
            int_attribute("HTTP-Status", 1),
            int_attribute("http_status", 2),
        ],
        4,
    );
    for column in &projection.columns {
        let mut bytes = vec![column.identity.source.tag()];
        bytes.extend_from_slice(&(column.identity.path.len() as u64).to_be_bytes());
        for segment in &column.identity.path {
            bytes.extend_from_slice(&(segment.len() as u64).to_be_bytes());
            bytes.extend_from_slice(segment.as_bytes());
        }
        bytes.push(column.identity.kind.tag());
        let digest = blake3::hash(&bytes).to_hex();
        assert_eq!(
            column.physical_name,
            format!("log_http_status_i64__{}", &digest.as_str()[..8])
        );
    }
}

#[test]
fn bytes_are_padded_base64() {
    for (bytes, text) in [
        (vec![0xff], "/w=="),
        (vec![0xfb, 0xf0], "+/A="),
        (vec![0x00, 0x10, 0x83], "ABCD"),
        (vec![0x69, 0xb7, 0x1d, 0x79], "abcdeQ=="),
    ] {
        let value = otlp_any(Value::BytesValue(bytes));
        assert_eq!(
            canonical_any_value_json(&value).unwrap(),
            format!("{{\"$bytes\":\"{text}\"}}")
        );
    }
}

#[test]
fn every_short_escape_is_used() {
    let value = otlp_any(Value::StringValue("\u{8}\t\n\u{c}\r\"\\\u{1f}\u{7f}/é".to_owned()));
    assert_eq!(
        canonical_any_value_json(&value).unwrap(),
        "\"\\b\\t\\n\\f\\r\\\"\\\\\\u001f\u{7f}/é\""
    );
}

#[test]
fn a_refused_batch_says_why() {
    let schema = |nullable: bool| Schema {
        fields: vec![Field::new("a", DataType::Int64, nullable)],
        metadata: TextMap::new(),
    };
    let column = |data_type: DataType, cells: Vec<Cell>| Column { data_type, cells };
    let numbers = || column(DataType::Int64, vec![Cell::Int64(1)]);
    for (result, reason) in [
        (
            RecordBatch::try_new(schema(true), Vec::new()),
            "number of columns(0) must match number of fields(1) in schema",
        ),
        (
            RecordBatch::try_new(
                Schema {
                    fields: Vec::new(),
                    metadata: TextMap::new(),
                },
                Vec::new(),
            ),
            "must either specify a row count or at least one column",
        ),
        (
            RecordBatch::try_new(
                schema(false),
                vec![column(DataType::Int64, vec![Cell::Null])],
            ),
            "Column 'a' is declared as non-nullable but contains null values",
        ),
        (
            RecordBatch::try_new_with_rows(schema(true), vec![numbers()], 2),
            "all columns in a record batch must have the specified row count",
        ),
        (
            RecordBatch::try_new(
                Schema {
                    fields: vec![
                        Field::new("a", DataType::Int64, true),
                        Field::new("b", DataType::Int64, true),
                    ],
                    metadata: TextMap::new(),
                },
                vec![numbers(), column(DataType::Int64, Vec::new())],
            ),
            "all columns in a record batch must have the same length",
        ),
        (
            RecordBatch::try_new(
                schema(true),
                vec![column(DataType::FixedSizeBinary(16), vec![Cell::Null])],
            ),
            "column types must match schema types, expected Int64 but found FixedSizeBinary(16) \
             at column index 0",
        ),
        (
            RecordBatch::try_new(
                schema(true),
                vec![column(DataType::Int64, vec![Cell::Bool(true)])],
            ),
            "a value does not have the type of its column",
        ),
    ] {
        let fault = result.expect_err("refused");
        assert_eq!(fault.reason(), reason);
        assert_eq!(fault.detail(), format!("Invalid argument error: {reason}"));
    }
}
