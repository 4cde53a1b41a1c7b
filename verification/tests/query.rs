use std::sync::Arc;

use observer::catalog::Catalog;
use observer::clock::ManualClock;
use observer::decode::{decode_logs_frame, DecodedLogs, Frame, FrameSignal};
use observer::dynamic::DynamicLimits;
use observer::memtable::MemtableConfig;
use observer::otlp::{AnyValue, ExportLogsServiceRequest, LogRecord, ResourceLogs, ScopeLogs, Value};
use observer::query::{
    admission_outcome, check_statements, ensure_query, ensure_time_left, execution_error, goes_on,
    is_select, memory_exhausted, on_pull, query_task_stopped, Admission, FailureCause, Forwarder,
    ParsedStatement, PollOutcome, PollStep, PullEvent, PullStep, QueryBatchStream, QueryBody,
    QueryEngineConfig, QueryError, QueryOptions, ReadEvent, ReadStep, Reply, LOGS_TABLE,
    MEMORY_POOL_BYTES, QUERY_MAX_ROWS,
};
use observer::recovery::Recovered;
use observer::scan::StoreError;
use observer::schema::{
    EventHour, COLUMN_BODY, COLUMN_EVENT_TIME_UNIX_NANO, COLUMN_WAL_SEQUENCE,
};
use observer::store::Store;
use observer::table::ObserverTableProvider;
use observer::window::{bound_window, hour_window, time_predicate, Expr, Literal, Operator};

const HOUR: u64 = 3_600_000_000_000;

// Statements.

#[test]
fn sql_rejects_non_query_statements() {
    for sql in [
        "",
        "INSERT INTO logs VALUES (1)",
        "EXPLAIN SELECT * FROM logs",
        "SELECT * FROM logs; SELECT * FROM logs",
    ] {
        let error = ensure_query(sql).expect_err("accepted");
        assert!(matches!(error, QueryError::Statement(_)), "{sql}");
    }
}

#[test]
fn each_refused_statement_has_its_message() {
    for (sql, message) in [
        ("", "SQL contains no statement"),
        (" ; ;", "SQL contains no statement"),
        ("SELECT 1; SELECT 2", "SQL contains more than one statement"),
        (
            "DROP TABLE logs",
            "only a single SELECT statement is supported",
        ),
        (
            "CREATE EXTERNAL TABLE t STORED AS PARQUET LOCATION 'x'",
            "only a single SELECT statement is supported",
        ),
        ("VALUES (1)", "only a single SELECT statement is supported"),
        ("(VALUES (1))", "only a single SELECT statement is supported"),
        (
            "SELECT 1 UNION ALL TABLE logs",
            "only a single SELECT statement is supported",
        ),
        (
            "VALUES (1) UNION ALL SELECT 1",
            "only a single SELECT statement is supported",
        ),
        (
            "SELECT 1 UNION ALL VALUES (1)",
            "only a single SELECT statement is supported",
        ),
    ] {
        assert_eq!(ensure_query(sql).expect_err("refused").message(), message);
    }
}

#[test]
fn one_select_is_accepted() {
    assert!(ensure_query("SELECT wal_sequence, body FROM logs ORDER BY wal_sequence LIMIT 100;").is_ok());
    assert!(ensure_query("WITH x AS (SELECT 1) SELECT * FROM x").is_ok());
    assert!(ensure_query("SELECT 1 UNION (SELECT 2 EXCEPT SELECT 3)").is_ok());
    assert_eq!(LOGS_TABLE, "logs");
}

#[test]
fn text_that_does_not_parse_is_a_planning_error() {
    let error = ensure_query("SELEC wal_sequence FROM").expect_err("syntax");
    assert!(matches!(error, QueryError::Planning(_)));
    assert!(error.message().starts_with("query planning: "));
}

#[test]
fn statements_are_judged_by_count_and_kind() {
    let union = |left: QueryBody, right: QueryBody| {
        QueryBody::SetOperation(Box::new(left), Box::new(right))
    };
    let inner = |body: QueryBody| QueryBody::Parenthesized(Box::new(body));
    assert!(is_select(&union(QueryBody::Select, inner(QueryBody::Select))));
    assert!(!is_select(&union(QueryBody::Select, QueryBody::Values)));
    assert!(!is_select(&union(inner(QueryBody::Table), QueryBody::Select)));
    for other in [
        QueryBody::Values,
        QueryBody::Insert,
        QueryBody::Update,
        QueryBody::Delete,
        QueryBody::Merge,
        QueryBody::Table,
        inner(QueryBody::Values),
    ] {
        assert!(check_statements(&vec![ParsedStatement::Query(other)]).is_err());
    }
    let select = || ParsedStatement::Query(QueryBody::Select);
    assert!(check_statements(&vec![select()]).is_ok());
    assert!(check_statements(&vec![ParsedStatement::Other]).is_err());
    assert!(check_statements(&vec![select(), select()]).is_err());
    assert!(check_statements(&Vec::new()).is_err());
}

// Limits.

#[test]
fn concurrency_settings_must_be_at_least_one() {
    let usual = QueryEngineConfig::for_parallelism(4);
    let no_queries = QueryEngineConfig {
        max_concurrent_queries: 0,
        ..usual
    };
    assert!(matches!(no_queries.checked(), Err(QueryError::Resources(_))));
    assert_eq!(
        no_queries.checked().expect_err("queries").message(),
        "query runtime: max_concurrent_queries must be at least 1"
    );
    let no_partitions = QueryEngineConfig {
        target_partitions_per_query: 0,
        ..usual
    };
    assert!(matches!(
        no_partitions.checked(),
        Err(QueryError::Resources(_))
    ));
    assert_eq!(
        no_partitions.checked().expect_err("partitions").message(),
        "query runtime: target_partitions_per_query must be at least 1"
    );
    assert_eq!(usual.checked().expect("usual"), usual);
    assert_eq!(usual.memory_pool_bytes, MEMORY_POOL_BYTES);
    assert_eq!(MEMORY_POOL_BYTES, 256 * 1024 * 1024);
}

#[test]
fn a_query_without_time_does_not_start() {
    let options = QueryOptions::default();
    assert_eq!(options.timeout_nanos, 30_000_000_000);
    assert_eq!(options.max_rows, 10_000);
    assert!(options.start().is_ok());
    let none = QueryOptions {
        timeout_nanos: 0,
        ..options
    };
    assert!(matches!(none.start(), Err(QueryError::Timeout)));
    assert!(ensure_time_left(1).is_ok());
    assert!(ensure_time_left(u128::MAX).is_ok());
    assert!(matches!(ensure_time_left(0), Err(QueryError::Timeout)));
}

#[test]
fn a_query_is_busy_without_a_permit() {
    assert!(admission_outcome(Admission::Granted).is_ok());
    for admission in [Admission::Closed, Admission::Elapsed] {
        assert!(matches!(
            admission_outcome(admission),
            Err(QueryError::Busy)
        ));
    }
}

#[test]
fn errors_have_their_messages() {
    for (error, message) in [
        (QueryError::Timeout, "query timed out"),
        (QueryError::Busy, "query engine is busy"),
        (QueryError::Cancelled, "query cancelled"),
        (
            QueryError::RowLimit { max_rows: 1 },
            "query exceeded 1 returned rows",
        ),
        (
            QueryError::Execution("x".to_owned()),
            "query execution: x",
        ),
        (
            QueryError::Storage(StoreError::Poisoned),
            "store lock is poisoned",
        ),
        (
            query_task_stopped(),
            "query execution: Execution error: query task stopped",
        ),
    ] {
        assert_eq!(error.message(), message);
    }
}

#[test]
fn exhausted_memory_is_found_inside_other_failures() {
    let nested = FailureCause::Within(Box::new(FailureCause::Several(vec![
        FailureCause::Other,
        FailureCause::Within(Box::new(FailureCause::ResourcesExhausted)),
    ])));
    assert!(memory_exhausted(&nested));
    assert!(!memory_exhausted(&FailureCause::Several(vec![
        FailureCause::Other,
        FailureCause::Several(Vec::new()),
    ])));
    assert!(matches!(
        execution_error(&nested, "pool".to_owned()),
        QueryError::Resources(detail) if detail == "pool"
    ));
    assert!(matches!(
        execution_error(&FailureCause::Other, "plan".to_owned()),
        QueryError::Execution(detail) if detail == "plan"
    ));
}

// Running queries.

#[test]
fn timeout_and_row_limit_stop_the_query() {
    let none = QueryOptions {
        timeout_nanos: 0,
        max_rows: QUERY_MAX_ROWS,
    };
    assert!(matches!(none.start(), Err(QueryError::Timeout)));

    let mut forwarder = Forwarder::new(1);
    let mut yielded = 0;
    let mut limited = false;
    for rows in [0, 1, 0, 1, 1] {
        match forwarder.on_read(ReadEvent::Batch { rows }) {
            ReadStep::ReplyBatch => yielded += rows,
            ReadStep::ReplyRowLimit { max_rows: 1 } => {
                limited = true;
                break;
            }
            other => panic!("{other:?}"),
        }
    }
    assert!(yielded <= 1, "yielded {yielded} rows");
    assert!(limited);
}

#[test]
fn batches_beyond_any_count_are_refused() {
    let mut forwarder = Forwarder::new(usize::MAX);
    let whole = ReadEvent::Batch { rows: usize::MAX };
    assert_eq!(forwarder.on_read(whole), ReadStep::ReplyBatch);
    assert_eq!(
        forwarder.on_read(ReadEvent::Batch { rows: 1 }),
        ReadStep::ReplyRowLimit {
            max_rows: usize::MAX
        }
    );
    assert_eq!(
        forwarder.on_read(ReadEvent::Batch { rows: 0 }),
        ReadStep::ReplyBatch
    );
}

#[test]
fn a_query_task_answers_every_event() {
    assert_eq!(on_pull(PullEvent::Deadline), PullStep::DeliverTimeout);
    assert_eq!(on_pull(PullEvent::Closed), PullStep::Stop);
    assert_eq!(
        on_pull(PullEvent::Pull { expired: true }),
        PullStep::ReplyTimeout
    );
    assert_eq!(on_pull(PullEvent::Pull { expired: false }), PullStep::Read);
    let mut forwarder = Forwarder::new(5);
    assert_eq!(
        forwarder.on_read(ReadEvent::Deadline),
        ReadStep::ReplyTimeout
    );
    assert_eq!(forwarder.on_read(ReadEvent::End), ReadStep::ReplyEnd);
    assert_eq!(forwarder.on_read(ReadEvent::Failed), ReadStep::ReplyError);
    assert!(goes_on(ReadStep::ReplyBatch, true));
    assert!(!goes_on(ReadStep::ReplyBatch, false));
    assert!(!goes_on(ReadStep::ReplyEnd, true));
}

#[test]
fn cancelling_the_stream_stops_the_query() {
    let mut stream = QueryBatchStream::new();
    assert_eq!(stream.poll(), PollStep::Send);
    assert!(stream.sent(true));
    assert_eq!(stream.poll(), PollStep::Receive);
    assert_eq!(stream.received(Reply::Waiting), PollOutcome::Pending);
    assert_eq!(stream.received(Reply::Batch), PollOutcome::Batch);
    stream.cancel();
    assert!(!stream.running);
    assert_eq!(stream.poll(), PollStep::Cancelled);
    assert_eq!(stream.poll(), PollStep::End);
    stream.cancel();
    assert_eq!(stream.poll(), PollStep::End);
}

#[test]
fn a_stream_ends_after_its_last_item() {
    for (reply, outcome) in [
        (Reply::Failed, PollOutcome::Failed),
        (Reply::End, PollOutcome::End),
        (Reply::Lost, PollOutcome::Stopped),
    ] {
        let mut stream = QueryBatchStream::new();
        assert_eq!(stream.poll(), PollStep::Send);
        assert!(stream.sent(true));
        assert_eq!(stream.received(reply), outcome);
        assert!(!stream.running);
        assert_eq!(stream.poll(), PollStep::End);
    }
    let mut stream = QueryBatchStream::new();
    assert_eq!(stream.poll(), PollStep::Send);
    assert!(!stream.sent(false));
    assert_eq!(stream.poll(), PollStep::End);
}

// Hour windows.

fn event_time() -> Box<Expr> {
    Box::new(Expr::Column(COLUMN_EVENT_TIME_UNIX_NANO.to_owned()))
}

fn literal(value: u64) -> Box<Expr> {
    Box::new(Expr::Literal(Literal::UInt64(value)))
}

fn compare(operator: Operator, value: u64) -> Expr {
    Expr::Binary(event_time(), operator, literal(value))
}

fn hours(expr: &Expr) -> Vec<bool> {
    let window = time_predicate(expr).expect("time predicate");
    [0, HOUR, 2 * HOUR]
        .into_iter()
        .map(|hour| window.contains(EventHour::containing(hour)))
        .collect()
}

#[test]
fn comparisons_keep_their_boundary_hours() {
    for (operator, value, expected) in [
        (Operator::GtEq, HOUR, [false, true, true]),
        (Operator::GtEq, HOUR - 1, [true, true, true]),
        (Operator::Gt, HOUR - 1, [false, true, true]),
        (Operator::Gt, 1, [true, true, true]),
        (Operator::Lt, HOUR, [true, false, false]),
        (Operator::Lt, HOUR + 1, [true, true, false]),
        (Operator::LtEq, HOUR, [true, true, false]),
        (Operator::Eq, HOUR + 5, [false, true, false]),
        (Operator::Lt, 0, [false, false, false]),
        (Operator::Gt, u64::MAX, [false, false, false]),
        (Operator::LtEq, u64::MAX, [true, true, true]),
    ] {
        assert_eq!(hours(&compare(operator, value)), expected, "{operator:?} {value}");
    }
}

#[test]
fn a_literal_may_stand_on_the_left() {
    let flipped = Expr::Binary(literal(HOUR), Operator::Lt, event_time());
    assert_eq!(hours(&flipped), [false, true, true]);
    let flipped = Expr::Binary(literal(HOUR), Operator::GtEq, event_time());
    assert_eq!(hours(&flipped), [true, true, false]);
}

#[test]
fn casts_and_signed_literals_are_read_through() {
    let expr = Expr::Binary(
        Box::new(Expr::Cast(event_time())),
        Operator::Eq,
        Box::new(Expr::TryCast(Box::new(Expr::Literal(Literal::Int64(
            HOUR as i64,
        ))))),
    );
    assert_eq!(hours(&expr), [false, true, false]);
    let negative = Expr::Binary(
        event_time(),
        Operator::GtEq,
        Box::new(Expr::Literal(Literal::Int64(-1))),
    );
    assert!(time_predicate(&negative).is_none());
    for small in [
        Literal::UInt32(7),
        Literal::UInt16(7),
        Literal::UInt8(7),
        Literal::Int32(7),
        Literal::Int16(7),
        Literal::Int8(7),
    ] {
        let expr = Expr::Binary(event_time(), Operator::LtEq, Box::new(Expr::Literal(small)));
        assert_eq!(hours(&expr), [true, false, false]);
    }
}

#[test]
fn between_and_conjunctions_narrow_the_window() {
    let between = |negated: bool| Expr::Between {
        negated,
        expr: event_time(),
        low: literal(HOUR),
        high: literal(HOUR + 9),
    };
    assert_eq!(hours(&between(false)), [false, true, false]);
    assert!(time_predicate(&between(true)).is_none());
    let both = Expr::Binary(
        Box::new(compare(Operator::GtEq, HOUR)),
        Operator::And,
        Box::new(compare(Operator::Lt, HOUR)),
    );
    assert_eq!(hours(&both), [false, false, false]);
}

fn other_column() -> Expr {
    Expr::Binary(
        Box::new(Expr::Column(COLUMN_BODY.to_owned())),
        Operator::Eq,
        Box::new(Expr::Literal(Literal::Other)),
    )
}

#[test]
fn other_predicates_leave_every_hour() {
    for expr in [
        other_column(),
        Expr::Other,
        compare(Operator::NotEq, HOUR),
        Expr::Binary(
            Box::new(compare(Operator::GtEq, HOUR)),
            Operator::Or,
            Box::new(compare(Operator::Lt, 1)),
        ),
        Expr::Binary(
            Box::new(compare(Operator::GtEq, HOUR)),
            Operator::And,
            Box::new(other_column()),
        ),
    ] {
        assert!(time_predicate(&expr).is_none(), "{expr:?}");
        assert!(hour_window(&vec![expr]).contains(EventHour::containing(0)));
    }
}

#[test]
fn filters_are_intersected() {
    let window = hour_window(&vec![
        compare(Operator::GtEq, HOUR),
        other_column(),
        compare(Operator::Lt, 2 * HOUR),
    ]);
    assert!(!window.contains(EventHour::containing(0)));
    assert!(window.contains(EventHour::containing(HOUR)));
    assert!(!window.contains(EventHour::containing(2 * HOUR)));
    assert!(bound_window(Operator::Or, 5).impossible);
}

#[test]
fn pruning_never_drops_an_hour_that_matches() {
    let times = [0, 1, HOUR - 1, HOUR, HOUR + 1, 2 * HOUR, u64::MAX - 1, u64::MAX];
    for time in times {
        for bound in times {
            for (operator, holds) in [
                (Operator::Eq, time == bound),
                (Operator::Lt, time < bound),
                (Operator::LtEq, time <= bound),
                (Operator::Gt, time > bound),
                (Operator::GtEq, time >= bound),
            ] {
                if holds {
                    let window = hour_window(&vec![compare(operator, bound)]);
                    assert!(window.contains(EventHour::containing(time)));
                }
            }
        }
    }
}

// The table.

fn frame(sequence: u64, time: u64) -> DecodedLogs {
    let request = ExportLogsServiceRequest {
        resource_logs: vec![ResourceLogs {
            resource: None,
            scope_logs: vec![ScopeLogs {
                scope: None,
                log_records: vec![LogRecord {
                    time_unix_nano: time,
                    observed_time_unix_nano: 0,
                    severity_number: 0,
                    severity_text: String::new(),
                    body: Some(AnyValue {
                        value: Some(Value::StringValue(format!("row-{sequence}"))),
                    }),
                    attributes: Vec::new(),
                    trace_id: Vec::new(),
                    span_id: Vec::new(),
                }],
            }],
        }],
    };
    decode_logs_frame(
        &Frame {
            sequence,
            signal: FrameSignal::Logs,
            received_at_unix_nanos: 1,
            tenant_id: "tenant-a".to_owned(),
            payload: Vec::new(),
        },
        &Ok(request),
        DynamicLimits {
            max_depth: 4,
            max_columns: 32,
        },
    )
    .expect("decode")
}

fn store() -> Store {
    let recovered = Recovered {
        catalog: Catalog::new(),
        removed_temporary: Vec::new(),
        removed_corrupt: Vec::new(),
        removed_orphans: Vec::new(),
        retirements: Vec::new(),
    };
    let config = MemtableConfig {
        max_rows: 100,
        max_bytes: u64::MAX,
        max_age_nanos: 60_000_000_000,
        max_frozen: 4,
        max_dynamic_columns: 32,
    };
    Store::open(
        "/data",
        "tenant-a",
        config,
        Arc::new(ManualClock::new(0)),
        recovered,
    )
    .expect("open")
}

fn partition_hours(table: &ObserverTableProvider, filters: Vec<Expr>) -> Vec<u64> {
    table
        .scan(&filters)
        .iter()
        .map(|partition| partition.hour.start_unix_nano())
        .collect()
}

#[test]
fn event_time_bounds_skip_hours_and_keep_boundary_rows() {
    let mut store = store();
    store.append(&frame(0, 1)).expect("append");
    store.append(&frame(1, HOUR - 1)).expect("hour boundary");
    store.append(&frame(2, HOUR)).expect("append");
    store.append(&frame(3, 2)).expect("hour tail");
    let snapshot = store.pin();
    let table = ObserverTableProvider::new(&store, &snapshot).expect("table");
    assert_eq!(table.epoch, snapshot.snapshot.epoch);
    assert_eq!(table.hours.len(), 2);
    assert_eq!(table.hours[0].batches.len(), 3);
    for partition in &table.hours {
        for batch in &partition.batches {
            assert!(batch.schema().same(&table.schema));
        }
    }
    assert_eq!(
        partition_hours(&table, vec![compare(Operator::GtEq, HOUR)]),
        [HOUR]
    );
    assert_eq!(
        partition_hours(&table, vec![compare(Operator::Gt, 1)]),
        [0, HOUR]
    );
    assert_eq!(
        partition_hours(&table, vec![compare(Operator::Lt, HOUR)]),
        [0]
    );
    assert_eq!(
        partition_hours(&table, vec![compare(Operator::Gt, HOUR - 1)]),
        [HOUR]
    );
    assert_eq!(
        partition_hours(&table, vec![compare(Operator::Eq, HOUR)]),
        [HOUR]
    );
    assert_eq!(
        partition_hours(&table, vec![compare(Operator::GtEq, HOUR), other_column()]),
        [HOUR]
    );
    assert_eq!(partition_hours(&table, Vec::new()), [0, HOUR]);
    let time = compare(Operator::Gt, 1);
    let other = other_column();
    assert_eq!(
        table.supports_filters_pushdown(&vec![&time, &other]),
        [true, false]
    );
}

#[test]
fn an_empty_snapshot_has_no_partition() {
    let mut store = store();
    let snapshot = store.pin();
    let table = ObserverTableProvider::new(&store, &snapshot).expect("table");
    assert!(table.hours.is_empty());
    assert!(table.scan(&Vec::new()).is_empty());
}

#[test]
fn a_table_keeps_the_snapshot_it_was_made_from() {
    let mut store = store();
    store.append(&frame(0, 1)).expect("append");
    let snapshot = store.pin();
    store.append(&frame(1, HOUR)).expect("later");
    let table = ObserverTableProvider::new(&store, &snapshot).expect("table");
    assert_eq!(table.hours.len(), 1);
    assert_eq!(table.hours[0].batches.len(), 1);
}

#[test]
fn memory_rows_of_an_hour_run_from_the_newest_event_to_the_oldest() {
    let mut store = store();
    store.append(&frame(0, 5)).expect("append");
    store.append(&frame(1, 9)).expect("append");
    store.rotate().expect("rotate");
    store.append(&frame(2, 5)).expect("append");
    store.append(&frame(3, HOUR)).expect("append");
    let snapshot = store.pin();
    let table = ObserverTableProvider::new(&store, &snapshot).expect("table");
    let rows: Vec<Vec<u64>> = table
        .hours
        .iter()
        .map(|hour| {
            hour.batches
                .iter()
                .flat_map(|batch| {
                    batch
                        .column_by_name(COLUMN_WAL_SEQUENCE)
                        .expect("sequence")
                        .cells
                        .iter()
                        .map(|cell| cell.as_u64().expect("u64"))
                        .collect::<Vec<_>>()
                })
                .collect()
        })
        .collect();
    assert_eq!(rows, [vec![1, 2, 0], vec![3]]);
}
