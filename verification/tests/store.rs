use std::collections::{BTreeMap, BTreeSet};
use std::sync::Arc;

use observer::align::MemtableError;
use observer::batch::{Cell, Column, RecordBatch};
use observer::clock::ManualClock;
use observer::commit;
use observer::commit::{Commit, CommitFault, CommitWriteOptions};
use observer::decode::{decode_logs_frame, DecodedLogs, Frame, FrameSignal};
use observer::durable::{WriteState, WriteStep};
use observer::dynamic::DynamicLimits;
use observer::generation::Generation;
use observer::identity::FIELD_PATH;
use observer::layout::{
    commit_path, hour_directory, join, parquet_path, retirement_path, tenant_directory,
};
use observer::memtable::{Memtable, MemtableConfig};
use observer::newest::{order_file, sort_by_newest_event};
use observer::otlp::{
    AnyValue, ExportLogsServiceRequest, KeyValue, LogRecord, ResourceLogs, ScopeLogs, Value,
};
use observer::parquet;
use observer::parquet::{
    check_range, hour_file, HourFile, ParquetError, ParquetFault, ParquetFile,
    ParquetWriteOptions, META_FINGERPRINT, META_HOUR_END_UNIX_NANO, META_HOUR_START_UNIX_NANO,
    META_PROJECTION_VERSION, META_ROW_COUNT, META_WAL_FIRST_SEQUENCE, META_WAL_NEXT_SEQUENCE,
};
use observer::publication::commit_for;
use observer::recovery::{
    file_kind, FileKind, FileObservation, Found, Recovered, Recovery, RecoveryError,
};
use observer::retention;
use observer::retention::{
    prune_step, select_commit, CollectOptions, CollectReport, DirectoryState, PruneStep,
    RetentionReport, RetireOptions,
};
use observer::retirement;
use observer::retirement::{
    RetiredFile, Retirement, RetirementError, RetirementFault, RetirementWriteOptions,
};
use observer::rows::{plan_scan, scan_rows};
use observer::paths::PathSet;
use observer::scan::{
    align_projected, CollectError, CollectFault, PublishFault, Scan, StoreError, Visible,
};
use observer::schema::{
    DataType, EventHour, Field, Schema, COLUMN_BODY, COLUMN_EVENT_TIME_UNIX_NANO,
    COLUMN_WAL_SEQUENCE, PROJECTION_VERSION,
};
use observer::sorted::TextMap;
use observer::store::{stop_before_swap, PinnedSnapshot, PublishOptions, Store};
use observer::wal_order::sort_by_wal_order;

const HOUR: u64 = 3_600_000_000_000;
const ROOT: &str = "/data";
const TENANT: &str = "tenant-a";

// A disk in memory.

enum Entry {
    Bytes(Vec<u8>),
    Parquet {
        schema: Schema,
        batches: Vec<Arc<RecordBatch>>,
    },
}

impl Entry {
    fn size(&self) -> u64 {
        match self {
            Entry::Bytes(bytes) => bytes.len() as u64,
            Entry::Parquet { batches, .. } => {
                100 + batches.iter().map(|batch| batch.num_rows() as u64).sum::<u64>()
            }
        }
    }
}

struct Disk {
    files: BTreeMap<String, Entry>,
    directories: BTreeSet<String>,
}

impl Disk {
    fn new() -> Self {
        Disk {
            files: BTreeMap::new(),
            directories: BTreeSet::new(),
        }
    }

    fn holds(&self, path: &str) -> bool {
        self.files.contains_key(path)
    }

    fn bytes(&self, path: &str) -> &[u8] {
        match self.files.get(path).expect("file") {
            Entry::Bytes(bytes) => bytes,
            Entry::Parquet { .. } => panic!("{path} is a Parquet file"),
        }
    }

    fn batches(&self, path: &str) -> Vec<Arc<RecordBatch>> {
        match self.files.get(path).expect("file") {
            Entry::Bytes(_) => panic!("{path} is no Parquet file"),
            Entry::Parquet { batches, .. } => batches.clone(),
        }
    }

    fn directory_state(&self, directory: &str) -> DirectoryState {
        let below = format!("{directory}/");
        if !self.directories.contains(directory) {
            DirectoryState::Missing
        } else if self.files.keys().any(|path| path.starts_with(&below))
            || self.directories.iter().any(|path| path.starts_with(&below))
        {
            DirectoryState::Occupied
        } else {
            DirectoryState::Empty
        }
    }

    /// Writes a file step by step; `stop` may end the write before a step.
    fn write<E>(
        &mut self,
        path: &str,
        temporary: &str,
        entry: Entry,
        stop: impl Fn(WriteStep) -> Result<(), E>,
    ) -> Result<(), E> {
        let mut state = WriteState::Started;
        let mut entry = Some(entry);
        while let Some(step) = state.step() {
            stop(step)?;
            match step {
                WriteStep::Create => {
                    let mut directory = parent_of(path);
                    while let Some(above) = directory {
                        directory = parent_of(&above);
                        self.directories.insert(above);
                    }
                    self.files
                        .insert(temporary.to_owned(), entry.take().expect("entry"));
                }
                WriteStep::Rename => {
                    let entry = self.files.remove(temporary).expect("temporary");
                    self.files.insert(path.to_owned(), entry);
                }
                WriteStep::SyncFile | WriteStep::SyncDir => {}
            }
            state = state.advance();
        }
        Ok(())
    }
}

fn parent_of(path: &str) -> Option<String> {
    path.rsplit_once('/').map(|(above, _)| above.to_owned())
}

fn temporary(path: &str) -> String {
    format!("{path}.tmp")
}

// The steps that an application takes around the library.

fn write_hour(
    disk: &mut Disk,
    file: HourFile,
    options: &ParquetWriteOptions,
) -> Result<ParquetFile, ParquetError> {
    let batches: Vec<_> = file.batches.iter().cloned().map(Arc::new).collect();
    let entry = Entry::Parquet {
        schema: file.schema.clone(),
        batches,
    };
    let size = entry.size();
    let temporary = temporary(&file.path);
    disk.write(&file.path, &temporary, entry, |step| {
        parquet::fail(options, step.parquet_fault())
    })?;
    Ok(file.recorded(size))
}

fn write_generation(
    disk: &mut Disk,
    generation: &Generation,
    options: &ParquetWriteOptions,
) -> Result<Vec<ParquetFile>, ParquetError> {
    check_range(generation)?;
    let mut written = Vec::new();
    for at in 0..generation.partitions.len() {
        if let Some(file) = hour_file(ROOT, TENANT, generation, at)? {
            written.push(write_hour(disk, order_file(file), options)?);
        }
    }
    Ok(written)
}

fn read_parquet_batches(disk: &Disk, path: &str) -> Vec<Arc<RecordBatch>> {
    let stored: Vec<RecordBatch> = disk
        .batches(path)
        .iter()
        .map(|batch| batch.as_ref().clone())
        .collect();
    sort_by_wal_order(&stored).into_iter().map(Arc::new).collect()
}

fn write_commit(
    disk: &mut Disk,
    commit: &Commit,
    options: &CommitWriteOptions,
) -> Result<(), commit::CommitError> {
    let path = commit_path(ROOT, &commit.tenant, commit.first_sequence, commit.next_sequence);
    assert!(commit::fits(commit));
    let bytes = commit::encode(commit)?;
    let temporary = temporary(&path);
    disk.write(&path, &temporary, Entry::Bytes(bytes), |step| {
        commit::fail(options, step.commit_fault())
    })
}

fn write_retirement(
    disk: &mut Disk,
    retired: &Retirement,
    options: &RetirementWriteOptions,
) -> Result<(), RetirementError> {
    retirement::validate(retired)?;
    let path = retirement_path(
        ROOT,
        &retired.tenant,
        retired.first_sequence,
        retired.next_sequence,
    );
    let bytes = retirement::encode(retired)?;
    let temporary = temporary(&path);
    disk.write(&path, &temporary, Entry::Bytes(bytes), |step| {
        retirement::fail(options, step.retirement_fault())
    })
}

fn publish(
    store: &mut Store,
    disk: &mut Disk,
    options: &PublishOptions,
) -> Result<Option<Commit>, StoreError> {
    let Some(generation) = store.next_publication()? else {
        return Ok(None);
    };
    let files = write_generation(disk, &generation, &options.parquet)
        .map_err(StoreError::Parquet)?;
    let commit = commit_for(ROOT, TENANT, &generation, &files).map_err(StoreError::Commit)?;
    write_commit(disk, &commit, &options.commit).map_err(StoreError::Commit)?;
    stop_before_swap(options)?;
    store.complete_publication(
        generation.first_sequence,
        generation.next_sequence,
        commit.clone(),
    )?;
    Ok(Some(commit))
}

fn recover(disk: &mut Disk) -> Result<Recovered, RecoveryError> {
    let paths = tenant_paths(disk);
    recover_listing(disk, paths)
}

fn tenant_paths(disk: &Disk) -> Vec<String> {
    let tenant_dir = tenant_directory(ROOT, TENANT);
    disk.files
        .keys()
        .filter(|path| path.starts_with(&format!("{tenant_dir}/")))
        .cloned()
        .collect()
}

fn recover_listing(disk: &mut Disk, paths: Vec<String>) -> Result<Recovered, RecoveryError> {
    let tenant_dir = tenant_directory(ROOT, TENANT);
    let mut recovery = Recovery::new();
    for path in paths {
        let name = path.rsplit('/').next().expect("name").to_owned();
        let found = match file_kind(&name) {
            FileKind::Temporary => Found::Temporary,
            FileKind::Retirement => Found::Retirement(retirement::decode(disk.bytes(&path))),
            FileKind::Commit => Found::Commit(commit::decode(disk.bytes(&path))),
            FileKind::Parquet => Found::Parquet,
            FileKind::Other => Found::Other,
        };
        if recovery.observe(&path, found)? {
            disk.files.remove(&path);
        }
    }
    let observed: Vec<Vec<FileObservation>> = recovery
        .commits()
        .iter()
        .map(|commit| {
            commit
                .files
                .iter()
                .map(|file| match disk.files.get(&join(&tenant_dir, &file.relative_path)) {
                    None => FileObservation::Missing,
                    Some(Entry::Bytes(_)) => FileObservation::Unreadable("not Parquet".to_owned()),
                    Some(entry @ Entry::Parquet { schema, .. }) => FileObservation::Present {
                        metadata: schema.metadata.clone(),
                        size: Ok(entry.size()),
                    },
                })
                .collect()
        })
        .collect();
    let recovered = recovery.settle(TENANT, &tenant_dir, &observed)?;
    for path in &recovered.removed_orphans {
        disk.files.remove(path);
    }
    Ok(recovered)
}

fn config() -> MemtableConfig {
    MemtableConfig {
        max_rows: 100,
        max_bytes: u64::MAX,
        max_age_nanos: 60_000_000_000,
        max_frozen: 4,
        max_dynamic_columns: 32,
    }
}

fn open_store(disk: &mut Disk) -> Store {
    let recovered = recover(disk).expect("recover");
    Store::open(ROOT, TENANT, config(), Arc::new(ManualClock::new(0)), recovered).expect("open")
}

fn scan(
    disk: &Disk,
    snapshot: &PinnedSnapshot,
    scan: &Scan,
) -> Result<Vec<RecordBatch>, StoreError> {
    let Some(plan) = plan_scan(&snapshot.snapshot, scan)? else {
        return Ok(Vec::new());
    };
    let tenant_dir = tenant_directory(ROOT, TENANT);
    let files: Vec<Vec<Arc<RecordBatch>>> = plan
        .sources
        .iter()
        .filter_map(|source| match source {
            Visible::File { relative_path, .. } => {
                Some(read_parquet_batches(disk, &join(&tenant_dir, relative_path)))
            }
            Visible::Memory { .. } => None,
        })
        .collect();
    scan_rows(&plan, &files)
}

fn retire_before(
    store: &mut Store,
    disk: &mut Disk,
    cutoff: u64,
    options: &RetireOptions,
) -> Result<RetentionReport, StoreError> {
    let mut selected = Vec::new();
    for commit in store.commits() {
        let path = retirement_path(ROOT, TENANT, commit.first_sequence, commit.next_sequence);
        let existing = if disk.holds(&path) {
            Some(retirement::decode(disk.bytes(&path)).map_err(StoreError::Retirement)?)
        } else {
            None
        };
        if let Some(batch) = select_commit(TENANT, commit, store.retired(), &existing, cutoff) {
            selected.push(batch);
        }
    }
    let mut report = RetentionReport::new();
    for batch in selected {
        assert!(store.publishes(&batch.paths));
        if let Some(retired) = &batch.retirement {
            write_retirement(disk, retired, &options.write).map_err(StoreError::Retirement)?;
        }
        store.install(&batch.paths);
        report.add_selected(batch);
    }
    Ok(report)
}

fn collect_retired(
    store: &mut Store,
    disk: &mut Disk,
    options: &CollectOptions,
) -> Result<CollectReport, StoreError> {
    let paths = store.collectible();
    if paths.is_empty() {
        return Ok(CollectReport {
            removed: Vec::new(),
        });
    }
    retention::fail(options, CollectFault::Unlink).map_err(StoreError::Collect)?;
    let tenant_dir = tenant_directory(ROOT, TENANT);
    let mut parents = BTreeSet::new();
    for path in &paths {
        let path = join(&tenant_dir, path);
        disk.files.remove(&path);
        parents.extend(parent_of(&path));
    }
    retention::fail(options, CollectFault::SyncDir).map_err(StoreError::Collect)?;
    for parent in parents {
        let mut current = Some(parent);
        while let Some(directory) = current.take() {
            match prune_step(&tenant_dir, &directory, disk.directory_state(&directory)) {
                PruneStep::Climb => current = parent_of(&directory),
                PruneStep::RemoveAndClimb => {
                    disk.directories.remove(&directory);
                    current = parent_of(&directory);
                }
                PruneStep::SyncAndStop | PruneStep::Stop => {}
            }
        }
    }
    store.collected(&paths);
    Ok(CollectReport { removed: paths })
}

// Frames and batches.

fn attribute(key: &str, value: i64) -> KeyValue {
    KeyValue {
        key: key.to_owned(),
        value: Some(AnyValue {
            value: Some(Value::IntValue(value)),
        }),
    }
}

fn log_record(time: u64, body: &str, attributes: Vec<KeyValue>) -> LogRecord {
    LogRecord {
        time_unix_nano: time,
        observed_time_unix_nano: 0,
        severity_number: 0,
        severity_text: String::new(),
        body: Some(AnyValue {
            value: Some(Value::StringValue(body.to_owned())),
        }),
        attributes,
        trace_id: Vec::new(),
        span_id: Vec::new(),
    }
}

fn decode(sequence: u64, received: u64, records: Vec<LogRecord>) -> DecodedLogs {
    let request = ExportLogsServiceRequest {
        resource_logs: vec![ResourceLogs {
            resource: None,
            scope_logs: vec![ScopeLogs {
                scope: None,
                log_records: records,
            }],
        }],
    };
    decode_logs_frame(
        &Frame {
            sequence,
            signal: FrameSignal::Logs,
            received_at_unix_nanos: received,
            tenant_id: TENANT.to_owned(),
            payload: Vec::new(),
        },
        &Ok(request),
        DynamicLimits {
            max_depth: 4,
            max_columns: 32,
        },
    )
    .expect("decode")
}

fn frame(sequence: u64, time: u64, attributes: Vec<KeyValue>) -> DecodedLogs {
    let body = format!("row-{sequence}");
    decode(sequence, 1, vec![log_record(time, &body, attributes)])
}

fn timed_frame(sequence: u64, time: u64, attributes: Vec<KeyValue>) -> DecodedLogs {
    let body = format!("row-{time}");
    decode(sequence, 1, vec![log_record(time, &body, attributes)])
}

fn empty_frame(sequence: u64) -> DecodedLogs {
    decode(sequence, 1, Vec::new())
}

fn seal(store: &mut Store, logs: DecodedLogs) {
    store.append(&logs).expect("append");
    store.rotate().expect("rotate");
}

fn seal_frames(frames: &[DecodedLogs]) -> Generation {
    let clock = ManualClock::new(0);
    let mut table = Memtable::new(TENANT, config(), Arc::new(clock)).expect("memtable");
    for frame in frames {
        table.append(frame).expect("append");
    }
    table.rotate().expect("rotate").expect("sealed");
    table.release_oldest_frozen().expect("frozen")
}

fn cells<'a>(batch: &'a RecordBatch, name: &str) -> &'a [Cell] {
    &batch
        .column_by_name(name)
        .unwrap_or_else(|| panic!("missing {name}"))
        .cells
}

fn sequences<B: AsRef<RecordBatch>>(batches: &[B]) -> Vec<u64> {
    batches
        .iter()
        .flat_map(|batch| {
            cells(batch.as_ref(), COLUMN_WAL_SEQUENCE)
                .iter()
                .map(|cell| cell.as_u64().expect("u64"))
                .collect::<Vec<_>>()
        })
        .collect()
}

fn scanned_sequences(batches: Vec<RecordBatch>) -> Vec<u64> {
    sequences(&batches.into_iter().map(Arc::new).collect::<Vec<_>>())
}

fn i64_column(batches: &[RecordBatch], name: &str) -> Vec<Option<i64>> {
    batches
        .iter()
        .flat_map(|batch| cells(batch, name).iter().map(|cell| cell.as_i64()).collect::<Vec<_>>())
        .collect()
}

fn bodies(batches: &[RecordBatch]) -> Vec<Option<String>> {
    batches
        .iter()
        .flat_map(|batch| {
            cells(batch, COLUMN_BODY)
                .iter()
                .map(|cell| cell.as_text().cloned())
                .collect::<Vec<_>>()
        })
        .collect()
}

/// Event time and WAL sequence of each row.
fn times(batches: &[RecordBatch]) -> Vec<(u64, u64)> {
    batches
        .iter()
        .flat_map(|batch| {
            cells(batch, COLUMN_EVENT_TIME_UNIX_NANO)
                .iter()
                .zip(cells(batch, COLUMN_WAL_SEQUENCE))
                .map(|(time, sequence)| {
                    (time.as_u64().expect("time"), sequence.as_u64().expect("sequence"))
                })
                .collect::<Vec<_>>()
        })
        .collect()
}

fn has_field(schema: &Schema, name: &str) -> bool {
    schema.index_of(name).is_some()
}

fn metadata<'a>(map: &'a TextMap<String>, key: &str) -> Option<&'a str> {
    map.get(key).map(String::as_str)
}

// Parquet files.

#[test]
fn empty_generation_writes_no_files() {
    let mut disk = Disk::new();
    let generation = seal_frames(&[empty_frame(3)]);
    let written = write_generation(&mut disk, &generation, &ParquetWriteOptions::default())
        .expect("write");
    assert!(written.is_empty());
    assert!(disk.files.is_empty());
}

#[test]
fn round_trip_preserves_order_schema_and_hour_files() {
    let mut disk = Disk::new();
    let generation = seal_frames(&[
        timed_frame(0, 0, vec![attribute("a", 1)]),
        timed_frame(1, 1, vec![attribute("b", 2)]),
        timed_frame(2, HOUR, vec![attribute("a", 3)]),
    ]);
    let written = write_generation(&mut disk, &generation, &ParquetWriteOptions::default())
        .expect("write");
    assert_eq!(written.len(), 2);
    assert_eq!(written[0].rows, 2);
    assert_eq!(written[1].rows, 1);
    assert_eq!(
        written[0].path,
        parquet_path(ROOT, TENANT, EventHour::containing(0), 0, 3)
    );
    assert_eq!(
        written[1].path,
        parquet_path(ROOT, TENANT, EventHour::containing(HOUR), 0, 3)
    );

    let first: Vec<RecordBatch> = read_parquet_batches(&disk, &written[0].path)
        .iter()
        .map(|batch| batch.as_ref().clone())
        .collect();
    assert_eq!(
        bodies(&first),
        vec![Some("row-0".to_owned()), Some("row-1".to_owned())]
    );
    assert_eq!(scanned_sequences(first.clone()), [0, 1]);
    assert_eq!(i64_column(&first, "log_a_i64"), vec![Some(1), None]);
    assert_eq!(i64_column(&first, "log_b_i64"), vec![None, Some(2)]);
    let schema = first[0].schema();
    let found = &schema.metadata;
    assert_eq!(metadata(found, META_PROJECTION_VERSION), Some("1"));
    assert_eq!(PROJECTION_VERSION.to_string(), "1");
    assert_eq!(
        metadata(found, META_FINGERPRINT),
        Some(generation.fingerprint.as_str())
    );
    assert_eq!(metadata(found, META_WAL_FIRST_SEQUENCE), Some("0"));
    assert_eq!(metadata(found, META_WAL_NEXT_SEQUENCE), Some("3"));
    assert_eq!(metadata(found, META_ROW_COUNT), Some("2"));
    assert_eq!(metadata(found, META_HOUR_START_UNIX_NANO), Some("0"));
    let hour_end = HOUR.to_string();
    assert_eq!(
        metadata(found, META_HOUR_END_UNIX_NANO),
        Some(hour_end.as_str())
    );
    let field = &schema.fields[schema.index_of("log_a_i64").expect("field")];
    assert_eq!(metadata(&field.metadata, FIELD_PATH), Some(r#"["a"]"#));

    let second: Vec<RecordBatch> = read_parquet_batches(&disk, &written[1].path)
        .iter()
        .map(|batch| batch.as_ref().clone())
        .collect();
    assert_eq!(i64_column(&second, "log_a_i64"), vec![Some(3)]);
    assert_eq!(i64_column(&second, "log_b_i64"), vec![None]);

    write_generation(&mut disk, &generation, &ParquetWriteOptions::default())
        .expect("rewrite");
    let reread: Vec<RecordBatch> = read_parquet_batches(&disk, &written[0].path)
        .iter()
        .map(|batch| batch.as_ref().clone())
        .collect();
    assert_eq!(
        bodies(&reread),
        vec![Some("row-0".to_owned()), Some("row-1".to_owned())]
    );
    assert!(!disk.holds(&format!("{}.tmp", written[0].path)));
    assert_eq!(disk.files.len(), 2);
}

#[test]
fn injected_faults_stop_at_each_durability_boundary() {
    let generation = seal_frames(&[timed_frame(0, 0, vec![attribute("a", 1)])]);
    let cases = [
        (ParquetFault::Create, false, false),
        (ParquetFault::SyncFile, true, false),
        (ParquetFault::Rename, true, false),
        (ParquetFault::SyncDir, false, true),
    ];
    for (fault, temporary_exists, final_exists) in cases {
        let mut disk = Disk::new();
        let error = write_generation(
            &mut disk,
            &generation,
            &ParquetWriteOptions { fault: Some(fault) },
        )
        .expect_err("fault");
        assert_eq!(error.message(), ParquetError::Fault(fault).message());
        let path = parquet_path(ROOT, TENANT, EventHour::containing(0), 0, 1);
        assert_eq!(disk.holds(&format!("{path}.tmp")), temporary_exists);
        assert_eq!(disk.holds(&path), final_exists);
    }
}

#[test]
fn published_rows_are_ordered_newest_first() {
    let generation = seal_frames(&[
        timed_frame(0, 5, Vec::new()),
        timed_frame(1, 9, Vec::new()),
        timed_frame(2, 5, Vec::new()),
    ]);
    let file = hour_file(ROOT, TENANT, &generation, 0)
        .expect("file")
        .expect("rows");
    assert_eq!(times(&file.batches), [(5, 0), (9, 1), (5, 2)]);
    let sorted = sort_by_newest_event(&file.batches);
    assert_eq!(times(&sorted), [(9, 1), (5, 2), (5, 0)]);
    // Each batch holds rows of one batch of the hour, so none outgrows its offsets.
    assert_eq!(sorted.len(), 3);
    assert!(!file.recorded(1).statistics.expect("statistics").ordered);
    let rows = file.rows;
    let ordered = order_file(file);
    assert_eq!(ordered.rows, rows);
    assert_eq!(times(&ordered.batches), [(9, 1), (5, 2), (5, 0)]);
    assert!(ordered.recorded(1).statistics.expect("statistics").ordered);
    assert_eq!(
        times(&sort_by_wal_order(&ordered.batches)),
        [(5, 0), (9, 1), (5, 2)]
    );
}

#[test]
fn an_empty_range_with_rows_is_refused() {
    let mut generation = seal_frames(&[timed_frame(0, 5, Vec::new())]);
    generation.next_sequence = generation.first_sequence;
    assert_eq!(
        check_range(&generation).expect_err("range").message(),
        "parquet storage: generation sequence range is empty"
    );
}

// The store.

#[test]
fn scan_reads_active_frozen_and_published_rows_once() {
    let mut disk = Disk::new();
    let mut store = open_store(&mut disk);
    seal(&mut store, frame(0, 0, Vec::new()));
    publish(&mut store, &mut disk, &PublishOptions::default()).expect("publish");
    seal(&mut store, frame(1, 0, Vec::new()));
    store.append(&frame(2, 0, Vec::new())).expect("active");
    let snapshot = store.pin();
    assert_eq!(snapshot.snapshot.published.len(), 1);
    assert_eq!(snapshot.snapshot.frozen.len(), 1);
    assert!(snapshot.snapshot.active.is_some());
    assert_eq!(
        scanned_sequences(scan(&disk, &snapshot, &Scan::default()).expect("scan")),
        [0, 1, 2]
    );
}

#[test]
fn publication_moves_rows_from_memory_to_parquet_exactly_once() {
    let mut disk = Disk::new();
    let mut store = open_store(&mut disk);
    seal(&mut store, frame(0, 0, vec![attribute("a", 1)]));
    seal(&mut store, frame(1, 1, vec![attribute("b", 2)]));
    let before = store.pin();
    assert!(before.snapshot.published.is_empty());
    assert_eq!(before.snapshot.frozen.len(), 2);
    let before_rows = scan(&disk, &before, &Scan::default()).expect("scan memory");
    assert_eq!(scanned_sequences(before_rows), [0, 1]);

    publish(&mut store, &mut disk, &PublishOptions::default()).expect("publish");
    let after = store.pin();
    assert_eq!(after.snapshot.frozen.len(), 1);
    assert_eq!(after.snapshot.published.len(), 1);
    assert!(after.snapshot.epoch > before.snapshot.epoch);
    let after_rows = scan(&disk, &after, &Scan::default()).expect("scan mixed");
    assert_eq!(scanned_sequences(after_rows.clone()), [0, 1]);
    assert_eq!(i64_column(&after_rows, "log_a_i64"), vec![Some(1), None]);
    assert_eq!(i64_column(&after_rows, "log_b_i64"), vec![None, Some(2)]);
    assert_eq!(
        bodies(&after_rows),
        vec![Some("row-0".to_owned()), Some("row-1".to_owned())]
    );

    let mut restarted = open_store(&mut disk);
    assert_eq!(restarted.durable_sequence(), Some(1));
    let visible = restarted.pin();
    assert!(visible.snapshot.frozen.is_empty());
    assert!(visible.snapshot.active.is_none());
    assert_eq!(
        scanned_sequences(scan(&disk, &visible, &Scan::default()).expect("scan")),
        [0]
    );
    let error = restarted
        .append(&frame(0, 0, Vec::new()))
        .expect_err("old sequence");
    assert!(matches!(
        error,
        StoreError::Memtable(MemtableError::NonContiguous {
            expected: 1,
            actual: 0
        })
    ));
    restarted
        .append(&frame(1, 1, vec![attribute("b", 2)]))
        .expect("continue");
}

#[test]
fn scan_prunes_hours_and_null_fills_dynamic_columns() {
    let mut disk = Disk::new();
    let mut store = open_store(&mut disk);
    seal(&mut store, frame(0, 0, vec![attribute("a", 1)]));
    publish(&mut store, &mut disk, &PublishOptions::default()).expect("publish");
    seal(&mut store, frame(1, HOUR, vec![attribute("b", 2)]));
    let snapshot = store.pin();
    let pruned = scan(
        &disk,
        &snapshot,
        &Scan {
            columns: Some(vec![
                COLUMN_WAL_SEQUENCE.to_owned(),
                "log_a_i64".to_owned(),
                "log_b_i64".to_owned(),
            ]),
            from_hour: Some(EventHour::containing(HOUR)),
            to_hour: None,
        },
    )
    .expect("scan");
    assert_eq!(pruned[0].num_columns(), 3);
    assert_eq!(scanned_sequences(pruned.clone()), [1]);
    assert_eq!(i64_column(&pruned, "log_a_i64"), vec![None]);
    assert_eq!(i64_column(&pruned, "log_b_i64"), vec![Some(2)]);
}

#[test]
fn a_missing_column_fails_the_scan() {
    let mut disk = Disk::new();
    let mut store = open_store(&mut disk);
    let snapshot = store.pin();
    let nowhere = Scan {
        columns: Some(vec!["nowhere".to_owned()]),
        from_hour: None,
        to_hour: None,
    };
    assert!(scan(&disk, &snapshot, &nowhere).expect("no source").is_empty());
    store.append(&frame(0, 0, Vec::new())).expect("append");
    let snapshot = store.pin();
    let error = scan(&disk, &snapshot, &nowhere).expect_err("column");
    assert_eq!(error.message(), "scan column nowhere is not in the schema");
}

#[test]
fn sources_describe_each_visible_generation_once() {
    let mut disk = Disk::new();
    let mut store = open_store(&mut disk);

    store.append(&frame(0, 0, Vec::new())).expect("active");
    let active = store.pin();
    let active_sources = store.sources(&active, &Scan::default());
    assert_eq!(active_sources.len(), 1);
    assert!(active_sources[0].files.is_empty());
    assert_eq!(active_sources[0].batches.len(), 1);
    assert_eq!(sequences(&active_sources[0].batches), [0]);

    seal(&mut store, frame(1, 0, Vec::new()));
    let frozen = store.pin();
    let frozen_sources = store.sources(&frozen, &Scan::default());
    assert_eq!(frozen_sources.len(), 1);
    assert!(frozen_sources[0].files.is_empty());
    assert_eq!(sequences(&frozen_sources[0].batches), [0, 1]);

    publish(&mut store, &mut disk, &PublishOptions::default()).expect("publish");
    store
        .append(&frame(2, HOUR, Vec::new()))
        .expect("later active");
    let mixed = store.pin();
    let mixed_sources = store.sources(&mixed, &Scan::default());
    assert_eq!(mixed_sources.len(), 2);
    assert!(mixed_sources[0].batches.is_empty());
    assert_eq!(mixed_sources[0].files.len(), 1);
    assert_eq!(
        mixed_sources[0].files[0].path,
        parquet_path(ROOT, TENANT, EventHour::containing(0), 0, 2)
    );
    assert!(disk.holds(&mixed_sources[0].files[0].path));
    let statistics = mixed_sources[0].files[0]
        .statistics
        .as_ref()
        .expect("file statistics");
    assert_eq!(statistics.rows, 2);
    assert_eq!(statistics.wal_min, 0);
    assert_eq!(statistics.wal_max, 1);
    assert!(statistics.ordered);
    assert!(mixed_sources[1].files.is_empty());
    assert_eq!(sequences(&mixed_sources[1].batches), [2]);

    let stray = join(
        &hour_directory(ROOT, TENANT, EventHour::containing(0)),
        "stray.parquet",
    );
    disk.files
        .insert(stray, Entry::Bytes(b"not a commit".to_vec()));
    let published = store.sources(&mixed, &Scan::default());
    assert_eq!(
        format!("{:?}", published[0].files),
        format!("{:?}", mixed_sources[0].files)
    );

    let selected = store.sources(
        &mixed,
        &Scan {
            from_hour: Some(EventHour::containing(HOUR)),
            ..Scan::default()
        },
    );
    assert_eq!(selected.len(), 1);
    assert_eq!(selected[0].hour, EventHour::containing(HOUR));
    assert!(selected[0].files.is_empty());
}

#[test]
fn source_schema_keeps_dynamic_columns_a_generation_lacks() {
    let mut disk = Disk::new();
    let mut store = open_store(&mut disk);
    seal(&mut store, frame(0, 0, vec![attribute("a", 1)]));
    publish(&mut store, &mut disk, &PublishOptions::default()).expect("publish");
    seal(&mut store, frame(1, 0, vec![attribute("b", 2)]));
    let snapshot = store.pin();
    let schema = snapshot.snapshot.schema().expect("schema");
    assert!(has_field(&schema, "log_a_i64"));
    assert!(has_field(&schema, "log_b_i64"));
    assert!(!has_field(&snapshot.snapshot.published[0].schema, "log_b_i64"));
    assert!(!has_field(&snapshot.snapshot.frozen[0].schema, "log_a_i64"));
    let sources = store.sources(&snapshot, &Scan::default());
    assert_eq!(sources.len(), 1);
    assert_eq!(sources[0].files.len(), 1);
    assert_eq!(sources[0].batches.len(), 1);
    assert!(!has_field(sources[0].batches[0].schema(), "log_a_i64"));
}

#[test]
fn empty_generation_advances_the_durable_sequence() {
    let mut disk = Disk::new();
    let mut store = open_store(&mut disk);
    seal(&mut store, empty_frame(4));
    let commit = publish(&mut store, &mut disk, &PublishOptions::default())
        .expect("publish")
        .expect("commit");
    assert!(commit.files.is_empty());
    assert_eq!(commit.first_sequence, 4);
    assert_eq!(commit.next_sequence, 5);
    assert_eq!(store.durable_sequence(), Some(5));
    let mut restarted = open_store(&mut disk);
    assert_eq!(restarted.durable_sequence(), Some(5));
    let snapshot = restarted.pin();
    assert!(scan(&disk, &snapshot, &Scan::default()).expect("scan").is_empty());
}

#[test]
fn replaying_a_durable_range_publishes_it_once() {
    let mut disk = Disk::new();
    let mut store = open_store(&mut disk);
    seal(&mut store, frame(0, 0, vec![attribute("a", 1)]));
    let error = publish(
        &mut store,
        &mut disk,
        &PublishOptions {
            fault: Some(PublishFault::Swap),
            ..PublishOptions::default()
        },
    )
    .expect_err("swap");
    assert!(matches!(error, StoreError::Fault(PublishFault::Swap)));
    let during = store.pin();
    assert!(during.snapshot.published.is_empty());
    assert_eq!(during.snapshot.frozen.len(), 1);
    publish(&mut store, &mut disk, &PublishOptions::default()).expect("retry");
    let after = store.pin();
    assert!(after.snapshot.frozen.is_empty());
    assert_eq!(after.snapshot.published.len(), 1);
    assert_eq!(
        scanned_sequences(scan(&disk, &after, &Scan::default()).expect("scan")),
        [0]
    );
    publish(&mut store, &mut disk, &PublishOptions::default()).expect("idle");
    assert_eq!(store.pin().snapshot.published.len(), 1);
}

#[test]
fn publication_faults_recover_to_the_old_or_new_generation() {
    let cases = [
        (Some(ParquetFault::Create), None, false),
        (Some(ParquetFault::SyncFile), None, false),
        (Some(ParquetFault::Rename), None, false),
        (Some(ParquetFault::SyncDir), None, false),
        (None, Some(CommitFault::Create), false),
        (None, Some(CommitFault::SyncFile), false),
        (None, Some(CommitFault::Rename), false),
        (None, Some(CommitFault::SyncDir), true),
    ];
    for (parquet_fault, commit_fault, published) in cases {
        let mut disk = Disk::new();
        let mut store = open_store(&mut disk);
        seal(&mut store, frame(0, 0, vec![attribute("a", 1)]));
        let error = publish(
            &mut store,
            &mut disk,
            &PublishOptions {
                parquet: ParquetWriteOptions {
                    fault: parquet_fault,
                },
                commit: CommitWriteOptions {
                    fault: commit_fault,
                },
                fault: None,
            },
        )
        .expect_err("fault");
        assert!(error.message().contains("fault"));
        drop(store);
        let mut recovered = open_store(&mut disk);
        let snapshot = recovered.pin();
        let rows = scan(&disk, &snapshot, &Scan::default()).expect("scan");
        let path = commit_path(ROOT, TENANT, 0, 1);
        if published {
            assert_eq!(recovered.durable_sequence(), Some(1));
            assert!(disk.holds(&path));
            assert_eq!(scanned_sequences(rows), [0]);
        } else {
            assert_eq!(recovered.durable_sequence(), None);
            assert!(!disk.holds(&path));
            assert!(rows.is_empty());
            assert!(!disk.holds(&format!("{path}.tmp")));
        }
    }
}

#[test]
fn a_corrupt_latest_commit_reverts_to_the_previous_generation() {
    let mut disk = Disk::new();
    let mut store = open_store(&mut disk);
    seal(&mut store, frame(0, 0, vec![attribute("a", 1)]));
    publish(&mut store, &mut disk, &PublishOptions::default()).expect("first");
    seal(&mut store, frame(1, 0, vec![attribute("b", 2)]));
    publish(&mut store, &mut disk, &PublishOptions::default()).expect("second");
    let path = commit_path(ROOT, TENANT, 1, 2);
    let mut bytes = disk.bytes(&path).to_vec();
    let last = bytes.len() - 1;
    bytes[last] ^= 0x01;
    disk.files.insert(path.clone(), Entry::Bytes(bytes));
    drop(store);
    let mut recovered = open_store(&mut disk);
    assert_eq!(recovered.durable_sequence(), Some(1));
    let snapshot = recovered.pin();
    let rows = scan(&disk, &snapshot, &Scan::default()).expect("scan");
    assert_eq!(scanned_sequences(rows), [0]);
    assert!(!disk.holds(&path));
}

#[test]
fn align_projected_reuses_present_arrays_and_nulls_only_requested_columns() {
    let plain = |fields: Vec<Field>| Schema {
        fields,
        metadata: TextMap::new(),
    };
    let int_column = |cells: Vec<Cell>| Column {
        data_type: DataType::Int64,
        cells,
    };
    let batch = RecordBatch::try_new(
        plain(vec![
            Field::new("keep", DataType::Int64, true),
            Field::new("skip", DataType::Int64, true),
        ]),
        vec![
            int_column(vec![Cell::Int64(1), Cell::Null]),
            int_column(vec![Cell::Int64(3), Cell::Int64(4)]),
        ],
    )
    .expect("batch");
    let schema = plain(vec![
        Field::new("keep", DataType::Int64, true),
        Field::new("missing", DataType::Utf8, true),
        Field::new("skip", DataType::Int64, true),
    ]);
    let aligned = align_projected(&batch, &schema, Some(&vec![0, 1])).expect("project");
    assert_eq!(
        aligned
            .schema()
            .fields
            .iter()
            .map(|field| field.name.as_str())
            .collect::<Vec<_>>(),
        ["keep", "missing"]
    );
    assert_eq!(
        format!("{:?}", aligned.column(0)),
        format!("{:?}", batch.column(0))
    );
    assert_eq!(aligned.column(1).null_count(), 2);

    let full = align_projected(&batch, &schema, None).expect("full");
    assert_eq!(full.num_columns(), 3);
    assert_eq!(
        format!("{:?}", full.column(0)),
        format!("{:?}", batch.column(0))
    );
    assert_eq!(full.column(1).null_count(), 2);
    assert_eq!(
        format!("{:?}", full.column(2)),
        format!("{:?}", batch.column(1))
    );

    let empty = align_projected(&batch, full.schema(), Some(&Vec::new())).expect("empty");
    assert_eq!(empty.num_columns(), 0);
    assert_eq!(empty.num_rows(), batch.num_rows());
}

fn leased(store: &Store, path: &str) -> Option<u64> {
    store
        .leased_paths()
        .into_iter()
        .find(|(leased, _)| leased == path)
        .map(|(_, count)| count)
}

#[test]
fn a_retired_file_stays_leased_until_the_last_pin_drops() {
    let mut disk = Disk::new();
    let mut store = open_store(&mut disk);
    store.append(&frame(0, 0, Vec::new())).expect("append");
    store.append(&frame(1, HOUR, Vec::new())).expect("append");
    store.rotate().expect("rotate");
    let commit = publish(&mut store, &mut disk, &PublishOptions::default())
        .expect("publish")
        .expect("commit");
    assert_eq!(commit.files.len(), 2);
    let hidden = commit.files[0].relative_path.clone();
    let kept = commit.files[1].relative_path.clone();
    let first = store.pin();
    let second = store.pin();
    assert_eq!(leased(&store, &hidden), Some(2));
    store.install(&vec![hidden.clone()]);
    let later = store.pin();
    assert!(store
        .sources(&later, &Scan::default())
        .iter()
        .flat_map(|hour| &hour.files)
        .all(|file| !file.path.ends_with(&hidden)));
    assert!(store
        .sources(&first, &Scan::default())
        .iter()
        .flat_map(|hour| &hour.files)
        .any(|file| file.path.ends_with(&hidden)));
    assert!(store.collectible().is_empty());
    store.release(first.lease);
    assert!(store.collectible().is_empty());
    assert_eq!(leased(&store, &hidden), Some(1));
    store.release(second.lease);
    let collectible = store.collectible();
    assert!(collectible.contains(&hidden));
    assert!(!collectible.contains(&kept));
    store.release(later.lease);
    assert!(disk.holds(&join(&tenant_directory(ROOT, TENANT), &hidden)));
}

// Recovery.

#[test]
fn size_mismatch_clears_statistics_and_keeps_the_file() {
    let mut disk = Disk::new();
    let mut store = open_store(&mut disk);
    store
        .append(&decode(0, 1, vec![log_record(1, "row", Vec::new())]))
        .expect("append");
    store.rotate().expect("rotate");
    let published = publish(&mut store, &mut disk, &PublishOptions::default())
        .expect("publish")
        .expect("commit");
    assert!(published.files[0].statistics.is_some());
    drop(store);

    let path = commit_path(ROOT, TENANT, 0, 1);
    let mut commit = commit::decode(disk.bytes(&path)).expect("read");
    commit.files[0]
        .statistics
        .as_mut()
        .expect("stats")
        .size_bytes = 1;
    write_commit(&mut disk, &commit, &CommitWriteOptions::default()).expect("rewrite");

    let recovered = recover(&mut disk).expect("recover");
    let file = &recovered.catalog.commits()[0].files[0];
    assert!(file.statistics.is_none());
    assert_eq!(file.rows, 1);
}

fn publish_two_hours(disk: &mut Disk) -> Commit {
    let mut store = open_store(disk);
    let logs = decode(
        0,
        9,
        vec![
            log_record(1, "early", Vec::new()),
            log_record(3_600_000_000_000, "later", Vec::new()),
        ],
    );
    store.append(&logs).expect("append");
    store.rotate().expect("rotate");
    publish(&mut store, disk, &PublishOptions::default())
        .expect("publish")
        .expect("commit")
}

fn retirement_of(commit: &Commit, path: &str, rows: u64) -> Retirement {
    Retirement {
        tenant: commit.tenant.clone(),
        first_sequence: commit.first_sequence,
        next_sequence: commit.next_sequence,
        received_before_unix_nano: 10,
        files: vec![RetiredFile {
            relative_path: path.to_owned(),
            rows,
        }],
    }
}

fn retire_first(disk: &mut Disk, commit: &Commit) {
    let file = &commit.files[0];
    write_retirement(
        disk,
        &retirement_of(commit, &file.relative_path, file.rows),
        &RetirementWriteOptions::default(),
    )
    .expect("retire");
}

#[test]
fn retirement_hides_a_file_that_is_still_on_disk() {
    let mut disk = Disk::new();
    let commit = publish_two_hours(&mut disk);
    assert_eq!(commit.files.len(), 2);
    retire_first(&mut disk, &commit);
    let mut store = open_store(&mut disk);
    assert_eq!(store.durable_sequence(), Some(1));
    let snapshot = store.pin();
    assert_eq!(snapshot.snapshot.published.len(), 1);
    assert!(has_field(
        &snapshot.snapshot.schema().expect("schema"),
        COLUMN_BODY
    ));
    let batches = scan(&disk, &snapshot, &Scan::default()).expect("scan");
    assert_eq!(bodies(&batches), vec![Some("later".to_owned())]);
    assert!(disk.holds(&join(
        &tenant_directory(ROOT, TENANT),
        &commit.files[0].relative_path
    )));
}

#[test]
fn recovery_allows_a_retired_file_to_be_absent_and_is_idempotent() {
    let mut disk = Disk::new();
    let commit = publish_two_hours(&mut disk);
    retire_first(&mut disk, &commit);
    let tenant_dir = tenant_directory(ROOT, TENANT);
    let retired = join(&tenant_dir, &commit.files[0].relative_path);
    disk.files.remove(&retired).expect("delete retired parquet");
    let first = recover(&mut disk).expect("recover");
    assert_eq!(first.retirements.len(), 1);
    assert_eq!(first.catalog.durable_sequence(), Some(1));
    let second = recover(&mut disk).expect("recover again");
    assert_eq!(
        format!("{:?}", second.retirements),
        format!("{:?}", first.retirements)
    );
    assert!(!disk.holds(&retired));
    assert!(disk.holds(&join(&tenant_dir, &commit.files[1].relative_path)));
}

#[test]
fn a_missing_visible_file_is_fatal() {
    let mut disk = Disk::new();
    let commit = publish_two_hours(&mut disk);
    let path = join(
        &tenant_directory(ROOT, TENANT),
        &commit.files[1].relative_path,
    );
    disk.files.remove(&path).expect("delete");
    let error = recover(&mut disk).expect_err("missing");
    assert!(matches!(error, RecoveryError::Parquet(_)));
    assert!(error.message().contains("missing published file"));
}

#[test]
fn a_file_of_another_generation_is_fatal() {
    let mut disk = Disk::new();
    let commit = publish_two_hours(&mut disk);
    let path = join(
        &tenant_directory(ROOT, TENANT),
        &commit.files[1].relative_path,
    );
    if let Some(Entry::Parquet { schema, .. }) = disk.files.get_mut(&path) {
        schema
            .metadata
            .insert(META_ROW_COUNT.to_owned(), "7".to_owned());
    }
    let error = recover(&mut disk).expect_err("metadata");
    assert!(error.message().contains("does not match the commit"));
}

#[test]
fn an_unnamed_parquet_file_is_removed() {
    let mut disk = Disk::new();
    let commit = publish_two_hours(&mut disk);
    let stray = join(
        &hour_directory(ROOT, TENANT, EventHour::containing(0)),
        "stray.parquet",
    );
    disk.files.insert(stray.clone(), Entry::Bytes(Vec::new()));
    let recovered = recover(&mut disk).expect("recover");
    assert_eq!(recovered.removed_orphans, [stray]);
    for file in &commit.files {
        assert!(disk.holds(&join(&tenant_directory(ROOT, TENANT), &file.relative_path)));
    }
}

#[test]
fn a_retirement_outside_its_commit_is_fatal() {
    let mut disk = Disk::new();
    let commit = publish_two_hours(&mut disk);
    write_retirement(
        &mut disk,
        &retirement_of(&commit, "date=1970-01-01/hour=00/missing.parquet", 1),
        &RetirementWriteOptions::default(),
    )
    .expect("retire");
    let error = recover(&mut disk).expect_err("invalid path");
    assert!(matches!(error, RecoveryError::Retirement(_)));
}

#[test]
fn a_retirement_for_an_unknown_range_is_fatal() {
    let mut disk = Disk::new();
    let commit = publish_two_hours(&mut disk);
    let mut retired = retirement_of(&commit, &commit.files[0].relative_path, commit.files[0].rows);
    retired.first_sequence = 10;
    retired.next_sequence = 11;
    write_retirement(&mut disk, &retired, &RetirementWriteOptions::default()).expect("retire");
    let error = recover(&mut disk).expect_err("unknown range");
    assert!(matches!(error, RecoveryError::Retirement(_)));
}

#[test]
fn a_corrupt_retirement_descriptor_stays_and_fails_startup() {
    let mut disk = Disk::new();
    let commit = publish_two_hours(&mut disk);
    retire_first(&mut disk, &commit);
    let path = retirement_path(ROOT, TENANT, commit.first_sequence, commit.next_sequence);
    let mut bytes = disk.bytes(&path).to_vec();
    let last = bytes.len() - 1;
    bytes[last] ^= 0x01;
    disk.files.insert(path.clone(), Entry::Bytes(bytes));
    assert!(recover(&mut disk).is_err());
    assert!(disk.holds(&path));
}

#[test]
fn an_incomplete_retirement_temp_is_removed() {
    let mut disk = Disk::new();
    let commit = publish_two_hours(&mut disk);
    let error = write_retirement(
        &mut disk,
        &retirement_of(&commit, &commit.files[0].relative_path, commit.files[0].rows),
        &RetirementWriteOptions {
            fault: Some(RetirementFault::Rename),
        },
    )
    .expect_err("fault");
    assert!(matches!(
        error,
        RetirementError::Fault(RetirementFault::Rename)
    ));
    let recovered = recover(&mut disk).expect("recover");
    assert!(recovered.retirements.is_empty());
    assert_eq!(recovered.removed_temporary.len(), 1);
}

#[test]
fn a_crash_before_rename_leaves_no_durable_descriptor() {
    let mut disk = Disk::new();
    let error = write_retirement(
        &mut disk,
        &Retirement {
            tenant: "tenant-a".to_owned(),
            first_sequence: 0,
            next_sequence: 2,
            received_before_unix_nano: 50,
            files: vec![RetiredFile {
                relative_path: "date=1970-01-01/hour=00/0-2.parquet".to_owned(),
                rows: 2,
            }],
        },
        &RetirementWriteOptions {
            fault: Some(RetirementFault::Rename),
        },
    )
    .expect_err("fault");
    assert!(matches!(
        error,
        RetirementError::Fault(RetirementFault::Rename)
    ));
    let path = retirement_path(ROOT, "tenant-a", 0, 2);
    assert!(!disk.holds(&path));
    assert!(disk.holds(&format!("{path}.tmp")));
}

// Retention.

fn publish_two_receive_times(disk: &mut Disk) -> Store {
    let mut store = open_store(disk);
    for (sequence, time, received, body) in [(0, 1, 100, "early"), (1, HOUR, 300, "later")] {
        store
            .append(&decode(
                sequence,
                received,
                vec![log_record(time, body, Vec::new())],
            ))
            .expect("append");
    }
    store.rotate().expect("rotate");
    publish(&mut store, disk, &PublishOptions::default())
        .expect("publish")
        .expect("commit");
    store
}

fn visible_bodies(store: &mut Store, disk: &Disk) -> Vec<String> {
    let pinned = store.pin();
    let batches = scan(disk, &pinned, &Scan::default()).expect("scan");
    store.release(pinned.lease);
    bodies(&batches).into_iter().flatten().collect()
}

#[test]
fn retirement_hides_one_hour_and_leaves_the_durable_sequence() {
    let mut disk = Disk::new();
    let mut store = publish_two_receive_times(&mut disk);
    assert_eq!(store.durable_sequence(), Some(2));
    let report =
        retire_before(&mut store, &mut disk, 200, &RetireOptions::default()).expect("retire");
    assert_eq!(report.paths.len(), 1);
    assert_eq!(report.rows, 1);
    assert!(report.bytes > 0);
    assert_eq!(visible_bodies(&mut store, &disk), vec!["later".to_owned()]);
    assert_eq!(store.durable_sequence(), Some(2));
    let again =
        retire_before(&mut store, &mut disk, 200, &RetireOptions::default()).expect("repeat");
    assert!(again.paths.is_empty());
    let later =
        retire_before(&mut store, &mut disk, 301, &RetireOptions::default()).expect("second file");
    assert_eq!(later.paths.len(), 1);
    assert!(visible_bodies(&mut store, &disk).is_empty());
    assert_eq!(store.durable_sequence(), Some(2));
}

#[test]
fn collection_waits_for_the_last_lease_and_is_idempotent() {
    let mut disk = Disk::new();
    let mut store = publish_two_receive_times(&mut disk);
    let pinned = store.pin();
    let report =
        retire_before(&mut store, &mut disk, 200, &RetireOptions::default()).expect("retire");
    let hidden = join(&tenant_directory(ROOT, TENANT), &report.paths[0]);
    let held = collect_retired(&mut store, &mut disk, &CollectOptions::default()).expect("held");
    assert!(held.removed.is_empty());
    assert!(disk.holds(&hidden));
    store.release(pinned.lease);
    let removed =
        collect_retired(&mut store, &mut disk, &CollectOptions::default()).expect("collect");
    assert_eq!(removed.removed, report.paths);
    assert!(!disk.holds(&hidden));
    let hour = parent_of(&hidden).expect("hour");
    assert_eq!(disk.directory_state(&hour), DirectoryState::Missing);
    assert_eq!(
        disk.directory_state(&tenant_directory(ROOT, TENANT)),
        DirectoryState::Occupied
    );
    let again = collect_retired(&mut store, &mut disk, &CollectOptions::default()).expect("again");
    assert!(again.removed.is_empty());
    drop(store);
    let mut reopened = open_store(&mut disk);
    assert_eq!(visible_bodies(&mut reopened, &disk), vec!["later".to_owned()]);
    assert_eq!(reopened.durable_sequence(), Some(2));
}

fn retire_with(fault: RetirementFault) -> RetireOptions {
    RetireOptions {
        write: RetirementWriteOptions { fault: Some(fault) },
    }
}

#[test]
fn a_crash_before_rename_leaves_both_files_visible() {
    for fault in [RetirementFault::Create, RetirementFault::SyncFile] {
        let mut disk = Disk::new();
        let mut store = publish_two_receive_times(&mut disk);
        let error =
            retire_before(&mut store, &mut disk, 200, &retire_with(fault)).expect_err("fault");
        assert!(matches!(
            error,
            StoreError::Retirement(RetirementError::Fault(step)) if step == fault
        ));
        drop(store);
        let mut reopened = open_store(&mut disk);
        let mut visible = visible_bodies(&mut reopened, &disk);
        visible.sort();
        assert_eq!(visible, vec!["early".to_owned(), "later".to_owned()]);
    }
}

#[test]
fn a_descriptor_fault_never_hides_a_missing_file() {
    let mut disk = Disk::new();
    let mut store = publish_two_receive_times(&mut disk);
    let error = retire_before(
        &mut store,
        &mut disk,
        200,
        &retire_with(RetirementFault::Rename),
    )
    .expect_err("rename");
    assert!(matches!(
        error,
        StoreError::Retirement(RetirementError::Fault(RetirementFault::Rename))
    ));
    drop(store);
    let mut reopened = open_store(&mut disk);
    let mut visible = visible_bodies(&mut reopened, &disk);
    visible.sort();
    assert_eq!(visible, vec!["early".to_owned(), "later".to_owned()]);

    let error = retire_before(
        &mut reopened,
        &mut disk,
        200,
        &retire_with(RetirementFault::SyncDir),
    )
    .expect_err("sync");
    assert!(matches!(
        error,
        StoreError::Retirement(RetirementError::Fault(RetirementFault::SyncDir))
    ));
    drop(reopened);
    let mut hidden = open_store(&mut disk);
    assert_eq!(visible_bodies(&mut hidden, &disk), vec!["later".to_owned()]);
    assert!(disk.files.keys().any(|path| path.contains("date=")));
}

#[test]
fn an_unlink_fault_keeps_the_file_and_a_sync_fault_still_hides_it() {
    let mut disk = Disk::new();
    let mut store = publish_two_receive_times(&mut disk);
    let report =
        retire_before(&mut store, &mut disk, 200, &RetireOptions::default()).expect("retire");
    let hidden = join(&tenant_directory(ROOT, TENANT), &report.paths[0]);
    let error = collect_retired(
        &mut store,
        &mut disk,
        &CollectOptions {
            fault: Some(CollectFault::Unlink),
        },
    )
    .expect_err("unlink");
    assert!(matches!(
        error,
        StoreError::Collect(CollectError::Fault(CollectFault::Unlink))
    ));
    assert!(disk.holds(&hidden));
    let error = collect_retired(
        &mut store,
        &mut disk,
        &CollectOptions {
            fault: Some(CollectFault::SyncDir),
        },
    )
    .expect_err("sync");
    assert!(matches!(
        error,
        StoreError::Collect(CollectError::Fault(CollectFault::SyncDir))
    ));
    assert!(!disk.holds(&hidden));
    drop(store);
    let mut reopened = open_store(&mut disk);
    assert_eq!(visible_bodies(&mut reopened, &disk), vec!["later".to_owned()]);
}

#[test]
fn pruning_climbs_to_the_tenant_directory() {
    let tenant_dir = "/data/tenants/a";
    let hour = "/data/tenants/a/date=1970-01-01/hour=00";
    assert_eq!(prune_step(tenant_dir, hour, DirectoryState::Missing), PruneStep::Climb);
    assert_eq!(
        prune_step(tenant_dir, hour, DirectoryState::Empty),
        PruneStep::RemoveAndClimb
    );
    assert_eq!(
        prune_step(tenant_dir, hour, DirectoryState::Occupied),
        PruneStep::SyncAndStop
    );
    assert_eq!(
        prune_step(tenant_dir, tenant_dir, DirectoryState::Empty),
        PruneStep::Stop
    );
    assert_eq!(
        prune_step(tenant_dir, "/data/tenants/ab", DirectoryState::Empty),
        PruneStep::Stop
    );
}

#[test]
fn recovery_loads_commits_in_any_order() {
    let mut disk = Disk::new();
    let mut store = open_store(&mut disk);
    seal(&mut store, frame(0, 0, vec![attribute("a", 1)]));
    seal(&mut store, frame(1, HOUR, Vec::new()));
    publish(&mut store, &mut disk, &PublishOptions::default()).expect("first");
    publish(&mut store, &mut disk, &PublishOptions::default()).expect("second");
    let tenant_dir = tenant_directory(ROOT, TENANT);
    let mut recovery = Recovery::new();
    for (first, next) in [(1, 2), (0, 1)] {
        let path = commit_path(ROOT, TENANT, first, next);
        let found = Found::Commit(commit::decode(disk.bytes(&path)));
        assert!(!recovery.observe(&path, found).expect("commit"));
    }
    let observed: Vec<Vec<FileObservation>> = recovery
        .commits()
        .iter()
        .map(|commit| {
            commit
                .files
                .iter()
                .map(|file| match disk.files.get(&join(&tenant_dir, &file.relative_path)) {
                    Some(entry @ Entry::Parquet { schema, .. }) => FileObservation::Present {
                        metadata: schema.metadata.clone(),
                        size: Ok(entry.size()),
                    },
                    _ => FileObservation::Missing,
                })
                .collect()
        })
        .collect();
    let recovered = recovery
        .settle(TENANT, &tenant_dir, &observed)
        .expect("settle");
    let ranges: Vec<(u64, u64)> = recovered
        .catalog
        .commits()
        .iter()
        .map(|commit| (commit.first_sequence, commit.next_sequence))
        .collect();
    assert_eq!(ranges, [(0, 1), (1, 2)]);
    assert!(recovered
        .catalog
        .commits()
        .iter()
        .all(|commit| commit.files.iter().all(|file| file.statistics.is_some())));
}

#[test]
fn recovering_again_from_another_listing_changes_nothing() {
    let mut disk = Disk::new();
    let mut store = open_store(&mut disk);
    seal(&mut store, frame(0, 0, Vec::new()));
    seal(&mut store, frame(1, HOUR, Vec::new()));
    let first = publish(&mut store, &mut disk, &PublishOptions::default())
        .expect("publish")
        .expect("first");
    let second = publish(&mut store, &mut disk, &PublishOptions::default())
        .expect("publish")
        .expect("second");
    retire_first(&mut disk, &first);
    retire_first(&mut disk, &second);
    let orphan = parquet_path(ROOT, TENANT, EventHour::containing(0), 7, 8);
    disk.files.insert(orphan.clone(), Entry::Bytes(Vec::new()));
    let before = recover(&mut disk).expect("recover");
    assert_eq!(before.removed_orphans, vec![orphan]);
    let mut listing = tenant_paths(&disk);
    listing.reverse();
    let after = recover_listing(&mut disk, listing).expect("recover again");
    assert_eq!(
        format!("{:?}", after.catalog.commits()),
        format!("{:?}", before.catalog.commits())
    );
    assert!(after.removed_temporary.is_empty());
    assert!(after.removed_corrupt.is_empty());
    assert!(after.removed_orphans.is_empty());
    let ranges = |recovered: &Recovered| -> Vec<(u64, u64)> {
        recovered
            .retirements
            .iter()
            .map(|retired| (retired.first_sequence, retired.next_sequence))
            .collect()
    };
    assert_eq!(ranges(&before), [(0, 1), (1, 2)]);
    assert_eq!(ranges(&after), [(1, 2), (0, 1)]);
}

#[test]
fn a_store_publishes_the_files_of_its_commits() {
    let mut disk = Disk::new();
    let mut store = open_store(&mut disk);
    assert!(store.publishes(&Vec::new()));
    seal(&mut store, frame(0, 0, Vec::new()));
    let expected = "date=1970-01-01/hour=00/0-1.parquet".to_owned();
    assert!(!store.publishes(&vec![expected.clone()]));
    let commit = publish(&mut store, &mut disk, &PublishOptions::default())
        .expect("publish")
        .expect("commit");
    assert_eq!(commit.files.len(), 1);
    assert_eq!(commit.files[0].relative_path, expected);
    assert!(store.publishes(&vec![expected.clone()]));
    assert!(!store.publishes(&vec![
        expected.clone(),
        "date=1970-01-01/hour=00/1-2.parquet".to_owned()
    ]));
    store.install(&vec![expected.clone()]);
    assert!(store.publishes(&vec![expected]));
}

#[test]
fn a_retirement_hides_nothing_of_a_later_generation() {
    let mut disk = Disk::new();
    let mut store = open_store(&mut disk);
    seal(&mut store, frame(0, 5, Vec::new()));
    publish(&mut store, &mut disk, &PublishOptions::default()).expect("first");
    let report =
        retire_before(&mut store, &mut disk, 2, &RetireOptions::default()).expect("retire");
    assert_eq!(
        report.paths,
        vec!["date=1970-01-01/hour=00/0-1.parquet".to_owned()]
    );
    seal(&mut store, frame(1, 6, Vec::new()));
    let before = visible_bodies(&mut store, &disk);
    assert_eq!(before, vec!["row-1".to_owned()]);
    publish(&mut store, &mut disk, &PublishOptions::default()).expect("second");
    assert_eq!(visible_bodies(&mut store, &disk), before);
    assert_eq!(store.durable_sequence(), Some(2));
}

#[test]
fn releasing_a_snapshot_undoes_its_pin() {
    let mut disk = Disk::new();
    let mut store = open_store(&mut disk);
    seal(&mut store, frame(0, 0, Vec::new()));
    let commit = publish(&mut store, &mut disk, &PublishOptions::default())
        .expect("publish")
        .expect("commit");
    let path = commit.files[0].relative_path.clone();
    assert!(store.leased_paths().is_empty());
    let pinned = store.pin();
    assert_eq!(leased(&store, &path), Some(1));
    store.release(pinned.lease);
    assert!(store.leased_paths().is_empty());
    assert!(store.collectible().is_empty());
}

#[test]
fn a_scan_over_several_hours_is_in_wal_order() {
    let mut disk = Disk::new();
    let mut store = open_store(&mut disk);
    store.append(&frame(0, HOUR, Vec::new())).expect("later hour");
    store.append(&frame(1, 5, Vec::new())).expect("earlier hour");
    store
        .append(&decode(
            2,
            1,
            vec![
                log_record(HOUR + 7, "first", Vec::new()),
                log_record(6, "second", Vec::new()),
                log_record(HOUR + 9, "third", Vec::new()),
            ],
        ))
        .expect("both hours");
    let expected: Vec<Option<String>> = ["row-0", "row-1", "first", "second", "third"]
        .iter()
        .map(|body| Some((*body).to_owned()))
        .collect();
    let memory = store.pin();
    let rows = scan(&disk, &memory, &Scan::default()).expect("memory");
    assert_eq!(bodies(&rows), expected);
    store.rotate().expect("rotate");
    publish(&mut store, &mut disk, &PublishOptions::default()).expect("publish");
    let published = store.pin();
    let rows = scan(&disk, &published, &Scan::default()).expect("files");
    assert_eq!(bodies(&rows), expected);
    assert_eq!(scanned_sequences(rows), [0, 1, 2, 2, 2]);
    // The order does not depend on whether the scan returns the sequence.
    let projected = scan(
        &disk,
        &published,
        &Scan {
            columns: Some(vec![COLUMN_BODY.to_owned()]),
            ..Scan::default()
        },
    )
    .expect("projected");
    assert_eq!(bodies(&projected), expected);
}

/// The cells of every row, whatever the order of the rows.
fn bag(batches: &[RecordBatch]) -> Vec<String> {
    let mut rows: Vec<String> = batches
        .iter()
        .flat_map(|batch| {
            (0..batch.num_rows())
                .map(|row| {
                    batch
                        .schema()
                        .fields
                        .iter()
                        .map(|field| {
                            format!("{}={:?};", field.name, cells(batch, &field.name)[row])
                        })
                        .collect::<String>()
                })
                .collect::<Vec<_>>()
        })
        .collect();
    rows.sort();
    rows
}

#[test]
fn publication_keeps_the_bag_of_rows() {
    let mut disk = Disk::new();
    let mut store = open_store(&mut disk);
    store
        .append(&frame(0, HOUR, vec![attribute("a", 1)]))
        .expect("first");
    seal(&mut store, frame(1, 5, vec![attribute("b", 2)]));
    seal(&mut store, frame(2, 5, vec![attribute("c", 3)]));
    store.append(&frame(3, 9, Vec::new())).expect("active");
    for narrow in [
        Scan::default(),
        Scan {
            from_hour: Some(EventHour::containing(HOUR)),
            ..Scan::default()
        },
    ] {
        let before = store.pin();
        let then = bag(&scan(&disk, &before, &narrow).expect("before"));
        store.release(before.lease);
        if store.commits().is_empty() {
            publish(&mut store, &mut disk, &PublishOptions::default())
                .expect("publish")
                .expect("commit");
        }
        let after = store.pin();
        let now = bag(&scan(&disk, &after, &narrow).expect("after"));
        store.release(after.lease);
        assert_eq!(then, now);
    }
    assert_eq!(store.durable_sequence(), Some(2));
}

#[test]
fn completing_a_publication_twice_publishes_once() {
    let mut disk = Disk::new();
    let mut store = open_store(&mut disk);
    seal(&mut store, frame(0, 5, Vec::new()));
    seal(&mut store, frame(1, 5, Vec::new()));
    let commit = publish(&mut store, &mut disk, &PublishOptions::default())
        .expect("publish")
        .expect("commit");
    let epoch = store.pin().snapshot.epoch;
    store
        .complete_publication(commit.first_sequence, commit.next_sequence, commit.clone())
        .expect("again");
    let snapshot = store.pin();
    assert_eq!(snapshot.snapshot.published.len(), 1);
    assert_eq!(snapshot.snapshot.frozen.len(), 1);
    assert!(snapshot.snapshot.epoch > epoch);
    assert_eq!(store.durable_sequence(), Some(1));
}

#[test]
fn a_repeated_retirement_reports_what_it_hides() {
    let mut disk = Disk::new();
    let mut store = publish_two_receive_times(&mut disk);
    let file = store.commits()[0].files[0].clone();
    let size = file.statistics.as_ref().expect("statistics").size_bytes;
    retire_before(
        &mut store,
        &mut disk,
        200,
        &retire_with(RetirementFault::SyncDir),
    )
    .expect_err("sync");
    let report =
        retire_before(&mut store, &mut disk, 200, &RetireOptions::default()).expect("repeat");
    assert_eq!(report.paths, [file.relative_path.clone()]);
    assert_eq!(report.rows, file.rows);
    assert_eq!(report.bytes, size);
    let nothing =
        retire_before(&mut store, &mut disk, 200, &RetireOptions::default()).expect("nothing");
    assert!(nothing.paths.is_empty());
    assert_eq!((nothing.rows, nothing.bytes), (0, 0));
    // A later cutoff takes the other file into the same descriptor, and counts only that file.
    let other = store.commits()[0].files[1].clone();
    let later =
        retire_before(&mut store, &mut disk, 301, &RetireOptions::default()).expect("later");
    assert_eq!(later.paths, [other.relative_path.clone()]);
    assert_eq!(later.rows, other.rows);
    assert_eq!(later.bytes, other.statistics.as_ref().expect("statistics").size_bytes);
}

#[test]
fn an_opened_store_offers_retired_files_for_collection() {
    let mut disk = Disk::new();
    let mut store = publish_two_receive_times(&mut disk);
    let report =
        retire_before(&mut store, &mut disk, 200, &RetireOptions::default()).expect("retire");
    drop(store);
    let mut reopened = open_store(&mut disk);
    assert_eq!(reopened.collectible(), report.paths);
    let hidden = join(&tenant_directory(ROOT, TENANT), &report.paths[0]);
    assert!(disk.holds(&hidden));
    let removed =
        collect_retired(&mut reopened, &mut disk, &CollectOptions::default()).expect("collect");
    assert_eq!(removed.removed, report.paths);
    assert!(!disk.holds(&hidden));
    assert!(reopened.collectible().is_empty());
    assert!(reopened.leased_paths().is_empty());
    assert_eq!(reopened.retired().paths(), report.paths);
    // What is gone already is offered once more after a restart, and taken off again.
    drop(reopened);
    let mut again = open_store(&mut disk);
    assert_eq!(again.collectible(), report.paths);
    collect_retired(&mut again, &mut disk, &CollectOptions::default()).expect("absent");
    assert!(again.collectible().is_empty());
}

#[test]
fn recovering_twice_removes_nothing_more() {
    let mut disk = Disk::new();
    let commit = publish_two_hours(&mut disk);
    retire_first(&mut disk, &commit);
    let stray = format!(
        "{}/stray.parquet",
        hour_directory(ROOT, TENANT, EventHour::containing(0))
    );
    let unfinished = format!("{}.tmp", commit_path(ROOT, TENANT, 9, 10));
    disk.files.insert(stray.clone(), Entry::Bytes(Vec::new()));
    disk.files.insert(unfinished.clone(), Entry::Bytes(Vec::new()));
    let first = recover(&mut disk).expect("first");
    assert_eq!(first.removed_orphans, [stray]);
    assert_eq!(first.removed_temporary, [unfinished]);
    let kept: Vec<String> = disk.files.keys().cloned().collect();
    let second = recover(&mut disk).expect("second");
    assert!(second.removed_orphans.is_empty());
    assert!(second.removed_temporary.is_empty());
    assert!(second.removed_corrupt.is_empty());
    assert_eq!(second.catalog.commits().len(), first.catalog.commits().len());
    assert_eq!(second.retirements.len(), 1);
    assert_eq!(kept, disk.files.keys().cloned().collect::<Vec<_>>());
}

#[test]
fn a_projected_column_of_another_type_is_incompatible() {
    let batch = RecordBatch::try_new(
        Schema {
            fields: vec![Field::new("a", DataType::Int64, true)],
            metadata: TextMap::new(),
        },
        vec![Column {
            data_type: DataType::Int64,
            cells: vec![Cell::Int64(1)],
        }],
    )
    .expect("batch");
    let wrong = Schema {
        fields: vec![
            Field::new("a", DataType::Utf8, true),
            Field::new("b", DataType::Int64, false),
        ],
        metadata: TextMap::new(),
    };
    match align_projected(&batch, &wrong, None).expect_err("type") {
        StoreError::Incompatible(detail) => {
            assert_eq!(detail, "column a has type Int64, schema expects Utf8");
        }
        other => panic!("{other:?}"),
    }
    match align_projected(&batch, &wrong, Some(&vec![1, 0])).expect_err("missing") {
        StoreError::Memtable(MemtableError::IncompatibleBatch(detail)) => {
            assert_eq!(detail, "missing required column b");
        }
        other => panic!("{other:?}"),
    }
}

#[test]
fn every_flipped_bit_of_a_descriptor_is_refused() {
    let mut disk = Disk::new();
    let commit = publish_two_hours(&mut disk);
    retire_first(&mut disk, &commit);
    let committed = disk.bytes(&commit_path(ROOT, TENANT, 0, 1)).to_vec();
    let retired = disk.bytes(&retirement_path(ROOT, TENANT, 0, 1)).to_vec();
    for at in 0..committed.len() {
        for bit in 0..8 {
            let mut bytes = committed.clone();
            bytes[at] ^= 1 << bit;
            assert!(matches!(commit::decode(&bytes), Err(commit::CommitError::Checksum)));
        }
    }
    for at in 0..retired.len() {
        for bit in 0..8 {
            let mut bytes = retired.clone();
            bytes[at] ^= 1 << bit;
            assert!(matches!(retirement::decode(&bytes), Err(RetirementError::Checksum)));
        }
    }
}

#[test]
fn descriptors_end_in_the_castagnoli_checksum() {
    let mut disk = Disk::new();
    publish_two_hours(&mut disk);
    let bytes = disk.bytes(&commit_path(ROOT, TENANT, 0, 1));
    let (covered, trailer) = bytes.split_at(bytes.len() - 4);
    let mut state = u32::MAX;
    for byte in covered {
        state ^= u32::from(*byte);
        for _ in 0..8 {
            state = (state >> 1) ^ if state & 1 == 1 { 0x82f6_3b78 } else { 0 };
        }
    }
    assert_eq!(trailer, (!state).to_le_bytes());
}

#[test]
fn a_path_set_counts_each_path_once() {
    let mut set = PathSet::new();
    assert_eq!(set.len(), 0);
    for path in ["b", "a", "b", "c"] {
        set.insert(path);
    }
    assert_eq!(set.len(), 3);
    set.remove("b");
    set.remove("b");
    assert_eq!(set.len(), 2);
    assert_eq!(set.paths(), ["a", "c"]);
}
