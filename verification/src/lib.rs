//! Durable log storage, ingestion rules and query planning for OTLP logs.
//!
//! A logs frame of the write-ahead log stays raw OTLP. Decoding projects it into stable core
//! columns, three canonical JSON columns and nullable typed columns for admitted attributes. A
//! memtable collects those batches in generations; a frozen generation is published as Parquet
//! files and one commit descriptor. A snapshot sees each row in memory or in Parquet, and a query
//! reads one snapshot, hour by hour.
//!
//! The library decides and computes. It reads no file, no socket and, but for the receive time and
//! the age of a generation, no clock: the application around it does, and hands plain values over.
//!
//! - `otlp`, `canonical_json`, `json_reader`, `identity`, `naming`, `dynamic`, `decode`: from a
//!   request to columns.
//! - `schema`, `batch`, `align`, `floats`, `sorted`, `text`, `calendar`, `layout`, `paths`: the
//!   values that everything else works on.
//! - `generation`, `frame`, `memtable`, `clock`: rows in memory.
//! - `arrange`, `newest`, `wal_order`: rows in another order, none lost.
//! - `statistics`, `parquet`, `publication`, `commit`, `retirement`, `codec`, `durable`: what is
//!   written to disk, byte for byte, and in which order.
//! - `catalog`, `recovery`, `scan`, `rows`, `row_laws`, `store`, `retention`: what is visible, and
//!   for how long.
//! - `window`, `query`, `table`: which hours a query reads, and how it runs.
//! - `headers`, `auth`, `ingest`: who may store what, and how a refusal is answered.
pub mod text;
pub mod sorted;
pub mod calendar;
pub mod schema;
pub mod codec;
pub mod batch;
pub mod layout;
pub mod floats;
pub mod otlp;
pub mod canonical_json;
pub mod identity;
pub mod naming;
pub mod dynamic;
pub mod json_reader;
pub mod statistics;
pub mod commit;
pub mod retirement;
pub mod decode;
pub mod align;
pub mod clock;
pub mod generation;
pub mod frame;
pub mod memtable;
pub mod parquet;
pub mod arrange;
pub mod wal_order;
pub mod newest;
pub mod publication;
pub mod durable;
pub mod catalog;
pub mod paths;
pub mod recovery;
pub mod scan;
pub mod rows;
pub mod store;
pub mod retention;
pub mod window;
pub mod query;
pub mod table;
pub mod row_laws;
pub mod headers;
pub mod auth;
pub mod ingest;

pub use crate::canonical_json::{
    canonical_any_value_json, canonical_attributes_json, CanonicalJsonError, MAX_JSON_DEPTH,
};
pub use crate::catalog::{Catalog, CatalogError};
pub use crate::commit::{Commit, CommitError, CommitFault, CommitFile, CommitWriteOptions};
pub use crate::publication::commit_for;
pub use crate::decode::{
    decode_logs_frame, DecodeError, DecodedLogs, DecodedPartition, Frame, FrameSignal,
};
pub use crate::identity::{
    dynamic_identity, AttributeSource, DynamicField, DynamicIdentity, DynamicKind, FIELD_KIND,
    FIELD_PATH, FIELD_SOURCE,
};
pub use crate::naming::{discover_dynamic_schema, DynamicError, DynamicSchema};
pub use crate::dynamic::{
    ordered_field_names, project_dynamic_fields, record_dynamic_values, DynamicColumn,
    DynamicLimits, DynamicProjection, DynamicValue,
};
pub use crate::layout::{
    commit_file_name, commit_path, commits_directory, hour_directory, hour_end_unix_nano,
    parquet_file_name, parquet_path, retirement_file_name, retirement_path, retirements_directory,
    sync_order, tenant_directory,
};
pub use crate::align::{align_batch, MemtableError};
pub use crate::clock::{Clock, ManualClock, SystemClock};
pub use crate::generation::{Generation, GenerationPartition};
pub use crate::memtable::{Appended, Memtable, MemtableConfig, Snapshot};
pub use crate::parquet::{
    ParquetError, ParquetFault, ParquetFile, ParquetWriteOptions, META_FINGERPRINT,
    META_HOUR_END_UNIX_NANO, META_HOUR_START_UNIX_NANO, META_PROJECTION_VERSION, META_ROW_COUNT,
    META_WAL_FIRST_SEQUENCE, META_WAL_NEXT_SEQUENCE,
};
pub use crate::newest::sort_by_newest_event;
pub use crate::wal_order::sort_by_wal_order;
pub use crate::recovery::{Recovered, RecoveryError};
pub use crate::retirement::{
    RetiredFile, Retirement, RetirementError, RetirementFault, RetirementWriteOptions,
};
pub use crate::schema::{core_logs_schema, logs_batch_schema, DataType, EventHour, Field, Schema};
pub use crate::batch::{Cell, Column, RecordBatch};
pub use crate::scan::{
    align_projected, CollectError, CollectFault, HourSources, PublishFault, PublishedFile, Scan,
    StoreError, StoreSnapshot,
};
pub use crate::store::{PinnedSnapshot, PublishOptions, SnapshotLease, Store};
pub use crate::retention::{CollectOptions, CollectReport, RetentionReport, RetireOptions};
pub use crate::statistics::{
    eligible_for_received_retention, file_statistics, statistics_usable, ColumnStatistics,
    FileStatistics, StatValue,
};
pub use crate::query::{QueryBatchStream, QueryEngineConfig, QueryError, QueryOptions};
pub use crate::table::ObserverTableProvider;
pub use crate::auth::{AuthConfigError, AuthError, TokenDirectory};
pub use crate::ingest::{
    AcceptedBatch, AppendError, AppendErrorKind, IngestOptions, Signal, FUTURE_TIMESTAMP,
};
