//! Parquet files of one frozen generation.
//!
//! Each hour partition becomes one file. Batches are aligned to the file schema before they are
//! written, so missing dynamic columns are typed nulls.
use std::sync::Arc;
use vstd::prelude::*;
use crate::align;
use crate::align::{align_batch, MemtableError, MemtableErrorView};
use crate::batch::{BatchView, RecordBatch};
use crate::generation;
use crate::generation::{Generation, GenerationView, HourView};
use crate::layout;
use crate::layout::{hour_end_unix_nano, parquet_path};
use crate::schema::{EventHour, Schema, SchemaView, PROJECTION_VERSION};
use crate::sorted;
use crate::statistics;
use crate::statistics::{file_statistics, FileStatistics, FileStatisticsView};
use crate::text;
use crate::text::decimal;

verus! {

/// Schema metadata key for [`PROJECTION_VERSION`].
pub const META_PROJECTION_VERSION: &'static str = "observer.projection_version";

/// Schema metadata key for the generation schema fingerprint.
pub const META_FINGERPRINT: &'static str = "observer.schema_fingerprint";

/// Schema metadata key for the inclusive first WAL sequence.
pub const META_WAL_FIRST_SEQUENCE: &'static str = "observer.wal_first_sequence";

/// Schema metadata key for the exclusive next WAL sequence.
pub const META_WAL_NEXT_SEQUENCE: &'static str = "observer.wal_next_sequence";

/// Schema metadata key for the number of rows in this hour file.
pub const META_ROW_COUNT: &'static str = "observer.row_count";

/// Schema metadata key for the inclusive UTC hour start.
pub const META_HOUR_START_UNIX_NANO: &'static str = "observer.hour_start_unix_nano";

/// Schema metadata key for the exclusive UTC hour end.
pub const META_HOUR_END_UNIX_NANO: &'static str = "observer.hour_end_unix_nano";

/// Where a durability test stops a write.
#[derive(Clone, Copy, Debug, PartialEq, Eq, Structural)]
pub enum ParquetFault {
    /// Fail before creating the temporary file.
    Create,
    /// Fail after the temporary file is written, before it is synced.
    SyncFile,
    /// Fail after the sync, before the temporary file is renamed.
    Rename,
    /// Fail after rename, before the directories are synced.
    SyncDir,
}

/// Options for one generation write.
#[derive(Clone, Copy, Debug)]
pub struct ParquetWriteOptions {
    /// Stop at this durability boundary and leave the partial file in place.
    pub fault: Option<ParquetFault>,
}

impl Default for ParquetWriteOptions {
    fn default() -> (options: Self)
        ensures
            options.fault is None,
    {
        ParquetWriteOptions { fault: None }
    }
}

/// One hour file written for a generation.
#[derive(Debug)]
pub struct ParquetFile {
    /// UTC hour covered by the file.
    pub hour: EventHour,
    /// Final Parquet path.
    pub path: String,
    /// Rows stored in the file.
    pub rows: u64,
    /// Bounds of the columns, where they can be summarized.
    pub statistics: Option<FileStatistics>,
}

#[verifier::ext_equal]
pub struct ParquetFileView {
    pub hour: u64,
    pub path: Seq<char>,
    pub rows: u64,
    pub statistics: Option<FileStatisticsView>,
}

impl DeepView for ParquetFile {
    type V = ParquetFileView;

    open spec fn deep_view(&self) -> ParquetFileView {
        ParquetFileView {
            hour: self.hour@,
            path: self.path@,
            rows: self.rows,
            statistics: self.statistics.deep_view(),
        }
    }
}

/// Why a generation could not be written or read.
#[derive(Debug)]
pub enum ParquetError {
    /// Filesystem failure, by its message.
    Io(String),
    /// The file was rejected.
    Storage(String),
    /// A batch could not be aligned to the file schema.
    Align(MemtableError),
    /// [`ParquetWriteOptions::fault`] stopped the write.
    Fault(ParquetFault),
}

#[verifier::ext_equal]
pub enum ParquetErrorView {
    Io(Seq<char>),
    Storage(Seq<char>),
    Align(MemtableErrorView),
    Fault(ParquetFault),
}

impl DeepView for ParquetError {
    type V = ParquetErrorView;

    open spec fn deep_view(&self) -> ParquetErrorView {
        match self {
            ParquetError::Io(error) => ParquetErrorView::Io(error@),
            ParquetError::Storage(detail) => ParquetErrorView::Storage(detail@),
            ParquetError::Align(error) => ParquetErrorView::Align(error.deep_view()),
            ParquetError::Fault(step) => ParquetErrorView::Fault(*step),
        }
    }
}

/// What is shown for a fault.
pub open spec fn parquet_fault_text(fault: ParquetFault) -> Seq<char> {
    match fault {
        ParquetFault::Create => "Create"@,
        ParquetFault::SyncFile => "SyncFile"@,
        ParquetFault::Rename => "Rename"@,
        ParquetFault::SyncDir => "SyncDir"@,
    }
}

impl ParquetErrorView {
    pub open spec fn text(self) -> Seq<char> {
        match self {
            ParquetErrorView::Io(error) => "parquet io: "@ + error,
            ParquetErrorView::Storage(detail) => "parquet storage: "@ + detail,
            ParquetErrorView::Align(error) => "parquet align: "@ + error.text(),
            ParquetErrorView::Fault(step) => "injected parquet fault at "@ + parquet_fault_text(
                step,
            ),
        }
    }
}

impl ParquetError {
    /// The message of this error.
    pub fn message(&self) -> (message: String)
        ensures
            message@ == self.deep_view().text(),
    {
        match self {
            ParquetError::Io(error) => "parquet io: ".to_owned().concat(error),
            ParquetError::Storage(detail) => "parquet storage: ".to_owned().concat(detail),
            ParquetError::Align(error) => "parquet align: ".to_owned().concat(&error.message()),
            ParquetError::Fault(step) => "injected parquet fault at ".to_owned().concat(
                match step {
                    ParquetFault::Create => "Create",
                    ParquetFault::SyncFile => "SyncFile",
                    ParquetFault::Rename => "Rename",
                    ParquetFault::SyncDir => "SyncDir",
                },
            ),
        }
    }
}

/// Fails at the durability boundary that `options` name.
pub fn fail(options: &ParquetWriteOptions, step: ParquetFault) -> (result: Result<
    (),
    ParquetError,
>)
    ensures
        result is Err <==> options.fault == Some(step),
        result is Err ==> result->Err_0 == ParquetError::Fault(step),
{
    match options.fault {
        Some(fault) => if fault == step {
            Err(ParquetError::Fault(step))
        } else {
            Ok(())
        },
        None => Ok(()),
    }
}

// Planning.

/// The schema of one hour file: that of the generation, with where the file comes from.
pub open spec fn file_schema_of(generation: GenerationView, hour: u64, rows: u64) -> SchemaView {
    let first = sorted::put(
        generation.schema.metadata,
        META_PROJECTION_VERSION@,
        text::decimal_text(PROJECTION_VERSION as nat),
    );
    let second = sorted::put(first, META_FINGERPRINT@, generation.fingerprint);
    let third = sorted::put(
        second,
        META_WAL_FIRST_SEQUENCE@,
        text::decimal_text(generation.first_sequence as nat),
    );
    let fourth = sorted::put(
        third,
        META_WAL_NEXT_SEQUENCE@,
        text::decimal_text(generation.next_sequence as nat),
    );
    let fifth = sorted::put(fourth, META_ROW_COUNT@, text::decimal_text(rows as nat));
    let sixth = sorted::put(
        fifth,
        META_HOUR_START_UNIX_NANO@,
        text::decimal_text(hour as nat),
    );
    let seventh = sorted::put(
        sixth,
        META_HOUR_END_UNIX_NANO@,
        text::decimal_text(layout::hour_end(hour) as nat),
    );
    SchemaView { fields: generation.schema.fields, metadata: seventh }
}

/// The schema of one hour file: that of the generation, with where the file comes from.
pub fn file_schema(generation: &Generation, hour: EventHour, rows: u64) -> (schema: Schema)
    ensures
        schema.deep_view() == file_schema_of(generation.deep_view(), hour@, rows),
{
    let mut schema = generation.schema.clone();
    schema.metadata.insert(
        META_PROJECTION_VERSION.to_owned(),
        decimal(PROJECTION_VERSION as u64),
    );
    schema.metadata.insert(META_FINGERPRINT.to_owned(), generation.fingerprint.clone());
    schema.metadata.insert(
        META_WAL_FIRST_SEQUENCE.to_owned(),
        decimal(generation.first_sequence),
    );
    schema.metadata.insert(
        META_WAL_NEXT_SEQUENCE.to_owned(),
        decimal(generation.next_sequence),
    );
    schema.metadata.insert(META_ROW_COUNT.to_owned(), decimal(rows));
    schema.metadata.insert(META_HOUR_START_UNIX_NANO.to_owned(), decimal(hour.start_unix_nano()));
    schema.metadata.insert(
        META_HOUR_END_UNIX_NANO.to_owned(),
        decimal(hour_end_unix_nano(hour)),
    );
    schema
}

/// Rows of the batches, if 64 bits hold them.
fn row_count(batches: &Vec<Arc<RecordBatch>>) -> (rows: Option<u64>)
    ensures
        rows is Some == (generation::batch_rows(batches.deep_view()) <= u64::MAX),
        rows is Some ==> rows->0 == generation::batch_rows(batches.deep_view()),
{
    let ghost all = batches.deep_view();
    let mut total: u64 = 0;
    let mut i: usize = 0;
    assert(all.take(0) =~= Seq::empty());
    while i < batches.len()
        invariant
            i <= batches.len(),
            all == batches.deep_view(),
            total == generation::batch_rows(all.take(i as int)),
        decreases batches.len() - i,
    {
        assert(all.take(i + 1).drop_last() =~= all.take(i as int));
        assert(all[i as int] == batches@[i as int].deep_view());
        match total.checked_add(batches[i].num_rows() as u64) {
            Some(sum) => {
                total = sum;
            },
            None => {
                proof {
                    lemma_batch_rows_take(all, i + 1);
                }
                return None;
            },
        }
        i = i + 1;
    }
    assert(all.take(i as int) =~= all);
    Some(total)
}

proof fn lemma_batch_rows_take(batches: Seq<BatchView>, count: int)
    requires
        0 <= count <= batches.len(),
    ensures
        generation::batch_rows(batches.take(count)) <= generation::batch_rows(batches),
    decreases batches.len() - count,
{
    if count < batches.len() {
        assert(batches.take(count + 1).drop_last() =~= batches.take(count));
        lemma_batch_rows_take(batches, count + 1);
    } else {
        assert(batches.take(count) =~= batches);
    }
}

/// Whether a partition has rows.
pub open spec fn has_rows(partitions: Seq<HourView>) -> bool {
    exists|p: int, b: int|
        0 <= p < partitions.len() && 0 <= b < partitions[p].batches.len()
            && (#[trigger] partitions[p].batches[b]).rows > 0
}

/// Refuses a generation that has rows but no sequence range.
///
/// # Errors
///
/// Returns [`ParquetError::Storage`] for such a generation.
pub fn check_range(generation: &Generation) -> (result: Result<(), ParquetError>)
    ensures
        result is Err <==> has_rows(generation.deep_view().partitions) && generation.next_sequence
            <= generation.first_sequence,
        result is Err ==> result->Err_0.deep_view() == ParquetErrorView::Storage(
            "generation sequence range is empty"@,
        ),
{
    if generation.next_sequence > generation.first_sequence {
        return Ok(());
    }
    let ghost all = generation.partitions.deep_view();
    let mut p: usize = 0;
    while p < generation.partitions.len()
        invariant
            p <= generation.partitions.len(),
            all == generation.partitions.deep_view(),
            all == generation.deep_view().partitions,
            generation.next_sequence <= generation.first_sequence,
            forall|i: int, b: int|
                0 <= i < p && 0 <= b < all[i].batches.len() ==> (
                #[trigger] all[i].batches[b]).rows == 0,
        decreases generation.partitions.len() - p,
    {
        let batches = &generation.partitions[p].batches;
        assert(all[p as int] == generation.partitions@[p as int].deep_view());
        let mut b: usize = 0;
        while b < batches.len()
            invariant
                b <= batches.len(),
                p < all.len(),
                all == generation.deep_view().partitions,
                all[p as int].batches == batches.deep_view(),
                generation.next_sequence <= generation.first_sequence,
                forall|k: int|
                    0 <= k < b ==> (#[trigger] all[p as int].batches[k]).rows == 0,
            decreases batches.len() - b,
        {
            assert(all[p as int].batches[b as int] == batches@[b as int].deep_view());
            if batches[b].num_rows() > 0 {
                assert(all[p as int].batches[b as int].rows > 0);
                return Err(
                    ParquetError::Storage("generation sequence range is empty".to_owned()),
                );
            }
            b = b + 1;
        }
        p = p + 1;
    }
    Ok(())
}

/// One hour file that is to be written.
#[derive(Debug)]
pub struct HourFile {
    pub hour: EventHour,
    pub path: String,
    pub rows: u64,
    pub schema: Schema,
    pub batches: Vec<RecordBatch>,
}

#[verifier::ext_equal]
pub struct HourFileView {
    pub hour: u64,
    pub path: Seq<char>,
    pub rows: u64,
    pub schema: SchemaView,
    pub batches: Seq<BatchView>,
}

impl DeepView for HourFile {
    type V = HourFileView;

    open spec fn deep_view(&self) -> HourFileView {
        HourFileView {
            hour: self.hour@,
            path: self.path@,
            rows: self.rows,
            schema: self.schema.deep_view(),
            batches: self.batches.deep_view(),
        }
    }
}

/// The batches under one schema, or why one does not fit.
pub open spec fn aligned_all(batches: Seq<BatchView>, schema: SchemaView) -> Result<
    Seq<BatchView>,
    Seq<char>,
>
    decreases batches.len(),
{
    if batches.len() == 0 {
        Ok(Seq::empty())
    } else {
        match aligned_all(batches.drop_last(), schema) {
            Err(detail) => Err(detail),
            Ok(before) => match align::aligned(batches.last(), schema) {
                Err(detail) => Err(detail),
                Ok(batch) => Ok(before.push(batch)),
            },
        }
    }
}

proof fn lemma_aligned_fail(batches: Seq<BatchView>, schema: SchemaView, count: int)
    requires
        0 <= count <= batches.len(),
        aligned_all(batches.take(count), schema) is Err,
    ensures
        aligned_all(batches, schema) == aligned_all(batches.take(count), schema),
    decreases batches.len() - count,
{
    if count < batches.len() {
        assert(batches.take(count + 1).drop_last() =~= batches.take(count));
        lemma_aligned_fail(batches, schema, count + 1);
    } else {
        assert(batches.take(count) =~= batches);
    }
}

/// The file of one hour, none where the hour has no rows, or why it cannot be written.
pub open spec fn hour_file_of(
    root: Seq<char>,
    tenant: Seq<char>,
    generation: GenerationView,
    at: int,
) -> Result<Option<HourFileView>, ParquetErrorView> {
    let partition = generation.partitions[at];
    let rows = generation::batch_rows(partition.batches);
    if rows > u64::MAX {
        Err(ParquetErrorView::Storage("row count exceeds u64"@))
    } else if rows == 0 {
        Ok(None)
    } else {
        let schema = file_schema_of(generation, partition.hour, rows as u64);
        match aligned_all(partition.batches, schema) {
            Err(detail) => Err(
                ParquetErrorView::Align(MemtableErrorView::IncompatibleBatch(detail)),
            ),
            Ok(batches) => Ok(
                Some(
                    HourFileView {
                        hour: partition.hour,
                        path: layout::join_path(
                            layout::hour_dir(root, tenant, partition.hour),
                            layout::range_name(
                                generation.first_sequence,
                                generation.next_sequence,
                                ".parquet"@,
                            ),
                        ),
                        rows: rows as u64,
                        schema,
                        batches,
                    },
                ),
            ),
        }
    }
}

/// The file of one hour partition of `generation` under `root`, none where it has no rows.
///
/// # Errors
///
/// Returns [`ParquetError`] when the rows cannot be counted or a batch cannot be aligned.
pub fn hour_file(root: &str, tenant: &str, generation: &Generation, at: usize) -> (file: Result<
    Option<HourFile>,
    ParquetError,
>)
    requires
        at < generation.partitions@.len(),
    ensures
        match file {
            Ok(file) => hour_file_of(root@, tenant@, generation.deep_view(), at as int) == Ok::<
                Option<HourFileView>,
                ParquetErrorView,
            >(file.deep_view()) && (file is Some ==> file->0.wf()),
            Err(error) => hour_file_of(root@, tenant@, generation.deep_view(), at as int)
                == Err::<Option<HourFileView>, ParquetErrorView>(error.deep_view()),
        },
{
    let partition = &generation.partitions[at];
    assert(generation.deep_view().partitions[at as int] == partition.deep_view());
    let rows = match row_count(&partition.batches) {
        Some(rows) => rows,
        None => {
            return Err(ParquetError::Storage("row count exceeds u64".to_owned()));
        },
    };
    if rows == 0 {
        return Ok(None);
    }
    let path = parquet_path(
        root,
        tenant,
        partition.hour,
        generation.first_sequence,
        generation.next_sequence,
    );
    let schema = file_schema(generation, partition.hour, rows);
    let ghost all = partition.batches.deep_view();
    let ghost target = schema.deep_view();
    let mut batches: Vec<RecordBatch> = Vec::new();
    let mut i: usize = 0;
    assert(all.take(0) =~= Seq::empty());
    assert(batches.deep_view() =~= Seq::empty());
    while i < partition.batches.len()
        invariant
            i <= partition.batches.len(),
            all == partition.batches.deep_view(),
            target == schema.deep_view(),
            target == file_schema_of(generation.deep_view(), partition.hour@, rows),
            at < generation.deep_view().partitions.len(),
            generation.deep_view().partitions[at as int] == partition.deep_view(),
            rows == generation::batch_rows(all),
            rows > 0,
            forall|k: int|
                0 <= k < i ==> (#[trigger] batches.deep_view()[k]).schema == target,
            aligned_all(all.take(i as int), target) == Ok::<Seq<BatchView>, Seq<char>>(
                batches.deep_view(),
            ),
            batches@.len() == i,
        decreases partition.batches.len() - i,
    {
        assert(all.take(i + 1).drop_last() =~= all.take(i as int));
        assert(all[i as int] == partition.batches@[i as int].deep_view());
        match align_batch(&partition.batches[i], &schema) {
            Ok(batch) => {
                let ghost before = batches.deep_view();
                let ghost view = batch.deep_view();
                batches.push(batch);
                assert(batches.deep_view() =~= before.push(view));
            },
            Err(error) => {
                proof {
                    lemma_aligned_fail(all, target, i + 1);
                }
                return Err(ParquetError::Align(error));
            },
        }
        i = i + 1;
    }
    assert(all.take(i as int) =~= all);
    Ok(Some(HourFile { hour: partition.hour, path, rows, schema, batches }))
}

impl HourFile {
    /// Every batch has the schema of the file.
    pub open spec fn wf(&self) -> bool {
        forall|i: int|
            0 <= i < self.batches@.len() ==> (#[trigger] self.deep_view().batches[i]).schema
                == self.schema.deep_view()
    }

    /// What is recorded of this file once `size_bytes` were written.
    pub fn recorded(&self, size_bytes: u64) -> (file: ParquetFile)
        ensures
            file.deep_view() == (ParquetFileView {
                hour: self.deep_view().hour,
                path: self.deep_view().path,
                rows: self.rows,
                statistics: statistics::file_summary(
                    self.deep_view().schema.fields,
                    self.deep_view().batches,
                    size_bytes,
                ),
            }),
    {
        ParquetFile {
            hour: self.hour,
            path: self.path.clone(),
            rows: self.rows,
            statistics: file_statistics(&self.schema, &self.batches, size_bytes),
        }
    }
}

/// An hour has a file exactly where it has rows. The file holds all of them under the schema of the
/// generation, counts them, and lies in the directory of the hour under the name of the sequence range.
pub proof fn hour_files_hold_their_hour(
    root: Seq<char>,
    tenant: Seq<char>,
    generation: GenerationView,
    at: int,
)
    requires
        0 <= at < generation.partitions.len(),
        forall|b: int|
            0 <= b < generation.partitions[at].batches.len() ==> (
            #[trigger] generation.partitions[at].batches[b]).wf(),
        hour_file_of(root, tenant, generation, at) is Ok,
    ensures
        ({
            let partition = generation.partitions[at];
            let found = hour_file_of(root, tenant, generation, at)->Ok_0;
            &&& found is Some <==> exists|b: int|
                0 <= b < partition.batches.len() && (#[trigger] partition.batches[b]).rows > 0
            &&& found is Some ==> {
                let file = found->0;
                &&& file.hour == partition.hour
                &&& file.rows == generation::batch_rows(partition.batches)
                &&& generation::batch_rows(file.batches) == file.rows
                &&& file.schema.fields == generation.schema.fields
                &&& file.path == layout::join_path(
                    layout::hour_dir(root, tenant, partition.hour),
                    layout::range_name(
                        generation.first_sequence,
                        generation.next_sequence,
                        ".parquet"@,
                    ),
                )
                &&& file.batches.len() == partition.batches.len()
                &&& forall|b: int|
                    0 <= b < partition.batches.len() ==> align::aligned(
                        partition.batches[b],
                        file.schema,
                    ) == Ok::<BatchView, Seq<char>>(#[trigger] file.batches[b])
            }
        }),
{
    let partition = generation.partitions[at];
    lemma_some_rows(partition.batches);
    if let Some(file) = hour_file_of(root, tenant, generation, at)->Ok_0 {
        lemma_aligned_each(partition.batches, file.schema);
    }
}

proof fn lemma_some_rows(batches: Seq<BatchView>)
    ensures
        generation::batch_rows(batches) > 0 <==> exists|b: int|
            0 <= b < batches.len() && (#[trigger] batches[b]).rows > 0,
    decreases batches.len(),
{
    if batches.len() > 0 {
        let front = batches.drop_last();
        let end = batches.len() - 1;
        lemma_some_rows(front);
        assert(batches[end] == batches.last());
        if generation::batch_rows(front) > 0 {
            let b = choose|b: int| 0 <= b < front.len() && (#[trigger] front[b]).rows > 0;
            assert(batches[b].rows > 0);
        }
        if exists|b: int| 0 <= b < batches.len() && (#[trigger] batches[b]).rows > 0 {
            let b = choose|b: int| 0 <= b < batches.len() && (#[trigger] batches[b]).rows > 0;
            if b < end {
                assert(front[b].rows > 0);
            }
        }
    }
}

proof fn lemma_aligned_each(batches: Seq<BatchView>, schema: SchemaView)
    requires
        aligned_all(batches, schema) is Ok,
        forall|b: int| 0 <= b < batches.len() ==> (#[trigger] batches[b]).wf(),
    ensures
        ({
            let after = aligned_all(batches, schema)->Ok_0;
            &&& after.len() == batches.len()
            &&& generation::batch_rows(after) == generation::batch_rows(batches)
            &&& forall|b: int|
                0 <= b < batches.len() ==> align::aligned(batches[b], schema) == Ok::<
                    BatchView,
                    Seq<char>,
                >(#[trigger] after[b])
        }),
    decreases batches.len(),
{
    if batches.len() > 0 {
        let front = batches.drop_last();
        let last = batches[batches.len() - 1];
        assert forall|b: int| 0 <= b < front.len() implies (#[trigger] front[b]).wf() by {
            assert(front[b] == batches[b]);
        }
        lemma_aligned_each(front, schema);
        let before = aligned_all(front, schema)->Ok_0;
        let after = aligned_all(batches, schema)->Ok_0;
        align::alignment_keeps_columns(last, schema, align::aligned(last, schema)->Ok_0);
        assert(after.drop_last() =~= before);
        assert forall|b: int| 0 <= b < batches.len() implies align::aligned(batches[b], schema)
            == Ok::<BatchView, Seq<char>>(#[trigger] after[b]) by {
            if b < front.len() {
                assert(after[b] == before[b]);
                assert(front[b] == batches[b]);
            }
        }
    }
}

} // verus!
