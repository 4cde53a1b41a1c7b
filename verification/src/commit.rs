//! Versioned, CRC32C-protected commit descriptor for one published generation.
//!
//! The descriptor is the publication record. Files are visible to a scan only after this
//! descriptor is durable. Replaying the same sequence range writes the same path.
use vstd::prelude::*;
use crate::codec;
use crate::codec::{
    seal, text_fits, unseal, write_metadata, write_option_u64, write_str, write_u16, write_u32,
    write_u64,
    DescriptorError, DescriptorErrorView, Parsed, Reader,
};
use crate::layout;
use crate::layout::{hour_end_unix_nano, is_plain_relative};
use crate::schema;
use crate::schema::{
    DataType, DataTypeView, EventHour, Field, FieldView, Schema, SchemaView,
};
use crate::sorted;
use crate::sorted::TextMap;
use crate::statistics;
use crate::statistics::{
    statistics_usable, ColumnStatistics, ColumnStatisticsView, FileStatistics, FileStatisticsView,
    StatValue, StatValueView,
};
use crate::text;
use crate::text::same_text;

verus! {

/// Version of the descriptor layout.
pub const COMMIT_VERSION: u16 = 1;

/// The first bytes of a descriptor.
pub open spec fn commit_magic() -> Seq<u8> {
    seq![0x4fu8, 0x42u8, 0x53u8, 0x2du8, 0x43u8, 0x4du8, 0x54u8, 0x31u8]
}

/// Where a durability test stops a commit write.
#[derive(Clone, Copy, Debug, PartialEq, Eq, Structural)]
pub enum CommitFault {
    /// Fail before creating the temporary descriptor.
    Create,
    /// Fail after the temporary descriptor is written, before `sync_data`.
    SyncFile,
    /// Fail after `sync_data`, before the temporary descriptor is renamed.
    Rename,
    /// Fail after rename, before the directories are fsynced.
    SyncDir,
}

/// Options for one descriptor write.
#[derive(Clone, Copy, Debug)]
pub struct CommitWriteOptions {
    /// Stop at this durability boundary and leave the partial descriptor in place.
    pub fault: Option<CommitFault>,
}

impl Default for CommitWriteOptions {
    fn default() -> (options: Self)
        ensures
            options.fault is None,
    {
        CommitWriteOptions { fault: None }
    }
}

/// One hour file recorded by a commit.
#[derive(Debug)]
pub struct CommitFile {
    /// UTC hour covered by the file.
    pub hour: EventHour,
    /// Path relative to `tenants/<tenant>`.
    pub relative_path: String,
    /// Rows stored in the file.
    pub rows: u64,
    /// Bounds that a scan may use to skip this file. Absent when the bounds are missing or unusable.
    pub statistics: Option<FileStatistics>,
}

#[verifier::ext_equal]
pub struct CommitFileView {
    pub hour: u64,
    pub relative_path: Seq<char>,
    pub rows: u64,
    pub statistics: Option<FileStatisticsView>,
}

impl DeepView for CommitFile {
    type V = CommitFileView;

    open spec fn deep_view(&self) -> CommitFileView {
        CommitFileView {
            hour: self.hour@,
            relative_path: self.relative_path@,
            rows: self.rows,
            statistics: self.statistics.deep_view(),
        }
    }
}

/// Copies optional statistics.
pub fn copy_statistics(statistics: &Option<FileStatistics>) -> (copy: Option<FileStatistics>)
    ensures
        copy.deep_view() == statistics.deep_view(),
{
    match statistics {
        None => None,
        Some(statistics) => Some(statistics.clone()),
    }
}

impl Clone for CommitFile {
    fn clone(&self) -> (copy: Self)
        ensures
            copy.deep_view() == self.deep_view(),
    {
        CommitFile {
            hour: self.hour,
            relative_path: self.relative_path.clone(),
            rows: self.rows,
            statistics: copy_statistics(&self.statistics),
        }
    }
}

/// Equality of two recorded files.
pub open spec fn commit_file_equal(left: CommitFileView, right: CommitFileView) -> bool {
    left.hour == right.hour && left.relative_path == right.relative_path && left.rows == right.rows
        && match (left.statistics, right.statistics) {
        (None, None) => true,
        (Some(left), Some(right)) => statistics::file_statistics_equal(left, right),
        _ => false,
    }
}

/// Equality of two file lists.
pub open spec fn commit_files_equal(
    left: Seq<CommitFileView>,
    right: Seq<CommitFileView>,
) -> bool {
    left.len() == right.len() && forall|i: int|
        0 <= i < left.len() ==> commit_file_equal(#[trigger] left[i], right[i])
}

impl CommitFile {
    /// Tests two recorded files for equality.
    pub fn same(&self, other: &CommitFile) -> (same: bool)
        ensures
            same == commit_file_equal(self.deep_view(), other.deep_view()),
    {
        self.hour.same(other.hour) && same_text(&self.relative_path, &other.relative_path)
            && self.rows == other.rows && match (&self.statistics, &other.statistics) {
            (None, None) => true,
            (Some(left), Some(right)) => left.same(right),
            _ => false,
        }
    }
}

/// Tests two file lists for equality.
pub fn same_commit_files(left: &Vec<CommitFile>, right: &Vec<CommitFile>) -> (same: bool)
    ensures
        same == commit_files_equal(left.deep_view(), right.deep_view()),
{
    if left.len() != right.len() {
        return false;
    }
    let ghost a = left.deep_view();
    let ghost b = right.deep_view();
    let mut i: usize = 0;
    while i < left.len()
        invariant
            i <= left.len(),
            left.len() == right.len(),
            a == left.deep_view(),
            b == right.deep_view(),
            forall|k: int| 0 <= k < i ==> commit_file_equal(#[trigger] a[k], b[k]),
        decreases left.len() - i,
    {
        if !left[i].same(&right[i]) {
            assert(!commit_file_equal(a[i as int], b[i as int]));
            return false;
        }
        i = i + 1;
    }
    true
}

/// Durable publication record for one exclusive WAL sequence range.
#[derive(Debug)]
pub struct Commit {
    /// Tenant that owns the generation.
    pub tenant: String,
    /// Projection version at publication.
    pub projection_version: u32,
    /// BLAKE3 fingerprint of [`Commit::schema`].
    pub fingerprint: String,
    /// Union schema of the published generation.
    pub schema: Schema,
    /// Inclusive first WAL sequence.
    pub first_sequence: u64,
    /// Exclusive next WAL sequence.
    pub next_sequence: u64,
    /// Rows across every hour file.
    pub rows: u64,
    /// Hour files in UTC hour order. Empty when the generation stored no rows.
    pub files: Vec<CommitFile>,
    /// Inclusive start of the earliest hour. Absent when [`Commit::files`] is empty.
    pub start_unix_nano: Option<u64>,
    /// Exclusive end of the latest hour. Absent when [`Commit::files`] is empty.
    pub end_unix_nano: Option<u64>,
}

#[verifier::ext_equal]
pub struct CommitView {
    pub tenant: Seq<char>,
    pub projection_version: u32,
    pub fingerprint: Seq<char>,
    pub schema: SchemaView,
    pub first_sequence: u64,
    pub next_sequence: u64,
    pub rows: u64,
    pub files: Seq<CommitFileView>,
    pub start_unix_nano: Option<u64>,
    pub end_unix_nano: Option<u64>,
}

impl DeepView for Commit {
    type V = CommitView;

    open spec fn deep_view(&self) -> CommitView {
        CommitView {
            tenant: self.tenant@,
            projection_version: self.projection_version,
            fingerprint: self.fingerprint@,
            schema: self.schema.deep_view(),
            first_sequence: self.first_sequence,
            next_sequence: self.next_sequence,
            rows: self.rows,
            files: self.files.deep_view(),
            start_unix_nano: self.start_unix_nano,
            end_unix_nano: self.end_unix_nano,
        }
    }
}

/// Copies recorded files.
pub fn copy_commit_files(files: &Vec<CommitFile>) -> (copy: Vec<CommitFile>)
    ensures
        copy.deep_view() == files.deep_view(),
{
    let ghost all = files.deep_view();
    let mut copy: Vec<CommitFile> = Vec::new();
    let mut i: usize = 0;
    while i < files.len()
        invariant
            i <= files.len(),
            all == files.deep_view(),
            copy.deep_view() =~= all.take(i as int),
        decreases files.len() - i,
    {
        let ghost before = copy.deep_view();
        copy.push(files[i].clone());
        assert(copy.deep_view() =~= before.push(all[i as int]));
        i = i + 1;
    }
    assert(all.take(i as int) =~= all);
    copy
}

impl Clone for Commit {
    fn clone(&self) -> (copy: Self)
        ensures
            copy.deep_view() == self.deep_view(),
    {
        Commit {
            tenant: self.tenant.clone(),
            projection_version: self.projection_version,
            fingerprint: self.fingerprint.clone(),
            schema: self.schema.clone(),
            first_sequence: self.first_sequence,
            next_sequence: self.next_sequence,
            rows: self.rows,
            files: copy_commit_files(&self.files),
            start_unix_nano: self.start_unix_nano,
            end_unix_nano: self.end_unix_nano,
        }
    }
}

/// Why a commit descriptor could not be written or read.
#[derive(Debug)]
pub enum CommitError {
    /// Filesystem failure, by its message.
    Io(String),
    /// The descriptor bytes are not a supported commit.
    Invalid(String),
    /// The CRC32C trailer does not match the body.
    Checksum,
    /// [`CommitWriteOptions::fault`] stopped the write.
    Fault(CommitFault),
}

/// What is shown for a commit fault.
pub open spec fn commit_fault_text(fault: CommitFault) -> Seq<char> {
    match fault {
        CommitFault::Create => "Create"@,
        CommitFault::SyncFile => "SyncFile"@,
        CommitFault::Rename => "Rename"@,
        CommitFault::SyncDir => "SyncDir"@,
    }
}

impl CommitError {
    pub open spec fn text(&self) -> Seq<char> {
        match self {
            CommitError::Io(error) => "commit io: "@ + error@,
            CommitError::Invalid(detail) => "invalid commit: "@ + detail@,
            CommitError::Checksum => "commit checksum mismatch"@,
            CommitError::Fault(step) => "injected commit fault at "@ + commit_fault_text(*step),
        }
    }

    /// The message of this error.
    pub fn message(&self) -> (message: String)
        ensures
            message@ == self.text(),
    {
        match self {
            CommitError::Io(error) => "commit io: ".to_owned().concat(error),
            CommitError::Invalid(detail) => "invalid commit: ".to_owned().concat(detail),
            CommitError::Checksum => "commit checksum mismatch".to_owned(),
            CommitError::Fault(step) => "injected commit fault at ".to_owned().concat(
                match step {
                    CommitFault::Create => "Create",
                    CommitFault::SyncFile => "SyncFile",
                    CommitFault::Rename => "Rename",
                    CommitFault::SyncDir => "SyncDir",
                },
            ),
        }
    }
}

/// Fails at the durability boundary that `options` name.
pub fn fail(options: &CommitWriteOptions, step: CommitFault) -> (result: Result<(), CommitError>)
    ensures
        result is Err <==> options.fault == Some(step),
        result is Err ==> result->Err_0 == CommitError::Fault(step),
{
    match options.fault {
        Some(fault) => if fault == step {
            Err(CommitError::Fault(step))
        } else {
            Ok(())
        },
        None => Ok(()),
    }
}

/// Start of the earliest hour.
pub open spec fn earliest(files: Seq<CommitFileView>) -> Option<u64>
    decreases files.len(),
{
    if files.len() == 0 {
        None
    } else {
        match earliest(files.drop_last()) {
            None => Some(files.last().hour),
            Some(start) => Some(
                if files.last().hour < start {
                    files.last().hour
                } else {
                    start
                },
            ),
        }
    }
}

/// Exclusive end of the latest hour.
pub open spec fn latest(files: Seq<CommitFileView>) -> Option<u64>
    decreases files.len(),
{
    if files.len() == 0 {
        None
    } else {
        let end = layout::hour_end(files.last().hour);
        match latest(files.drop_last()) {
            None => Some(end),
            Some(last) => Some(
                if end > last {
                    end
                } else {
                    last
                },
            ),
        }
    }
}

/// Start of the earliest and end of the latest hour.
pub fn time_bounds(files: &Vec<CommitFile>) -> (bounds: (Option<u64>, Option<u64>))
    ensures
        bounds == (earliest(files.deep_view()), latest(files.deep_view())),
{
    let ghost all = files.deep_view();
    let mut start: Option<u64> = None;
    let mut end: Option<u64> = None;
    let mut i: usize = 0;
    assert(all.take(0) =~= Seq::empty());
    while i < files.len()
        invariant
            i <= files.len(),
            all == files.deep_view(),
            start == earliest(all.take(i as int)),
            end == latest(all.take(i as int)),
        decreases files.len() - i,
    {
        assert(all.take(i + 1).drop_last() =~= all.take(i as int));
        assert(all[i as int] == files@[i as int].deep_view());
        let hour = files[i].hour.start_unix_nano();
        let hour_end = hour_end_unix_nano(files[i].hour);
        start = match start {
            None => Some(hour),
            Some(known) => Some(
                if hour < known {
                    hour
                } else {
                    known
                },
            ),
        };
        end = match end {
            None => Some(hour_end),
            Some(known) => Some(
                if hour_end > known {
                    hour_end
                } else {
                    known
                },
            ),
        };
        i = i + 1;
    }
    assert(all.take(i as int) =~= all);
    (start, end)
}

/// Rows over all files.
pub open spec fn file_rows(files: Seq<CommitFileView>) -> nat
    decreases files.len(),
{
    if files.len() == 0 {
        0
    } else {
        file_rows(files.drop_last()) + files.last().rows as nat
    }
}

pub proof fn lemma_file_rows_take(files: Seq<CommitFileView>, count: int)
    requires
        0 <= count <= files.len(),
    ensures
        file_rows(files.take(count)) <= file_rows(files),
    decreases files.len() - count,
{
    if count < files.len() {
        lemma_file_rows_take(files, count + 1);
        assert(files.take(count + 1).drop_last() =~= files.take(count));
    } else {
        assert(files.take(count) =~= files);
    }
}

/// Rows over all files, where they can be counted.
pub fn sum_rows(files: &Vec<CommitFile>) -> (rows: Option<u64>)
    ensures
        rows is Some <==> file_rows(files.deep_view()) <= u64::MAX,
        rows is Some ==> rows->0 == file_rows(files.deep_view()),
{
    let ghost all = files.deep_view();
    let mut rows: u64 = 0;
    let mut i: usize = 0;
    assert(all.take(0) =~= Seq::empty());
    while i < files.len()
        invariant
            i <= files.len(),
            all == files.deep_view(),
            rows == file_rows(all.take(i as int)),
        decreases files.len() - i,
    {
        proof {
            assert(all.take(i + 1).drop_last() =~= all.take(i as int));
            lemma_file_rows_take(all, i + 1);
        }
        rows = match rows.checked_add(files[i].rows) {
            Some(total) => total,
            None => {
                return None;
            },
        };
        i = i + 1;
    }
    assert(all.take(i as int) =~= all);
    Some(rows)
}

// Encoding.

/// The tag of a column type, 0 for one that a descriptor cannot hold.
pub open spec fn type_tag(data_type: DataTypeView) -> u8 {
    match data_type {
        DataTypeView::Boolean => 1,
        DataTypeView::Int32 => 2,
        DataTypeView::Int64 => 3,
        DataTypeView::UInt16 => 4,
        DataTypeView::UInt32 => 5,
        DataTypeView::UInt64 => 6,
        DataTypeView::Float64 => 7,
        DataTypeView::Binary => 8,
        DataTypeView::Utf8 => 9,
        DataTypeView::FixedSizeBinary(_) => 10,
        DataTypeView::Other(_) => 0,
    }
}

pub open spec fn type_bytes(data_type: DataTypeView) -> Seq<u8> {
    seq![type_tag(data_type)] + match data_type {
        DataTypeView::FixedSizeBinary(width) => codec::le_bytes(width as u32 as nat, 4),
        _ => Seq::empty(),
    }
}

pub open spec fn bool_byte(value: bool) -> u8 {
    if value {
        1
    } else {
        0
    }
}

pub open spec fn field_bytes(field: FieldView) -> Seq<u8> {
    codec::string_bytes(field.name) + seq![bool_byte(field.nullable)] + type_bytes(field.data_type)
        + codec::metadata_bytes(field.metadata)
}

pub open spec fn field_encoding() -> spec_fn(FieldView) -> Seq<u8> {
    |field: FieldView| field_bytes(field)
}

pub open spec fn schema_bytes(schema: SchemaView) -> Seq<u8> {
    codec::metadata_bytes(schema.metadata) + codec::le_bytes(schema.fields.len(), 4)
        + codec::concat(field_encoding(), schema.fields)
}

pub open spec fn stat_bytes(value: StatValueView) -> Seq<u8> {
    match value {
        StatValueView::Bool(value) => seq![1u8, bool_byte(value)],
        StatValueView::Int32(value) => seq![2u8] + codec::le_bytes(value as u32 as nat, 4),
        StatValueView::Int64(value) => seq![3u8] + codec::le_bytes(value as u64 as nat, 8),
        StatValueView::UInt16(value) => seq![4u8] + codec::le_bytes(value as nat, 2),
        StatValueView::UInt32(value) => seq![5u8] + codec::le_bytes(value as nat, 4),
        StatValueView::UInt64(value) => seq![6u8] + codec::le_bytes(value as nat, 8),
        StatValueView::Float64(bits) => seq![7u8] + codec::le_bytes(bits as nat, 8),
        StatValueView::Utf8(value) => seq![9u8] + codec::string_bytes(value),
    }
}

pub open spec fn column_bytes(column: ColumnStatisticsView) -> Seq<u8> {
    codec::string_bytes(column.name) + codec::le_bytes(column.null_count as nat, 8)
        + match column.bounds {
        None => seq![0u8],
        Some((min, max)) => seq![1u8] + stat_bytes(min) + stat_bytes(max),
    }
}

pub open spec fn column_encoding() -> spec_fn(ColumnStatisticsView) -> Seq<u8> {
    |column: ColumnStatisticsView| column_bytes(column)
}

pub open spec fn numbers_bytes(statistics: FileStatisticsView) -> Seq<u8> {
    codec::le_bytes(statistics.size_bytes as nat, 8) + codec::le_bytes(statistics.rows as nat, 8)
        + codec::le_bytes(statistics.event_time_min as nat, 8) + codec::le_bytes(
        statistics.event_time_max as nat,
        8,
    ) + codec::le_bytes(statistics.received_time_min as nat, 8) + codec::le_bytes(
        statistics.received_time_max as nat,
        8,
    ) + codec::le_bytes(statistics.wal_min as nat, 8) + codec::le_bytes(
        statistics.wal_max as nat,
        8,
    )
}

pub open spec fn statistics_bytes(statistics: Option<FileStatisticsView>) -> Seq<u8> {
    match statistics {
        None => seq![0u8],
        Some(statistics) => seq![1u8] + numbers_bytes(statistics) + seq![
            bool_byte(statistics.ordered),
        ] + codec::le_bytes(statistics.columns.len(), 4) + codec::concat(
            column_encoding(),
            statistics.columns,
        ),
    }
}

pub open spec fn file_bytes(file: CommitFileView) -> Seq<u8> {
    codec::le_bytes(file.hour as nat, 8) + codec::le_bytes(file.rows as nat, 8)
        + codec::string_bytes(file.relative_path) + statistics_bytes(file.statistics)
}

pub open spec fn file_encoding() -> spec_fn(CommitFileView) -> Seq<u8> {
    |file: CommitFileView| file_bytes(file)
}

pub open spec fn head_bytes(commit: CommitView) -> Seq<u8> {
    codec::string_bytes(commit.tenant) + codec::le_bytes(commit.projection_version as nat, 4)
        + codec::string_bytes(commit.fingerprint) + schema_bytes(commit.schema)
}

pub open spec fn range_bytes(commit: CommitView) -> Seq<u8> {
    codec::le_bytes(commit.first_sequence as nat, 8) + codec::le_bytes(
        commit.next_sequence as nat,
        8,
    ) + codec::le_bytes(commit.rows as nat, 8) + codec::option_u64_bytes(commit.start_unix_nano)
        + codec::option_u64_bytes(commit.end_unix_nano)
}

pub open spec fn files_bytes(commit: CommitView) -> Seq<u8> {
    codec::le_bytes(commit.files.len(), 4) + codec::concat(file_encoding(), commit.files)
}

/// The body of a descriptor.
pub open spec fn commit_body(commit: CommitView) -> Seq<u8> {
    head_bytes(commit) + range_bytes(commit) + files_bytes(commit)
}

/// The bytes of a descriptor.
pub open spec fn commit_bytes(commit: CommitView) -> Seq<u8> {
    codec::sealed(commit_magic(), COMMIT_VERSION, commit_body(commit))
}

pub open spec fn stat_fits(value: StatValueView) -> bool {
    match value {
        StatValueView::Utf8(value) => codec::string_fits(value),
        _ => true,
    }
}

pub open spec fn column_fits(column: ColumnStatisticsView) -> bool {
    codec::string_fits(column.name) && match column.bounds {
        None => true,
        Some((min, max)) => stat_fits(min) && stat_fits(max),
    }
}

pub open spec fn statistics_fit(statistics: Option<FileStatisticsView>) -> bool {
    match statistics {
        None => true,
        Some(statistics) => statistics.columns.len() <= u32::MAX && forall|i: int|
            0 <= i < statistics.columns.len() ==> column_fits(#[trigger] statistics.columns[i]),
    }
}

pub open spec fn field_fits(field: FieldView) -> bool {
    codec::string_fits(field.name) && codec::metadata_fits(field.metadata)
}

pub open spec fn file_fits(file: CommitFileView) -> bool {
    codec::string_fits(file.relative_path) && statistics_fit(file.statistics)
}

/// Whether every text and every statistics list of a commit fits its length prefix.
pub open spec fn commit_fits(commit: CommitView) -> bool {
    &&& codec::string_fits(commit.tenant)
    &&& codec::string_fits(commit.fingerprint)
    &&& codec::metadata_fits(commit.schema.metadata)
    &&& forall|i: int|
        0 <= i < commit.schema.fields.len() ==> field_fits(#[trigger] commit.schema.fields[i])
    &&& forall|i: int| 0 <= i < commit.files.len() ==> file_fits(#[trigger] commit.files[i])
}

/// Whether every text of some metadata fits its length prefix.
fn metadata_fits(metadata: &TextMap<String>) -> (fits: bool)
    ensures
        fits == codec::metadata_fits(metadata@),
{
    let count = metadata.len();
    let mut i: usize = 0;
    while i < count
        invariant
            i <= count == metadata@.len(),
            forall|k: int|
                0 <= k < i ==> codec::string_fits((#[trigger] metadata@[k]).0)
                    && codec::string_fits(metadata@[k].1),
        decreases count - i,
    {
        if !text_fits(metadata.key_at(i)) || !text_fits(metadata.value_at(i)) {
            assert(!(codec::string_fits(metadata@[i as int].0) && codec::string_fits(
                metadata@[i as int].1,
            )));
            return false;
        }
        i = i + 1;
    }
    true
}

fn value_fits(value: &StatValue) -> (fits: bool)
    ensures
        fits == stat_fits(value.deep_view()),
{
    match value {
        StatValue::Utf8(value) => text_fits(value),
        _ => true,
    }
}

fn columns_fit(columns: &Vec<ColumnStatistics>) -> (fit: bool)
    ensures
        fit == (forall|i: int|
            0 <= i < columns.deep_view().len() ==> column_fits(
                #[trigger] columns.deep_view()[i],
            )),
{
    let ghost all = columns.deep_view();
    let mut i: usize = 0;
    while i < columns.len()
        invariant
            i <= columns.len(),
            all == columns.deep_view(),
            forall|k: int| 0 <= k < i ==> column_fits(#[trigger] all[k]),
        decreases columns.len() - i,
    {
        let column = &columns[i];
        assert(all[i as int] == column.deep_view());
        let bounds_fit = match &column.bounds {
            None => true,
            Some((min, max)) => value_fits(min) && value_fits(max),
        };
        if !text_fits(&column.name) || !bounds_fit {
            assert(!column_fits(all[i as int]));
            return false;
        }
        i = i + 1;
    }
    true
}

fn fields_fit(fields: &Vec<Field>) -> (fit: bool)
    ensures
        fit == (forall|i: int|
            0 <= i < fields.deep_view().len() ==> field_fits(#[trigger] fields.deep_view()[i])),
{
    let ghost all = fields.deep_view();
    let mut i: usize = 0;
    while i < fields.len()
        invariant
            i <= fields.len(),
            all == fields.deep_view(),
            forall|k: int| 0 <= k < i ==> field_fits(#[trigger] all[k]),
        decreases fields.len() - i,
    {
        let field = &fields[i];
        assert(all[i as int] == field.deep_view());
        if !text_fits(&field.name) || !metadata_fits(&field.metadata) {
            assert(!field_fits(all[i as int]));
            return false;
        }
        i = i + 1;
    }
    true
}

fn files_fit(files: &Vec<CommitFile>) -> (fit: bool)
    ensures
        fit == (forall|i: int|
            0 <= i < files.deep_view().len() ==> file_fits(#[trigger] files.deep_view()[i])),
{
    let ghost all = files.deep_view();
    let mut i: usize = 0;
    while i < files.len()
        invariant
            i <= files.len(),
            all == files.deep_view(),
            forall|k: int| 0 <= k < i ==> file_fits(#[trigger] all[k]),
        decreases files.len() - i,
    {
        let file = &files[i];
        assert(all[i as int] == file.deep_view());
        let statistics_fit = match &file.statistics {
            None => true,
            Some(statistics) => statistics.columns.len() <= u32::MAX as usize && columns_fit(
                &statistics.columns,
            ),
        };
        if !text_fits(&file.relative_path) || !statistics_fit {
            assert(!file_fits(all[i as int]));
            return false;
        }
        i = i + 1;
    }
    true
}

/// Whether [`encode`] can write a commit: every text and every statistics list fits its length
/// prefix.
#[must_use]
pub fn fits(commit: &Commit) -> (fits: bool)
    ensures
        fits == commit_fits(commit.deep_view()),
{
    let ghost view = commit.deep_view();
    let texts_fit = text_fits(&commit.tenant) && text_fits(&commit.fingerprint);
    let schema_fits = metadata_fits(&commit.schema.metadata) && fields_fit(&commit.schema.fields);
    assert(view.schema.fields == commit.schema.fields.deep_view());
    assert(view.schema.metadata == commit.schema.metadata@);
    let files_fit = files_fit(&commit.files);
    assert(view.files == commit.files.deep_view());
    texts_fit && schema_fits && files_fit
}

/// Why a field cannot be encoded.
pub open spec fn field_fault(field: FieldView) -> Option<Seq<char>> {
    if field.data_type is Other {
        Some("unsupported arrow type "@ + field.data_type->Other_0)
    } else if field.metadata.len() > u32::MAX {
        Some("too much schema metadata"@)
    } else {
        None
    }
}

/// Why the first field that cannot be encoded cannot be.
pub open spec fn fields_fault(fields: Seq<FieldView>) -> Option<Seq<char>>
    decreases fields.len(),
{
    if fields.len() == 0 {
        None
    } else {
        match fields_fault(fields.drop_last()) {
            Some(detail) => Some(detail),
            None => field_fault(fields.last()),
        }
    }
}

pub open spec fn schema_fault(schema: SchemaView) -> Option<Seq<char>> {
    if schema.metadata.len() > u32::MAX {
        Some("too much schema metadata"@)
    } else if schema.fields.len() > u32::MAX {
        Some("too many schema fields"@)
    } else {
        fields_fault(schema.fields)
    }
}

/// Why a commit cannot be encoded.
pub open spec fn commit_fault(commit: CommitView) -> Option<Seq<char>> {
    match schema_fault(commit.schema) {
        Some(detail) => Some(detail),
        None => if commit.files.len() > u32::MAX {
            Some("too many hour files"@)
        } else {
            None
        },
    }
}

proof fn lemma_fields_fault(fields: Seq<FieldView>, count: int)
    requires
        0 <= count <= fields.len(),
        fields_fault(fields.take(count)) is Some,
    ensures
        fields_fault(fields) == fields_fault(fields.take(count)),
    decreases fields.len() - count,
{
    if count < fields.len() {
        assert(fields.take(count + 1).drop_last() =~= fields.take(count));
        lemma_fields_fault(fields, count + 1);
    } else {
        assert(fields.take(count) =~= fields);
    }
}

fn encode_type(body: &mut Vec<u8>, data_type: &DataType) -> (result: Result<(), String>)
    ensures
        match result {
            Ok(_) => !(data_type.deep_view() is Other) && final(body)@ == old(body)@ + type_bytes(
                data_type.deep_view(),
            ),
            Err(detail) => data_type.deep_view() is Other && detail@ == "unsupported arrow type "@
                + data_type.deep_view()->Other_0,
        },
{
    let ghost before = body@;
    let tag: u8 = match data_type {
        DataType::Boolean => 1,
        DataType::Int32 => 2,
        DataType::Int64 => 3,
        DataType::UInt16 => 4,
        DataType::UInt32 => 5,
        DataType::UInt64 => 6,
        DataType::Float64 => 7,
        DataType::Binary => 8,
        DataType::Utf8 => 9,
        DataType::FixedSizeBinary(_) => 10,
        DataType::Other(name) => {
            return Err("unsupported arrow type ".to_owned().concat(name));
        },
    };
    body.push(tag);
    if let DataType::FixedSizeBinary(width) = data_type {
        write_u32(body, *width as u32);
    }
    assert(body@ =~= before + type_bytes(data_type.deep_view()));
    Ok(())
}

fn encode_field(body: &mut Vec<u8>, field: &Field) -> (result: Result<(), String>)
    requires
        field_fits(field.deep_view()),
    ensures
        match result {
            Ok(_) => field_fault(field.deep_view()) is None && final(body)@ == old(body)@
                + field_bytes(field.deep_view()),
            Err(detail) => field_fault(field.deep_view()) == Some(detail@),
        },
{
    let ghost before = body@;
    write_str(body, &field.name);
    body.push(
        if field.nullable {
            1
        } else {
            0
        },
    );
    encode_type(body, &field.data_type)?;
    if !write_metadata(body, &field.metadata) {
        return Err("too much schema metadata".to_owned());
    }
    assert(body@ =~= before + field_bytes(field.deep_view()));
    Ok(())
}

fn encode_schema(body: &mut Vec<u8>, schema: &Schema) -> (result: Result<(), String>)
    requires
        codec::metadata_fits(schema.deep_view().metadata),
        forall|i: int|
            0 <= i < schema.deep_view().fields.len() ==> field_fits(
                #[trigger] schema.deep_view().fields[i],
            ),
    ensures
        match result {
            Ok(_) => schema_fault(schema.deep_view()) is None && final(body)@ == old(body)@
                + schema_bytes(schema.deep_view()),
            Err(detail) => schema_fault(schema.deep_view()) == Some(detail@),
        },
{
    let ghost before = body@;
    let ghost fields = schema.fields.deep_view();
    if !write_metadata(body, &schema.metadata) {
        return Err("too much schema metadata".to_owned());
    }
    if schema.fields.len() > u32::MAX as usize {
        return Err("too many schema fields".to_owned());
    }
    write_u32(body, schema.fields.len() as u32);
    let ghost head = body@;
    let mut i: usize = 0;
    assert(fields.take(0) =~= Seq::empty());
    assert(body@ =~= head + codec::concat(field_encoding(), fields.take(0)));
    while i < schema.fields.len()
        invariant
            i <= schema.fields.len(),
            fields == schema.fields.deep_view(),
            schema.fields.len() <= u32::MAX,
            schema.metadata@.len() <= u32::MAX,
            forall|k: int| 0 <= k < fields.len() ==> field_fits(#[trigger] fields[k]),
            fields_fault(fields.take(i as int)) is None,
            body@ == head + codec::concat(field_encoding(), fields.take(i as int)),
        decreases schema.fields.len() - i,
    {
        proof {
            assert(fields.take(i + 1).drop_last() =~= fields.take(i as int));
            assert(field_fits(fields[i as int]));
            codec::lemma_concat_push(field_encoding(), fields.take(i as int), fields[i as int]);
            assert(fields.take(i + 1) =~= fields.take(i as int).push(fields[i as int]));
        }
        let ghost start = body@;
        match encode_field(body, &schema.fields[i]) {
            Ok(()) => {},
            Err(detail) => {
                proof {
                    lemma_fields_fault(fields, i + 1);
                }
                return Err(detail);
            },
        }
        assert(body@ =~= head + codec::concat(field_encoding(), fields.take(i + 1)));
        i = i + 1;
    }
    assert(fields.take(i as int) =~= fields);
    assert(body@ =~= before + schema_bytes(schema.deep_view()));
    Ok(())
}

fn encode_stat(body: &mut Vec<u8>, value: &StatValue)
    requires
        stat_fits(value.deep_view()),
    ensures
        final(body)@ == old(body)@ + stat_bytes(value.deep_view()),
{
    let ghost before = body@;
    match value {
        StatValue::Bool(value) => {
            body.push(1);
            body.push(
                if *value {
                    1
                } else {
                    0
                },
            );
        },
        StatValue::Int32(value) => {
            body.push(2);
            write_u32(body, *value as u32);
        },
        StatValue::Int64(value) => {
            body.push(3);
            write_u64(body, *value as u64);
        },
        StatValue::UInt16(value) => {
            body.push(4);
            write_u16(body, *value);
        },
        StatValue::UInt32(value) => {
            body.push(5);
            write_u32(body, *value);
        },
        StatValue::UInt64(value) => {
            body.push(6);
            write_u64(body, *value);
        },
        StatValue::Float64(bits) => {
            body.push(7);
            write_u64(body, *bits);
        },
        StatValue::Utf8(value) => {
            body.push(9);
            write_str(body, value);
        },
    }
    assert(body@ =~= before + stat_bytes(value.deep_view()));
}

fn encode_column(body: &mut Vec<u8>, column: &ColumnStatistics)
    requires
        column_fits(column.deep_view()),
    ensures
        final(body)@ == old(body)@ + column_bytes(column.deep_view()),
{
    let ghost before = body@;
    write_str(body, &column.name);
    write_u64(body, column.null_count);
    match &column.bounds {
        None => body.push(0),
        Some((min, max)) => {
            body.push(1);
            encode_stat(body, min);
            encode_stat(body, max);
        },
    }
    assert(body@ =~= before + column_bytes(column.deep_view()));
}

fn encode_statistics(body: &mut Vec<u8>, statistics: &Option<FileStatistics>)
    requires
        statistics_fit(statistics.deep_view()),
    ensures
        final(body)@ == old(body)@ + statistics_bytes(statistics.deep_view()),
{
    let ghost before = body@;
    let statistics = match statistics {
        None => {
            body.push(0);
            assert(body@ =~= before + seq![0u8]);
            return;
        },
        Some(statistics) => statistics,
    };
    let ghost columns = statistics.columns.deep_view();
    body.push(1);
    write_u64(body, statistics.size_bytes);
    write_u64(body, statistics.rows);
    write_u64(body, statistics.event_time_min);
    write_u64(body, statistics.event_time_max);
    write_u64(body, statistics.received_time_min);
    write_u64(body, statistics.received_time_max);
    write_u64(body, statistics.wal_min);
    write_u64(body, statistics.wal_max);
    assert(body@ =~= before + seq![1u8] + numbers_bytes(statistics.deep_view()));
    body.push(
        if statistics.ordered {
            1
        } else {
            0
        },
    );
    write_u32(body, statistics.columns.len() as u32);
    let ghost head = body@;
    let mut i: usize = 0;
    assert(columns.take(0) =~= Seq::empty());
    assert(body@ =~= head + codec::concat(column_encoding(), columns.take(0)));
    while i < statistics.columns.len()
        invariant
            i <= statistics.columns.len(),
            columns == statistics.columns.deep_view(),
            forall|k: int| 0 <= k < columns.len() ==> column_fits(#[trigger] columns[k]),
            body@ == head + codec::concat(column_encoding(), columns.take(i as int)),
        decreases statistics.columns.len() - i,
    {
        proof {
            assert(column_fits(columns[i as int]));
            codec::lemma_concat_push(column_encoding(), columns.take(i as int), columns[i as int]);
            assert(columns.take(i + 1) =~= columns.take(i as int).push(columns[i as int]));
        }
        encode_column(body, &statistics.columns[i]);
        assert(body@ =~= head + codec::concat(column_encoding(), columns.take(i + 1)));
        i = i + 1;
    }
    assert(columns.take(i as int) =~= columns);
    assert(body@ =~= before + statistics_bytes(Some(statistics.deep_view())));
}

fn encode_file(body: &mut Vec<u8>, file: &CommitFile)
    requires
        file_fits(file.deep_view()),
    ensures
        final(body)@ == old(body)@ + file_bytes(file.deep_view()),
{
    let ghost before = body@;
    write_u64(body, file.hour.start_unix_nano());
    write_u64(body, file.rows);
    write_str(body, &file.relative_path);
    encode_statistics(body, &file.statistics);
    assert(body@ =~= before + file_bytes(file.deep_view()));
}

/// The bytes of a descriptor.
///
/// # Errors
///
/// Returns [`CommitError::Invalid`] when the schema holds an unsupported type, or a list does not
/// fit its count.
pub fn encode(commit: &Commit) -> (bytes: Result<Vec<u8>, CommitError>)
    requires
        commit_fits(commit.deep_view()),
    ensures
        match bytes {
            Ok(bytes) => commit_fault(commit.deep_view()) is None && bytes@ == commit_bytes(
                commit.deep_view(),
            ),
            Err(CommitError::Invalid(detail)) => commit_fault(commit.deep_view()) == Some(detail@),
            Err(_) => false,
        },
{
    let ghost view = commit.deep_view();
    let ghost files = commit.files.deep_view();
    let mut body: Vec<u8> = Vec::new();
    write_str(&mut body, &commit.tenant);
    write_u32(&mut body, commit.projection_version);
    write_str(&mut body, &commit.fingerprint);
    match encode_schema(&mut body, &commit.schema) {
        Ok(()) => {},
        Err(detail) => {
            return Err(CommitError::Invalid(detail));
        },
    }
    assert(body@ =~= head_bytes(view));
    write_u64(&mut body, commit.first_sequence);
    write_u64(&mut body, commit.next_sequence);
    write_u64(&mut body, commit.rows);
    write_option_u64(&mut body, commit.start_unix_nano);
    write_option_u64(&mut body, commit.end_unix_nano);
    assert(body@ =~= head_bytes(view) + range_bytes(view));
    if commit.files.len() > u32::MAX as usize {
        return Err(CommitError::Invalid("too many hour files".to_owned()));
    }
    write_u32(&mut body, commit.files.len() as u32);
    let ghost head = body@;
    let mut i: usize = 0;
    assert(files.take(0) =~= Seq::empty());
    assert(body@ =~= head + codec::concat(file_encoding(), files.take(0)));
    while i < commit.files.len()
        invariant
            i <= commit.files.len(),
            files == commit.files.deep_view(),
            forall|k: int| 0 <= k < files.len() ==> file_fits(#[trigger] files[k]),
            body@ == head + codec::concat(file_encoding(), files.take(i as int)),
        decreases commit.files.len() - i,
    {
        proof {
            assert(file_fits(files[i as int]));
            codec::lemma_concat_push(file_encoding(), files.take(i as int), files[i as int]);
            assert(files.take(i + 1) =~= files.take(i as int).push(files[i as int]));
        }
        encode_file(&mut body, &commit.files[i]);
        assert(body@ =~= head + codec::concat(file_encoding(), files.take(i + 1)));
        i = i + 1;
    }
    assert(files.take(i as int) =~= files);
    assert(body@ =~= commit_body(view));
    let magic: [u8; 8] = [0x4f, 0x42, 0x53, 0x2d, 0x43, 0x4d, 0x54, 0x31];
    assert(magic@ =~= commit_magic());
    Ok(seal(&magic, COMMIT_VERSION, &body))
}

// Decoding.

pub open spec fn parse_type(data: Seq<u8>) -> Parsed<DataTypeView> {
    match codec::parse_u8(data) {
        Err(detail) => Err(detail),
        Ok((tag, rest)) => if tag == 1 {
            Ok((DataTypeView::Boolean, rest))
        } else if tag == 2 {
            Ok((DataTypeView::Int32, rest))
        } else if tag == 3 {
            Ok((DataTypeView::Int64, rest))
        } else if tag == 4 {
            Ok((DataTypeView::UInt16, rest))
        } else if tag == 5 {
            Ok((DataTypeView::UInt32, rest))
        } else if tag == 6 {
            Ok((DataTypeView::UInt64, rest))
        } else if tag == 7 {
            Ok((DataTypeView::Float64, rest))
        } else if tag == 8 {
            Ok((DataTypeView::Binary, rest))
        } else if tag == 9 {
            Ok((DataTypeView::Utf8, rest))
        } else if tag == 10 {
            match codec::parse_i32(rest) {
                Err(detail) => Err(detail),
                Ok((width, rest)) => Ok((DataTypeView::FixedSizeBinary(width), rest)),
            }
        } else {
            Err("unsupported arrow type tag "@ + text::decimal_text(tag as nat))
        },
    }
}

pub open spec fn parse_flag(data: Seq<u8>, invalid: Seq<char>) -> Parsed<bool> {
    match codec::parse_u8(data) {
        Err(detail) => Err(detail),
        Ok((flag, rest)) => if flag == 0 {
            Ok((false, rest))
        } else if flag == 1 {
            Ok((true, rest))
        } else {
            Err(invalid)
        },
    }
}

pub open spec fn parse_field(data: Seq<u8>) -> Parsed<FieldView> {
    match codec::parse_string(data) {
        Err(detail) => Err(detail),
        Ok((name, rest)) => match parse_flag(rest, "nullability flag is invalid"@) {
            Err(detail) => Err(detail),
            Ok((nullable, rest)) => match parse_type(rest) {
                Err(detail) => Err(detail),
                Ok((data_type, rest)) => match codec::parse_metadata(rest) {
                    Err(detail) => Err(detail),
                    Ok((metadata, rest)) => Ok(
                        (FieldView { name, data_type, nullable, metadata }, rest),
                    ),
                },
            },
        },
    }
}

pub open spec fn field_item() -> spec_fn(Seq<u8>) -> Parsed<FieldView> {
    |data: Seq<u8>| parse_field(data)
}

pub open spec fn parse_schema(data: Seq<u8>) -> Parsed<SchemaView> {
    match codec::parse_metadata(data) {
        Err(detail) => Err(detail),
        Ok((metadata, rest)) => match codec::parse_u32(rest) {
            Err(detail) => Err(detail),
            Ok((count, rest)) => match codec::parse_list(field_item(), count as nat, rest) {
                Err(detail) => Err(detail),
                Ok((fields, rest)) => Ok((SchemaView { fields, metadata }, rest)),
            },
        },
    }
}

pub open spec fn parse_stat(data: Seq<u8>) -> Parsed<StatValueView> {
    match codec::parse_u8(data) {
        Err(detail) => Err(detail),
        Ok((tag, rest)) => if tag == 1 {
            match parse_flag(rest, "boolean statistic is invalid"@) {
                Err(detail) => Err(detail),
                Ok((value, rest)) => Ok((StatValueView::Bool(value), rest)),
            }
        } else if tag == 2 {
            match codec::parse_i32(rest) {
                Err(detail) => Err(detail),
                Ok((value, rest)) => Ok((StatValueView::Int32(value), rest)),
            }
        } else if tag == 3 {
            match codec::parse_i64(rest) {
                Err(detail) => Err(detail),
                Ok((value, rest)) => Ok((StatValueView::Int64(value), rest)),
            }
        } else if tag == 4 {
            match codec::parse_u16(rest) {
                Err(detail) => Err(detail),
                Ok((value, rest)) => Ok((StatValueView::UInt16(value), rest)),
            }
        } else if tag == 5 {
            match codec::parse_u32(rest) {
                Err(detail) => Err(detail),
                Ok((value, rest)) => Ok((StatValueView::UInt32(value), rest)),
            }
        } else if tag == 6 {
            match codec::parse_u64(rest) {
                Err(detail) => Err(detail),
                Ok((value, rest)) => Ok((StatValueView::UInt64(value), rest)),
            }
        } else if tag == 7 {
            match codec::parse_u64(rest) {
                Err(detail) => Err(detail),
                Ok((value, rest)) => Ok((StatValueView::Float64(value), rest)),
            }
        } else if tag == 9 {
            match codec::parse_string(rest) {
                Err(detail) => Err(detail),
                Ok((value, rest)) => Ok((StatValueView::Utf8(value), rest)),
            }
        } else {
            Err("unsupported statistic type tag "@ + text::decimal_text(tag as nat))
        },
    }
}

pub open spec fn parse_bounds(data: Seq<u8>) -> Parsed<Option<(StatValueView, StatValueView)>> {
    match codec::parse_u8(data) {
        Err(detail) => Err(detail),
        Ok((tag, rest)) => if tag == 0 {
            Ok((None, rest))
        } else if tag == 1 {
            match parse_stat(rest) {
                Err(detail) => Err(detail),
                Ok((min, rest)) => match parse_stat(rest) {
                    Err(detail) => Err(detail),
                    Ok((max, rest)) => Ok((Some((min, max)), rest)),
                },
            }
        } else {
            Err("column bounds tag is invalid"@)
        },
    }
}

pub open spec fn parse_column(data: Seq<u8>) -> Parsed<ColumnStatisticsView> {
    match codec::parse_string(data) {
        Err(detail) => Err(detail),
        Ok((name, rest)) => match codec::parse_u64(rest) {
            Err(detail) => Err(detail),
            Ok((null_count, rest)) => match parse_bounds(rest) {
                Err(detail) => Err(detail),
                Ok((bounds, rest)) => Ok(
                    (ColumnStatisticsView { name, null_count, bounds }, rest),
                ),
            },
        },
    }
}

pub open spec fn column_item() -> spec_fn(Seq<u8>) -> Parsed<ColumnStatisticsView> {
    |data: Seq<u8>| parse_column(data)
}

pub open spec fn u64_item() -> spec_fn(Seq<u8>) -> Parsed<u64> {
    |data: Seq<u8>| codec::parse_u64(data)
}

pub open spec fn parse_statistics(data: Seq<u8>) -> Parsed<Option<FileStatisticsView>> {
    match codec::parse_u8(data) {
        Err(detail) => Err(detail),
        Ok((tag, rest)) => if tag == 0 {
            Ok((None, rest))
        } else if tag == 1 {
            match codec::parse_list(u64_item(), 8, rest) {
                Err(detail) => Err(detail),
                Ok((numbers, rest)) => match codec::parse_u8(rest) {
                    Err(detail) => Err(detail),
                    Ok((ordered, rest)) => match codec::parse_u32(rest) {
                        Err(detail) => Err(detail),
                        Ok((count, rest)) => match codec::parse_list(
                            column_item(),
                            count as nat,
                            rest,
                        ) {
                            Err(detail) => Err(detail),
                            Ok((columns, rest)) => Ok(
                                (
                                    Some(
                                        FileStatisticsView {
                                            size_bytes: numbers[0],
                                            rows: numbers[1],
                                            event_time_min: numbers[2],
                                            event_time_max: numbers[3],
                                            received_time_min: numbers[4],
                                            received_time_max: numbers[5],
                                            wal_min: numbers[6],
                                            wal_max: numbers[7],
                                            ordered: ordered != 0,
                                            columns,
                                        },
                                    ),
                                    rest,
                                ),
                            ),
                        },
                    },
                },
            }
        } else {
            Err("file statistics tag is invalid"@)
        },
    }
}

/// Statistics that a scan may rely on, and no others.
pub open spec fn relied_on(
    statistics: Option<FileStatisticsView>,
    fields: Seq<FieldView>,
    rows: u64,
    hour: u64,
    first_sequence: u64,
    next_sequence: u64,
) -> Option<FileStatisticsView> {
    match statistics {
        None => None,
        Some(found) => if statistics::usable(
            found,
            fields,
            rows,
            hour,
            layout::hour_end(hour),
            first_sequence,
            next_sequence,
        ) {
            Some(found)
        } else {
            None
        },
    }
}

pub open spec fn parse_file(
    data: Seq<u8>,
    fields: Seq<FieldView>,
    first_sequence: u64,
    next_sequence: u64,
) -> Parsed<CommitFileView> {
    match codec::parse_u64(data) {
        Err(detail) => Err(detail),
        Ok((time, rest)) => match codec::parse_u64(rest) {
            Err(detail) => Err(detail),
            Ok((rows, rest)) => match codec::parse_string(rest) {
                Err(detail) => Err(detail),
                Ok((relative_path, rest)) => if !layout::plain_relative(relative_path) {
                    Err("commit file path is not relative"@)
                } else {
                    match parse_statistics(rest) {
                        Err(detail) => Err(detail),
                        Ok((found, rest)) => {
                            let hour = schema::hour_start(time);
                            Ok(
                                (
                                    CommitFileView {
                                        hour,
                                        relative_path,
                                        rows,
                                        statistics: relied_on(
                                            found,
                                            fields,
                                            rows,
                                            hour,
                                            first_sequence,
                                            next_sequence,
                                        ),
                                    },
                                    rest,
                                ),
                            )
                        },
                    }
                },
            },
        },
    }
}

pub open spec fn file_item(
    fields: Seq<FieldView>,
    first_sequence: u64,
    next_sequence: u64,
) -> spec_fn(Seq<u8>) -> Parsed<CommitFileView> {
    |data: Seq<u8>| parse_file(data, fields, first_sequence, next_sequence)
}

pub struct CommitHead {
    pub tenant: Seq<char>,
    pub projection_version: u32,
    pub fingerprint: Seq<char>,
    pub schema: SchemaView,
}

pub open spec fn parse_head(data: Seq<u8>) -> Parsed<CommitHead> {
    match codec::parse_string(data) {
        Err(detail) => Err(detail),
        Ok((tenant, rest)) => match codec::parse_u32(rest) {
            Err(detail) => Err(detail),
            Ok((projection_version, rest)) => match codec::parse_string(rest) {
                Err(detail) => Err(detail),
                Ok((fingerprint, rest)) => match parse_schema(rest) {
                    Err(detail) => Err(detail),
                    Ok((schema, rest)) => Ok(
                        (CommitHead { tenant, projection_version, fingerprint, schema }, rest),
                    ),
                },
            },
        },
    }
}

pub struct CommitRange {
    pub first_sequence: u64,
    pub next_sequence: u64,
    pub rows: u64,
    pub start_unix_nano: Option<u64>,
    pub end_unix_nano: Option<u64>,
}

pub open spec fn parse_range(data: Seq<u8>) -> Parsed<CommitRange> {
    match codec::parse_u64(data) {
        Err(detail) => Err(detail),
        Ok((first_sequence, rest)) => match codec::parse_u64(rest) {
            Err(detail) => Err(detail),
            Ok((next_sequence, rest)) => match codec::parse_u64(rest) {
                Err(detail) => Err(detail),
                Ok((rows, rest)) => match codec::parse_option_u64(rest) {
                    Err(detail) => Err(detail),
                    Ok((start_unix_nano, rest)) => match codec::parse_option_u64(rest) {
                        Err(detail) => Err(detail),
                        Ok((end_unix_nano, rest)) => Ok(
                            (
                                CommitRange {
                                    first_sequence,
                                    next_sequence,
                                    rows,
                                    start_unix_nano,
                                    end_unix_nano,
                                },
                                rest,
                            ),
                        ),
                    },
                },
            },
        },
    }
}

pub open spec fn parse_commit(data: Seq<u8>) -> Parsed<CommitView> {
    match parse_head(data) {
        Err(detail) => Err(detail),
        Ok((head, rest)) => match parse_range(rest) {
            Err(detail) => Err(detail),
            Ok((range, rest)) => match codec::parse_u32(rest) {
                Err(detail) => Err(detail),
                Ok((count, rest)) => match codec::parse_list(
                    file_item(head.schema.fields, range.first_sequence, range.next_sequence),
                    count as nat,
                    rest,
                ) {
                    Err(detail) => Err(detail),
                    Ok((files, rest)) => Ok(
                        (
                            CommitView {
                                tenant: head.tenant,
                                projection_version: head.projection_version,
                                fingerprint: head.fingerprint,
                                schema: head.schema,
                                first_sequence: range.first_sequence,
                                next_sequence: range.next_sequence,
                                rows: range.rows,
                                files,
                                start_unix_nano: range.start_unix_nano,
                                end_unix_nano: range.end_unix_nano,
                            },
                            rest,
                        ),
                    ),
                },
            },
        },
    }
}

/// Why the parts of a commit do not agree with each other.
pub open spec fn disagreement(commit: CommitView) -> Option<Seq<char>> {
    if commit.next_sequence <= commit.first_sequence {
        Some("commit sequence range is empty"@)
    } else if commit.start_unix_nano != earliest(commit.files) || commit.end_unix_nano != latest(
        commit.files,
    ) {
        Some("commit time bounds do not match its files"@)
    } else if file_rows(commit.files) > u64::MAX {
        Some("published row count exceeds u64"@)
    } else if file_rows(commit.files) != commit.rows {
        Some("commit row count does not match its files"@)
    } else {
        None
    }
}

/// The commit that descriptor bytes hold, or why they are refused.
pub open spec fn decoded(bytes: Seq<u8>) -> Result<CommitView, DescriptorErrorView> {
    match codec::unsealed(
        bytes,
        commit_magic(),
        COMMIT_VERSION,
        "unsupported commit version "@,
    ) {
        Err(error) => Err(error),
        Ok(body) => match parse_commit(body) {
            Err(detail) => Err(DescriptorErrorView::Invalid(detail)),
            Ok((commit, rest)) => if rest.len() != 0 {
                Err(DescriptorErrorView::Invalid("descriptor has trailing bytes"@))
            } else {
                match disagreement(commit) {
                    Some(detail) => Err(DescriptorErrorView::Invalid(detail)),
                    None => Ok(commit),
                }
            },
        },
    }
}

fn read_type(reader: &mut Reader<'_>) -> (data_type: Result<DataType, String>)
    requires
        old(reader).wf(),
    ensures
        final(reader).wf(),
        codec::reads(data_type, parse_type(old(reader).rest()), final(reader).rest()),
{
    let tag = reader.u8()?;
    if tag == 1 {
        Ok(DataType::Boolean)
    } else if tag == 2 {
        Ok(DataType::Int32)
    } else if tag == 3 {
        Ok(DataType::Int64)
    } else if tag == 4 {
        Ok(DataType::UInt16)
    } else if tag == 5 {
        Ok(DataType::UInt32)
    } else if tag == 6 {
        Ok(DataType::UInt64)
    } else if tag == 7 {
        Ok(DataType::Float64)
    } else if tag == 8 {
        Ok(DataType::Binary)
    } else if tag == 9 {
        Ok(DataType::Utf8)
    } else if tag == 10 {
        let width = reader.i32()?;
        Ok(DataType::FixedSizeBinary(width))
    } else {
        let mut detail = "unsupported arrow type tag ".to_owned();
        text::push_decimal(&mut detail, tag as u64);
        Err(detail)
    }
}

fn read_flag(reader: &mut Reader<'_>, invalid: &str) -> (flag: Result<bool, String>)
    requires
        old(reader).wf(),
    ensures
        final(reader).wf(),
        codec::reads(flag, parse_flag(old(reader).rest(), invalid@), final(reader).rest()),
{
    let flag = reader.u8()?;
    if flag == 0 {
        Ok(false)
    } else if flag == 1 {
        Ok(true)
    } else {
        Err(invalid.to_owned())
    }
}

fn read_field(reader: &mut Reader<'_>) -> (field: Result<Field, String>)
    requires
        old(reader).wf(),
    ensures
        final(reader).wf(),
        codec::reads(field, parse_field(old(reader).rest()), final(reader).rest()),
{
    let name = reader.string()?;
    let nullable = read_flag(reader, "nullability flag is invalid")?;
    let data_type = read_type(reader)?;
    let metadata = reader.metadata()?;
    Ok(Field { name, data_type, nullable, metadata })
}

fn read_schema(reader: &mut Reader<'_>) -> (schema: Result<Schema, String>)
    requires
        old(reader).wf(),
    ensures
        final(reader).wf(),
        codec::reads(schema, parse_schema(old(reader).rest()), final(reader).rest()),
{
    let metadata = reader.metadata()?;
    let ghost after_metadata = reader.rest();
    let count = reader.u32()?;
    let ghost data = reader.rest();
    let mut fields: Vec<Field> = Vec::new();
    let mut i: u32 = 0;
    assert(fields.deep_view() =~= Seq::empty());
    while i < count
        invariant
            i <= count,
            reader.wf(),
            codec::parse_list(field_item(), i as nat, data) == Ok::<
                (Seq<FieldView>, Seq<u8>),
                Seq<char>,
            >((fields.deep_view(), reader.rest())),
            codec::parse_metadata(old(reader).rest()) == Ok::<_, Seq<char>>(
                (metadata@, after_metadata),
            ),
            codec::parse_u32(after_metadata) == Ok::<_, Seq<char>>((count, data)),
        decreases count - i,
    {
        let ghost before = fields.deep_view();
        match read_field(reader) {
            Ok(field) => {
                let ghost view = field.deep_view();
                fields.push(field);
                assert(fields.deep_view() =~= before.push(view));
            },
            Err(detail) => {
                proof {
                    codec::lemma_parse_list_fails(field_item(), (i + 1) as nat, count as nat, data);
                }
                return Err(detail);
            },
        }
        i = i + 1;
    }
    Ok(Schema { fields, metadata })
}

fn read_stat(reader: &mut Reader<'_>) -> (value: Result<StatValue, String>)
    requires
        old(reader).wf(),
    ensures
        final(reader).wf(),
        codec::reads(value, parse_stat(old(reader).rest()), final(reader).rest()),
{
    let tag = reader.u8()?;
    if tag == 1 {
        let value = read_flag(reader, "boolean statistic is invalid")?;
        Ok(StatValue::Bool(value))
    } else if tag == 2 {
        let value = reader.i32()?;
        Ok(StatValue::Int32(value))
    } else if tag == 3 {
        let value = reader.i64()?;
        Ok(StatValue::Int64(value))
    } else if tag == 4 {
        let value = reader.u16()?;
        Ok(StatValue::UInt16(value))
    } else if tag == 5 {
        let value = reader.u32()?;
        Ok(StatValue::UInt32(value))
    } else if tag == 6 {
        let value = reader.u64()?;
        Ok(StatValue::UInt64(value))
    } else if tag == 7 {
        let value = reader.u64()?;
        Ok(StatValue::Float64(value))
    } else if tag == 9 {
        let value = reader.string()?;
        Ok(StatValue::Utf8(value))
    } else {
        let mut detail = "unsupported statistic type tag ".to_owned();
        text::push_decimal(&mut detail, tag as u64);
        Err(detail)
    }
}

fn read_column(reader: &mut Reader<'_>) -> (column: Result<ColumnStatistics, String>)
    requires
        old(reader).wf(),
    ensures
        final(reader).wf(),
        codec::reads(column, parse_column(old(reader).rest()), final(reader).rest()),
{
    let name = reader.string()?;
    let null_count = reader.u64()?;
    let tag = reader.u8()?;
    let bounds = if tag == 0 {
        None
    } else if tag == 1 {
        let min = read_stat(reader)?;
        let max = read_stat(reader)?;
        Some((min, max))
    } else {
        return Err("column bounds tag is invalid".to_owned());
    };
    Ok(ColumnStatistics { name, null_count, bounds })
}

fn read_columns(reader: &mut Reader<'_>, count: u32) -> (columns: Result<
    Vec<ColumnStatistics>,
    String,
>)
    requires
        old(reader).wf(),
    ensures
        final(reader).wf(),
        codec::reads(
            columns,
            codec::parse_list(column_item(), count as nat, old(reader).rest()),
            final(reader).rest(),
        ),
{
    let ghost data = reader.rest();
    let mut columns: Vec<ColumnStatistics> = Vec::new();
    let mut i: u32 = 0;
    assert(columns.deep_view() =~= Seq::empty());
    while i < count
        invariant
            i <= count,
            reader.wf(),
            data == old(reader).rest(),
            codec::parse_list(column_item(), i as nat, data) == Ok::<
                (Seq<ColumnStatisticsView>, Seq<u8>),
                Seq<char>,
            >((columns.deep_view(), reader.rest())),
        decreases count - i,
    {
        let ghost before = columns.deep_view();
        match read_column(reader) {
            Ok(column) => {
                let ghost view = column.deep_view();
                columns.push(column);
                assert(columns.deep_view() =~= before.push(view));
            },
            Err(detail) => {
                proof {
                    codec::lemma_parse_list_fails(
                        column_item(),
                        (i + 1) as nat,
                        count as nat,
                        data,
                    );
                }
                return Err(detail);
            },
        }
        i = i + 1;
    }
    Ok(columns)
}

/// Reads `count` 64-bit integers.
fn read_numbers(reader: &mut Reader<'_>, count: usize) -> (numbers: Result<Vec<u64>, String>)
    requires
        old(reader).wf(),
    ensures
        final(reader).wf(),
        match numbers {
            Ok(numbers) => codec::parse_list(u64_item(), count as nat, old(reader).rest()) == Ok::<
                (Seq<u64>, Seq<u8>),
                Seq<char>,
            >((numbers@, final(reader).rest())) && numbers@.len() == count,
            Err(detail) => codec::parse_list(u64_item(), count as nat, old(reader).rest()) == Err::<
                (Seq<u64>, Seq<u8>),
                Seq<char>,
            >(detail@),
        },
{
    let ghost data = reader.rest();
    let mut numbers: Vec<u64> = Vec::new();
    let mut i: usize = 0;
    while i < count
        invariant
            i <= count,
            reader.wf(),
            data == old(reader).rest(),
            numbers@.len() == i,
            codec::parse_list(u64_item(), i as nat, data) == Ok::<(Seq<u64>, Seq<u8>), Seq<char>>(
                (numbers@, reader.rest()),
            ),
        decreases count - i,
    {
        match reader.u64() {
            Ok(number) => {
                numbers.push(number);
            },
            Err(detail) => {
                proof {
                    codec::lemma_parse_list_fails(u64_item(), (i + 1) as nat, count as nat, data);
                }
                return Err(detail);
            },
        }
        i = i + 1;
    }
    Ok(numbers)
}

fn read_statistics(reader: &mut Reader<'_>) -> (statistics: Result<Option<FileStatistics>, String>)
    requires
        old(reader).wf(),
    ensures
        final(reader).wf(),
        codec::reads(statistics, parse_statistics(old(reader).rest()), final(reader).rest()),
{
    let tag = reader.u8()?;
    if tag == 0 {
        return Ok(None);
    }
    if tag != 1 {
        return Err("file statistics tag is invalid".to_owned());
    }
    let numbers = read_numbers(reader, 8)?;
    let ordered = reader.u8()?;
    let count = reader.u32()?;
    let columns = read_columns(reader, count)?;
    Ok(
        Some(
            FileStatistics {
                size_bytes: numbers[0],
                rows: numbers[1],
                event_time_min: numbers[2],
                event_time_max: numbers[3],
                received_time_min: numbers[4],
                received_time_max: numbers[5],
                wal_min: numbers[6],
                wal_max: numbers[7],
                ordered: ordered != 0,
                columns,
            },
        ),
    )
}

fn read_file(
    reader: &mut Reader<'_>,
    schema: &Schema,
    first_sequence: u64,
    next_sequence: u64,
) -> (file: Result<CommitFile, String>)
    requires
        old(reader).wf(),
    ensures
        final(reader).wf(),
        codec::reads(
            file,
            parse_file(
                old(reader).rest(),
                schema.deep_view().fields,
                first_sequence,
                next_sequence,
            ),
            final(reader).rest(),
        ),
{
    let time = reader.u64()?;
    let hour = EventHour::containing(time);
    let rows = reader.u64()?;
    let relative_path = reader.string()?;
    if !is_plain_relative(&relative_path) {
        return Err("commit file path is not relative".to_owned());
    }
    let found = read_statistics(reader)?;
    let statistics = match found {
        None => None,
        Some(found) => if statistics_usable(
            &found,
            schema,
            rows,
            hour.start_unix_nano(),
            hour_end_unix_nano(hour),
            first_sequence,
            next_sequence,
        ) {
            Some(found)
        } else {
            None
        },
    };
    Ok(CommitFile { hour, relative_path, rows, statistics })
}

fn read_files(
    reader: &mut Reader<'_>,
    count: u32,
    schema: &Schema,
    first_sequence: u64,
    next_sequence: u64,
) -> (files: Result<Vec<CommitFile>, String>)
    requires
        old(reader).wf(),
    ensures
        final(reader).wf(),
        codec::reads(
            files,
            codec::parse_list(
                file_item(schema.deep_view().fields, first_sequence, next_sequence),
                count as nat,
                old(reader).rest(),
            ),
            final(reader).rest(),
        ),
{
    let ghost data = reader.rest();
    let ghost item = file_item(schema.deep_view().fields, first_sequence, next_sequence);
    let mut files: Vec<CommitFile> = Vec::new();
    let mut i: u32 = 0;
    assert(files.deep_view() =~= Seq::empty());
    while i < count
        invariant
            i <= count,
            reader.wf(),
            data == old(reader).rest(),
            item == file_item(schema.deep_view().fields, first_sequence, next_sequence),
            codec::parse_list(item, i as nat, data) == Ok::<
                (Seq<CommitFileView>, Seq<u8>),
                Seq<char>,
            >((files.deep_view(), reader.rest())),
        decreases count - i,
    {
        let ghost before = files.deep_view();
        match read_file(reader, schema, first_sequence, next_sequence) {
            Ok(file) => {
                let ghost view = file.deep_view();
                files.push(file);
                assert(files.deep_view() =~= before.push(view));
            },
            Err(detail) => {
                proof {
                    codec::lemma_parse_list_fails(item, (i + 1) as nat, count as nat, data);
                }
                return Err(detail);
            },
        }
        i = i + 1;
    }
    Ok(files)
}

fn read_body(reader: &mut Reader<'_>) -> (commit: Result<Commit, String>)
    requires
        old(reader).wf(),
    ensures
        final(reader).wf(),
        codec::reads(commit, parse_commit(old(reader).rest()), final(reader).rest()),
{
    let tenant = reader.string()?;
    let projection_version = reader.u32()?;
    let fingerprint = reader.string()?;
    let schema = read_schema(reader)?;
    let first_sequence = reader.u64()?;
    let next_sequence = reader.u64()?;
    let rows = reader.u64()?;
    let start_unix_nano = reader.option_u64()?;
    let end_unix_nano = reader.option_u64()?;
    let count = reader.u32()?;
    let files = read_files(reader, count, &schema, first_sequence, next_sequence)?;
    Ok(
        Commit {
            tenant,
            projection_version,
            fingerprint,
            schema,
            first_sequence,
            next_sequence,
            rows,
            files,
            start_unix_nano,
            end_unix_nano,
        },
    )
}

/// Whether a result of reading descriptor bytes agrees with what they hold.
pub open spec fn decodes(
    result: Result<Commit, CommitError>,
    expected: Result<CommitView, DescriptorErrorView>,
) -> bool {
    match (result, expected) {
        (Ok(commit), Ok(view)) => commit.deep_view() == view,
        (Err(CommitError::Invalid(detail)), Err(DescriptorErrorView::Invalid(text))) => detail@
            == text,
        (Err(CommitError::Checksum), Err(DescriptorErrorView::Checksum)) => true,
        _ => false,
    }
}

/// The commit that descriptor bytes hold.
///
/// Statistics that no scan may rely on are dropped.
///
/// # Errors
///
/// Returns [`CommitError`] when the bytes are truncated, fail their checksum, or hold no commit.
pub fn decode(bytes: &[u8]) -> (commit: Result<Commit, CommitError>)
    ensures
        decodes(commit, decoded(bytes@)),
{
    let magic: [u8; 8] = [0x4f, 0x42, 0x53, 0x2d, 0x43, 0x4d, 0x54, 0x31];
    assert(magic@ =~= commit_magic());
    let body = match unseal(bytes, &magic, COMMIT_VERSION, "unsupported commit version ") {
        Ok(body) => body,
        Err(DescriptorError::Invalid(detail)) => {
            return Err(CommitError::Invalid(detail));
        },
        Err(DescriptorError::Checksum) => {
            return Err(CommitError::Checksum);
        },
    };
    let mut reader = Reader::new(body.as_slice());
    let commit = match read_body(&mut reader) {
        Ok(commit) => commit,
        Err(detail) => {
            return Err(CommitError::Invalid(detail));
        },
    };
    if !reader.is_done() {
        return Err(CommitError::Invalid("descriptor has trailing bytes".to_owned()));
    }
    if commit.next_sequence <= commit.first_sequence {
        return Err(CommitError::Invalid("commit sequence range is empty".to_owned()));
    }
    let (expected_start, expected_end) = time_bounds(&commit.files);
    if commit.start_unix_nano != expected_start || commit.end_unix_nano != expected_end {
        return Err(CommitError::Invalid("commit time bounds do not match its files".to_owned()));
    }
    match sum_rows(&commit.files) {
        None => Err(CommitError::Invalid("published row count exceeds u64".to_owned())),
        Some(summed) => if summed != commit.rows {
            Err(CommitError::Invalid("commit row count does not match its files".to_owned()))
        } else {
            Ok(commit)
        },
    }
}

// What a write gives back.

#[verifier::spinoff_prover]
proof fn lemma_parse_type(data_type: DataTypeView, rest: Seq<u8>)
    requires
        !(data_type is Other),
    ensures
        parse_type(type_bytes(data_type) + rest) == Ok::<(DataTypeView, Seq<u8>), Seq<char>>(
            (data_type, rest),
        ),
{
    let tag = type_tag(data_type);
    match data_type {
        DataTypeView::FixedSizeBinary(width) => {
            let tail = codec::le_bytes(width as u32 as nat, 4) + rest;
            codec::lemma_parse_u8(tag, tail);
            codec::lemma_parse_i32(width, rest);
            assert(type_bytes(data_type) + rest =~= seq![tag] + tail);
        },
        _ => {
            codec::lemma_parse_u8(tag, rest);
            assert(type_bytes(data_type) + rest =~= seq![tag] + rest);
        },
    }
}

proof fn lemma_parse_flag(value: bool, invalid: Seq<char>, rest: Seq<u8>)
    ensures
        parse_flag(seq![bool_byte(value)] + rest, invalid) == Ok::<(bool, Seq<u8>), Seq<char>>(
            (value, rest),
        ),
{
    codec::lemma_parse_u8(bool_byte(value), rest);
}

#[verifier::spinoff_prover]
proof fn lemma_parse_field(field: FieldView, rest: Seq<u8>)
    requires
        field_fits(field),
        field_fault(field) is None,
        sorted::keys_sorted(field.metadata),
    ensures
        parse_field(field_bytes(field) + rest) == Ok::<(FieldView, Seq<u8>), Seq<char>>(
            (field, rest),
        ),
{
    let after_type = codec::metadata_bytes(field.metadata) + rest;
    let after_flag = type_bytes(field.data_type) + after_type;
    let after_name = seq![bool_byte(field.nullable)] + after_flag;
    codec::lemma_parse_string(field.name, after_name);
    lemma_parse_flag(field.nullable, "nullability flag is invalid"@, after_flag);
    lemma_parse_type(field.data_type, after_type);
    codec::lemma_parse_metadata(field.metadata, rest);
    lemma_append_four(
        codec::string_bytes(field.name),
        seq![bool_byte(field.nullable)],
        type_bytes(field.data_type),
        codec::metadata_bytes(field.metadata),
        rest,
    );
}

/// Whether the metadata of a schema and of its fields ascends.
pub open spec fn metadata_ascends(schema: SchemaView) -> bool {
    sorted::keys_sorted(schema.metadata) && forall|i: int|
        0 <= i < schema.fields.len() ==> sorted::keys_sorted(
            (#[trigger] schema.fields[i]).metadata,
        )
}

proof fn lemma_field_faults(fields: Seq<FieldView>, at: int)
    requires
        0 <= at < fields.len(),
        fields_fault(fields) is None,
    ensures
        field_fault(fields[at]) is None,
    decreases fields.len(),
{
    if at < fields.len() - 1 {
        lemma_field_faults(fields.drop_last(), at);
    }
}

/// The fields of a schema parse back.
proof fn lemma_parse_fields(fields: Seq<FieldView>, rest: Seq<u8>)
    requires
        forall|i: int| 0 <= i < fields.len() ==> field_fits(#[trigger] fields[i]),
        forall|i: int|
            0 <= i < fields.len() ==> sorted::keys_sorted((#[trigger] fields[i]).metadata),
        fields_fault(fields) is None,
    ensures
        codec::parse_list(
            field_item(),
            fields.len(),
            codec::concat(field_encoding(), fields) + rest,
        ) == Ok::<(Seq<FieldView>, Seq<u8>), Seq<char>>((fields, rest)),
{
    let item = field_item();
    let encode = field_encoding();
    assert forall|i: int, tail: Seq<u8>| 0 <= i < fields.len() implies #[trigger] item(
        encode(fields[i]) + tail,
    ) == Ok::<(FieldView, Seq<u8>), Seq<char>>((fields[i], tail)) by {
        lemma_field_faults(fields, i);
        lemma_parse_field(fields[i], tail);
    }
    codec::lemma_parse_list_round_trip(item, encode, fields, rest);
}

#[verifier::spinoff_prover]
proof fn lemma_parse_schema(schema: SchemaView, rest: Seq<u8>)
    requires
        metadata_ascends(schema),
        codec::metadata_fits(schema.metadata),
        forall|i: int| 0 <= i < schema.fields.len() ==> field_fits(#[trigger] schema.fields[i]),
        schema_fault(schema) is None,
    ensures
        parse_schema(schema_bytes(schema) + rest) == Ok::<(SchemaView, Seq<u8>), Seq<char>>(
            (schema, rest),
        ),
{
    let list = codec::concat(field_encoding(), schema.fields);
    let after_metadata = codec::le_bytes(schema.fields.len(), 4) + (list + rest);
    codec::lemma_parse_metadata(schema.metadata, after_metadata);
    codec::lemma_parse_u32(schema.fields.len() as u32, list + rest);
    lemma_parse_fields(schema.fields, rest);
    let metadata = codec::metadata_bytes(schema.metadata);
    let count = codec::le_bytes(schema.fields.len(), 4);
    codec::lemma_assoc(metadata + count, list, rest);
    codec::lemma_assoc(metadata, count, list + rest);
}

#[verifier::spinoff_prover]
proof fn lemma_parse_stat(value: StatValueView, rest: Seq<u8>)
    requires
        stat_fits(value),
    ensures
        parse_stat(stat_bytes(value) + rest) == Ok::<(StatValueView, Seq<u8>), Seq<char>>(
            (value, rest),
        ),
{
    let bytes = stat_bytes(value);
    let tail = bytes.skip(1) + rest;
    codec::lemma_parse_u8(bytes[0], tail);
    assert(bytes + rest =~= seq![bytes[0]] + tail);
    match value {
        StatValueView::Bool(flag) => {
            lemma_parse_flag(flag, "boolean statistic is invalid"@, rest);
            assert(tail =~= seq![bool_byte(flag)] + rest);
        },
        StatValueView::Int32(number) => {
            codec::lemma_parse_i32(number, rest);
            assert(bytes.skip(1) =~= codec::le_bytes(number as u32 as nat, 4));
        },
        StatValueView::Int64(number) => {
            codec::lemma_parse_i64(number, rest);
            assert(bytes.skip(1) =~= codec::le_bytes(number as u64 as nat, 8));
        },
        StatValueView::UInt16(number) => {
            codec::lemma_parse_u16(number, rest);
            assert(bytes.skip(1) =~= codec::le_bytes(number as nat, 2));
        },
        StatValueView::UInt32(number) => {
            codec::lemma_parse_u32(number, rest);
            assert(bytes.skip(1) =~= codec::le_bytes(number as nat, 4));
        },
        StatValueView::UInt64(number) => {
            codec::lemma_parse_u64(number, rest);
            assert(bytes.skip(1) =~= codec::le_bytes(number as nat, 8));
        },
        StatValueView::Float64(bits) => {
            codec::lemma_parse_u64(bits, rest);
            assert(bytes.skip(1) =~= codec::le_bytes(bits as nat, 8));
        },
        StatValueView::Utf8(value) => {
            codec::lemma_parse_string(value, rest);
            assert(bytes.skip(1) =~= codec::string_bytes(value));
        },
    }
}

#[verifier::spinoff_prover]
proof fn lemma_parse_column(column: ColumnStatisticsView, rest: Seq<u8>)
    requires
        column_fits(column),
    ensures
        parse_column(column_bytes(column) + rest) == Ok::<
            (ColumnStatisticsView, Seq<u8>),
            Seq<char>,
        >((column, rest)),
{
    let bounds = match column.bounds {
        None => seq![0u8],
        Some((min, max)) => seq![1u8] + stat_bytes(min) + stat_bytes(max),
    };
    let after_name = codec::le_bytes(column.null_count as nat, 8) + (bounds + rest);
    codec::lemma_parse_string(column.name, after_name);
    codec::lemma_parse_u64(column.null_count, bounds + rest);
    let name = codec::string_bytes(column.name);
    let nulls = codec::le_bytes(column.null_count as nat, 8);
    codec::lemma_assoc(name + nulls, bounds, rest);
    codec::lemma_assoc(name, nulls, bounds + rest);
    match column.bounds {
        None => {
            codec::lemma_parse_u8(0, rest);
        },
        Some((min, max)) => {
            let after_min = stat_bytes(max) + rest;
            let after_tag = stat_bytes(min) + after_min;
            codec::lemma_parse_u8(1, after_tag);
            lemma_parse_stat(min, after_min);
            lemma_parse_stat(max, rest);
            codec::lemma_assoc(seq![1u8] + stat_bytes(min), stat_bytes(max), rest);
            codec::lemma_assoc(seq![1u8], stat_bytes(min), after_min);
        },
    }
}

pub open spec fn u64_encoding() -> spec_fn(u64) -> Seq<u8> {
    |value: u64| codec::le_bytes(value as nat, 8)
}

proof fn lemma_parse_numbers(statistics: FileStatisticsView, rest: Seq<u8>)
    ensures
        ({
            let numbers = seq![
                statistics.size_bytes,
                statistics.rows,
                statistics.event_time_min,
                statistics.event_time_max,
                statistics.received_time_min,
                statistics.received_time_max,
                statistics.wal_min,
                statistics.wal_max,
            ];
            codec::parse_list(u64_item(), 8, numbers_bytes(statistics) + rest) == Ok::<
                (Seq<u64>, Seq<u8>),
                Seq<char>,
            >((numbers, rest))
        }),
{
    let numbers = seq![
        statistics.size_bytes,
        statistics.rows,
        statistics.event_time_min,
        statistics.event_time_max,
        statistics.received_time_min,
        statistics.received_time_max,
        statistics.wal_min,
        statistics.wal_max,
    ];
    let item = u64_item();
    let encode = u64_encoding();
    assert forall|i: int, tail: Seq<u8>| 0 <= i < numbers.len() implies #[trigger] item(
        encode(numbers[i]) + tail,
    ) == Ok::<(u64, Seq<u8>), Seq<char>>((numbers[i], tail)) by {
        codec::lemma_parse_u64(numbers[i], tail);
    }
    codec::lemma_parse_list_round_trip(item, encode, numbers, rest);
    let n0 = Seq::<u64>::empty();
    let n1 = n0.push(numbers[0]);
    let n2 = n1.push(numbers[1]);
    let n3 = n2.push(numbers[2]);
    let n4 = n3.push(numbers[3]);
    let n5 = n4.push(numbers[4]);
    let n6 = n5.push(numbers[5]);
    let n7 = n6.push(numbers[6]);
    let n8 = n7.push(numbers[7]);
    codec::lemma_concat_push(encode, n0, numbers[0]);
    codec::lemma_concat_push(encode, n1, numbers[1]);
    codec::lemma_concat_push(encode, n2, numbers[2]);
    codec::lemma_concat_push(encode, n3, numbers[3]);
    codec::lemma_concat_push(encode, n4, numbers[4]);
    codec::lemma_concat_push(encode, n5, numbers[5]);
    codec::lemma_concat_push(encode, n6, numbers[6]);
    codec::lemma_concat_push(encode, n7, numbers[7]);
    assert(n8 =~= numbers);
    assert(codec::concat(encode, n1) =~= codec::le_bytes(numbers[0] as nat, 8));
    assert(codec::concat(encode, numbers) =~= numbers_bytes(statistics));
}

/// The columns of statistics parse back.
proof fn lemma_parse_columns(columns: Seq<ColumnStatisticsView>, rest: Seq<u8>)
    requires
        forall|i: int| 0 <= i < columns.len() ==> column_fits(#[trigger] columns[i]),
    ensures
        codec::parse_list(
            column_item(),
            columns.len(),
            codec::concat(column_encoding(), columns) + rest,
        ) == Ok::<(Seq<ColumnStatisticsView>, Seq<u8>), Seq<char>>((columns, rest)),
{
    let item = column_item();
    let encode = column_encoding();
    assert forall|i: int, tail: Seq<u8>| 0 <= i < columns.len() implies #[trigger] item(
        encode(columns[i]) + tail,
    ) == Ok::<(ColumnStatisticsView, Seq<u8>), Seq<char>>((columns[i], tail)) by {
        assert(column_fits(columns[i]));
        lemma_parse_column(columns[i], tail);
    }
    codec::lemma_parse_list_round_trip(item, encode, columns, rest);
}

/// The parts of statistics, parsed one behind the other.
proof fn lemma_statistics_steps(
    found: FileStatisticsView,
    numbers: Seq<u64>,
    data: Seq<u8>,
    after_tag: Seq<u8>,
    after_numbers: Seq<u8>,
    after_ordered: Seq<u8>,
    after_count: Seq<u8>,
    rest: Seq<u8>,
)
    requires
        numbers == seq![
            found.size_bytes,
            found.rows,
            found.event_time_min,
            found.event_time_max,
            found.received_time_min,
            found.received_time_max,
            found.wal_min,
            found.wal_max,
        ],
        found.columns.len() <= u32::MAX,
        codec::parse_u8(data) == Ok::<(u8, Seq<u8>), Seq<char>>((1u8, after_tag)),
        codec::parse_list(u64_item(), 8, after_tag) == Ok::<(Seq<u64>, Seq<u8>), Seq<char>>(
            (numbers, after_numbers),
        ),
        codec::parse_u8(after_numbers) == Ok::<(u8, Seq<u8>), Seq<char>>(
            (bool_byte(found.ordered), after_ordered),
        ),
        codec::parse_u32(after_ordered) == Ok::<(u32, Seq<u8>), Seq<char>>(
            (found.columns.len() as u32, after_count),
        ),
        codec::parse_list(column_item(), found.columns.len(), after_count) == Ok::<
            (Seq<ColumnStatisticsView>, Seq<u8>),
            Seq<char>,
        >((found.columns, rest)),
    ensures
        parse_statistics(data) == Ok::<(Option<FileStatisticsView>, Seq<u8>), Seq<char>>(
            (Some(found), rest),
        ),
{
}

#[verifier::spinoff_prover]
proof fn lemma_parse_statistics(statistics: Option<FileStatisticsView>, rest: Seq<u8>)
    requires
        statistics_fit(statistics),
    ensures
        parse_statistics(statistics_bytes(statistics) + rest) == Ok::<
            (Option<FileStatisticsView>, Seq<u8>),
            Seq<char>,
        >((statistics, rest)),
{
    match statistics {
        None => {
            codec::lemma_parse_u8(0, rest);
        },
        Some(found) => {
            let numbers = seq![
                found.size_bytes,
                found.rows,
                found.event_time_min,
                found.event_time_max,
                found.received_time_min,
                found.received_time_max,
                found.wal_min,
                found.wal_max,
            ];
            let list = codec::concat(column_encoding(), found.columns);
            let after_ordered = codec::le_bytes(found.columns.len(), 4) + (list + rest);
            let after_numbers = seq![bool_byte(found.ordered)] + after_ordered;
            let after_tag = numbers_bytes(found) + after_numbers;
            let data = seq![1u8] + after_tag;
            codec::lemma_parse_u8(1, after_tag);
            lemma_parse_numbers(found, after_numbers);
            codec::lemma_parse_u8(bool_byte(found.ordered), after_ordered);
            codec::lemma_parse_u32(found.columns.len() as u32, list + rest);
            lemma_parse_columns(found.columns, rest);
            lemma_statistics_steps(
                found,
                numbers,
                data,
                after_tag,
                after_numbers,
                after_ordered,
                list + rest,
                rest,
            );
            let numbers = numbers_bytes(found);
            let ordered = seq![bool_byte(found.ordered)];
            let count = codec::le_bytes(found.columns.len(), 4);
            let tag = seq![1u8];
            codec::lemma_assoc(tag + numbers + ordered + count, list, rest);
            codec::lemma_assoc(tag + numbers + ordered, count, list + rest);
            codec::lemma_assoc(tag + numbers, ordered, after_ordered);
            codec::lemma_assoc(tag, numbers, after_numbers);
        },
    }
}

/// The file as a read gives it back: without statistics that no scan may rely on.
pub open spec fn file_read_back(file: CommitFileView, commit: CommitView) -> CommitFileView {
    CommitFileView {
        statistics: relied_on(
            file.statistics,
            commit.schema.fields,
            file.rows,
            file.hour,
            commit.first_sequence,
            commit.next_sequence,
        ),
        ..file
    }
}

/// The commit as a read gives it back: without statistics that no scan may rely on.
pub open spec fn read_back(commit: CommitView) -> CommitView {
    CommitView {
        files: commit.files.map_values(|file: CommitFileView| file_read_back(file, commit)),
        ..commit
    }
}

/// The parts of a recorded file, parsed one behind the other.
proof fn lemma_file_steps(
    file: CommitFileView,
    commit: CommitView,
    data: Seq<u8>,
    after_hour: Seq<u8>,
    after_rows: Seq<u8>,
    after_path: Seq<u8>,
    rest: Seq<u8>,
)
    requires
        codec::parse_u64(data) == Ok::<(u64, Seq<u8>), Seq<char>>((file.hour, after_hour)),
        codec::parse_u64(after_hour) == Ok::<(u64, Seq<u8>), Seq<char>>((file.rows, after_rows)),
        codec::parse_string(after_rows) == Ok::<(Seq<char>, Seq<u8>), Seq<char>>(
            (file.relative_path, after_path),
        ),
        parse_statistics(after_path) == Ok::<(Option<FileStatisticsView>, Seq<u8>), Seq<char>>(
            (file.statistics, rest),
        ),
        schema::hour_start(file.hour) == file.hour,
        layout::plain_relative(file.relative_path),
    ensures
        parse_file(
            data,
            commit.schema.fields,
            commit.first_sequence,
            commit.next_sequence,
        ) == Ok::<(CommitFileView, Seq<u8>), Seq<char>>((file_read_back(file, commit), rest)),
{
}

#[verifier::spinoff_prover]
proof fn lemma_parse_file(file: CommitFileView, commit: CommitView, rest: Seq<u8>)
    requires
        file_fits(file),
        file.hour % schema::NANOS_PER_HOUR == 0,
        layout::plain_relative(file.relative_path),
    ensures
        parse_file(
            file_bytes(file) + rest,
            commit.schema.fields,
            commit.first_sequence,
            commit.next_sequence,
        ) == Ok::<(CommitFileView, Seq<u8>), Seq<char>>((file_read_back(file, commit), rest)),
{
    let after_path = statistics_bytes(file.statistics) + rest;
    let after_rows = codec::string_bytes(file.relative_path) + after_path;
    let after_hour = codec::le_bytes(file.rows as nat, 8) + after_rows;
    codec::lemma_parse_u64(file.hour, after_hour);
    codec::lemma_parse_u64(file.rows, after_rows);
    codec::lemma_parse_string(file.relative_path, after_path);
    lemma_parse_statistics(file.statistics, rest);
    let data = codec::le_bytes(file.hour as nat, 8) + after_hour;
    assert(schema::hour_start(file.hour) == file.hour);
    lemma_file_steps(file, commit, data, after_hour, after_rows, after_path, rest);
    let hour = codec::le_bytes(file.hour as nat, 8);
    let rows = codec::le_bytes(file.rows as nat, 8);
    let path = codec::string_bytes(file.relative_path);
    codec::lemma_assoc(hour + rows + path, statistics_bytes(file.statistics), rest);
    codec::lemma_assoc(hour + rows, path, after_path);
    codec::lemma_assoc(hour, rows, after_rows);
}

#[verifier::spinoff_prover]
#[verifier::rlimit(40)]
proof fn lemma_parse_files(commit: CommitView, count: int, rest: Seq<u8>)
    requires
        0 <= count <= commit.files.len(),
        forall|i: int|
            0 <= i < commit.files.len() ==> file_fits(#[trigger] commit.files[i])
                && commit.files[i].hour % schema::NANOS_PER_HOUR == 0 && layout::plain_relative(
                commit.files[i].relative_path,
            ),
    ensures
        codec::parse_list(
            file_item(commit.schema.fields, commit.first_sequence, commit.next_sequence),
            count as nat,
            codec::concat(file_encoding(), commit.files.take(count)) + rest,
        ) == Ok::<(Seq<CommitFileView>, Seq<u8>), Seq<char>>(
            (read_back(commit).files.take(count), rest),
        ),
    decreases count,
{
    let item = file_item(commit.schema.fields, commit.first_sequence, commit.next_sequence);
    let encode = file_encoding();
    let all = commit.files.take(count);
    if count == 0 {
        assert(codec::concat(encode, all) + rest =~= rest);
        assert(read_back(commit).files.take(0) =~= Seq::empty());
    } else {
        let last = commit.files[count - 1];
        let tail = file_bytes(last) + rest;
        assert(all.drop_last() =~= commit.files.take(count - 1));
        lemma_parse_files(commit, count - 1, tail);
        lemma_parse_file(last, commit, rest);
        codec::lemma_assoc(codec::concat(encode, all.drop_last()), file_bytes(last), rest);
        assert(read_back(commit).files.take(count) =~= read_back(commit).files.take(count - 1).push(
            file_read_back(last, commit),
        ));
    }
}

/// Whether a commit is one that publication makes: it can be encoded, its parts agree, its hours
/// are aligned and its paths stay below the tenant directory.
pub open spec fn publishable(commit: CommitView) -> bool {
    &&& commit_fits(commit)
    &&& commit_fault(commit) is None
    &&& metadata_ascends(commit.schema)
    &&& disagreement(commit) is None
    &&& forall|i: int|
        0 <= i < commit.files.len() ==> (#[trigger] commit.files[i]).hour % schema::NANOS_PER_HOUR
            == 0 && layout::plain_relative(commit.files[i].relative_path)
}

proof fn lemma_read_back_agrees(commit: CommitView, count: int)
    requires
        0 <= count <= commit.files.len(),
    ensures
        earliest(read_back(commit).files.take(count)) == earliest(commit.files.take(count)),
        latest(read_back(commit).files.take(count)) == latest(commit.files.take(count)),
        file_rows(read_back(commit).files.take(count)) == file_rows(commit.files.take(count)),
    decreases count,
{
    let left = read_back(commit).files.take(count);
    let right = commit.files.take(count);
    if count > 0 {
        lemma_read_back_agrees(commit, count - 1);
        assert(left.drop_last() =~= read_back(commit).files.take(count - 1));
        assert(right.drop_last() =~= commit.files.take(count - 1));
        assert(left.last() == file_read_back(right.last(), commit));
    }
}

/// The parts of a descriptor head, parsed one behind the other.
proof fn lemma_head_steps(
    head: CommitHead,
    data: Seq<u8>,
    after_tenant: Seq<u8>,
    after_version: Seq<u8>,
    after_fingerprint: Seq<u8>,
    rest: Seq<u8>,
)
    requires
        codec::parse_string(data) == Ok::<(Seq<char>, Seq<u8>), Seq<char>>(
            (head.tenant, after_tenant),
        ),
        codec::parse_u32(after_tenant) == Ok::<(u32, Seq<u8>), Seq<char>>(
            (head.projection_version, after_version),
        ),
        codec::parse_string(after_version) == Ok::<(Seq<char>, Seq<u8>), Seq<char>>(
            (head.fingerprint, after_fingerprint),
        ),
        parse_schema(after_fingerprint) == Ok::<(SchemaView, Seq<u8>), Seq<char>>(
            (head.schema, rest),
        ),
    ensures
        parse_head(data) == Ok::<(CommitHead, Seq<u8>), Seq<char>>((head, rest)),
{
}

proof fn lemma_append_four(a: Seq<u8>, b: Seq<u8>, c: Seq<u8>, d: Seq<u8>, rest: Seq<u8>)
    ensures
        (a + b + c + d) + rest == a + (b + (c + (d + rest))),
{
    codec::lemma_assoc(a + b + c, d, rest);
    codec::lemma_assoc(a + b, c, d + rest);
    codec::lemma_assoc(a, b, c + (d + rest));
}

#[verifier::spinoff_prover]
proof fn lemma_parse_head(commit: CommitView, rest: Seq<u8>)
    requires
        codec::string_fits(commit.tenant),
        codec::string_fits(commit.fingerprint),
        metadata_ascends(commit.schema),
        codec::metadata_fits(commit.schema.metadata),
        forall|i: int|
            0 <= i < commit.schema.fields.len() ==> field_fits(#[trigger] commit.schema.fields[i]),
        schema_fault(commit.schema) is None,
    ensures
        parse_head(head_bytes(commit) + rest) == Ok::<(CommitHead, Seq<u8>), Seq<char>>(
            (
                CommitHead {
                    tenant: commit.tenant,
                    projection_version: commit.projection_version,
                    fingerprint: commit.fingerprint,
                    schema: commit.schema,
                },
                rest,
            ),
        ),
{
    let after_fingerprint = schema_bytes(commit.schema) + rest;
    let after_version = codec::string_bytes(commit.fingerprint) + after_fingerprint;
    let after_tenant = codec::le_bytes(commit.projection_version as nat, 4) + after_version;
    let data = codec::string_bytes(commit.tenant) + after_tenant;
    codec::lemma_parse_string(commit.tenant, after_tenant);
    codec::lemma_parse_u32(commit.projection_version, after_version);
    codec::lemma_parse_string(commit.fingerprint, after_fingerprint);
    lemma_parse_schema(commit.schema, rest);
    let head = CommitHead {
        tenant: commit.tenant,
        projection_version: commit.projection_version,
        fingerprint: commit.fingerprint,
        schema: commit.schema,
    };
    lemma_head_steps(head, data, after_tenant, after_version, after_fingerprint, rest);
    lemma_append_four(
        codec::string_bytes(commit.tenant),
        codec::le_bytes(commit.projection_version as nat, 4),
        codec::string_bytes(commit.fingerprint),
        schema_bytes(commit.schema),
        rest,
    );
}

#[verifier::spinoff_prover]
proof fn lemma_parse_range(commit: CommitView, rest: Seq<u8>)
    ensures
        parse_range(range_bytes(commit) + rest) == Ok::<(CommitRange, Seq<u8>), Seq<char>>(
            (
                CommitRange {
                    first_sequence: commit.first_sequence,
                    next_sequence: commit.next_sequence,
                    rows: commit.rows,
                    start_unix_nano: commit.start_unix_nano,
                    end_unix_nano: commit.end_unix_nano,
                },
                rest,
            ),
        ),
{
    let after_start = codec::option_u64_bytes(commit.end_unix_nano) + rest;
    let after_rows = codec::option_u64_bytes(commit.start_unix_nano) + after_start;
    let after_next = codec::le_bytes(commit.rows as nat, 8) + after_rows;
    let after_first = codec::le_bytes(commit.next_sequence as nat, 8) + after_next;
    let data = codec::le_bytes(commit.first_sequence as nat, 8) + after_first;
    codec::lemma_parse_u64(commit.first_sequence, after_first);
    codec::lemma_parse_u64(commit.next_sequence, after_next);
    codec::lemma_parse_u64(commit.rows, after_rows);
    codec::lemma_parse_option_u64(commit.start_unix_nano, after_start);
    codec::lemma_parse_option_u64(commit.end_unix_nano, rest);
    let range = CommitRange {
        first_sequence: commit.first_sequence,
        next_sequence: commit.next_sequence,
        rows: commit.rows,
        start_unix_nano: commit.start_unix_nano,
        end_unix_nano: commit.end_unix_nano,
    };
    lemma_range_steps(range, data, after_first, after_next, after_rows, after_start, rest);
    let first = codec::le_bytes(commit.first_sequence as nat, 8);
    let next = codec::le_bytes(commit.next_sequence as nat, 8);
    let rows = codec::le_bytes(commit.rows as nat, 8);
    let start = codec::option_u64_bytes(commit.start_unix_nano);
    let end = codec::option_u64_bytes(commit.end_unix_nano);
    codec::lemma_assoc(first + next + rows + start, end, rest);
    lemma_append_four(first, next, rows, start, after_start);
}

/// The parts of a descriptor range, parsed one behind the other.
proof fn lemma_range_steps(
    range: CommitRange,
    data: Seq<u8>,
    after_first: Seq<u8>,
    after_next: Seq<u8>,
    after_rows: Seq<u8>,
    after_start: Seq<u8>,
    rest: Seq<u8>,
)
    requires
        codec::parse_u64(data) == Ok::<(u64, Seq<u8>), Seq<char>>(
            (range.first_sequence, after_first),
        ),
        codec::parse_u64(after_first) == Ok::<(u64, Seq<u8>), Seq<char>>(
            (range.next_sequence, after_next),
        ),
        codec::parse_u64(after_next) == Ok::<(u64, Seq<u8>), Seq<char>>((range.rows, after_rows)),
        codec::parse_option_u64(after_rows) == Ok::<(Option<u64>, Seq<u8>), Seq<char>>(
            (range.start_unix_nano, after_start),
        ),
        codec::parse_option_u64(after_start) == Ok::<(Option<u64>, Seq<u8>), Seq<char>>(
            (range.end_unix_nano, rest),
        ),
    ensures
        parse_range(data) == Ok::<(CommitRange, Seq<u8>), Seq<char>>((range, rest)),
{
}

/// The parts of a descriptor body, parsed one behind the other.
proof fn lemma_body_steps(
    head: CommitHead,
    range: CommitRange,
    files: Seq<CommitFileView>,
    data: Seq<u8>,
    after_head: Seq<u8>,
    after_range: Seq<u8>,
    after_count: Seq<u8>,
    rest: Seq<u8>,
    count: u32,
)
    requires
        parse_head(data) == Ok::<(CommitHead, Seq<u8>), Seq<char>>((head, after_head)),
        parse_range(after_head) == Ok::<(CommitRange, Seq<u8>), Seq<char>>((range, after_range)),
        codec::parse_u32(after_range) == Ok::<(u32, Seq<u8>), Seq<char>>((count, after_count)),
        codec::parse_list(
            file_item(head.schema.fields, range.first_sequence, range.next_sequence),
            count as nat,
            after_count,
        ) == Ok::<(Seq<CommitFileView>, Seq<u8>), Seq<char>>((files, rest)),
    ensures
        parse_commit(data) == Ok::<(CommitView, Seq<u8>), Seq<char>>(
            (
                CommitView {
                    tenant: head.tenant,
                    projection_version: head.projection_version,
                    fingerprint: head.fingerprint,
                    schema: head.schema,
                    first_sequence: range.first_sequence,
                    next_sequence: range.next_sequence,
                    rows: range.rows,
                    files,
                    start_unix_nano: range.start_unix_nano,
                    end_unix_nano: range.end_unix_nano,
                },
                rest,
            ),
        ),
{
}

proof fn lemma_append_three(a: Seq<u8>, b: Seq<u8>, c: Seq<u8>, d: Seq<u8>)
    ensures
        a + b + (c + d) == a + (b + (c + (d + Seq::<u8>::empty()))),
{
    assert(a + b + (c + d) =~= a + (b + (c + (d + Seq::<u8>::empty()))));
}

/// The body of a descriptor, parsed part by part.
proof fn lemma_parse_body(commit: CommitView)
    requires
        publishable(commit),
    ensures
        parse_commit(commit_body(commit)) == Ok::<(CommitView, Seq<u8>), Seq<char>>(
            (read_back(commit), Seq::empty()),
        ),
{
    let no_rest = Seq::<u8>::empty();
    let list = codec::concat(file_encoding(), commit.files);
    let after_range = codec::le_bytes(commit.files.len(), 4) + (list + no_rest);
    let after_head = range_bytes(commit) + after_range;
    let data = head_bytes(commit) + after_head;
    assert(schema_fault(commit.schema) is None && commit.files.len() <= u32::MAX);
    lemma_parse_head(commit, after_head);
    lemma_parse_range(commit, after_range);
    codec::lemma_parse_u32(commit.files.len() as u32, list + no_rest);
    lemma_parse_all_files(commit);
    let head = CommitHead {
        tenant: commit.tenant,
        projection_version: commit.projection_version,
        fingerprint: commit.fingerprint,
        schema: commit.schema,
    };
    let range = CommitRange {
        first_sequence: commit.first_sequence,
        next_sequence: commit.next_sequence,
        rows: commit.rows,
        start_unix_nano: commit.start_unix_nano,
        end_unix_nano: commit.end_unix_nano,
    };
    lemma_body_steps(
        head,
        range,
        read_back(commit).files,
        data,
        after_head,
        after_range,
        list + no_rest,
        no_rest,
        commit.files.len() as u32,
    );
    lemma_append_three(
        head_bytes(commit),
        range_bytes(commit),
        codec::le_bytes(commit.files.len(), 4),
        list,
    );
}

proof fn lemma_parse_all_files(commit: CommitView)
    requires
        publishable(commit),
    ensures
        codec::parse_list(
            file_item(commit.schema.fields, commit.first_sequence, commit.next_sequence),
            commit.files.len(),
            codec::concat(file_encoding(), commit.files) + Seq::<u8>::empty(),
        ) == Ok::<(Seq<CommitFileView>, Seq<u8>), Seq<char>>(
            (read_back(commit).files, Seq::empty()),
        ),
{
    assert forall|i: int| 0 <= i < commit.files.len() implies file_fits(#[trigger] commit.files[i])
        && commit.files[i].hour % schema::NANOS_PER_HOUR == 0 && layout::plain_relative(
        commit.files[i].relative_path,
    ) by {}
    lemma_parse_files(commit, commit.files.len() as int, Seq::empty());
    assert(commit.files.take(commit.files.len() as int) =~= commit.files);
    assert(read_back(commit).files.take(commit.files.len() as int) =~= read_back(commit).files);
}

proof fn lemma_decode_steps(bytes: Seq<u8>, body: Seq<u8>, commit: CommitView)
    requires
        codec::unsealed(
            bytes,
            commit_magic(),
            COMMIT_VERSION,
            "unsupported commit version "@,
        ) == Ok::<Seq<u8>, DescriptorErrorView>(body),
        parse_commit(body) == Ok::<(CommitView, Seq<u8>), Seq<char>>((commit, Seq::empty())),
        disagreement(commit) is None,
    ensures
        decoded(bytes) == Ok::<CommitView, DescriptorErrorView>(commit),
{
}

proof fn lemma_read_back_is_consistent(commit: CommitView)
    requires
        disagreement(commit) is None,
    ensures
        disagreement(read_back(commit)) is None,
{
    lemma_read_back_agrees(commit, commit.files.len() as int);
    assert(commit.files.take(commit.files.len() as int) =~= commit.files);
    assert(read_back(commit).files.take(commit.files.len() as int) =~= read_back(commit).files);
}

/// A descriptor that was written reads back as the commit it was written for. Statistics come back
/// exactly where a scan may rely on them.
pub proof fn commits_read_back(commit: CommitView)
    requires
        publishable(commit),
    ensures
        decoded(commit_bytes(commit)) == Ok::<CommitView, DescriptorErrorView>(read_back(commit)),
{
    let body = commit_body(commit);
    codec::lemma_unsealed(
        commit_magic(),
        COMMIT_VERSION,
        body,
        "unsupported commit version "@,
    );
    lemma_parse_body(commit);
    lemma_read_back_is_consistent(commit);
    lemma_decode_steps(commit_bytes(commit), body, read_back(commit));
}

/// Bytes whose trailer is not the CRC32C of what stands before it hold no commit.
pub proof fn a_bad_checksum_is_refused(bytes: Seq<u8>)
    requires
        bytes.len() >= 14,
        codec::le_value(bytes.skip(bytes.len() - 4)) != codec::crc32c_value(
            bytes.take(bytes.len() - 4),
        ),
    ensures
        decoded(bytes) == Err::<CommitView, DescriptorErrorView>(DescriptorErrorView::Checksum),
{
}

/// A commit descriptor in which one byte changed is refused for its checksum, whichever byte it is; so
/// is every one in which one bit is flipped.
pub proof fn one_changed_byte_is_refused(commit: CommitView, at: int, value: u8)
    requires
        0 <= at < commit_bytes(commit).len(),
        value != commit_bytes(commit)[at],
    ensures
        decoded(commit_bytes(commit).update(at, value)) == Err::<CommitView, DescriptorErrorView>(
            DescriptorErrorView::Checksum,
        ),
{
    codec::one_changed_byte_is_refused(
        commit_magic(),
        COMMIT_VERSION,
        commit_body(commit),
        "unsupported commit version "@,
        at,
        value,
    );
}

/// The time bounds of a commit reach from the start of its first hour to the end of its last: they cover
/// every file, and one file gives each of them. A commit without files has none.
pub proof fn time_bounds_cover_the_files(files: Seq<CommitFileView>)
    ensures
        files.len() == 0 ==> earliest(files) is None && latest(files) is None,
        files.len() > 0 ==> earliest(files) is Some && latest(files) is Some,
        forall|i: int|
            0 <= i < files.len() ==> earliest(files)->0 <= (#[trigger] files[i]).hour
                && layout::hour_end(files[i].hour) <= latest(files)->0,
        files.len() > 0 ==> exists|i: int|
            0 <= i < files.len() && (#[trigger] files[i]).hour == earliest(files)->0,
        files.len() > 0 ==> exists|i: int|
            0 <= i < files.len() && layout::hour_end((#[trigger] files[i]).hour) == latest(
                files,
            )->0,
    decreases files.len(),
{
    if files.len() > 0 {
        let front = files.drop_last();
        let end = files.len() - 1;
        time_bounds_cover_the_files(front);
        assert(forall|i: int| 0 <= i < front.len() ==> front[i] == #[trigger] files[i]);
        assert(files[end] == files.last());
        if front.len() > 0 {
            let i = choose|i: int|
                0 <= i < front.len() && (#[trigger] front[i]).hour == earliest(front)->0;
            assert(files[i].hour == earliest(front)->0);
            let j = choose|j: int|
                0 <= j < front.len() && layout::hour_end((#[trigger] front[j]).hour) == latest(
                    front,
                )->0;
            assert(layout::hour_end(files[j].hour) == latest(front)->0);
        }
    }
}

// What a descriptor is accepted for.

/// Whether a recorded file agrees with its commit: its hour is one, its path stays below the tenant, and
/// its statistics, where it has them, count its rows and lie within its hour and the sequences of the
/// commit.
pub open spec fn file_agrees(file: CommitFileView, commit: CommitView) -> bool {
    &&& file.hour % schema::NANOS_PER_HOUR == 0
    &&& layout::plain_relative(file.relative_path)
    &&& file.statistics is Some ==> {
        let statistics = file.statistics->0;
        &&& statistics.size_bytes > 0
        &&& statistics.rows == file.rows
        &&& file.hour <= statistics.event_time_min <= statistics.event_time_max
        &&& statistics.event_time_max < layout::hour_end(file.hour)
        &&& statistics.received_time_min <= statistics.received_time_max
        &&& commit.first_sequence <= statistics.wal_min <= statistics.wal_max
        &&& statistics.wal_max < commit.next_sequence
        &&& statistics.columns.len() == commit.schema.fields.len()
        &&& forall|i: int|
            0 <= i < statistics.columns.len() ==> (#[trigger] statistics.columns[i]).name
                == commit.schema.fields[i].name && statistics.columns[i].null_count <= file.rows
    }
}

proof fn lemma_parsed_file(
    data: Seq<u8>,
    fields: Seq<FieldView>,
    first_sequence: u64,
    next_sequence: u64,
    commit: CommitView,
)
    requires
        parse_file(data, fields, first_sequence, next_sequence) is Ok,
        commit.schema.fields == fields,
        commit.first_sequence == first_sequence,
        commit.next_sequence == next_sequence,
    ensures
        file_agrees(parse_file(data, fields, first_sequence, next_sequence)->Ok_0.0, commit),
{
    let (file, rest) = parse_file(data, fields, first_sequence, next_sequence)->Ok_0;
    schema::hours_partition_time(file.hour, 0);
    let (time, after) = codec::parse_u64(data)->Ok_0;
    schema::hours_partition_time(time, 0);
    if file.statistics is Some {
        let statistics = file.statistics->0;
        assert(statistics::usable(
            statistics,
            fields,
            file.rows,
            file.hour,
            layout::hour_end(file.hour),
            first_sequence,
            next_sequence,
        ));
        assert forall|i: int| 0 <= i < statistics.columns.len() implies (
        #[trigger] statistics.columns[i]).name == commit.schema.fields[i].name
            && statistics.columns[i].null_count <= file.rows by {
            assert(statistics::column_usable(statistics.columns[i], fields[i], file.rows));
        }
    }
}

proof fn lemma_parsed_files(commit: CommitView, count: nat, data: Seq<u8>, i: int)
    requires
        codec::parse_list(
            file_item(commit.schema.fields, commit.first_sequence, commit.next_sequence),
            count,
            data,
        ) is Ok,
        0 <= i < count,
    ensures
        ({
            let files = codec::parse_list(
                file_item(commit.schema.fields, commit.first_sequence, commit.next_sequence),
                count,
                data,
            )->Ok_0.0;
            files.len() == count && file_agrees(files[i], commit)
        }),
    decreases count,
{
    let item = file_item(commit.schema.fields, commit.first_sequence, commit.next_sequence);
    let (before, rest) = codec::parse_list(item, (count - 1) as nat, data)->Ok_0;
    if count > 1 {
        lemma_parsed_files(commit, (count - 1) as nat, data, if i < count - 1 { i } else { 0 });
    } else {
        assert(codec::parse_list(item, 0, data) is Ok);
    }
    lemma_parsed_file(
        rest,
        commit.schema.fields,
        commit.first_sequence,
        commit.next_sequence,
        commit,
    );
    assert(before.len() == count - 1);
}

/// A descriptor is accepted only for a commit whose parts agree: its sequence range is not empty, it counts
/// the rows of its files, its time bounds are those of its files, and each file agrees with it.
pub proof fn accepted_commits_agree(bytes: Seq<u8>, i: int)
    requires
        decoded(bytes) is Ok,
    ensures
        ({
            let commit = decoded(bytes)->Ok_0;
            &&& commit.first_sequence < commit.next_sequence
            &&& commit.rows == file_rows(commit.files)
            &&& commit.start_unix_nano == earliest(commit.files)
            &&& commit.end_unix_nano == latest(commit.files)
            &&& 0 <= i < commit.files.len() ==> file_agrees(commit.files[i], commit)
        }),
{
    let commit = decoded(bytes)->Ok_0;
    let body = codec::unsealed(
        bytes,
        commit_magic(),
        COMMIT_VERSION,
        "unsupported commit version "@,
    )->Ok_0;
    let (head, after_head) = parse_head(body)->Ok_0;
    let (range, after_range) = parse_range(after_head)->Ok_0;
    let (count, after_count) = codec::parse_u32(after_range)->Ok_0;
    let item = file_item(commit.schema.fields, commit.first_sequence, commit.next_sequence);
    assert(codec::parse_list(item, count as nat, after_count) is Ok);
    if 0 <= i < commit.files.len() {
        if count > 0 {
            lemma_parsed_files(commit, count as nat, after_count, 0);
            lemma_parsed_files(commit, count as nat, after_count, i);
        }
    }
}

} // verus!
