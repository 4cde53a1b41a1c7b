//! What a snapshot shows, and under which schema.
use std::sync::Arc;
use vstd::prelude::*;
use crate::align;
use crate::align::{align_batch, finds_type_fault_first, MemtableError, MemtableErrorView};
use crate::batch::{share, BatchView, Column, RecordBatch};
use crate::catalog::CatalogError;
use crate::commit::{copy_statistics, Commit, CommitError, CommitFileView, CommitView};
use crate::generation;
use crate::generation::{Generation, GenerationView, HourView};
use crate::layout;
use crate::layout::{join, tenant_directory};
use crate::parquet::ParquetError;
use crate::paths::PathSet;
use crate::recovery::RecoveryError;
use crate::retirement::RetirementError;
use crate::schema;
use crate::schema::{schema_fields, EventHour, Field, FieldView, Schema, SchemaView};
use crate::sorted;
use crate::sorted::TextMap;
use crate::statistics::{FileStatistics, FileStatisticsView};
use crate::text;
use crate::text::push_decimal;

verus! {

/// Where a durability test stops garbage collection.
#[derive(Clone, Copy, Debug, PartialEq, Eq, Structural)]
pub enum CollectFault {
    /// Fail before unlinking any file.
    Unlink,
    /// Fail after unlinks, before directory fsync.
    SyncDir,
}

/// Why garbage collection stopped.
#[derive(Debug)]
pub enum CollectError {
    /// Filesystem failure, by its message.
    Io(String),
    /// The options stopped the pass.
    Fault(CollectFault),
}

impl CollectError {
    pub open spec fn text(&self) -> Seq<char> {
        match self {
            CollectError::Io(error) => "collect io: "@ + error@,
            CollectError::Fault(CollectFault::Unlink) => "injected collect fault at Unlink"@,
            CollectError::Fault(CollectFault::SyncDir) => "injected collect fault at SyncDir"@,
        }
    }

    /// The message of this error.
    pub fn message(&self) -> (message: String)
        ensures
            message@ == self.text(),
    {
        match self {
            CollectError::Io(error) => "collect io: ".to_owned().concat(error),
            CollectError::Fault(CollectFault::Unlink) =>
                "injected collect fault at Unlink".to_owned(),
            CollectError::Fault(CollectFault::SyncDir) =>
                "injected collect fault at SyncDir".to_owned(),
        }
    }
}

/// Stop publication after the commit descriptor is durable and before memory is released.
#[derive(Clone, Copy, Debug, PartialEq, Eq, Structural)]
pub enum PublishFault {
    /// The descriptor is on disk. The frozen generation is still in memory.
    Swap,
}

/// Why the store could not append, publish, recover, or scan.
#[derive(Debug)]
pub enum StoreError {
    /// The store lock was poisoned.
    Poisoned,
    /// The memtable rejected the frame.
    Memtable(MemtableError),
    /// A Parquet file could not be written or read.
    Parquet(ParquetError),
    /// A commit descriptor could not be written.
    Commit(CommitError),
    /// The published ranges are not contiguous.
    Catalog(CatalogError),
    /// Startup recovery failed.
    Recovery(RecoveryError),
    /// A retirement descriptor could not be written or read.
    Retirement(RetirementError),
    /// Garbage collection stopped.
    Collect(CollectError),
    /// A projected column is not present in any included generation.
    MissingColumn(String),
    /// Two generations use different types for one physical name.
    Incompatible(String),
    /// The publish options stopped the publication after the descriptor was durable.
    Fault(PublishFault),
}

impl StoreError {
    pub open spec fn text(&self) -> Seq<char> {
        match self {
            StoreError::Poisoned => "store lock is poisoned"@,
            StoreError::Memtable(error) => error.deep_view().text(),
            StoreError::Parquet(error) => error.deep_view().text(),
            StoreError::Commit(error) => error.text(),
            StoreError::Catalog(error) => error.text(),
            StoreError::Recovery(error) => error.text(),
            StoreError::Retirement(error) => error.text(),
            StoreError::Collect(error) => error.text(),
            StoreError::MissingColumn(name) => "scan column "@ + name@ + " is not in the schema"@,
            StoreError::Incompatible(detail) => "scan schema: "@ + detail@,
            StoreError::Fault(PublishFault::Swap) => "injected publish fault at Swap"@,
        }
    }

    /// The message of this error.
    pub fn message(&self) -> (message: String)
        ensures
            message@ == self.text(),
    {
        match self {
            StoreError::Poisoned => "store lock is poisoned".to_owned(),
            StoreError::Memtable(error) => error.message(),
            StoreError::Parquet(error) => error.message(),
            StoreError::Commit(error) => error.message(),
            StoreError::Catalog(error) => error.message(),
            StoreError::Recovery(error) => error.message(),
            StoreError::Retirement(error) => error.message(),
            StoreError::Collect(error) => error.message(),
            StoreError::MissingColumn(name) => {
                let mut message = "scan column ".to_owned();
                message.append(name);
                message.append(" is not in the schema");
                message
            },
            StoreError::Incompatible(detail) => "scan schema: ".to_owned().concat(detail),
            StoreError::Fault(PublishFault::Swap) => "injected publish fault at Swap".to_owned(),
        }
    }
}

/// Columns and hour bounds for one scan.
#[derive(Debug)]
pub struct Scan {
    /// Physical column names to keep, in this order. `None` keeps the reconciled schema.
    pub columns: Option<Vec<String>>,
    /// Inclusive lower bound on the event hour.
    pub from_hour: Option<EventHour>,
    /// Exclusive upper bound on the event hour.
    pub to_hour: Option<EventHour>,
}

impl Default for Scan {
    fn default() -> (scan: Self)
        ensures
            scan.columns is None,
            scan.from_hour is None,
            scan.to_hour is None,
    {
        Scan { columns: None, from_hour: None, to_hour: None }
    }
}

/// Whether an hour lies within the bounds of a scan.
pub open spec fn selects(scan: &Scan, hour: u64) -> bool {
    &&& scan.from_hour is Some ==> hour >= scan.from_hour->0@
    &&& scan.to_hour is Some ==> hour < scan.to_hour->0@
}

/// Whether an hour lies within the bounds of a scan.
pub fn hour_selected(hour: EventHour, scan: &Scan) -> (selected: bool)
    ensures
        selected == selects(scan, hour@),
{
    let from = match scan.from_hour {
        Some(start) => hour.start_unix_nano() >= start.start_unix_nano(),
        None => true,
    };
    let to = match scan.to_hour {
        Some(end) => hour.start_unix_nano() < end.start_unix_nano(),
        None => true,
    };
    from && to
}

/// One Parquet file named by a published commit.
#[derive(Debug)]
pub struct PublishedFile {
    /// Absolute path.
    pub path: String,
    /// Bounds copied from the commit. Absent when the file must be scanned.
    pub statistics: Option<FileStatistics>,
}

#[verifier::ext_equal]
pub struct PublishedFileView {
    pub path: Seq<char>,
    pub statistics: Option<FileStatisticsView>,
}

impl DeepView for PublishedFile {
    type V = PublishedFileView;

    open spec fn deep_view(&self) -> PublishedFileView {
        PublishedFileView { path: self.path@, statistics: self.statistics.deep_view() }
    }
}

/// Memory batches and commit-referenced Parquet files for one event hour.
///
/// Files are named by published commits, oldest commit first. Batches are frozen generations and
/// then the active generation, oldest first. Empty batches are omitted. A directory listing is
/// never a source.
#[derive(Debug)]
pub struct HourSources {
    /// UTC hour these sources cover.
    pub hour: EventHour,
    /// Published Parquet files.
    pub files: Vec<PublishedFile>,
    /// Active and frozen batches that contain at least one row.
    pub batches: Vec<Arc<RecordBatch>>,
}

#[verifier::ext_equal]
pub struct HourSourcesView {
    pub hour: u64,
    pub files: Seq<PublishedFileView>,
    pub batches: Seq<BatchView>,
}

impl DeepView for HourSources {
    type V = HourSourcesView;

    open spec fn deep_view(&self) -> HourSourcesView {
        HourSourcesView {
            hour: self.hour@,
            files: self.files.deep_view(),
            batches: self.batches.deep_view(),
        }
    }
}

/// Point-in-time view of one tenant. Published ranges are not also present as frozen batches.
#[derive(Debug)]
pub struct StoreSnapshot {
    /// Epoch after the last append, rotation, or publication.
    pub epoch: u64,
    /// Active generation after it has accepted at least one frame.
    pub active: Option<Generation>,
    /// Frozen generations, oldest first.
    pub frozen: Vec<Generation>,
    /// Published commits, oldest range first.
    pub published: Vec<Commit>,
    /// Tenant-relative Parquet paths hidden by durable retirement descriptors.
    pub retired: PathSet,
}

#[verifier::ext_equal]
pub struct StoreSnapshotView {
    pub epoch: u64,
    pub active: Option<GenerationView>,
    pub frozen: Seq<GenerationView>,
    pub published: Seq<CommitView>,
    pub retired: Set<Seq<char>>,
}

impl DeepView for StoreSnapshot {
    type V = StoreSnapshotView;

    open spec fn deep_view(&self) -> StoreSnapshotView {
        StoreSnapshotView {
            epoch: self.epoch,
            active: self.active.deep_view(),
            frozen: self.frozen.deep_view(),
            published: self.published.deep_view(),
            retired: self.retired@,
        }
    }
}

// Visible sources.

/// One place from which a snapshot's rows are read.
#[derive(Debug)]
pub enum Visible {
    Memory { hour: EventHour, batches: Vec<Arc<RecordBatch>> },
    File { hour: EventHour, relative_path: String, statistics: Option<FileStatistics> },
}

#[allow(inconsistent_fields)]
#[verifier::ext_equal]
pub enum VisibleView {
    Memory { hour: u64, batches: Seq<BatchView> },
    File { hour: u64, relative_path: Seq<char>, statistics: Option<FileStatisticsView> },
}

impl DeepView for Visible {
    type V = VisibleView;

    open spec fn deep_view(&self) -> VisibleView {
        match self {
            Visible::Memory { hour, batches } => VisibleView::Memory {
                hour: hour@,
                batches: batches.deep_view(),
            },
            Visible::File { hour, relative_path, statistics } => VisibleView::File {
                hour: hour@,
                relative_path: relative_path@,
                statistics: statistics.deep_view(),
            },
        }
    }
}

/// The files of one commit that a scan reads.
pub open spec fn visible_files(
    files: Seq<CommitFileView>,
    retired: Set<Seq<char>>,
    scan: &Scan,
) -> Seq<VisibleView>
    decreases files.len(),
{
    if files.len() == 0 {
        Seq::empty()
    } else {
        let before = visible_files(files.drop_last(), retired, scan);
        let file = files.last();
        if !retired.contains(file.relative_path) && selects(scan, file.hour) {
            before.push(
                VisibleView::File {
                    hour: file.hour,
                    relative_path: file.relative_path,
                    statistics: file.statistics,
                },
            )
        } else {
            before
        }
    }
}

/// The files of all commits that a scan reads, oldest commit first.
pub open spec fn visible_commits(
    commits: Seq<CommitView>,
    retired: Set<Seq<char>>,
    scan: &Scan,
) -> Seq<VisibleView>
    decreases commits.len(),
{
    if commits.len() == 0 {
        Seq::empty()
    } else {
        visible_commits(commits.drop_last(), retired, scan) + visible_files(
            commits.last().files,
            retired,
            scan,
        )
    }
}

/// The partitions of one generation that a scan reads.
pub open spec fn visible_partitions(partitions: Seq<HourView>, scan: &Scan) -> Seq<VisibleView>
    decreases partitions.len(),
{
    if partitions.len() == 0 {
        Seq::empty()
    } else {
        let before = visible_partitions(partitions.drop_last(), scan);
        let partition = partitions.last();
        if selects(scan, partition.hour) {
            before.push(
                VisibleView::Memory { hour: partition.hour, batches: partition.batches },
            )
        } else {
            before
        }
    }
}

/// The partitions of all generations that a scan reads, oldest generation first.
pub open spec fn visible_generations(generations: Seq<GenerationView>, scan: &Scan) -> Seq<
    VisibleView,
>
    decreases generations.len(),
{
    if generations.len() == 0 {
        Seq::empty()
    } else {
        visible_generations(generations.drop_last(), scan) + visible_partitions(
            generations.last().partitions,
            scan,
        )
    }
}

/// The generations in memory, oldest first.
pub open spec fn memory_of(snapshot: StoreSnapshotView) -> Seq<GenerationView> {
    match snapshot.active {
        Some(active) => snapshot.frozen.push(active),
        None => snapshot.frozen,
    }
}

/// Everything that a scan of a snapshot reads: published files, then frozen memory, then active
/// memory.
pub open spec fn visible(snapshot: StoreSnapshotView, scan: &Scan) -> Seq<VisibleView> {
    visible_commits(snapshot.published, snapshot.retired, scan) + visible_generations(
        memory_of(snapshot),
        scan,
    )
}

fn push_generation(sources: &mut Vec<Visible>, generation: &Generation, scan: &Scan)
    ensures
        final(sources).deep_view() == old(sources).deep_view() + visible_partitions(
            generation.deep_view().partitions,
            scan,
        ),
{
    let ghost start = sources.deep_view();
    let ghost all = generation.partitions.deep_view();
    let mut p: usize = 0;
    assert(all.take(0) =~= Seq::empty());
    assert(start + Seq::<VisibleView>::empty() =~= start);
    while p < generation.partitions.len()
        invariant
            p <= generation.partitions.len(),
            start == old(sources).deep_view(),
            all == generation.partitions.deep_view(),
            sources.deep_view() == start + visible_partitions(all.take(p as int), scan),
        decreases generation.partitions.len() - p,
    {
        assert(all.take(p + 1).drop_last() =~= all.take(p as int));
        let partition = &generation.partitions[p];
        assert(all[p as int] == partition.deep_view());
        if hour_selected(partition.hour, scan) {
            let ghost before = sources.deep_view();
            let source = Visible::Memory {
                hour: partition.hour,
                batches: generation::share_batches(&partition.batches),
            };
            let ghost view = source.deep_view();
            sources.push(source);
            assert(sources.deep_view() =~= before.push(view));
            assert(before.push(view) =~= start + visible_partitions(all.take(p + 1), scan));
        }
        p = p + 1;
    }
    assert(all.take(p as int) =~= all);
}

fn push_commit(sources: &mut Vec<Visible>, commit: &Commit, retired: &PathSet, scan: &Scan)
    ensures
        final(sources).deep_view() == old(sources).deep_view() + visible_files(
            commit.deep_view().files,
            retired@,
            scan,
        ),
{
    let ghost start = sources.deep_view();
    let ghost all = commit.files.deep_view();
    let mut f: usize = 0;
    assert(all.take(0) =~= Seq::empty());
    assert(start + Seq::<VisibleView>::empty() =~= start);
    while f < commit.files.len()
        invariant
            f <= commit.files.len(),
            start == old(sources).deep_view(),
            all == commit.files.deep_view(),
            sources.deep_view() == start + visible_files(all.take(f as int), retired@, scan),
        decreases commit.files.len() - f,
    {
        assert(all.take(f + 1).drop_last() =~= all.take(f as int));
        let file = &commit.files[f];
        assert(all[f as int] == file.deep_view());
        if !retired.contains(&file.relative_path) && hour_selected(file.hour, scan) {
            let ghost before = sources.deep_view();
            let source = Visible::File {
                hour: file.hour,
                relative_path: file.relative_path.clone(),
                statistics: copy_statistics(&file.statistics),
            };
            let ghost view = source.deep_view();
            sources.push(source);
            assert(sources.deep_view() =~= before.push(view));
            assert(before.push(view) =~= start + visible_files(all.take(f + 1), retired@, scan));
        }
        f = f + 1;
    }
    assert(all.take(f as int) =~= all);
}

/// Everything that a scan of a snapshot reads: published files, then frozen memory, then active
/// memory.
pub fn visible_sources(snapshot: &StoreSnapshot, scan: &Scan) -> (sources: Vec<Visible>)
    ensures
        sources.deep_view() == visible(snapshot.deep_view(), scan),
{
    let ghost view = snapshot.deep_view();
    let mut sources: Vec<Visible> = Vec::new();
    let mut c: usize = 0;
    assert(view.published.take(0) =~= Seq::empty());
    assert(sources.deep_view() =~= Seq::empty());
    while c < snapshot.published.len()
        invariant
            c <= snapshot.published.len(),
            view == snapshot.deep_view(),
            sources.deep_view() == visible_commits(
                view.published.take(c as int),
                view.retired,
                scan,
            ),
        decreases snapshot.published.len() - c,
    {
        assert(view.published.take(c + 1).drop_last() =~= view.published.take(c as int));
        assert(view.published[c as int] == snapshot.published@[c as int].deep_view());
        push_commit(&mut sources, &snapshot.published[c], &snapshot.retired, scan);
        c = c + 1;
    }
    assert(view.published.take(c as int) =~= view.published);
    let ghost files = sources.deep_view();
    let mut g: usize = 0;
    assert(view.frozen.take(0) =~= Seq::empty());
    assert(files + Seq::<VisibleView>::empty() =~= files);
    while g < snapshot.frozen.len()
        invariant
            g <= snapshot.frozen.len(),
            view == snapshot.deep_view(),
            sources.deep_view() == files + visible_generations(
                view.frozen.take(g as int),
                scan,
            ),
        decreases snapshot.frozen.len() - g,
    {
        assert(view.frozen.take(g + 1).drop_last() =~= view.frozen.take(g as int));
        assert(view.frozen[g as int] == snapshot.frozen@[g as int].deep_view());
        push_generation(&mut sources, &snapshot.frozen[g], scan);
        assert(sources.deep_view() =~= files + visible_generations(
            view.frozen.take(g + 1),
            scan,
        ));
        g = g + 1;
    }
    assert(view.frozen.take(g as int) =~= view.frozen);
    match &snapshot.active {
        Some(active) => {
            proof {
                assert(memory_of(view).drop_last() =~= view.frozen);
            }
            push_generation(&mut sources, active, scan);
            assert(sources.deep_view() =~= files + visible_generations(memory_of(view), scan));
        },
        None => {},
    }
    sources
}

// Sources by hour.

/// The sources after more files and batches entered one hour.
pub open spec fn put_sources(
    hours: Seq<HourSourcesView>,
    hour: u64,
    files: Seq<PublishedFileView>,
    batches: Seq<BatchView>,
) -> Seq<HourSourcesView>
    decreases hours.len(),
{
    if hours.len() == 0 || hours.last().hour < hour {
        hours.push(HourSourcesView { hour, files, batches })
    } else if hours.last().hour == hour {
        hours.drop_last().push(
            HourSourcesView {
                hour,
                files: hours.last().files + files,
                batches: hours.last().batches + batches,
            },
        )
    } else {
        put_sources(hours.drop_last(), hour, files, batches).push(hours.last())
    }
}

/// The batches that have rows.
pub open spec fn with_rows(batches: Seq<BatchView>) -> Seq<BatchView> {
    batches.filter(|batch: BatchView| batch.rows > 0)
}

/// The sources by hour after one more.
pub open spec fn add_source(
    tenant_dir: Seq<char>,
    hours: Seq<HourSourcesView>,
    source: VisibleView,
) -> Seq<HourSourcesView> {
    match source {
        VisibleView::File { hour, relative_path, statistics } => put_sources(
            hours,
            hour,
            seq![
                PublishedFileView {
                    path: layout::join_path(tenant_dir, relative_path),
                    statistics,
                },
            ],
            Seq::empty(),
        ),
        VisibleView::Memory { hour, batches } => if with_rows(batches).len() == 0 {
            hours
        } else {
            put_sources(hours, hour, Seq::empty(), with_rows(batches))
        },
    }
}

/// The sources by hour, in ascending order.
pub open spec fn sources_by_hour(tenant_dir: Seq<char>, sources: Seq<VisibleView>) -> Seq<
    HourSourcesView,
>
    decreases sources.len(),
{
    if sources.len() == 0 {
        Seq::empty()
    } else {
        add_source(tenant_dir, sources_by_hour(tenant_dir, sources.drop_last()), sources.last())
    }
}

/// Every hour stands once, in ascending order.
pub open spec fn source_hours_ascend(hours: Seq<HourSourcesView>) -> bool {
    forall|i: int, j: int|
        0 <= i < j < hours.len() ==> (#[trigger] hours[i]).hour < (#[trigger] hours[j]).hour
}

proof fn lemma_put_sources(
    hours: Seq<HourSourcesView>,
    hour: u64,
    files: Seq<PublishedFileView>,
    batches: Seq<BatchView>,
)
    requires
        source_hours_ascend(hours),
    ensures
        source_hours_ascend(put_sources(hours, hour, files, batches)),
        put_sources(hours, hour, files, batches).len() > 0,
        hours.len() > 0 ==> put_sources(hours, hour, files, batches).last().hour == if hour
            > hours.last().hour {
            hour
        } else {
            hours.last().hour
        },
        hours.len() == 0 ==> put_sources(hours, hour, files, batches).last().hour == hour,
    decreases hours.len(),
{
    let result = put_sources(hours, hour, files, batches);
    if hours.len() > 0 && hours.last().hour > hour {
        let front = hours.drop_last();
        let last = hours[hours.len() - 1];
        lemma_put_sources(front, hour, files, batches);
        let inner = put_sources(front, hour, files, batches);
        if front.len() > 0 {
            assert(front.last() == hours[hours.len() - 2]);
            assert(hours[hours.len() - 2].hour < hours[hours.len() - 1].hour);
        }
        assert(inner.last() == inner[inner.len() - 1]);
        assert forall|i: int, j: int| 0 <= i < j < result.len() implies (
        #[trigger] result[i]).hour < (#[trigger] result[j]).hour by {
            if j == inner.len() && i < inner.len() - 1 {
                assert(inner[i].hour < inner[inner.len() - 1].hour);
            }
        }
    }
}

proof fn lemma_put_sources_at(
    hours: Seq<HourSourcesView>,
    hour: u64,
    files: Seq<PublishedFileView>,
    batches: Seq<BatchView>,
    at: int,
)
    requires
        source_hours_ascend(hours),
        0 <= at <= hours.len(),
        at > 0 ==> hours[at - 1].hour <= hour,
        forall|i: int| at <= i < hours.len() ==> (#[trigger] hours[i]).hour > hour,
    ensures
        at > 0 && hours[at - 1].hour == hour ==> put_sources(hours, hour, files, batches)
            == hours.update(
            at - 1,
            HourSourcesView {
                hour,
                files: hours[at - 1].files + files,
                batches: hours[at - 1].batches + batches,
            },
        ),
        !(at > 0 && hours[at - 1].hour == hour) ==> put_sources(hours, hour, files, batches)
            == hours.insert(at, HourSourcesView { hour, files, batches }),
    decreases hours.len(),
{
    let fresh = HourSourcesView { hour, files, batches };
    if at == hours.len() {
        if at > 0 && hours[at - 1].hour == hour {
            let changed = HourSourcesView {
                hour,
                files: hours[at - 1].files + files,
                batches: hours[at - 1].batches + batches,
            };
            assert(hours.update(at - 1, changed) =~= hours.drop_last().push(changed));
        } else {
            assert(hours.insert(at, fresh) =~= hours.push(fresh));
        }
    } else {
        let front = hours.drop_last();
        assert(hours[hours.len() - 1].hour > hour);
        assert forall|i: int| at <= i < front.len() implies (#[trigger] front[i]).hour > hour by {
            assert(front[i] == hours[i]);
        }
        lemma_put_sources_at(front, hour, files, batches, at);
        if at > 0 && hours[at - 1].hour == hour {
            let changed = HourSourcesView {
                hour,
                files: hours[at - 1].files + files,
                batches: hours[at - 1].batches + batches,
            };
            assert(hours.update(at - 1, changed) =~= front.update(at - 1, changed).push(
                hours.last(),
            ));
        } else {
            assert(hours.insert(at, fresh) =~= front.insert(at, fresh).push(hours.last()));
        }
    }
}

fn place_sources(
    hours: &mut Vec<HourSources>,
    hour: EventHour,
    files: Vec<PublishedFile>,
    batches: Vec<Arc<RecordBatch>>,
)
    requires
        source_hours_ascend(old(hours).deep_view()),
    ensures
        final(hours).deep_view() == put_sources(
            old(hours).deep_view(),
            hour@,
            files.deep_view(),
            batches.deep_view(),
        ),
        source_hours_ascend(final(hours).deep_view()),
{
    let ghost all = hours.deep_view();
    let ghost more_files = files.deep_view();
    let ghost more_batches = batches.deep_view();
    let mut at: usize = hours.len();
    while at > 0
        invariant
            at <= hours.len(),
            all == hours.deep_view(),
            source_hours_ascend(all),
            forall|i: int| at <= i < all.len() ==> (#[trigger] all[i]).hour > hour@,
        ensures
            at <= hours.len(),
            at > 0 ==> all[at - 1].hour <= hour@,
            forall|i: int| at <= i < all.len() ==> (#[trigger] all[i]).hour > hour@,
        decreases at,
    {
        assert(all[at - 1] == hours@[at - 1].deep_view());
        if hours[at - 1].hour.start_unix_nano() <= hour.start_unix_nano() {
            break;
        }
        at = at - 1;
    }
    proof {
        lemma_put_sources(all, hour@, more_files, more_batches);
        lemma_put_sources_at(all, hour@, more_files, more_batches, at as int);
    }
    if at > 0 && hours[at - 1].hour.same(hour) {
        assert(all[at - 1] == hours@[at - 1].deep_view());
        let mut known = hours.remove(at - 1);
        let mut files = files;
        let mut batches = batches;
        let ghost known_files = known.files.deep_view();
        let ghost known_batches = known.batches.deep_view();
        known.files.append(&mut files);
        known.batches.append(&mut batches);
        assert(known.files.deep_view() =~= known_files + more_files);
        assert(known.batches.deep_view() =~= known_batches + more_batches);
        hours.insert(at - 1, known);
        assert(hours.deep_view() =~= all.update(
            at - 1,
            HourSourcesView {
                hour: hour@,
                files: all[at - 1].files + more_files,
                batches: all[at - 1].batches + more_batches,
            },
        ));
    } else {
        if at > 0 {
            assert(all[at - 1] == hours@[at - 1].deep_view());
        }
        hours.insert(at, HourSources { hour, files, batches });
        assert(hours.deep_view() =~= all.insert(
            at as int,
            HourSourcesView { hour: hour@, files: more_files, batches: more_batches },
        ));
    }
}

pub(crate) fn keep_rows(batches: &Vec<Arc<RecordBatch>>) -> (kept: Vec<Arc<RecordBatch>>)
    ensures
        kept.deep_view() == with_rows(batches.deep_view()),
{
    let ghost all = batches.deep_view();
    let ghost keep = |batch: BatchView| batch.rows > 0;
    let mut kept: Vec<Arc<RecordBatch>> = Vec::new();
    let mut i: usize = 0;
    assert(kept.deep_view() =~= all.take(0).filter(keep)) by {
        assert(all.take(0) =~= Seq::empty());
        reveal(Seq::filter);
    }
    while i < batches.len()
        invariant
            i <= batches.len(),
            all == batches.deep_view(),
            keep == (|batch: BatchView| batch.rows > 0),
            kept.deep_view() == all.take(i as int).filter(keep),
        decreases batches.len() - i,
    {
        let ghost before = kept.deep_view();
        proof {
            assert(all.take(i + 1).drop_last() =~= all.take(i as int));
            assert(all[i as int] == batches@[i as int].deep_view());
            reveal(Seq::filter);
        }
        if batches[i].num_rows() > 0 {
            kept.push(share(&batches[i]));
            assert(kept.deep_view() =~= before.push(all[i as int]));
        }
        i = i + 1;
    }
    assert(all.take(i as int) =~= all);
    kept
}

/// Hour-grouped memory batches and commit-referenced Parquet paths in `snapshot`.
///
/// Hours outside `scan` are omitted. Paths are absolute and come only from published commits.
#[must_use]
pub fn hour_sources(root: &str, tenant: &str, snapshot: &StoreSnapshot, scan: &Scan) -> (hours: Vec<
    HourSources,
>)
    ensures
        hours.deep_view() == sources_by_hour(
            layout::tenant_dir(root@, tenant@),
            visible(snapshot.deep_view(), scan),
        ),
        source_hours_ascend(hours.deep_view()),
{
    let tenant_dir = tenant_directory(root, tenant);
    let sources = visible_sources(snapshot, scan);
    let ghost all = sources.deep_view();
    let mut hours: Vec<HourSources> = Vec::new();
    let mut i: usize = 0;
    assert(all.take(0) =~= Seq::empty());
    assert(hours.deep_view() =~= Seq::empty());
    while i < sources.len()
        invariant
            i <= sources.len(),
            all == sources.deep_view(),
            source_hours_ascend(hours.deep_view()),
            hours.deep_view() == sources_by_hour(tenant_dir@, all.take(i as int)),
        decreases sources.len() - i,
    {
        assert(all.take(i + 1).drop_last() =~= all.take(i as int));
        assert(all[i as int] == sources@[i as int].deep_view());
        match &sources[i] {
            Visible::File { hour, relative_path, statistics } => {
                let mut files: Vec<PublishedFile> = Vec::new();
                let file = PublishedFile {
                    path: join(&tenant_dir, relative_path),
                    statistics: copy_statistics(statistics),
                };
                let ghost view = file.deep_view();
                files.push(file);
                assert(files.deep_view() =~= seq![view]);
                let batches: Vec<Arc<RecordBatch>> = Vec::new();
                assert(batches.deep_view() =~= Seq::empty());
                place_sources(&mut hours, *hour, files, batches);
            },
            Visible::Memory { hour, batches } => {
                let kept = keep_rows(batches);
                if kept.len() > 0 {
                    let files: Vec<PublishedFile> = Vec::new();
                    assert(files.deep_view() =~= Seq::empty());
                    place_sources(&mut hours, *hour, files, kept);
                }
            },
        }
        i = i + 1;
    }
    assert(all.take(i as int) =~= all);
    hours
}

// Schemas.

/// Dynamic columns seen so far, by name, after one more field, or why it conflicts.
pub open spec fn merge_field(
    dynamic: Seq<(Seq<char>, FieldView)>,
    field: FieldView,
) -> Result<Seq<(Seq<char>, FieldView)>, Seq<char>> {
    let core = schema::core_fields();
    let at = schema::field_index(core, field.name);
    let conflict = "column "@ + field.name + " has conflicting types"@;
    if at < core.len() {
        if core[at].data_type != field.data_type {
            Err(conflict)
        } else {
            Ok(dynamic)
        }
    } else {
        match sorted::lookup(dynamic, field.name) {
            Some(existing) => if existing.data_type != field.data_type {
                Err(conflict)
            } else {
                Ok(dynamic)
            },
            None => Ok(sorted::put(dynamic, field.name, field)),
        }
    }
}

pub open spec fn merge_fields(
    dynamic: Seq<(Seq<char>, FieldView)>,
    fields: Seq<FieldView>,
) -> Result<Seq<(Seq<char>, FieldView)>, Seq<char>>
    decreases fields.len(),
{
    if fields.len() == 0 {
        Ok(dynamic)
    } else {
        match merge_fields(dynamic, fields.drop_last()) {
            Err(detail) => Err(detail),
            Ok(before) => merge_field(before, fields.last()),
        }
    }
}

pub open spec fn merge_schemas(schemas: Seq<SchemaView>) -> Result<
    Seq<(Seq<char>, FieldView)>,
    Seq<char>,
>
    decreases schemas.len(),
{
    if schemas.len() == 0 {
        Ok(Seq::empty())
    } else {
        match merge_schemas(schemas.drop_last()) {
            Err(detail) => Err(detail),
            Ok(before) => merge_fields(before, schemas.last().fields),
        }
    }
}

/// Core columns, then every dynamic column by physical name, or why two schemas conflict.
pub open spec fn union_of(schemas: Seq<SchemaView>) -> Result<SchemaView, Seq<char>> {
    match merge_schemas(schemas) {
        Err(detail) => Err(detail),
        Ok(dynamic) => Ok(
            schema::plain_schema(
                schema::core_fields() + dynamic.map_values(
                    |entry: (Seq<char>, FieldView)| entry.1,
                ),
            ),
        ),
    }
}

proof fn lemma_merge_fields_fail(
    dynamic: Seq<(Seq<char>, FieldView)>,
    fields: Seq<FieldView>,
    count: int,
)
    requires
        0 <= count <= fields.len(),
        merge_fields(dynamic, fields.take(count)) is Err,
    ensures
        merge_fields(dynamic, fields) == merge_fields(dynamic, fields.take(count)),
    decreases fields.len() - count,
{
    if count < fields.len() {
        assert(fields.take(count + 1).drop_last() =~= fields.take(count));
        lemma_merge_fields_fail(dynamic, fields, count + 1);
    } else {
        assert(fields.take(count) =~= fields);
    }
}

proof fn lemma_merge_schemas_fail(schemas: Seq<SchemaView>, count: int)
    requires
        0 <= count <= schemas.len(),
        merge_schemas(schemas.take(count)) is Err,
    ensures
        merge_schemas(schemas) == merge_schemas(schemas.take(count)),
    decreases schemas.len() - count,
{
    if count < schemas.len() {
        assert(schemas.take(count + 1).drop_last() =~= schemas.take(count));
        lemma_merge_schemas_fail(schemas, count + 1);
    } else {
        assert(schemas.take(count) =~= schemas);
    }
}

fn conflict_detail(name: &str) -> (detail: String)
    ensures
        detail@ == "column "@ + name@ + " has conflicting types"@,
{
    let mut detail = "column ".to_owned();
    detail.append(name);
    detail.append(" has conflicting types");
    detail
}

fn merge_into(dynamic: &mut TextMap<Field>, core: &Schema, fields: &Vec<Field>) -> (result: Result<
    (),
    String,
>)
    requires
        core.deep_view().fields == schema::core_fields(),
    ensures
        match result {
            Ok(_) => merge_fields(old(dynamic)@, fields.deep_view()) == Ok::<
                Seq<(Seq<char>, FieldView)>,
                Seq<char>,
            >(final(dynamic)@),
            Err(detail) => merge_fields(old(dynamic)@, fields.deep_view()) == Err::<
                Seq<(Seq<char>, FieldView)>,
                Seq<char>,
            >(detail@),
        },
{
    let ghost start = dynamic@;
    let ghost all = fields.deep_view();
    let mut i: usize = 0;
    assert(all.take(0) =~= Seq::empty());
    while i < fields.len()
        invariant
            i <= fields.len(),
            start == old(dynamic)@,
            all == fields.deep_view(),
            core.deep_view().fields == schema::core_fields(),
            merge_fields(start, all.take(i as int)) == Ok::<
                Seq<(Seq<char>, FieldView)>,
                Seq<char>,
            >(dynamic@),
        decreases fields.len() - i,
    {
        assert(all.take(i + 1).drop_last() =~= all.take(i as int));
        let field = &fields[i];
        assert(all[i as int] == field.deep_view());
        proof {
            schema::lemma_field_index(schema::core_fields(), field.name@);
        }
        let conflicting = match core.index_of(&field.name) {
            Some(at) => {
                assert(schema::core_fields()[at as int] == core.fields@[at as int].deep_view());
                !core.fields[at].data_type.same(&field.data_type)
            },
            None => match dynamic.get(&field.name) {
                Some(existing) => !existing.data_type.same(&field.data_type),
                None => {
                    dynamic.insert(field.name.clone(), field.clone());
                    false
                },
            },
        };
        if conflicting {
            proof {
                lemma_merge_fields_fail(start, all, i + 1);
            }
            return Err(conflict_detail(&field.name));
        }
        i = i + 1;
    }
    assert(all.take(i as int) =~= all);
    Ok(())
}

/// Core columns, then every dynamic column by physical name.
///
/// # Errors
///
/// Returns [`StoreError::Incompatible`] when two schemas give one physical name different types.
pub fn union_schema(schemas: &Vec<&Schema>) -> (result: Result<Schema, StoreError>)
    ensures
        match result {
            Ok(union) => union_of(schemas.deep_view()) == Ok::<SchemaView, Seq<char>>(
                union.deep_view(),
            ),
            Err(StoreError::Incompatible(detail)) => union_of(schemas.deep_view()) == Err::<
                SchemaView,
                Seq<char>,
            >(detail@),
            Err(_) => false,
        },
{
    let core = Schema { fields: schema_fields(), metadata: TextMap::new() };
    let ghost all = schemas.deep_view();
    let mut dynamic: TextMap<Field> = TextMap::new();
    let mut i: usize = 0;
    assert(all.take(0) =~= Seq::empty());
    while i < schemas.len()
        invariant
            i <= schemas.len(),
            all == schemas.deep_view(),
            core.deep_view().fields == schema::core_fields(),
            merge_schemas(all.take(i as int)) == Ok::<
                Seq<(Seq<char>, FieldView)>,
                Seq<char>,
            >(dynamic@),
        decreases schemas.len() - i,
    {
        assert(all.take(i + 1).drop_last() =~= all.take(i as int));
        assert(all[i as int] == schemas@[i as int].deep_view());
        match merge_into(&mut dynamic, &core, &schemas[i].fields) {
            Ok(()) => {},
            Err(detail) => {
                proof {
                    lemma_merge_schemas_fail(all, i + 1);
                }
                return Err(StoreError::Incompatible(detail));
            },
        }
        i = i + 1;
    }
    assert(all.take(i as int) =~= all);
    let mut fields = schema_fields();
    let ghost base = fields.deep_view();
    let ghost values = dynamic@.map_values(|entry: (Seq<char>, FieldView)| entry.1);
    let mut k: usize = 0;
    assert(fields.deep_view() =~= base + values.take(0));
    while k < dynamic.len()
        invariant
            k <= dynamic@.len(),
            values == dynamic@.map_values(|entry: (Seq<char>, FieldView)| entry.1),
            fields.deep_view() =~= base + values.take(k as int),
        decreases dynamic@.len() - k,
    {
        let ghost before = fields.deep_view();
        fields.push(dynamic.value_at(k).clone());
        assert(fields.deep_view() =~= before.push(values[k as int]));
        k = k + 1;
    }
    assert(values.take(k as int) =~= values);
    Ok(Schema { fields, metadata: TextMap::new() })
}

/// The schemas of everything that a snapshot shows.
pub open spec fn schemas_of(snapshot: StoreSnapshotView) -> Seq<SchemaView> {
    snapshot.published.map_values(|commit: CommitView| commit.schema) + memory_of(
        snapshot,
    ).map_values(|generation: GenerationView| generation.schema)
}

impl StoreSnapshot {
    /// Union of every visible generation: core columns, then dynamic columns by physical name.
    ///
    /// Hour bounds do not remove a generation from this schema. A column that one generation lacks
    /// stays in the union so a scan can fill it with typed nulls.
    ///
    /// # Errors
    ///
    /// Returns [`StoreError::Incompatible`] when two generations give one physical name different
    /// types.
    pub fn schema(&self) -> (result: Result<Schema, StoreError>)
        ensures
            match result {
                Ok(union) => union_of(schemas_of(self.deep_view())) == Ok::<
                    SchemaView,
                    Seq<char>,
                >(union.deep_view()),
                Err(StoreError::Incompatible(detail)) => union_of(schemas_of(self.deep_view()))
                    == Err::<SchemaView, Seq<char>>(detail@),
                Err(_) => false,
            },
    {
        let ghost view = self.deep_view();
        let ghost target = schemas_of(view);
        let mut schemas: Vec<&Schema> = Vec::new();
        let mut i: usize = 0;
        while i < self.published.len()
            invariant
                i <= self.published.len(),
                view == self.deep_view(),
                target == schemas_of(view),
                schemas.deep_view() =~= target.take(i as int),
            decreases self.published.len() - i,
        {
            let ghost before = schemas.deep_view();
            assert(view.published[i as int] == self.published@[i as int].deep_view());
            schemas.push(&self.published[i].schema);
            assert(schemas.deep_view() =~= before.push(target[i as int]));
            i = i + 1;
        }
        let ghost count = view.published.len();
        let mut g: usize = 0;
        while g < self.frozen.len()
            invariant
                g <= self.frozen.len(),
                view == self.deep_view(),
                target == schemas_of(view),
                count == view.published.len(),
                schemas.deep_view() =~= target.take(count + g),
            decreases self.frozen.len() - g,
        {
            let ghost before = schemas.deep_view();
            assert(view.frozen[g as int] == self.frozen@[g as int].deep_view());
            assert(memory_of(view)[g as int] == view.frozen[g as int]);
            schemas.push(&self.frozen[g].schema);
            assert(schemas.deep_view() =~= before.push(target[count + g]));
            g = g + 1;
        }
        match &self.active {
            Some(active) => {
                let ghost before = schemas.deep_view();
                schemas.push(&active.schema);
                assert(memory_of(view).last() == active.deep_view());
                assert(schemas.deep_view() =~= before.push(target[target.len() - 1]));
            },
            None => {},
        }
        assert(schemas.deep_view() =~= target);
        union_schema(&schemas)
    }
}

/// The named columns of a schema, or the first name that it lacks.
pub open spec fn projection_of(fields: Seq<FieldView>, columns: Seq<Seq<char>>) -> Result<
    Seq<FieldView>,
    Seq<char>,
>
    decreases columns.len(),
{
    if columns.len() == 0 {
        Ok(Seq::empty())
    } else {
        match projection_of(fields, columns.drop_last()) {
            Err(name) => Err(name),
            Ok(before) => {
                let at = schema::field_index(fields, columns.last());
                if at < fields.len() {
                    Ok(before.push(fields[at]))
                } else {
                    Err(columns.last())
                }
            },
        }
    }
}

proof fn lemma_projection_fail(fields: Seq<FieldView>, columns: Seq<Seq<char>>, count: int)
    requires
        0 <= count <= columns.len(),
        projection_of(fields, columns.take(count)) is Err,
    ensures
        projection_of(fields, columns) == projection_of(fields, columns.take(count)),
    decreases columns.len() - count,
{
    if count < columns.len() {
        assert(columns.take(count + 1).drop_last() =~= columns.take(count));
        lemma_projection_fail(fields, columns, count + 1);
    } else {
        assert(columns.take(count) =~= columns);
    }
}

/// The named columns of `union`, or all of it.
///
/// # Errors
///
/// Returns [`StoreError::MissingColumn`] for a name that is not in `union`.
pub fn projected_schema(union: &Schema, columns: &Option<Vec<String>>) -> (result: Result<
    Schema,
    StoreError,
>)
    ensures
        match columns {
            None => result is Ok && result->Ok_0.deep_view() == union.deep_view(),
            Some(columns) => match projection_of(union.deep_view().fields, columns.deep_view()) {
                Ok(fields) => result is Ok && result->Ok_0.deep_view() == schema::plain_schema(
                    fields,
                ),
                Err(name) => result is Err && result->Err_0 is MissingColumn
                    && result->Err_0->MissingColumn_0@ == name,
            },
        },
{
    let names = match columns {
        Some(columns) => columns,
        None => {
            return Ok(union.clone());
        },
    };
    let ghost known = union.deep_view().fields;
    let ghost all = names.deep_view();
    let mut fields: Vec<Field> = Vec::new();
    let mut i: usize = 0;
    assert(all.take(0) =~= Seq::empty());
    assert(fields.deep_view() =~= Seq::empty());
    while i < names.len()
        invariant
            i <= names.len(),
            *columns == Some(*names),
            known == union.deep_view().fields,
            all == names.deep_view(),
            projection_of(known, all.take(i as int)) == Ok::<Seq<FieldView>, Seq<char>>(
                fields.deep_view(),
            ),
        decreases names.len() - i,
    {
        assert(all.take(i + 1).drop_last() =~= all.take(i as int));
        assert(all[i as int] == names@[i as int]@);
        proof {
            schema::lemma_field_index(known, all[i as int]);
        }
        match union.index_of(&names[i]) {
            Some(at) => {
                let ghost before = fields.deep_view();
                assert(known[at as int] == union.fields@[at as int].deep_view());
                fields.push(union.fields[at].clone());
                assert(fields.deep_view() =~= before.push(known[at as int]));
            },
            None => {
                proof {
                    lemma_projection_fail(known, all, i + 1);
                }
                return Err(StoreError::MissingColumn(names[i].clone()));
            },
        }
        i = i + 1;
    }
    assert(all.take(i as int) =~= all);
    Ok(Schema { fields, metadata: TextMap::new() })
}

/// The columns of a schema at these positions, or the first position outside it.
pub open spec fn selection_of(fields: Seq<FieldView>, indices: Seq<usize>) -> Result<
    Seq<FieldView>,
    usize,
>
    decreases indices.len(),
{
    if indices.len() == 0 {
        Ok(Seq::empty())
    } else {
        match selection_of(fields, indices.drop_last()) {
            Err(index) => Err(index),
            Ok(before) => if indices.last() < fields.len() {
                Ok(before.push(fields[indices.last() as int]))
            } else {
                Err(indices.last())
            },
        }
    }
}

proof fn lemma_selection_fail(fields: Seq<FieldView>, indices: Seq<usize>, count: int)
    requires
        0 <= count <= indices.len(),
        selection_of(fields, indices.take(count)) is Err,
    ensures
        selection_of(fields, indices) == selection_of(fields, indices.take(count)),
    decreases indices.len() - count,
{
    if count < indices.len() {
        assert(indices.take(count + 1).drop_last() =~= indices.take(count));
        lemma_selection_fail(fields, indices, count + 1);
    } else {
        assert(indices.take(count) =~= indices);
    }
}

fn select_fields(schema: &Schema, indices: &Vec<usize>) -> (result: Result<Vec<Field>, usize>)
    ensures
        match result {
            Ok(fields) => selection_of(schema.deep_view().fields, indices@) == Ok::<
                Seq<FieldView>,
                usize,
            >(fields.deep_view()),
            Err(index) => selection_of(schema.deep_view().fields, indices@) == Err::<
                Seq<FieldView>,
                usize,
            >(index),
        },
{
    let ghost known = schema.deep_view().fields;
    let mut fields: Vec<Field> = Vec::new();
    let mut i: usize = 0;
    assert(indices@.take(0) =~= Seq::empty());
    assert(fields.deep_view() =~= Seq::empty());
    while i < indices.len()
        invariant
            i <= indices.len(),
            known == schema.deep_view().fields,
            selection_of(known, indices@.take(i as int)) == Ok::<Seq<FieldView>, usize>(
                fields.deep_view(),
            ),
        decreases indices.len() - i,
    {
        assert(indices@.take(i + 1).drop_last() =~= indices@.take(i as int));
        let index = indices[i];
        if index >= schema.fields.len() {
            proof {
                lemma_selection_fail(known, indices@, i + 1);
            }
            return Err(index);
        }
        let ghost before = fields.deep_view();
        assert(known[index as int] == schema.fields@[index as int].deep_view());
        fields.push(schema.fields[index].clone());
        assert(fields.deep_view() =~= before.push(known[index as int]));
        i = i + 1;
    }
    assert(indices@.take(i as int) =~= indices@);
    Ok(fields)
}

/// Why a batch cannot be aligned to a projection.
#[verifier::ext_equal]
pub enum ProjectionFault {
    Incompatible(Seq<char>),
    Memtable(MemtableErrorView),
}

/// `batch` under `schema`, which may have no columns.
pub open spec fn aligned_to(batch: BatchView, schema: SchemaView) -> Result<
    BatchView,
    ProjectionFault,
> {
    if schema.fields.len() == 0 {
        Ok(BatchView { schema, columns: Seq::empty(), rows: batch.rows })
    } else {
        match align::aligned(batch, schema) {
            Ok(result) => Ok(result),
            Err(detail) => if align::type_fault_first(batch, schema.fields) {
                Err(ProjectionFault::Incompatible(detail))
            } else {
                Err(ProjectionFault::Memtable(MemtableErrorView::IncompatibleBatch(detail)))
            },
        }
    }
}

/// `batch` under a projection of `schema`.
pub open spec fn projected_batch(
    batch: BatchView,
    schema: SchemaView,
    projection: Option<Seq<usize>>,
) -> Result<BatchView, ProjectionFault> {
    match projection {
        None => aligned_to(batch, schema),
        Some(indices) => match selection_of(schema.fields, indices) {
            Ok(fields) => aligned_to(batch, SchemaView { fields, metadata: schema.metadata }),
            Err(index) => Err(
                ProjectionFault::Incompatible(
                    "Schema error: project index "@ + text::decimal_text(index as nat)
                        + " out of bounds, max field "@ + text::decimal_text(schema.fields.len()),
                ),
            ),
        },
    }
}

/// Whether an error reports this fault.
pub open spec fn reports_projection(error: StoreError, fault: ProjectionFault) -> bool {
    match fault {
        ProjectionFault::Incompatible(detail) => error is Incompatible && error->Incompatible_0@
            == detail,
        ProjectionFault::Memtable(fault) => error is Memtable && error->Memtable_0.deep_view()
            == fault,
    }
}

/// Align `batch` to `projection` of `schema`.
///
/// Columns that already exist are kept. Typed nulls stand only for a projected column the batch
/// does not contain. `None` aligns to every column of `schema`.
///
/// # Errors
///
/// Returns [`StoreError::Incompatible`] when a projected index is outside `schema` or a present
/// column has a different type, and [`StoreError::Memtable`] when a required column is missing or
/// has nulls.
pub fn align_projected(batch: &RecordBatch, schema: &Schema, projection: Option<&Vec<usize>>) -> (
    result: Result<RecordBatch, StoreError>)
    ensures
        match projected_batch(
            batch.deep_view(),
            schema.deep_view(),
            match projection {
                Some(indices) => Some(indices@),
                None => None,
            },
        ) {
            Ok(expected) => result is Ok && result->Ok_0.deep_view() == expected,
            Err(fault) => result is Err && reports_projection(result->Err_0, fault),
        },
{
    let target = match projection {
        Some(indices) => match select_fields(schema, indices) {
            Ok(fields) => Schema { fields, metadata: schema.metadata.clone() },
            Err(index) => {
                let mut detail = "Schema error: project index ".to_owned();
                push_decimal(&mut detail, index as u64);
                detail.append(" out of bounds, max field ");
                push_decimal(&mut detail, schema.fields.len() as u64);
                return Err(StoreError::Incompatible(detail));
            },
        },
        None => schema.clone(),
    };
    if target.fields.len() == 0 {
        let columns: Vec<Column> = Vec::new();
        assert(columns.deep_view() =~= Seq::empty());
        return match RecordBatch::try_new_with_rows(target, columns, batch.num_rows()) {
            Ok(batch) => Ok(batch),
            Err(fault) => Err(StoreError::Incompatible(fault.detail())),
        };
    }
    match align_batch(batch, &target) {
        Ok(batch) => Ok(batch),
        Err(error) => {
            if finds_type_fault_first(batch, &target) {
                match error {
                    MemtableError::IncompatibleBatch(detail) => {
                        return Err(StoreError::Incompatible(detail));
                    },
                    _ => {},
                }
            }
            Err(StoreError::Memtable(error))
        },
    }
}

/// The batches that have rows, under `schema`, or why one does not fit.
pub open spec fn aligned_rows(batches: Seq<BatchView>, schema: SchemaView) -> Result<
    Seq<BatchView>,
    Seq<char>,
>
    decreases batches.len(),
{
    if batches.len() == 0 {
        Ok(Seq::empty())
    } else {
        match aligned_rows(batches.drop_last(), schema) {
            Err(detail) => Err(detail),
            Ok(before) => if batches.last().rows == 0 {
                Ok(before)
            } else {
                match align::aligned(batches.last(), schema) {
                    Err(detail) => Err(detail),
                    Ok(batch) => Ok(before.push(batch)),
                }
            },
        }
    }
}

proof fn lemma_aligned_rows_fail(batches: Seq<BatchView>, schema: SchemaView, count: int)
    requires
        0 <= count <= batches.len(),
        aligned_rows(batches.take(count), schema) is Err,
    ensures
        aligned_rows(batches, schema) == aligned_rows(batches.take(count), schema),
    decreases batches.len() - count,
{
    if count < batches.len() {
        assert(batches.take(count + 1).drop_last() =~= batches.take(count));
        lemma_aligned_rows_fail(batches, schema, count + 1);
    } else {
        assert(batches.take(count) =~= batches);
    }
}

/// The batches of one source that have rows, under the schema of the scan.
///
/// # Errors
///
/// Returns [`StoreError::Memtable`] when a batch does not fit the schema.
pub fn align_source(batches: &Vec<Arc<RecordBatch>>, schema: &Schema) -> (result: Result<
    Vec<RecordBatch>,
    StoreError,
>)
    ensures
        match aligned_rows(batches.deep_view(), schema.deep_view()) {
            Ok(expected) => result is Ok && result->Ok_0.deep_view() == expected,
            Err(detail) => result is Err && result->Err_0 is Memtable
                && result->Err_0->Memtable_0.deep_view() == MemtableErrorView::IncompatibleBatch(
                detail,
            ),
        },
{
    let ghost all = batches.deep_view();
    let ghost target = schema.deep_view();
    let mut rows: Vec<RecordBatch> = Vec::new();
    let mut i: usize = 0;
    assert(all.take(0) =~= Seq::empty());
    assert(rows.deep_view() =~= Seq::empty());
    while i < batches.len()
        invariant
            i <= batches.len(),
            all == batches.deep_view(),
            target == schema.deep_view(),
            aligned_rows(all.take(i as int), target) == Ok::<Seq<BatchView>, Seq<char>>(
                rows.deep_view(),
            ),
        decreases batches.len() - i,
    {
        assert(all.take(i + 1).drop_last() =~= all.take(i as int));
        assert(all[i as int] == batches@[i as int].deep_view());
        if batches[i].num_rows() > 0 {
            match align_batch(&batches[i], schema) {
                Ok(batch) => {
                    let ghost before = rows.deep_view();
                    let ghost view = batch.deep_view();
                    rows.push(batch);
                    assert(rows.deep_view() =~= before.push(view));
                },
                Err(error) => {
                    proof {
                        lemma_aligned_rows_fail(all, target, i + 1);
                    }
                    return Err(StoreError::Memtable(error));
                },
            }
        }
        i = i + 1;
    }
    assert(all.take(i as int) =~= all);
    Ok(rows)
}

// What sources show.

/// Whether one of the hours names this file.
pub open spec fn names_file(hours: Seq<HourSourcesView>, path: Seq<char>) -> bool {
    exists|h: int, f: int|
        0 <= h < hours.len() && 0 <= f < hours[h].files.len() && (
        #[trigger] hours[h].files[f]).path == path
}

/// Whether one of the files has this path.
pub open spec fn has_path(files: Seq<PublishedFileView>, path: Seq<char>) -> bool {
    exists|f: int| 0 <= f < files.len() && (#[trigger] files[f]).path == path
}

proof fn lemma_names_file_push(
    hours: Seq<HourSourcesView>,
    hour: HourSourcesView,
    path: Seq<char>,
)
    ensures
        names_file(hours.push(hour), path) <==> names_file(hours, path) || has_path(
            hour.files,
            path,
        ),
{
    let all = hours.push(hour);
    if names_file(hours, path) {
        let (h, f) = choose|h: int, f: int|
            0 <= h < hours.len() && 0 <= f < hours[h].files.len() && (
            #[trigger] hours[h].files[f]).path == path;
        assert(all[h].files[f].path == path);
    }
    if has_path(hour.files, path) {
        let f = choose|f: int| 0 <= f < hour.files.len() && (#[trigger] hour.files[f]).path == path;
        assert(all[hours.len() as int].files[f].path == path);
    }
    if names_file(all, path) {
        let (h, f) = choose|h: int, f: int|
            0 <= h < all.len() && 0 <= f < all[h].files.len() && (#[trigger] all[h].files[f]).path
                == path;
        if h < hours.len() {
            assert(hours[h].files[f].path == path);
        } else {
            assert(hour.files[f].path == path);
        }
    }
}

proof fn lemma_has_path_add(
    left: Seq<PublishedFileView>,
    right: Seq<PublishedFileView>,
    path: Seq<char>,
)
    ensures
        has_path(left + right, path) <==> has_path(left, path) || has_path(right, path),
{
    let both = left + right;
    if has_path(left, path) {
        let f = choose|f: int| 0 <= f < left.len() && (#[trigger] left[f]).path == path;
        assert(both[f].path == path);
    }
    if has_path(right, path) {
        let f = choose|f: int| 0 <= f < right.len() && (#[trigger] right[f]).path == path;
        assert(both[left.len() + f].path == path);
    }
    if has_path(both, path) {
        let f = choose|f: int| 0 <= f < both.len() && (#[trigger] both[f]).path == path;
        if f < left.len() {
            assert(left[f].path == path);
        } else {
            assert(right[f - left.len()].path == path);
        }
    }
}

/// Rows of the batches of all hours.
pub open spec fn source_rows(hours: Seq<HourSourcesView>) -> nat
    decreases hours.len(),
{
    if hours.len() == 0 {
        0
    } else {
        source_rows(hours.drop_last()) + generation::batch_rows(hours.last().batches)
    }
}

pub proof fn lemma_batch_rows_add(left: Seq<BatchView>, right: Seq<BatchView>)
    ensures
        generation::batch_rows(left + right) == generation::batch_rows(left)
            + generation::batch_rows(right),
    decreases right.len(),
{
    if right.len() == 0 {
        assert(left + right =~= left);
    } else {
        assert((left + right).drop_last() =~= left + right.drop_last());
        lemma_batch_rows_add(left, right.drop_last());
    }
}

/// Leaving out empty batches leaves out no row.
proof fn lemma_with_rows(batches: Seq<BatchView>)
    ensures
        generation::batch_rows(with_rows(batches)) == generation::batch_rows(batches),
        with_rows(batches).len() == 0 ==> generation::batch_rows(batches) == 0,
    decreases batches.len(),
{
    reveal(Seq::filter);
    if batches.len() > 0 {
        lemma_with_rows(batches.drop_last());
        let kept = with_rows(batches.drop_last());
        if batches.last().rows > 0 {
            assert(with_rows(batches) =~= kept.push(batches.last()));
            assert(kept.push(batches.last()).drop_last() =~= kept);
        } else {
            assert(with_rows(batches) =~= kept);
        }
    }
}

/// More files and batches in one hour are all that changes.
proof fn lemma_put_sources_keeps(
    hours: Seq<HourSourcesView>,
    hour: u64,
    files: Seq<PublishedFileView>,
    batches: Seq<BatchView>,
    path: Seq<char>,
)
    ensures
        names_file(put_sources(hours, hour, files, batches), path) <==> names_file(hours, path)
            || has_path(files, path),
        source_rows(put_sources(hours, hour, files, batches)) == source_rows(hours)
            + generation::batch_rows(batches),
    decreases hours.len(),
{
    let added = HourSourcesView { hour, files, batches };
    if hours.len() == 0 || hours.last().hour < hour {
        lemma_names_file_push(hours, added, path);
        assert(hours.push(added).drop_last() =~= hours);
    } else {
        let front = hours.drop_last();
        let last = hours.last();
        assert(hours =~= front.push(last));
        lemma_names_file_push(front, last, path);
        if last.hour == hour {
            let merged = HourSourcesView {
                hour,
                files: last.files + files,
                batches: last.batches + batches,
            };
            lemma_names_file_push(front, merged, path);
            lemma_has_path_add(last.files, files, path);
            lemma_batch_rows_add(last.batches, batches);
            assert(front.push(merged).drop_last() =~= front);
        } else {
            let put = put_sources(front, hour, files, batches);
            lemma_put_sources_keeps(front, hour, files, batches, path);
            lemma_names_file_push(put, last, path);
            assert(put.push(last).drop_last() =~= put);
        }
    }
}

/// Whether one of the sources is a file with this path below the tenant.
pub open spec fn reads_file(sources: Seq<VisibleView>, tenant_dir: Seq<char>, path: Seq<char>) -> bool {
    exists|i: int| 0 <= i < sources.len() && is_file_at(#[trigger] sources[i], tenant_dir, path)
}

pub open spec fn is_file_at(source: VisibleView, tenant_dir: Seq<char>, path: Seq<char>) -> bool {
    match source {
        VisibleView::File { hour, relative_path, statistics } => layout::join_path(
            tenant_dir,
            relative_path,
        ) == path,
        VisibleView::Memory { .. } => false,
    }
}

/// Rows of the sources in memory.
pub open spec fn memory_rows(sources: Seq<VisibleView>) -> nat
    decreases sources.len(),
{
    if sources.len() == 0 {
        0
    } else {
        memory_rows(sources.drop_last()) + match sources.last() {
            VisibleView::Memory { hour, batches } => generation::batch_rows(batches),
            VisibleView::File { .. } => 0,
        }
    }
}

/// Grouping by hour keeps every row in memory and every file, and adds none.
pub proof fn grouping_keeps_sources(
    tenant_dir: Seq<char>,
    sources: Seq<VisibleView>,
    path: Seq<char>,
)
    ensures
        names_file(sources_by_hour(tenant_dir, sources), path) <==> reads_file(
            sources,
            tenant_dir,
            path,
        ),
        source_rows(sources_by_hour(tenant_dir, sources)) == memory_rows(sources),
    decreases sources.len(),
{
    if sources.len() > 0 {
        let front = sources.drop_last();
        let last = sources.last();
        let before = sources_by_hour(tenant_dir, front);
        grouping_keeps_sources(tenant_dir, front, path);
        assert(reads_file(sources, tenant_dir, path) <==> reads_file(front, tenant_dir, path)
            || is_file_at(last, tenant_dir, path)) by {
            if reads_file(front, tenant_dir, path) {
                let i = choose|i: int|
                    0 <= i < front.len() && is_file_at(#[trigger] front[i], tenant_dir, path);
                assert(is_file_at(sources[i], tenant_dir, path));
            }
            if is_file_at(last, tenant_dir, path) {
                assert(is_file_at(sources[sources.len() - 1], tenant_dir, path));
            }
            if reads_file(sources, tenant_dir, path) {
                let i = choose|i: int|
                    0 <= i < sources.len() && is_file_at(#[trigger] sources[i], tenant_dir, path);
                if i < front.len() {
                    assert(is_file_at(front[i], tenant_dir, path));
                }
            }
        }
        match last {
            VisibleView::File { hour, relative_path, statistics } => {
                let file = PublishedFileView {
                    path: layout::join_path(tenant_dir, relative_path),
                    statistics,
                };
                lemma_put_sources_keeps(before, hour, seq![file], Seq::empty(), path);
                assert(has_path(seq![file], path) <==> file.path == path) by {
                    assert(seq![file][0] == file);
                }
            },
            VisibleView::Memory { hour, batches } => {
                lemma_with_rows(batches);
                lemma_put_sources_keeps(before, hour, Seq::empty(), with_rows(batches), path);
                assert(!has_path(Seq::empty(), path));
            },
        }
    }
}

/// Whether a published commit names this file, no retirement hides it, and the scan selects its
/// hour.
pub open spec fn committed(snapshot: StoreSnapshotView, scan: &Scan, relative_path: Seq<char>) -> bool {
    exists|c: int, f: int|
        0 <= c < snapshot.published.len() && 0 <= f < snapshot.published[c].files.len()
            && shows_file(
            #[trigger] snapshot.published[c].files[f],
            snapshot.retired,
            scan,
            relative_path,
        )
}

pub open spec fn shows_file(
    file: CommitFileView,
    retired: Set<Seq<char>>,
    scan: &Scan,
    relative_path: Seq<char>,
) -> bool {
    file.relative_path == relative_path && !retired.contains(relative_path) && selects(
        scan,
        file.hour,
    )
}

/// Whether a source is the file with this relative path.
pub open spec fn is_relative(source: VisibleView, relative_path: Seq<char>) -> bool {
    source is File && source->relative_path == relative_path
}

proof fn lemma_visible_files(
    files: Seq<CommitFileView>,
    retired: Set<Seq<char>>,
    scan: &Scan,
    at: int,
)
    requires
        0 <= at < visible_files(files, retired, scan).len(),
    ensures
        visible_files(files, retired, scan)[at] is File,
        exists|f: int|
            0 <= f < files.len() && shows_file(
                #[trigger] files[f],
                retired,
                scan,
                visible_files(files, retired, scan)[at]->relative_path,
            ),
    decreases files.len(),
{
    let front = files.drop_last();
    let before = visible_files(front, retired, scan);
    if at < before.len() {
        lemma_visible_files(front, retired, scan, at);
        let path = before[at]->relative_path;
        let f = choose|f: int|
            0 <= f < front.len() && shows_file(#[trigger] front[f], retired, scan, path);
        assert(files[f] == front[f]);
        assert(shows_file(files[f], retired, scan, path));
    } else {
        assert(shows_file(files[files.len() - 1], retired, scan, files.last().relative_path));
    }
}

proof fn lemma_visible_commits(
    commits: Seq<CommitView>,
    retired: Set<Seq<char>>,
    scan: &Scan,
    at: int,
)
    requires
        0 <= at < visible_commits(commits, retired, scan).len(),
    ensures
        visible_commits(commits, retired, scan)[at] is File,
        exists|c: int, f: int|
            0 <= c < commits.len() && 0 <= f < commits[c].files.len() && shows_file(
                #[trigger] commits[c].files[f],
                retired,
                scan,
                visible_commits(commits, retired, scan)[at]->relative_path,
            ),
    decreases commits.len(),
{
    let front = commits.drop_last();
    let before = visible_commits(front, retired, scan);
    let path = visible_commits(commits, retired, scan)[at]->relative_path;
    if at < before.len() {
        lemma_visible_commits(front, retired, scan, at);
        let (c, f) = choose|c: int, f: int|
            0 <= c < front.len() && 0 <= f < front[c].files.len() && shows_file(
                #[trigger] front[c].files[f],
                retired,
                scan,
                path,
            );
        assert(shows_file(commits[c].files[f], retired, scan, path));
    } else {
        let files = commits.last().files;
        lemma_visible_files(files, retired, scan, at - before.len());
        let f = choose|f: int|
            0 <= f < files.len() && shows_file(#[trigger] files[f], retired, scan, path);
        assert(shows_file(commits[commits.len() - 1].files[f], retired, scan, path));
    }
}

proof fn lemma_visible_memory(generations: Seq<GenerationView>, scan: &Scan, at: int)
    requires
        0 <= at < visible_generations(generations, scan).len(),
    ensures
        visible_generations(generations, scan)[at] is Memory,
    decreases generations.len(),
{
    let before = visible_generations(generations.drop_last(), scan);
    if at < before.len() {
        lemma_visible_memory(generations.drop_last(), scan, at);
    } else {
        lemma_visible_partition(generations.last().partitions, scan, at - before.len());
    }
}

proof fn lemma_visible_partition(partitions: Seq<HourView>, scan: &Scan, at: int)
    requires
        0 <= at < visible_partitions(partitions, scan).len(),
    ensures
        visible_partitions(partitions, scan)[at] is Memory,
    decreases partitions.len(),
{
    let before = visible_partitions(partitions.drop_last(), scan);
    if at < before.len() {
        lemma_visible_partition(partitions.drop_last(), scan, at);
    }
}

/// A scan reads no file that is not named by a published commit, and none that a retirement hides.
pub proof fn files_come_from_commits(snapshot: StoreSnapshotView, scan: &Scan, at: int)
    requires
        0 <= at < visible(snapshot, scan).len(),
        visible(snapshot, scan)[at] is File,
    ensures
        committed(snapshot, scan, visible(snapshot, scan)[at]->relative_path),
{
    let files = visible_commits(snapshot.published, snapshot.retired, scan);
    if at < files.len() {
        lemma_visible_commits(snapshot.published, snapshot.retired, scan, at);
    } else {
        lemma_visible_memory(memory_of(snapshot), scan, at - files.len());
    }
}

proof fn lemma_file_shown(
    files: Seq<CommitFileView>,
    retired: Set<Seq<char>>,
    scan: &Scan,
    at: int,
) -> (shown: int)
    requires
        0 <= at < files.len(),
        !retired.contains(files[at].relative_path),
        selects(scan, files[at].hour),
    ensures
        0 <= shown < visible_files(files, retired, scan).len(),
        is_relative(visible_files(files, retired, scan)[shown], files[at].relative_path),
    decreases files.len(),
{
    if at == files.len() - 1 {
        visible_files(files.drop_last(), retired, scan).len() as int
    } else {
        lemma_file_shown(files.drop_last(), retired, scan, at)
    }
}

proof fn lemma_commit_shown(
    commits: Seq<CommitView>,
    retired: Set<Seq<char>>,
    scan: &Scan,
    at: int,
    file: int,
) -> (shown: int)
    requires
        0 <= at < commits.len(),
        0 <= file < commits[at].files.len(),
        !retired.contains(commits[at].files[file].relative_path),
        selects(scan, commits[at].files[file].hour),
    ensures
        0 <= shown < visible_commits(commits, retired, scan).len(),
        is_relative(
            visible_commits(commits, retired, scan)[shown],
            commits[at].files[file].relative_path,
        ),
    decreases commits.len(),
{
    let before = visible_commits(commits.drop_last(), retired, scan);
    if at == commits.len() - 1 {
        before.len() + lemma_file_shown(commits.last().files, retired, scan, file)
    } else {
        lemma_commit_shown(commits.drop_last(), retired, scan, at, file)
    }
}

/// A scan reads every file that a published commit names for a selected hour, unless a retirement
/// hides it.
pub proof fn committed_files_are_read(snapshot: StoreSnapshotView, scan: &Scan, at: int, file: int) -> (shown:
    int)
    requires
        0 <= at < snapshot.published.len(),
        0 <= file < snapshot.published[at].files.len(),
        !snapshot.retired.contains(snapshot.published[at].files[file].relative_path),
        selects(scan, snapshot.published[at].files[file].hour),
    ensures
        0 <= shown < visible(snapshot, scan).len(),
        is_relative(
            visible(snapshot, scan)[shown],
            snapshot.published[at].files[file].relative_path,
        ),
{
    lemma_commit_shown(snapshot.published, snapshot.retired, scan, at, file)
}

/// Rows of some generations.
pub open spec fn generation_rows(generations: Seq<GenerationView>) -> nat
    decreases generations.len(),
{
    if generations.len() == 0 {
        0
    } else {
        generation_rows(generations.drop_last()) + generation::partition_rows(
            generations.last().partitions,
        )
    }
}

proof fn lemma_memory_rows_add(left: Seq<VisibleView>, right: Seq<VisibleView>)
    ensures
        memory_rows(left + right) == memory_rows(left) + memory_rows(right),
    decreases right.len(),
{
    if right.len() == 0 {
        assert(left + right =~= left);
    } else {
        assert((left + right).drop_last() =~= left + right.drop_last());
        lemma_memory_rows_add(left, right.drop_last());
    }
}

proof fn lemma_partition_rows_shown(partitions: Seq<HourView>, scan: &Scan)
    requires
        forall|hour: u64| #[trigger] selects(scan, hour),
    ensures
        memory_rows(visible_partitions(partitions, scan)) == generation::partition_rows(partitions),
    decreases partitions.len(),
{
    if partitions.len() > 0 {
        lemma_partition_rows_shown(partitions.drop_last(), scan);
        let before = visible_partitions(partitions.drop_last(), scan);
        assert(selects(scan, partitions.last().hour));
        assert(visible_partitions(partitions, scan).drop_last() =~= before);
    }
}

proof fn lemma_generation_rows_shown(generations: Seq<GenerationView>, scan: &Scan)
    requires
        forall|hour: u64| #[trigger] selects(scan, hour),
    ensures
        memory_rows(visible_generations(generations, scan)) == generation_rows(generations),
    decreases generations.len(),
{
    if generations.len() > 0 {
        lemma_generation_rows_shown(generations.drop_last(), scan);
        lemma_partition_rows_shown(generations.last().partitions, scan);
        lemma_memory_rows_add(
            visible_generations(generations.drop_last(), scan),
            visible_partitions(generations.last().partitions, scan),
        );
    }
}

proof fn lemma_files_hold_no_memory(sources: Seq<VisibleView>)
    requires
        forall|i: int| 0 <= i < sources.len() ==> #[trigger] sources[i] is File,
    ensures
        memory_rows(sources) == 0,
    decreases sources.len(),
{
    if sources.len() > 0 {
        assert(sources[sources.len() - 1] is File);
        lemma_files_hold_no_memory(sources.drop_last());
    }
}

/// A scan without hour bounds reads every row in memory, and reads it once.
pub proof fn scans_read_memory_once(
    tenant_dir: Seq<char>,
    snapshot: StoreSnapshotView,
    scan: &Scan,
)
    requires
        scan.from_hour is None,
        scan.to_hour is None,
    ensures
        source_rows(sources_by_hour(tenant_dir, visible(snapshot, scan))) == generation_rows(
            memory_of(snapshot),
        ),
{
    let files = visible_commits(snapshot.published, snapshot.retired, scan);
    let memory = visible_generations(memory_of(snapshot), scan);
    grouping_keeps_sources(tenant_dir, visible(snapshot, scan), Seq::empty());
    assert forall|i: int| 0 <= i < files.len() implies #[trigger] files[i] is File by {
        lemma_visible_commits(snapshot.published, snapshot.retired, scan, i);
    }
    lemma_files_hold_no_memory(files);
    lemma_memory_rows_add(files, memory);
    lemma_generation_rows_shown(memory_of(snapshot), scan);
}

// What the union schema shows.

proof fn lemma_merge_field_keeps(
    dynamic: Seq<(Seq<char>, FieldView)>,
    field: FieldView,
    name: Seq<char>,
)
    requires
        merge_field(dynamic, field) is Ok,
    ensures
        sorted::lookup(dynamic, name) is Some ==> sorted::lookup(
            merge_field(dynamic, field)->Ok_0,
            name,
        ) == sorted::lookup(dynamic, name),
        has_column(merge_field(dynamic, field)->Ok_0, field),
{
    sorted::lemma_lookup_put(dynamic, field.name, field, name);
    sorted::lemma_lookup_put(dynamic, field.name, field, field.name);
}

/// Whether a core column or one of these dynamic columns has the name and the type of a field.
pub open spec fn has_column(dynamic: Seq<(Seq<char>, FieldView)>, field: FieldView) -> bool {
    let core = schema::core_fields();
    let at = schema::field_index(core, field.name);
    if at < core.len() {
        core[at].data_type == field.data_type
    } else {
        sorted::lookup(dynamic, field.name) is Some && sorted::lookup(
            dynamic,
            field.name,
        )->0.data_type == field.data_type
    }
}

proof fn lemma_merge_fields_keeps(
    dynamic: Seq<(Seq<char>, FieldView)>,
    fields: Seq<FieldView>,
    name: Seq<char>,
)
    requires
        merge_fields(dynamic, fields) is Ok,
    ensures
        sorted::lookup(dynamic, name) is Some ==> sorted::lookup(
            merge_fields(dynamic, fields)->Ok_0,
            name,
        ) == sorted::lookup(dynamic, name),
        forall|i: int|
            0 <= i < fields.len() ==> has_column(
                merge_fields(dynamic, fields)->Ok_0,
                #[trigger] fields[i],
            ),
    decreases fields.len(),
{
    if fields.len() > 0 {
        let front = fields.drop_last();
        let before = merge_fields(dynamic, front)->Ok_0;
        lemma_merge_fields_keeps(dynamic, front, name);
        lemma_merge_field_keeps(before, fields.last(), name);
        assert forall|i: int| 0 <= i < fields.len() implies has_column(
            merge_fields(dynamic, fields)->Ok_0,
            #[trigger] fields[i],
        ) by {
            if i < front.len() {
                assert(front[i] == fields[i]);
                lemma_merge_field_keeps(before, fields.last(), fields[i].name);
            }
        }
    }
}

/// The union of schemas starts with the core columns and has every column of every schema, under
/// its name and with its type.
pub proof fn the_union_keeps_every_column(schemas: Seq<SchemaView>)
    requires
        union_of(schemas) is Ok,
    ensures
        schema::core_fields().is_prefix_of(union_of(schemas)->Ok_0.fields),
        forall|s: int, i: int|
            0 <= s < schemas.len() && 0 <= i < schemas[s].fields.len() ==> has_column(
                merge_schemas(schemas)->Ok_0,
                #[trigger] schemas[s].fields[i],
            ),
    decreases schemas.len(),
{
    if schemas.len() > 0 {
        let front = schemas.drop_last();
        let before = merge_schemas(front)->Ok_0;
        the_union_keeps_every_column(front);
        lemma_merge_fields_keeps(before, schemas.last().fields, Seq::empty());
        assert forall|s: int, i: int|
            0 <= s < schemas.len() && 0 <= i < schemas[s].fields.len() implies has_column(
            merge_schemas(schemas)->Ok_0,
            #[trigger] schemas[s].fields[i],
        ) by {
            if s < front.len() {
                assert(has_column(before, front[s].fields[i]));
                lemma_merge_fields_keeps(
                    before,
                    schemas.last().fields,
                    schemas[s].fields[i].name,
                );
            }
        }
    }
}

// What a scan selects and shows.

/// The bounds of a scan are half open: a scan takes the hour that it starts with and leaves the hour that
/// it ends with. So two scans that adjoin take every hour of both once, and a scan without bounds takes
/// every hour.
pub proof fn adjoining_scans_split_the_hours(early: &Scan, late: &Scan, both: &Scan, hour: u64)
    requires
        early.to_hour == late.from_hour,
        early.to_hour is Some,
        early.from_hour == both.from_hour,
        late.to_hour == both.to_hour,
        early.from_hour is Some ==> early.from_hour->0@ <= early.to_hour->0@,
        late.to_hour is Some ==> late.from_hour->0@ <= late.to_hour->0@,
    ensures
        selects(both, hour) <==> selects(early, hour) || selects(late, hour),
        !(selects(early, hour) && selects(late, hour)),
        !selects(early, early.to_hour->0@),
        late.to_hour is None ==> selects(late, late.from_hour->0@),
        both.from_hour is None && both.to_hour is None ==> selects(both, hour),
{
}

proof fn lemma_concat_contains<A>(left: Seq<A>, right: Seq<A>, item: A)
    ensures
        (left + right).contains(item) <==> left.contains(item) || right.contains(item),
{
    let all = left + right;
    if left.contains(item) {
        let i = choose|i: int| 0 <= i < left.len() && left[i] == item;
        assert(all[i] == item);
    }
    if right.contains(item) {
        let i = choose|i: int| 0 <= i < right.len() && right[i] == item;
        assert(all[left.len() + i] == item);
    }
    if all.contains(item) {
        let i = choose|i: int| 0 <= i < all.len() && all[i] == item;
        if i < left.len() {
            assert(left[i] == item);
        } else {
            assert(right[i - left.len()] == item);
        }
    }
}

/// Whether a source is this file of a commit, with its hour, path and statistics, and the scan may read
/// it.
pub open spec fn is_file_source(
    file: CommitFileView,
    retired: Set<Seq<char>>,
    scan: &Scan,
    source: VisibleView,
) -> bool {
    &&& !retired.contains(file.relative_path)
    &&& selects(scan, file.hour)
    &&& source is File
    &&& source->File_hour == file.hour
    &&& source->relative_path == file.relative_path
    &&& source->statistics == file.statistics
}

/// Whether a source is this partition of a generation, and the scan may read it.
pub open spec fn is_memory_source(
    partition: HourView,
    scan: &Scan,
    source: VisibleView,
) -> bool {
    &&& selects(scan, partition.hour)
    &&& source is Memory
    &&& source->Memory_hour == partition.hour
    &&& source->batches == partition.batches
}

/// Whether a source is a file of one of the commits.
pub open spec fn some_file_shows(
    commits: Seq<CommitView>,
    retired: Set<Seq<char>>,
    scan: &Scan,
    source: VisibleView,
) -> bool {
    exists|c: int, f: int|
        0 <= c < commits.len() && 0 <= f < commits[c].files.len() && is_file_source(
            #[trigger] commits[c].files[f],
            retired,
            scan,
            source,
        )
}

/// Whether a source is a partition of one of the generations.
pub open spec fn some_partition_shows(
    generations: Seq<GenerationView>,
    scan: &Scan,
    source: VisibleView,
) -> bool {
    exists|g: int, p: int|
        0 <= g < generations.len() && 0 <= p < generations[g].partitions.len() && is_memory_source(
            #[trigger] generations[g].partitions[p],
            scan,
            source,
        )
}

proof fn lemma_files_shown(
    files: Seq<CommitFileView>,
    retired: Set<Seq<char>>,
    scan: &Scan,
    source: VisibleView,
)
    ensures
        visible_files(files, retired, scan).contains(source) <==> exists|f: int|
            0 <= f < files.len() && is_file_source(#[trigger] files[f], retired, scan, source),
    decreases files.len(),
{
    if files.len() > 0 {
        let front = files.drop_last();
        let end = files.len() - 1;
        let file = files[end];
        let before = visible_files(front, retired, scan);
        lemma_files_shown(front, retired, scan, source);
        let own = VisibleView::File {
            hour: file.hour,
            relative_path: file.relative_path,
            statistics: file.statistics,
        };
        assert(before.push(own) =~= before + seq![own]);
        lemma_concat_contains(before, seq![own], source);
        assert(seq![own].contains(source) <==> own == source) by {
            assert(seq![own][0] == own);
        }
        if exists|f: int|
            0 <= f < front.len() && is_file_source(#[trigger] front[f], retired, scan, source) {
            let f = choose|f: int|
                0 <= f < front.len() && is_file_source(#[trigger] front[f], retired, scan, source);
            assert(is_file_source(files[f], retired, scan, source));
        }
        if exists|f: int|
            0 <= f < files.len() && is_file_source(#[trigger] files[f], retired, scan, source) {
            let f = choose|f: int|
                0 <= f < files.len() && is_file_source(#[trigger] files[f], retired, scan, source);
            if f < end {
                assert(is_file_source(front[f], retired, scan, source));
            } else {
                assert(own == source);
            }
        }
        if visible_files(files, retired, scan).contains(source) && !before.contains(source) {
            assert(is_file_source(files[end], retired, scan, source));
        }
    }
}

proof fn lemma_commits_shown(
    commits: Seq<CommitView>,
    retired: Set<Seq<char>>,
    scan: &Scan,
    source: VisibleView,
)
    ensures
        visible_commits(commits, retired, scan).contains(source) <==> some_file_shows(
            commits,
            retired,
            scan,
            source,
        ),
    decreases commits.len(),
{
    if commits.len() > 0 {
        let front = commits.drop_last();
        let end = commits.len() - 1;
        lemma_commits_shown(front, retired, scan, source);
        lemma_files_shown(commits[end].files, retired, scan, source);
        lemma_concat_contains(
            visible_commits(front, retired, scan),
            visible_files(commits[end].files, retired, scan),
            source,
        );
        if some_file_shows(front, retired, scan, source) {
            let (c, f) = choose|c: int, f: int|
                0 <= c < front.len() && 0 <= f < front[c].files.len() && is_file_source(
                    #[trigger] front[c].files[f],
                    retired,
                    scan,
                    source,
                );
            assert(is_file_source(commits[c].files[f], retired, scan, source));
        }
        if some_file_shows(commits, retired, scan, source) {
            let (c, f) = choose|c: int, f: int|
                0 <= c < commits.len() && 0 <= f < commits[c].files.len() && is_file_source(
                    #[trigger] commits[c].files[f],
                    retired,
                    scan,
                    source,
                );
            if c < end {
                assert(is_file_source(front[c].files[f], retired, scan, source));
            }
        }
    }
}

proof fn lemma_partitions_shown(partitions: Seq<HourView>, scan: &Scan, source: VisibleView)
    ensures
        visible_partitions(partitions, scan).contains(source) <==> exists|p: int|
            0 <= p < partitions.len() && is_memory_source(#[trigger] partitions[p], scan, source),
    decreases partitions.len(),
{
    if partitions.len() > 0 {
        let front = partitions.drop_last();
        let end = partitions.len() - 1;
        let partition = partitions[end];
        let before = visible_partitions(front, scan);
        lemma_partitions_shown(front, scan, source);
        let own = VisibleView::Memory { hour: partition.hour, batches: partition.batches };
        assert(before.push(own) =~= before + seq![own]);
        lemma_concat_contains(before, seq![own], source);
        assert(seq![own].contains(source) <==> own == source) by {
            assert(seq![own][0] == own);
        }
        if exists|p: int|
            0 <= p < front.len() && is_memory_source(#[trigger] front[p], scan, source) {
            let p = choose|p: int|
                0 <= p < front.len() && is_memory_source(#[trigger] front[p], scan, source);
            assert(is_memory_source(partitions[p], scan, source));
        }
        if exists|p: int|
            0 <= p < partitions.len() && is_memory_source(#[trigger] partitions[p], scan, source) {
            let p = choose|p: int|
                0 <= p < partitions.len() && is_memory_source(
                    #[trigger] partitions[p],
                    scan,
                    source,
                );
            if p < end {
                assert(is_memory_source(front[p], scan, source));
            } else {
                assert(own == source);
            }
        }
        if visible_partitions(partitions, scan).contains(source) && !before.contains(source) {
            assert(is_memory_source(partitions[end], scan, source));
        }
    }
}

proof fn lemma_generations_shown(
    generations: Seq<GenerationView>,
    scan: &Scan,
    source: VisibleView,
)
    ensures
        visible_generations(generations, scan).contains(source) <==> some_partition_shows(
            generations,
            scan,
            source,
        ),
    decreases generations.len(),
{
    if generations.len() > 0 {
        let front = generations.drop_last();
        let end = generations.len() - 1;
        lemma_generations_shown(front, scan, source);
        lemma_partitions_shown(generations[end].partitions, scan, source);
        lemma_concat_contains(
            visible_generations(front, scan),
            visible_partitions(generations[end].partitions, scan),
            source,
        );
        if some_partition_shows(front, scan, source) {
            let (g, p) = choose|g: int, p: int|
                0 <= g < front.len() && 0 <= p < front[g].partitions.len() && is_memory_source(
                    #[trigger] front[g].partitions[p],
                    scan,
                    source,
                );
            assert(is_memory_source(generations[g].partitions[p], scan, source));
        }
        if some_partition_shows(generations, scan, source) {
            let (g, p) = choose|g: int, p: int|
                0 <= g < generations.len() && 0 <= p < generations[g].partitions.len()
                    && is_memory_source(
                    #[trigger] generations[g].partitions[p],
                    scan,
                    source,
                );
            if g < end {
                assert(is_memory_source(front[g].partitions[p], scan, source));
            }
        }
    }
}

/// Whether a source is a partition of the active generation.
pub open spec fn active_shows(
    active: Option<GenerationView>,
    scan: &Scan,
    source: VisibleView,
) -> bool {
    active is Some && exists|p: int|
        0 <= p < active->0.partitions.len() && is_memory_source(
            #[trigger] active->0.partitions[p],
            scan,
            source,
        )
}

/// A scan reads the files of the published commits that no retirement hides, and the partitions of the
/// frozen generations and of the active one, each with its hour, as far as it selects the hour. It reads
/// nothing else.
pub proof fn scans_read_what_the_snapshot_shows(
    snapshot: StoreSnapshotView,
    scan: &Scan,
    source: VisibleView,
)
    ensures
        visible(snapshot, scan).contains(source) <==> some_file_shows(
            snapshot.published,
            snapshot.retired,
            scan,
            source,
        ) || some_partition_shows(snapshot.frozen, scan, source) || active_shows(
            snapshot.active,
            scan,
            source,
        ),
{
    lemma_commits_shown(snapshot.published, snapshot.retired, scan, source);
    lemma_generations_shown(memory_of(snapshot), scan, source);
    lemma_concat_contains(
        visible_commits(snapshot.published, snapshot.retired, scan),
        visible_generations(memory_of(snapshot), scan),
        source,
    );
    let memory = memory_of(snapshot);
    let frozen = snapshot.frozen;
    if some_partition_shows(memory, scan, source) {
        let (g, p) = choose|g: int, p: int|
            0 <= g < memory.len() && 0 <= p < memory[g].partitions.len() && is_memory_source(
                #[trigger] memory[g].partitions[p],
                scan,
                source,
            );
        if g < frozen.len() {
            assert(is_memory_source(frozen[g].partitions[p], scan, source));
        } else {
            assert(is_memory_source(snapshot.active->0.partitions[p], scan, source));
        }
    }
    if some_partition_shows(frozen, scan, source) {
        let (g, p) = choose|g: int, p: int|
            0 <= g < frozen.len() && 0 <= p < frozen[g].partitions.len() && is_memory_source(
                #[trigger] frozen[g].partitions[p],
                scan,
                source,
            );
        assert(is_memory_source(memory[g].partitions[p], scan, source));
    }
    if active_shows(snapshot.active, scan, source) {
        let active = snapshot.active->0;
        let p = choose|p: int|
            0 <= p < active.partitions.len() && is_memory_source(
                #[trigger] active.partitions[p],
                scan,
                source,
            );
        assert(memory[frozen.len() as int] == active);
        assert(is_memory_source(memory[frozen.len() as int].partitions[p], scan, source));
    }
}

/// Whether this file stands under this hour.
pub open spec fn holds_file(
    hours: Seq<HourSourcesView>,
    hour: u64,
    file: PublishedFileView,
) -> bool {
    exists|h: int|
        0 <= h < hours.len() && (#[trigger] hours[h]).hour == hour && hours[h].files.contains(file)
}

/// Whether this batch stands under this hour.
pub open spec fn holds_batch(hours: Seq<HourSourcesView>, hour: u64, batch: BatchView) -> bool {
    exists|h: int|
        0 <= h < hours.len() && (#[trigger] hours[h]).hour == hour && hours[h].batches.contains(
            batch,
        )
}

proof fn lemma_held_push(
    hours: Seq<HourSourcesView>,
    last: HourSourcesView,
    hour: u64,
    file: PublishedFileView,
    batch: BatchView,
)
    ensures
        holds_file(hours.push(last), hour, file) <==> holds_file(hours, hour, file) || (last.hour
            == hour && last.files.contains(file)),
        holds_batch(hours.push(last), hour, batch) <==> holds_batch(hours, hour, batch) || (
        last.hour == hour && last.batches.contains(batch)),
{
    let all = hours.push(last);
    assert(all[hours.len() as int] == last);
    if holds_file(hours, hour, file) {
        let h = choose|h: int|
            0 <= h < hours.len() && (#[trigger] hours[h]).hour == hour && hours[h].files.contains(
                file,
            );
        assert(all[h] == hours[h]);
    }
    if holds_batch(hours, hour, batch) {
        let h = choose|h: int|
            0 <= h < hours.len() && (#[trigger] hours[h]).hour == hour
                && hours[h].batches.contains(batch);
        assert(all[h] == hours[h]);
    }
    if holds_file(all, hour, file) {
        let h = choose|h: int|
            0 <= h < all.len() && (#[trigger] all[h]).hour == hour && all[h].files.contains(file);
        if h < hours.len() {
            assert(all[h] == hours[h]);
        }
    }
    if holds_batch(all, hour, batch) {
        let h = choose|h: int|
            0 <= h < all.len() && (#[trigger] all[h]).hour == hour && all[h].batches.contains(batch);
        if h < hours.len() {
            assert(all[h] == hours[h]);
        }
    }
}

proof fn lemma_put_held(
    hours: Seq<HourSourcesView>,
    at: u64,
    files: Seq<PublishedFileView>,
    batches: Seq<BatchView>,
    hour: u64,
    file: PublishedFileView,
    batch: BatchView,
)
    ensures
        holds_file(put_sources(hours, at, files, batches), hour, file) <==> holds_file(
            hours,
            hour,
            file,
        ) || (hour == at && files.contains(file)),
        holds_batch(put_sources(hours, at, files, batches), hour, batch) <==> holds_batch(
            hours,
            hour,
            batch,
        ) || (hour == at && batches.contains(batch)),
    decreases hours.len(),
{
    if hours.len() == 0 || hours.last().hour < at {
        lemma_held_push(hours, HourSourcesView { hour: at, files, batches }, hour, file, batch);
    } else {
        let front = hours.drop_last();
        let last = hours.last();
        assert(front.push(last) =~= hours);
        lemma_held_push(front, last, hour, file, batch);
        if last.hour == at {
            let joined = HourSourcesView {
                hour: at,
                files: last.files + files,
                batches: last.batches + batches,
            };
            lemma_concat_contains(last.files, files, file);
            lemma_concat_contains(last.batches, batches, batch);
            lemma_held_push(front, joined, hour, file, batch);
        } else {
            lemma_put_held(front, at, files, batches, hour, file, batch);
            lemma_held_push(
                put_sources(front, at, files, batches),
                last,
                hour,
                file,
                batch,
            );
        }
    }
}

/// Whether a source is this file of this hour, below the tenant.
pub open spec fn gives_file(
    source: VisibleView,
    tenant_dir: Seq<char>,
    hour: u64,
    file: PublishedFileView,
) -> bool {
    &&& source is File
    &&& source->File_hour == hour
    &&& layout::join_path(tenant_dir, source->relative_path) == file.path
    &&& source->statistics == file.statistics
}

/// Whether a source has this batch for this hour, and the batch has rows.
pub open spec fn gives_batch(source: VisibleView, hour: u64, batch: BatchView) -> bool {
    &&& source is Memory
    &&& source->Memory_hour == hour
    &&& source->batches.contains(batch)
    &&& batch.rows > 0
}

/// Sources stand under their hours. An hour has exactly the files of the sources of that hour, with
/// their statistics, and the batches of those that have rows; and the hours ascend.
pub proof fn sources_stand_under_their_hour(
    tenant_dir: Seq<char>,
    sources: Seq<VisibleView>,
    hour: u64,
    file: PublishedFileView,
    batch: BatchView,
)
    ensures
        source_hours_ascend(sources_by_hour(tenant_dir, sources)),
        holds_file(sources_by_hour(tenant_dir, sources), hour, file) <==> exists|i: int|
            0 <= i < sources.len() && gives_file(#[trigger] sources[i], tenant_dir, hour, file),
        holds_batch(sources_by_hour(tenant_dir, sources), hour, batch) <==> exists|i: int|
            0 <= i < sources.len() && gives_batch(#[trigger] sources[i], hour, batch),
    decreases sources.len(),
{
    broadcast use vstd::seq_lib::group_filter_ensures;

    if sources.len() > 0 {
        let front = sources.drop_last();
        let end = sources.len() - 1;
        let last = sources[end];
        let before = sources_by_hour(tenant_dir, front);
        sources_stand_under_their_hour(tenant_dir, front, hour, file, batch);
        assert(forall|i: int| 0 <= i < front.len() ==> front[i] == #[trigger] sources[i]);
        if exists|i: int|
            0 <= i < front.len() && gives_file(#[trigger] front[i], tenant_dir, hour, file) {
            let i = choose|i: int|
                0 <= i < front.len() && gives_file(#[trigger] front[i], tenant_dir, hour, file);
            assert(gives_file(sources[i], tenant_dir, hour, file));
        }
        if exists|i: int| 0 <= i < front.len() && gives_batch(#[trigger] front[i], hour, batch) {
            let i = choose|i: int|
                0 <= i < front.len() && gives_batch(#[trigger] front[i], hour, batch);
            assert(gives_batch(sources[i], hour, batch));
        }
        if exists|i: int|
            0 <= i < sources.len() && gives_file(#[trigger] sources[i], tenant_dir, hour, file) {
            let i = choose|i: int|
                0 <= i < sources.len() && gives_file(#[trigger] sources[i], tenant_dir, hour, file);
            if i < end {
                assert(gives_file(front[i], tenant_dir, hour, file));
            }
        }
        if exists|i: int| 0 <= i < sources.len() && gives_batch(#[trigger] sources[i], hour, batch) {
            let i = choose|i: int|
                0 <= i < sources.len() && gives_batch(#[trigger] sources[i], hour, batch);
            if i < end {
                assert(gives_batch(front[i], hour, batch));
            }
        }
        match last {
            VisibleView::File { hour: at, relative_path, statistics } => {
                let own = PublishedFileView {
                    path: layout::join_path(tenant_dir, relative_path),
                    statistics,
                };
                lemma_put_held(before, at, seq![own], Seq::empty(), hour, file, batch);
                lemma_put_sources(before, at, seq![own], Seq::empty());
                assert(seq![own].contains(file) <==> own == file) by {
                    assert(seq![own][0] == own);
                }
                assert(hour == at && own == file <==> gives_file(
                    sources[end],
                    tenant_dir,
                    hour,
                    file,
                ));
            },
            VisibleView::Memory { hour: at, batches } => {
                let kept = with_rows(batches);
                lemma_put_held(before, at, Seq::empty(), kept, hour, file, batch);
                lemma_put_sources(before, at, Seq::empty(), kept);
                lemma_kept(batches, batch);
                assert(hour == at && kept.contains(batch) <==> gives_batch(
                    sources[end],
                    hour,
                    batch,
                ));
            },
        }
    }
}

proof fn lemma_kept(batches: Seq<BatchView>, batch: BatchView)
    ensures
        with_rows(batches).contains(batch) <==> batches.contains(batch) && batch.rows > 0,
    decreases batches.len(),
{
    reveal(Seq::filter);
    if batches.len() > 0 {
        let front = batches.drop_last();
        let last = batches.last();
        lemma_kept(front, batch);
        assert(front.push(last) =~= batches);
        assert(front + seq![last] =~= batches);
        lemma_concat_contains(front, seq![last], batch);
        assert(with_rows(front).push(last) =~= with_rows(front) + seq![last]);
        lemma_concat_contains(with_rows(front), seq![last], batch);
        assert(seq![last].contains(batch) <==> last == batch) by {
            assert(seq![last][0] == last);
        }
    }
}

/// A scan can keep columns exactly where the schema has each of them; it keeps them in the order in
/// which they are named, each as the first of its name.
pub proof fn columns_are_kept_in_order(fields: Seq<FieldView>, columns: Seq<Seq<char>>)
    ensures
        projection_of(fields, columns) is Ok <==> forall|i: int|
            0 <= i < columns.len() ==> has_name(fields, #[trigger] columns[i]),
        projection_of(fields, columns) is Ok ==> projection_of(fields, columns)->Ok_0.len()
            == columns.len() && forall|i: int|
            0 <= i < columns.len() ==> is_first_called(
                fields,
                columns[i],
                #[trigger] projection_of(fields, columns)->Ok_0[i],
            ),
        projection_of(fields, columns) is Err ==> columns.contains(
            projection_of(fields, columns)->Err_0,
        ) && !has_name(fields, projection_of(fields, columns)->Err_0),
    decreases columns.len(),
{
    if columns.len() > 0 {
        let front = columns.drop_last();
        let end = columns.len() - 1;
        let name = columns[end];
        columns_are_kept_in_order(fields, front);
        schema::lemma_field_index(fields, name);
        let at = schema::field_index(fields, name);
        assert(has_name(fields, name) <==> at < fields.len()) by {
            if has_name(fields, name) && at == fields.len() {
                let i = choose|i: int| 0 <= i < fields.len() && (#[trigger] fields[i]).name == name;
                assert(fields[i].name != name);
            }
        }
        assert(forall|i: int| 0 <= i < front.len() ==> front[i] == #[trigger] columns[i]);
        if projection_of(fields, front) is Err {
            let missing = projection_of(fields, front)->Err_0;
            let i = choose|i: int| 0 <= i < front.len() && front[i] == missing;
            assert(columns[i] == missing);
        } else {
            let before = projection_of(fields, front)->Ok_0;
            if at < fields.len() {
                let after = before.push(fields[at]);
                assert(is_first_called(fields, name, fields[at]));
                assert forall|i: int| 0 <= i < columns.len() implies is_first_called(
                    fields,
                    columns[i],
                    #[trigger] after[i],
                ) by {
                    if i < end {
                        assert(after[i] == before[i]);
                    }
                }
                assert forall|i: int| 0 <= i < columns.len() implies has_name(
                    fields,
                    #[trigger] columns[i],
                ) by {
                    if i < end {
                        assert(has_name(fields, front[i]));
                    }
                }
            } else {
                assert(!has_name(fields, columns[end]));
            }
        }
    }
}

/// Whether a field has this name.
pub open spec fn has_name(fields: Seq<FieldView>, name: Seq<char>) -> bool {
    exists|i: int| 0 <= i < fields.len() && (#[trigger] fields[i]).name == name
}

/// Whether a field is the first of this name.
pub open spec fn is_first_called(fields: Seq<FieldView>, name: Seq<char>, field: FieldView) -> bool {
    exists|k: int|
        0 <= k < fields.len() && #[trigger] fields[k] == field && field.name == name && (forall|i: int|
            0 <= i < k ==> (#[trigger] fields[i]).name != name)
}

/// Positions select columns exactly where the schema has each of them, in the order of the positions.
pub proof fn positions_select_columns(fields: Seq<FieldView>, indices: Seq<usize>)
    ensures
        selection_of(fields, indices) is Ok <==> forall|i: int|
            0 <= i < indices.len() ==> (#[trigger] indices[i]) < fields.len(),
        selection_of(fields, indices) is Ok ==> selection_of(fields, indices)->Ok_0.len()
            == indices.len() && forall|i: int|
            0 <= i < indices.len() ==> #[trigger] selection_of(fields, indices)->Ok_0[i]
                == fields[indices[i] as int],
        selection_of(fields, indices) is Err ==> indices.contains(
            selection_of(fields, indices)->Err_0,
        ) && selection_of(fields, indices)->Err_0 >= fields.len(),
    decreases indices.len(),
{
    if indices.len() > 0 {
        let front = indices.drop_last();
        let end = indices.len() - 1;
        positions_select_columns(fields, front);
        assert(forall|i: int| 0 <= i < front.len() ==> front[i] == #[trigger] indices[i]);
        if selection_of(fields, front) is Err {
            let outside = selection_of(fields, front)->Err_0;
            let i = choose|i: int| 0 <= i < front.len() && front[i] == outside;
            assert(indices[i] == outside);
        } else {
            assert(indices[end] == indices.last());
            assert forall|i: int| 0 <= i < end implies (#[trigger] indices[i]) < fields.len() by {
                assert(front[i] < fields.len());
            }
        }
    }
}

/// A projected batch has the rows of the batch. Under each selected column stand the values of the
/// batch's column of that name, or nulls where it has none.
pub proof fn projections_show_the_selected_columns(
    batch: BatchView,
    schema: SchemaView,
    indices: Seq<usize>,
    i: int,
)
    requires
        batch.wf(),
        projected_batch(batch, schema, Some(indices)) is Ok,
        0 <= i < indices.len(),
    ensures
        ({
            let result = projected_batch(batch, schema, Some(indices))->Ok_0;
            &&& result.rows == batch.rows
            &&& result.columns.len() == indices.len()
            &&& indices[i] < schema.fields.len()
            &&& result.schema.fields[i] == schema.fields[indices[i] as int]
            &&& match batch.column_by_name(schema.fields[indices[i] as int].name) {
                Some(column) => result.columns[i] == column,
                None => result.columns[i].cells == crate::batch::null_cells(batch.rows),
            }
        }),
{
    positions_select_columns(schema.fields, indices);
    let fields = selection_of(schema.fields, indices)->Ok_0;
    let narrowed = SchemaView { fields, metadata: schema.metadata };
    let result = projected_batch(batch, schema, Some(indices))->Ok_0;
    align::alignment_keeps_columns(batch, narrowed, result);
    assert(fields[i] == schema.fields[indices[i] as int]);
    assert(result.columns[i] == result.columns[i]);
}

// What the union has.

/// All fields of these schemas, in their order.
pub open spec fn all_fields(schemas: Seq<SchemaView>) -> Seq<FieldView>
    decreases schemas.len(),
{
    if schemas.len() == 0 {
        Seq::empty()
    } else {
        all_fields(schemas.drop_last()) + schemas.last().fields
    }
}

/// Whether two of these fields have one name and different types, or one has the name of a core column
/// and another type.
pub open spec fn types_conflict(fields: Seq<FieldView>) -> bool {
    ||| exists|i: int, j: int|
        0 <= i < fields.len() && 0 <= j < fields.len() && (#[trigger] fields[i]).name == (
        #[trigger] fields[j]).name && fields[i].data_type != fields[j].data_type
    ||| exists|i: int, k: int|
        0 <= i < fields.len() && 0 <= k < schema::core_fields().len() && (
        #[trigger] fields[i]).name == (#[trigger] schema::core_fields()[k]).name
            && fields[i].data_type != schema::core_fields()[k].data_type && (forall|c: int|
            0 <= c < k ==> (#[trigger] schema::core_fields()[c]).name != fields[i].name)
}

proof fn lemma_merge_concat(
    dynamic: Seq<(Seq<char>, FieldView)>,
    left: Seq<FieldView>,
    right: Seq<FieldView>,
)
    ensures
        merge_fields(dynamic, left + right) == match merge_fields(dynamic, left) {
            Err(detail) => Err::<Seq<(Seq<char>, FieldView)>, Seq<char>>(detail),
            Ok(before) => merge_fields(before, right),
        },
    decreases right.len(),
{
    if right.len() == 0 {
        assert(left + right =~= left);
    } else {
        assert((left + right).drop_last() =~= left + right.drop_last());
        lemma_merge_concat(dynamic, left, right.drop_last());
    }
}

proof fn lemma_merge_all(schemas: Seq<SchemaView>)
    ensures
        merge_schemas(schemas) == merge_fields(Seq::empty(), all_fields(schemas)),
    decreases schemas.len(),
{
    if schemas.len() > 0 {
        lemma_merge_all(schemas.drop_last());
        lemma_merge_concat(
            Seq::empty(),
            all_fields(schemas.drop_last()),
            schemas.last().fields,
        );
    }
}

/// Whether every dynamic column is one of these fields under its name.
spec fn entries_known(dynamic: Seq<(Seq<char>, FieldView)>, fields: Seq<FieldView>) -> bool {
    forall|e: int|
        0 <= e < dynamic.len() ==> (#[trigger] dynamic[e]).1.name == dynamic[e].0
            && fields.contains(dynamic[e].1)
}

proof fn lemma_merge_known(fields: Seq<FieldView>)
    ensures
        merge_fields(Seq::empty(), fields) is Ok ==> entries_known(
            merge_fields(Seq::empty(), fields)->Ok_0,
            fields,
        ) && forall|i: int|
            0 <= i < fields.len() ==> has_column(
                merge_fields(Seq::empty(), fields)->Ok_0,
                #[trigger] fields[i],
            ),
        merge_fields(Seq::empty(), fields) is Err ==> types_conflict(fields),
    decreases fields.len(),
{
    let none = Seq::<(Seq<char>, FieldView)>::empty();
    if merge_fields(none, fields) is Ok {
        lemma_merge_fields_keeps(none, fields, Seq::empty());
    }
    if fields.len() > 0 {
        let front = fields.drop_last();
        let end = fields.len() - 1;
        let field = fields[end];
        lemma_merge_known(front);
        assert(forall|i: int| 0 <= i < front.len() ==> front[i] == #[trigger] fields[i]);
        let core = schema::core_fields();
        if merge_fields(none, front) is Err {
            if exists|i: int, j: int|
                0 <= i < front.len() && 0 <= j < front.len() && (#[trigger] front[i]).name == (
                #[trigger] front[j]).name && front[i].data_type != front[j].data_type {
                let (i, j) = choose|i: int, j: int|
                    0 <= i < front.len() && 0 <= j < front.len() && (#[trigger] front[i]).name == (
                    #[trigger] front[j]).name && front[i].data_type != front[j].data_type;
                assert(fields[i].name == fields[j].name && fields[i].data_type
                    != fields[j].data_type);
            } else {
                let (i, k) = choose|i: int, k: int|
                    0 <= i < front.len() && 0 <= k < core.len() && (#[trigger] front[i]).name == (
                    #[trigger] core[k]).name && front[i].data_type != core[k].data_type && (forall|
                        c: int,
                    |
                        0 <= c < k ==> (#[trigger] core[c]).name != front[i].name);
                assert(fields[i].name == core[k].name && fields[i].data_type != core[k].data_type);
            }
        } else {
            let before = merge_fields(none, front)->Ok_0;
            schema::lemma_field_index(core, field.name);
            let at = schema::field_index(core, field.name);
            if at < core.len() {
                if core[at].data_type != field.data_type {
                    assert(fields[end].name == core[at].name);
                }
            } else if sorted::lookup(before, field.name) is Some {
                let existing = sorted::lookup(before, field.name)->0;
                let e = lemma_lookup_place(before, field.name);
                assert(front.contains(before[e].1));
                let i = choose|i: int| 0 <= i < front.len() && front[i] == existing;
                assert(fields[i] == existing);
                if existing.data_type != field.data_type {
                    assert(fields[i].name == fields[end].name && fields[i].data_type
                        != fields[end].data_type);
                }
            }
            if merge_fields(none, fields) is Ok {
                let after = merge_fields(none, fields)->Ok_0;
                assert forall|e: int| 0 <= e < after.len() implies (#[trigger] after[e]).1.name
                    == after[e].0 && fields.contains(after[e].1) by {
                    if after != before {
                        sorted::lemma_put_members(before, field.name, field, e);
                    }
                    if before.contains(after[e]) {
                        let k = choose|k: int| 0 <= k < before.len() && before[k] == after[e];
                        assert(front.contains(before[k].1));
                        let i = choose|i: int| 0 <= i < front.len() && front[i] == before[k].1;
                        assert(fields[i] == after[e].1);
                    } else {
                        assert(fields[end] == field);
                    }
                }
            }
        }
    }
}

proof fn lemma_lookup_place(dynamic: Seq<(Seq<char>, FieldView)>, name: Seq<char>) -> (at: int)
    requires
        sorted::lookup(dynamic, name) is Some,
    ensures
        0 <= at < dynamic.len(),
        dynamic[at].0 == name,
        dynamic[at].1 == sorted::lookup(dynamic, name)->0,
    decreases dynamic.len(),
{
    if dynamic[0].0 == name {
        0
    } else {
        1 + lemma_lookup_place(dynamic.drop_first(), name)
    }
}

/// Schemas unite exactly where no name has two types among them and the core columns. Behind the core
/// columns the union has only fields of the schemas.
pub proof fn schemas_unite_unless_types_conflict(schemas: Seq<SchemaView>, i: int)
    ensures
        union_of(schemas) is Ok <==> !types_conflict(all_fields(schemas)),
        union_of(schemas) is Ok && schema::core_fields().len() <= i < union_of(
            schemas,
        )->Ok_0.fields.len() ==> all_fields(schemas).contains(union_of(schemas)->Ok_0.fields[i]),
{
    let fields = all_fields(schemas);
    let core = schema::core_fields();
    lemma_merge_all(schemas);
    lemma_merge_known(fields);
    if union_of(schemas) is Ok {
        let dynamic = merge_schemas(schemas)->Ok_0;
        if core.len() <= i < union_of(schemas)->Ok_0.fields.len() {
            assert(union_of(schemas)->Ok_0.fields[i] == dynamic[i - core.len()].1);
        }
        assert forall|a: int, b: int|
            0 <= a < fields.len() && 0 <= b < fields.len() && (#[trigger] fields[a]).name == (
            #[trigger] fields[b]).name implies fields[a].data_type == fields[b].data_type by {
            assert(has_column(dynamic, fields[a]));
            assert(has_column(dynamic, fields[b]));
        }
        assert forall|a: int, k: int|
            0 <= a < fields.len() && 0 <= k < core.len() && (#[trigger] fields[a]).name == (
            #[trigger] core[k]).name && (forall|c: int|
                0 <= c < k ==> (#[trigger] core[c]).name != fields[a].name) implies fields[a].data_type
            == core[k].data_type by {
            schema::lemma_field_index_is(core, fields[a].name, k);
            assert(has_column(dynamic, fields[a]));
        }
    }
}

/// Batches fit a schema together exactly where each of them that has rows does; those stand in their
/// order, and no row is lost.
pub proof fn aligned_batches_keep_their_rows(batches: Seq<BatchView>, schema: SchemaView)
    requires
        forall|i: int| 0 <= i < batches.len() ==> (#[trigger] batches[i]).wf(),
    ensures
        aligned_rows(batches, schema) is Ok <==> forall|i: int|
            0 <= i < batches.len() && (#[trigger] batches[i]).rows > 0 ==> align::aligned(
                batches[i],
                schema,
            ) is Ok,
        aligned_rows(batches, schema) is Ok ==> {
            let after = aligned_rows(batches, schema)->Ok_0;
            &&& generation::batch_rows(after) == generation::batch_rows(batches)
            &&& forall|i: int|
                0 <= i < batches.len() && (#[trigger] batches[i]).rows > 0 ==> after.contains(
                    align::aligned(batches[i], schema)->Ok_0,
                )
            &&& forall|k: int|
                0 <= k < after.len() ==> is_aligned_one(batches, schema, #[trigger] after[k])
        },
    decreases batches.len(),
{
    if batches.len() > 0 {
        let front = batches.drop_last();
        let end = batches.len() - 1;
        let last = batches[end];
        assert(forall|i: int| 0 <= i < front.len() ==> front[i] == #[trigger] batches[i]);
        aligned_batches_keep_their_rows(front, schema);
        if aligned_rows(front, schema) is Err {
            let i = choose|i: int|
                0 <= i < front.len() && (#[trigger] front[i]).rows > 0 && align::aligned(
                    front[i],
                    schema,
                ) is Err;
            assert(batches[i].rows > 0 && align::aligned(batches[i], schema) is Err);
        } else {
            let before = aligned_rows(front, schema)->Ok_0;
            if aligned_rows(batches, schema) is Ok {
                let after = aligned_rows(batches, schema)->Ok_0;
                if last.rows > 0 {
                    align::alignment_keeps_columns(
                        last,
                        schema,
                        align::aligned(last, schema)->Ok_0,
                    );
                    assert(after.drop_last() =~= before);
                    assert(after[after.len() - 1] == align::aligned(last, schema)->Ok_0);
                }
                assert forall|i: int|
                    0 <= i < batches.len() && (
                    #[trigger] batches[i]).rows > 0 implies after.contains(
                    align::aligned(batches[i], schema)->Ok_0,
                ) && align::aligned(batches[i], schema) is Ok by {
                    if i < end {
                        assert(front[i].rows > 0);
                        let item = align::aligned(front[i], schema)->Ok_0;
                        let k = choose|k: int| 0 <= k < before.len() && before[k] == item;
                        assert(after[k] == item);
                    }
                }
                assert forall|k: int| 0 <= k < after.len() implies is_aligned_one(
                    batches,
                    schema,
                    #[trigger] after[k],
                ) by {
                    if k < before.len() {
                        assert(is_aligned_one(front, schema, before[k]));
                        let i = choose|i: int|
                            0 <= i < front.len() && (#[trigger] front[i]).rows > 0
                                && align::aligned(front[i], schema) == Ok::<BatchView, Seq<char>>(
                                before[k],
                            );
                        assert(batches[i].rows > 0);
                    } else {
                        assert(batches[end].rows > 0);
                    }
                }
            } else {
                assert(batches[end].rows > 0 && align::aligned(batches[end], schema) is Err);
            }
        }
    }
}

/// Whether a batch is one of these that has rows, under the schema.
pub open spec fn is_aligned_one(
    batches: Seq<BatchView>,
    schema: SchemaView,
    aligned: BatchView,
) -> bool {
    exists|i: int|
        0 <= i < batches.len() && (#[trigger] batches[i]).rows > 0 && align::aligned(
            batches[i],
            schema,
        ) == Ok::<BatchView, Seq<char>>(aligned)
}

} // verus!
