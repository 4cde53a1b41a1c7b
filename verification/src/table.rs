//! The `logs` table of one pinned tenant snapshot, one partition per event hour.
use vstd::prelude::*;
use crate::align::MemtableErrorView;
use crate::arrange;
use crate::batch::{BatchView, RecordBatch};
use crate::layout;
use crate::newest;
use crate::newest::sort_by_newest_event;
use crate::query::QueryError;
use crate::scan;
use crate::scan::{
    align_source, HourSources, HourSourcesView, PublishedFile, PublishedFileView, Scan, StoreError,
};
use crate::schema;
use crate::schema::{EventHour, Schema, SchemaView};
use crate::store::{PinnedSnapshot, Store};
use crate::window;
use crate::window::{hour_window, time_predicate, Expr, Literal, Operator, WindowView};

verus! {

/// One event hour's visible batches and commit-referenced Parquet files.
#[derive(Debug)]
pub struct HourPartition {
    pub hour: EventHour,
    /// Absolute paths.
    pub files: Vec<String>,
    /// Batches under the schema of the table, from the newest event to the oldest.
    pub batches: Vec<RecordBatch>,
}

#[verifier::ext_equal]
pub struct HourPartitionView {
    pub hour: u64,
    pub files: Seq<Seq<char>>,
    pub batches: Seq<BatchView>,
}

impl DeepView for HourPartition {
    type V = HourPartitionView;

    open spec fn deep_view(&self) -> HourPartitionView {
        HourPartitionView {
            hour: self.hour@,
            files: self.files.deep_view(),
            batches: self.batches.deep_view(),
        }
    }
}

pub open spec fn file_paths(files: Seq<PublishedFileView>) -> Seq<Seq<char>> {
    files.map_values(|file: PublishedFileView| file.path)
}

/// What the partitions of a table hold, or why a batch does not fit its schema. An hour with neither
/// files nor batches has no partition.
pub open spec fn partitions_of(hours: Seq<HourSourcesView>, schema: SchemaView) -> Result<
    Seq<HourPartitionView>,
    Seq<char>,
>
    decreases hours.len(),
{
    if hours.len() == 0 {
        Ok(Seq::empty())
    } else {
        let hour = hours.last();
        match partitions_of(hours.drop_last(), schema) {
            Err(detail) => Err(detail),
            Ok(before) => if hour.files.len() == 0 && hour.batches.len() == 0 {
                Ok(before)
            } else {
                match scan::aligned_rows(hour.batches, schema) {
                    Err(detail) => Err(detail),
                    Ok(batches) => Ok(
                        before.push(
                            HourPartitionView {
                                hour: hour.hour,
                                files: file_paths(hour.files),
                                batches,
                            },
                        ),
                    ),
                }
            },
        }
    }
}

/// Whether a partition holds the rows of another from the newest event to the oldest, and is the
/// same otherwise.
pub open spec fn orders_partition(held: HourPartitionView, sorted: HourPartitionView) -> bool {
    &&& sorted.hour == held.hour
    &&& sorted.files == held.files
    &&& exists|order: Seq<(int, int)>| #[trigger]
        newest::newest_order(held.batches, order) && arrange::arranges(
            held.batches,
            order,
            sorted.batches,
        )
}

/// Whether partitions are others, each with its rows from the newest event to the oldest.
pub open spec fn orders_partitions(
    held: Seq<HourPartitionView>,
    sorted: Seq<HourPartitionView>,
) -> bool {
    &&& sorted.len() == held.len()
    &&& forall|i: int| 0 <= i < held.len() ==> orders_partition(#[trigger] held[i], sorted[i])
}

proof fn lemma_partitions_fail(hours: Seq<HourSourcesView>, schema: SchemaView, count: int)
    requires
        0 <= count <= hours.len(),
        partitions_of(hours.take(count), schema) is Err,
    ensures
        partitions_of(hours, schema) == partitions_of(hours.take(count), schema),
    decreases hours.len() - count,
{
    if count < hours.len() {
        assert(hours.take(count + 1).drop_last() =~= hours.take(count));
        lemma_partitions_fail(hours, schema, count + 1);
    } else {
        assert(hours.take(count) =~= hours);
    }
}

fn paths_of(files: &Vec<PublishedFile>) -> (paths: Vec<String>)
    ensures
        paths.deep_view() == file_paths(files.deep_view()),
{
    let ghost target = file_paths(files.deep_view());
    let mut paths: Vec<String> = Vec::new();
    let mut i: usize = 0;
    while i < files.len()
        invariant
            i <= files.len(),
            target == file_paths(files.deep_view()),
            paths.deep_view() =~= target.take(i as int),
        decreases files.len() - i,
    {
        let ghost before = paths.deep_view();
        paths.push(files[i].path.clone());
        assert(paths.deep_view() =~= before.push(target[i as int]));
        i = i + 1;
    }
    assert(paths.deep_view() =~= target);
    paths
}

fn partition_hours(hours: &Vec<HourSources>, schema: &Schema) -> (result: Result<
    Vec<HourPartition>,
    StoreError,
>)
    ensures
        match partitions_of(hours.deep_view(), schema.deep_view()) {
            Ok(held) => result is Ok && orders_partitions(held, result->Ok_0.deep_view()),
            Err(detail) => result is Err && result->Err_0 is Memtable
                && result->Err_0->Memtable_0.deep_view() == MemtableErrorView::IncompatibleBatch(
                detail,
            ),
        },
{
    let ghost all = hours.deep_view();
    let ghost target = schema.deep_view();
    let mut partitions: Vec<HourPartition> = Vec::new();
    let ghost mut held: Seq<HourPartitionView> = Seq::empty();
    let mut i: usize = 0;
    assert(all.take(0) =~= Seq::empty());
    assert(partitions.deep_view() =~= Seq::empty());
    while i < hours.len()
        invariant
            i <= hours.len(),
            all == hours.deep_view(),
            target == schema.deep_view(),
            partitions_of(all.take(i as int), target) == Ok::<Seq<HourPartitionView>, Seq<char>>(
                held,
            ),
            orders_partitions(held, partitions.deep_view()),
        decreases hours.len() - i,
    {
        let sources = &hours[i];
        assert(all.take(i + 1).drop_last() =~= all.take(i as int));
        assert(all[i as int] == sources.deep_view());
        if sources.files.len() > 0 || sources.batches.len() > 0 {
            match align_source(&sources.batches, schema) {
                Ok(batches) => {
                    let ghost before = partitions.deep_view();
                    let ghost aligned = batches.deep_view();
                    let sorted = sort_by_newest_event(&batches);
                    let ghost order = choose|order: Seq<(int, int)>| #[trigger]
                        newest::newest_order(aligned, order) && arrange::arranges(
                            aligned,
                            order,
                            sorted.deep_view(),
                        );
                    let ghost in_order = sorted.deep_view();
                    let partition = HourPartition {
                        hour: sources.hour,
                        files: paths_of(&sources.files),
                        batches: sorted,
                    };
                    let ghost view = partition.deep_view();
                    partitions.push(partition);
                    proof {
                        assert(partitions.deep_view() =~= before.push(view));
                        let had = held;
                        let added = HourPartitionView { batches: aligned, ..view };
                        held = had.push(added);
                        assert(newest::newest_order(added.batches, order));
                        assert(view.batches == in_order);
                        assert(orders_partition(added, view));
                        assert forall|k: int| 0 <= k < held.len() implies orders_partition(
                            #[trigger] held[k],
                            partitions.deep_view()[k],
                        ) by {
                            if k < had.len() {
                                assert(orders_partition(had[k], before[k]));
                            }
                        }
                    }
                },
                Err(error) => {
                    proof {
                        lemma_partitions_fail(all, target, i + 1);
                    }
                    return Err(error);
                },
            }
        }
        i = i + 1;
    }
    assert(all.take(i as int) =~= all);
    Ok(partitions)
}

/// Table for one pinned tenant snapshot.
///
/// Each [`HourPartition`] becomes one output partition. Within that partition, memory batches and
/// commit-referenced Parquet files are read under the reconciled schema of the snapshot. Missing
/// nullable columns are typed nulls. Memory rows are ordered as files are: by event time, then WAL
/// sequence, both descending.
#[derive(Debug)]
pub struct ObserverTableProvider {
    pub epoch: u64,
    pub schema: Schema,
    pub hours: Vec<HourPartition>,
}

/// The partitions that a window keeps.
pub open spec fn kept_partitions(
    hours: Seq<HourPartitionView>,
    window: WindowView,
) -> Seq<HourPartitionView> {
    hours.filter(|hour: HourPartitionView| window::holds_hour(window, hour.hour))
}

/// The sources that a whole scan of a snapshot reads.
pub open spec fn whole_scan(store: &Store, snapshot: &PinnedSnapshot) -> Seq<HourSourcesView> {
    scan::sources_by_hour(
        layout::tenant_dir(store@.root, store@.tenant),
        scan::visible(
            snapshot.snapshot.deep_view(),
            &(Scan { columns: None, from_hour: None, to_hour: None }),
        ),
    )
}

/// Whether the scan can use a filter to skip hours.
pub open spec fn pushed_down(filter: Expr) -> bool {
    window::narrowed(filter, window::every_hour()) is Some
}

/// A filter is used exactly as far as it can skip an hour: one that skips an hour is used, one that says
/// nothing of the event time is not, and a comparison of the event time with an instant always is.
pub proof fn filters_are_used_to_skip_hours(
    filter: Expr,
    hour: u64,
    name: String,
    operator: Operator,
    instant: u64,
)
    requires
        name@ == schema::COLUMN_EVENT_TIME_UNIX_NANO@,
        operator == Operator::Eq || operator == Operator::Lt || operator == Operator::LtEq
            || operator == Operator::Gt || operator == Operator::GtEq,
    ensures
        !window::holds_hour(window::window_of(seq![filter]), hour) ==> pushed_down(filter),
        !window::mentions(filter, schema::COLUMN_EVENT_TIME_UNIX_NANO@) ==> !pushed_down(filter),
        pushed_down(
            Expr::Binary(
                Box::new(Expr::Column(name)),
                operator,
                Box::new(Expr::Literal(Literal::UInt64(instant))),
            ),
        ),
        pushed_down(
            Expr::Binary(
                Box::new(Expr::Literal(Literal::UInt64(instant))),
                operator,
                Box::new(Expr::Column(name)),
            ),
        ),
{
    assert(seq![filter].drop_last() =~= Seq::empty());
    assert(seq![filter].last() == filter);
    assert(window::window_of(Seq::empty()) == window::every_hour());
    if !window::mentions(filter, schema::COLUMN_EVENT_TIME_UNIX_NANO@) {
        window::other_filters_prune_nothing(seq![filter]);
        assert(seq![filter][0] == filter);
    }
}

impl ObserverTableProvider {
    /// Aligns and orders the snapshot's in-memory batches and keeps the commit-referenced Parquet paths.
    ///
    /// # Errors
    ///
    /// Returns [`QueryError::Storage`] when the snapshot schema is incompatible or a batch cannot
    /// be aligned.
    pub fn new(store: &Store, snapshot: &PinnedSnapshot) -> (result: Result<Self, QueryError>)
        ensures
            match scan::union_of(scan::schemas_of(snapshot.snapshot.deep_view())) {
                Err(detail) => result is Err && result->Err_0 is Storage
                    && result->Err_0->Storage_0 is Incompatible
                    && result->Err_0->Storage_0->Incompatible_0@ == detail,
                Ok(schema) => match partitions_of(whole_scan(store, snapshot), schema) {
                    Err(detail) => result is Err && result->Err_0 is Storage
                        && result->Err_0->Storage_0 is Memtable
                        && result->Err_0->Storage_0->Memtable_0.deep_view()
                        == MemtableErrorView::IncompatibleBatch(detail),
                    Ok(hours) => result is Ok && result->Ok_0.epoch == snapshot.snapshot.epoch
                        && result->Ok_0.schema.deep_view() == schema
                        && orders_partitions(hours, result->Ok_0.hours.deep_view()),
                },
            },
    {
        let schema = match snapshot.snapshot.schema() {
            Ok(schema) => schema,
            Err(error) => return Err(QueryError::Storage(error)),
        };
        let scan = Scan { columns: None, from_hour: None, to_hour: None };
        let sources = store.sources(snapshot, &scan);
        match partition_hours(&sources, &schema) {
            Ok(hours) => Ok(
                ObserverTableProvider { epoch: snapshot.snapshot.epoch, schema, hours },
            ),
            Err(error) => Err(QueryError::Storage(error)),
        }
    }

    /// For each filter, whether the scan can use it to skip hours. A filter that it uses is applied
    /// again above the scan, and one that it does not use is applied only there.
    #[must_use]
    pub fn supports_filters_pushdown(&self, filters: &Vec<&Expr>) -> (supported: Vec<bool>)
        ensures
            supported@ == filters@.map_values(
                |filter: &Expr| pushed_down(*filter),
            ),
    {
        let ghost target = filters@.map_values(
            |filter: &Expr| pushed_down(*filter),
        );
        let mut supported: Vec<bool> = Vec::new();
        let mut i: usize = 0;
        while i < filters.len()
            invariant
                i <= filters.len(),
                target == filters@.map_values(
                    |filter: &Expr| pushed_down(*filter),
                ),
                supported@ =~= target.take(i as int),
            decreases filters.len() - i,
        {
            supported.push(time_predicate(filters[i]).is_some());
            assert(supported@ =~= target.take(i + 1));
            i = i + 1;
        }
        assert(supported@ =~= target);
        supported
    }

    /// The partitions that a scan with `filters` reads, oldest hour first.
    #[must_use]
    pub fn scan(&self, filters: &Vec<Expr>) -> (selected: Vec<&HourPartition>)
        ensures
            selected.deep_view() == kept_partitions(
                self.hours.deep_view(),
                window::window_of(filters@),
            ),
    {
        let window = hour_window(filters);
        let ghost view = window@;
        let ghost all = self.hours.deep_view();
        let mut selected: Vec<&HourPartition> = Vec::new();
        let mut i: usize = 0;
        assert(all.take(0) =~= Seq::empty());
        proof {
            reveal(Seq::filter);
        }
        assert(selected.deep_view() =~= Seq::empty());
        while i < self.hours.len()
            invariant
                i <= self.hours.len(),
                window@ == view,
                all == self.hours.deep_view(),
                selected.deep_view() == kept_partitions(all.take(i as int), view),
            decreases self.hours.len() - i,
        {
            let ghost before = selected.deep_view();
            assert(all.take(i + 1).drop_last() =~= all.take(i as int));
            assert(all[i as int] == self.hours@[i as int].deep_view());
            proof {
                reveal(Seq::filter);
            }
            if window.contains(self.hours[i].hour) {
                selected.push(&self.hours[i]);
                assert(selected.deep_view() =~= before.push(all[i as int]));
            }
            i = i + 1;
        }
        assert(all.take(i as int) =~= all);
        selected
    }
}

/// A scan reads every partition that holds an event time for which all its filters can hold.
pub proof fn scans_keep_matching_partitions(
    hours: Seq<HourPartitionView>,
    filters: Seq<Expr>,
    time: u64,
    at: int,
)
    requires
        0 <= at < hours.len(),
        hours[at].hour == schema::hour_start(time),
        forall|i: int| 0 <= i < filters.len() ==> window::can_hold(#[trigger] filters[i], time),
    ensures
        kept_partitions(hours, window::window_of(filters)).contains(hours[at]),
{
    window::pruning_keeps_matching_hours(filters, time);
    broadcast use vstd::seq_lib::group_filter_ensures;

    let keeps = |hour: HourPartitionView|
        window::holds_hour(window::window_of(filters), hour.hour);
    assert(keeps(hours[at]));
    assert(hours.contains(hours[at]));
    assert(hours.filter(keeps).contains(hours[at]));
}

/// A scan reads every partition that holds a row of which all its filters can be true.
pub proof fn scans_keep_matching_rows(
    hours: Seq<HourPartitionView>,
    filters: Seq<Expr>,
    row: Map<Seq<char>, int>,
    at: int,
)
    requires
        0 <= at < hours.len(),
        row.dom().contains(schema::COLUMN_EVENT_TIME_UNIX_NANO@),
        row[schema::COLUMN_EVENT_TIME_UNIX_NANO@] <= u64::MAX,
        hours[at].hour <= row[schema::COLUMN_EVENT_TIME_UNIX_NANO@] < hours[at].hour
            + schema::NANOS_PER_HOUR,
        hours[at].hour % schema::NANOS_PER_HOUR == 0,
        forall|i: int| 0 <= i < filters.len() ==> window::can_be_true(#[trigger] filters[i], row),
    ensures
        kept_partitions(hours, window::window_of(filters)).contains(hours[at]),
{
    broadcast use vstd::seq_lib::group_filter_ensures;

    window::pruning_keeps_matching_rows(filters, row, hours[at].hour);
    let keeps = |hour: HourPartitionView|
        window::holds_hour(window::window_of(filters), hour.hour);
    assert(keeps(hours[at]));
    assert(hours.contains(hours[at]));
    assert(hours.filter(keeps).contains(hours[at]));
}

/// Whether a partition shows an hour: its files by their paths, and its batches under the schema.
pub open spec fn shows_hour(
    partition: HourPartitionView,
    hour: HourSourcesView,
    schema: SchemaView,
) -> bool {
    &&& partition.hour == hour.hour
    &&& partition.files.len() == hour.files.len()
    &&& forall|f: int|
        0 <= f < hour.files.len() ==> (#[trigger] partition.files[f]) == hour.files[f].path
    &&& scan::aligned_rows(hour.batches, schema) == Ok::<Seq<BatchView>, Seq<char>>(
        partition.batches,
    )
}

/// A table has a partition for every hour that has a file or a batch, with all of them, and no other
/// partition. It can be made wherever the batches of all hours fit the schema.
pub proof fn partitions_show_their_hours(hours: Seq<HourSourcesView>, schema: SchemaView)
    ensures
        partitions_of(hours, schema) is Ok <==> forall|h: int|
            0 <= h < hours.len() && ((#[trigger] hours[h]).files.len() > 0
                || hours[h].batches.len() > 0) ==> scan::aligned_rows(hours[h].batches, schema) is Ok,
        partitions_of(hours, schema) is Ok ==> {
            let all = partitions_of(hours, schema)->Ok_0;
            &&& forall|h: int|
                0 <= h < hours.len() && ((#[trigger] hours[h]).files.len() > 0
                    || hours[h].batches.len() > 0) ==> some_partition_shows(all, hours[h], schema)
            &&& forall|p: int|
                0 <= p < all.len() ==> some_hour_shown(hours, #[trigger] all[p], schema)
        },
    decreases hours.len(),
{
    if hours.len() > 0 {
        let front = hours.drop_last();
        let end = hours.len() - 1;
        let last = hours[end];
        assert(forall|h: int| 0 <= h < front.len() ==> front[h] == #[trigger] hours[h]);
        partitions_show_their_hours(front, schema);
        if partitions_of(front, schema) is Err {
            let h = choose|h: int|
                0 <= h < front.len() && ((#[trigger] front[h]).files.len() > 0
                    || front[h].batches.len() > 0) && scan::aligned_rows(
                    front[h].batches,
                    schema,
                ) is Err;
            assert(scan::aligned_rows(hours[h].batches, schema) is Err);
        } else {
            let before = partitions_of(front, schema)->Ok_0;
            if partitions_of(hours, schema) is Ok {
                let all = partitions_of(hours, schema)->Ok_0;
                if last.files.len() > 0 || last.batches.len() > 0 {
                    let own = all[before.len() as int];
                    assert(shows_hour(own, last, schema));
                }
                assert forall|h: int|
                    0 <= h < hours.len() && ((#[trigger] hours[h]).files.len() > 0
                        || hours[h].batches.len() > 0) implies some_partition_shows(
                    all,
                    hours[h],
                    schema,
                ) && scan::aligned_rows(hours[h].batches, schema) is Ok by {
                    if h < end {
                        assert(some_partition_shows(before, front[h], schema));
                        let p = choose|p: int|
                            0 <= p < before.len() && shows_hour(
                                #[trigger] before[p],
                                front[h],
                                schema,
                            );
                        assert(all[p] == before[p]);
                    } else {
                        assert(shows_hour(all[before.len() as int], hours[h], schema));
                    }
                }
                assert forall|p: int| 0 <= p < all.len() implies some_hour_shown(
                    hours,
                    #[trigger] all[p],
                    schema,
                ) by {
                    if p < before.len() {
                        assert(all[p] == before[p]);
                        assert(some_hour_shown(front, before[p], schema));
                        let h = choose|h: int|
                            0 <= h < front.len() && shows_hour(
                                before[p],
                                #[trigger] front[h],
                                schema,
                            );
                        assert(shows_hour(all[p], hours[h], schema));
                    } else {
                        assert(shows_hour(all[p], hours[end], schema));
                    }
                }
            } else {
                assert(scan::aligned_rows(hours[end].batches, schema) is Err);
            }
        }
    }
}

/// Whether one of the partitions shows this hour.
pub open spec fn some_partition_shows(
    all: Seq<HourPartitionView>,
    hour: HourSourcesView,
    schema: SchemaView,
) -> bool {
    exists|p: int| 0 <= p < all.len() && shows_hour(#[trigger] all[p], hour, schema)
}

/// Whether a partition shows one of these hours.
pub open spec fn some_hour_shown(
    hours: Seq<HourSourcesView>,
    partition: HourPartitionView,
    schema: SchemaView,
) -> bool {
    exists|h: int| 0 <= h < hours.len() && shows_hour(partition, #[trigger] hours[h], schema)
}

} // verus!
