//! The rows of a scan: memory batches and Parquet batches under one schema.
use std::sync::Arc;
use vstd::prelude::*;
use crate::align;
use crate::align::MemtableErrorView;
use crate::arrange;
use crate::arrange::{arrange, SortKey};
use crate::batch::{BatchView, CellView, RecordBatch};
use crate::scan;
use crate::scan::{
    align_source, keep_rows, projected_schema, visible_sources, Scan, StoreError, StoreSnapshot,
    StoreSnapshotView, Visible, VisibleView,
};
use crate::schema;
use crate::schema::{Schema, SchemaView, COLUMN_WAL_SEQUENCE};
use crate::wal_order;
use crate::wal_order::shared_keys;

verus! {

/// Why a scan has no schema.
pub enum SchemaFault {
    Incompatible(Seq<char>),
    MissingColumn(Seq<char>),
}

/// The schema of a scan: the union of what the snapshot shows, or its named columns.
pub open spec fn schema_for(snapshot: StoreSnapshotView, scan: &Scan) -> Result<
    SchemaView,
    SchemaFault,
> {
    match scan::union_of(scan::schemas_of(snapshot)) {
        Err(detail) => Err(SchemaFault::Incompatible(detail)),
        Ok(union) => match scan.columns {
            None => Ok(union),
            Some(columns) => match scan::projection_of(union.fields, columns.deep_view()) {
                Ok(fields) => Ok(schema::plain_schema(fields)),
                Err(name) => Err(SchemaFault::MissingColumn(name)),
            },
        },
    }
}

pub open spec fn reports_fault(error: StoreError, fault: SchemaFault) -> bool {
    match fault {
        SchemaFault::Incompatible(detail) => error is Incompatible && error->Incompatible_0@
            == detail,
        SchemaFault::MissingColumn(name) => error is MissingColumn && error->MissingColumn_0@
            == name,
    }
}

/// What a scan reads, and the schema of its rows.
#[derive(Debug)]
pub struct ScanPlan {
    pub schema: Schema,
    pub sources: Vec<Visible>,
}

/// What a scan of `snapshot` reads, or nothing where it has no source.
///
/// # Errors
///
/// Returns [`StoreError::Incompatible`] when two generations give one physical name different
/// types, and [`StoreError::MissingColumn`] for a column that no generation has.
pub fn plan_scan(snapshot: &StoreSnapshot, scan: &Scan) -> (result: Result<
    Option<ScanPlan>,
    StoreError,
>)
    ensures
        ({
            let sources = scan::visible(snapshot.deep_view(), scan);
            if sources.len() == 0 {
                result is Ok && result->Ok_0 is None
            } else {
                match schema_for(snapshot.deep_view(), scan) {
                    Err(fault) => result is Err && reports_fault(result->Err_0, fault),
                    Ok(schema) => {
                        &&& result is Ok
                        &&& result->Ok_0 is Some
                        &&& result->Ok_0->0.schema.deep_view() == schema
                        &&& result->Ok_0->0.sources.deep_view() == sources
                    },
                }
            }
        }),
{
    let sources = visible_sources(snapshot, scan);
    if sources.len() == 0 {
        return Ok(None);
    }
    let union = match snapshot.schema() {
        Ok(union) => union,
        Err(error) => return Err(error),
    };
    match projected_schema(&union, &scan.columns) {
        Ok(schema) => Ok(Some(ScanPlan { schema, sources })),
        Err(error) => Err(error),
    }
}

/// How many of the sources are files.
pub open spec fn file_count(sources: Seq<VisibleView>) -> nat
    decreases sources.len(),
{
    if sources.len() == 0 {
        0
    } else {
        file_count(sources.drop_last()) + if sources.last() is File {
            1nat
        } else {
            0
        }
    }
}

/// The batches of a source: its own, or those that were read from its file.
pub open spec fn source_batches(
    sources: Seq<VisibleView>,
    files: Seq<Seq<BatchView>>,
    at: int,
) -> Seq<BatchView> {
    match sources[at] {
        VisibleView::Memory { hour, batches } => batches,
        VisibleView::File { .. } => files[file_count(sources.take(at)) as int],
    }
}

/// The batches of the first `count` sources that have rows.
pub open spec fn read_batches(
    sources: Seq<VisibleView>,
    files: Seq<Seq<BatchView>>,
    count: int,
) -> Seq<BatchView>
    decreases count,
{
    if count <= 0 {
        Seq::empty()
    } else {
        read_batches(sources, files, count - 1) + scan::with_rows(
            source_batches(sources, files, count - 1),
        )
    }
}

/// What the sources hold under the schema of the scan, or why a batch does not fit.
pub open spec fn scanned(
    sources: Seq<VisibleView>,
    files: Seq<Seq<BatchView>>,
    schema: SchemaView,
) -> Result<Seq<BatchView>, Seq<char>> {
    scan::aligned_rows(read_batches(sources, files, sources.len() as int), schema)
}

/// Whether `result` is what a scan of the sources returns: what they hold, in WAL order.
pub open spec fn scan_result(
    sources: Seq<VisibleView>,
    files: Seq<Seq<BatchView>>,
    schema: SchemaView,
    result: Seq<BatchView>,
) -> bool {
    &&& scanned(sources, files, schema) is Ok
    &&& exists|order: Seq<(int, int)>| #[trigger]
        wal_order::ascends(
            read_batches(sources, files, sources.len() as int),
            order,
        ) && arrange::arranges(
            scanned(sources, files, schema)->Ok_0,
            order,
            result,
        )
}

/// Whether the WAL sequence does not decrease from row to row, where the rows have one.
pub open spec fn sequences_ascend(schema: SchemaView, rows: Seq<Seq<CellView>>) -> bool {
    let column = schema::field_index(schema.fields, COLUMN_WAL_SEQUENCE@);
    0 <= column < schema.fields.len() ==> forall|i: int, j: int|
        0 <= i < j < rows.len() ==> arrange::number_of((#[trigger] rows[i])[column])
            <= arrange::number_of((#[trigger] rows[j])[column])
}

/// Batches that have rows, and what they are under a schema.
proof fn lemma_aligned_each(batches: Seq<BatchView>, schema: SchemaView)
    requires
        scan::aligned_rows(batches, schema) is Ok,
        forall|i: int| 0 <= i < batches.len() ==> (#[trigger] batches[i]).wf() && batches[i].rows > 0,
    ensures
        scan::aligned_rows(batches, schema)->Ok_0.len() == batches.len(),
        forall|i: int|
            0 <= i < batches.len() ==> align::aligned(#[trigger] batches[i], schema) == Ok::<
                BatchView,
                Seq<char>,
            >(scan::aligned_rows(batches, schema)->Ok_0[i]),
        arrange::positions(scan::aligned_rows(batches, schema)->Ok_0) == arrange::positions(batches),
    decreases batches.len(),
{
    if batches.len() > 0 {
        let front = batches.drop_last();
        let last = batches[batches.len() - 1];
        assert forall|i: int| 0 <= i < front.len() implies (#[trigger] front[i]).wf()
            && front[i].rows > 0 by {
            assert(front[i] == batches[i]);
        }
        lemma_aligned_each(front, schema);
        assert(last.rows > 0);
        let before = scan::aligned_rows(front, schema)->Ok_0;
        let kept = align::aligned(last, schema)->Ok_0;
        align::alignment_keeps_columns(last, schema, kept);
        let after = scan::aligned_rows(batches, schema)->Ok_0;
        assert(after =~= before.push(kept));
        assert(after.drop_last() =~= before);
        assert forall|i: int| 0 <= i < batches.len() implies align::aligned(
            #[trigger] batches[i],
            schema,
        ) == Ok::<BatchView, Seq<char>>(after[i]) by {
            if i < front.len() {
                assert(front[i] == batches[i]);
            }
        }
        assert(arrange::positions(after) =~= arrange::positions(batches));
    }
}

proof fn lemma_sequences_ascend(
    read: Seq<BatchView>,
    schema: SchemaView,
    order: Seq<(int, int)>,
    result: Seq<BatchView>,
)
    requires
        forall|i: int| 0 <= i < read.len() ==> (#[trigger] read[i]).wf() && read[i].rows > 0,
        scan::aligned_rows(read, schema) is Ok,
        wal_order::ascends(read, order),
        arrange::arranges(scan::aligned_rows(read, schema)->Ok_0, order, result),
    ensures
        sequences_ascend(schema, arrange::rows_of(result)),
        forall|i: int| 0 <= i < result.len() ==> (#[trigger] result[i]).schema == schema,
{
    let aligned = scan::aligned_rows(read, schema)->Ok_0;
    let column = schema::field_index(schema.fields, COLUMN_WAL_SEQUENCE@);
    schema::lemma_field_index(schema.fields, COLUMN_WAL_SEQUENCE@);
    lemma_aligned_each(read, schema);
    arrange::lemma_arrangement(order, aligned);
    let rows = arrange::rows_of(result);
    assert forall|i: int| 0 <= i < result.len() implies (#[trigger] result[i]).schema == schema by {
        assert(arrange::has_schema(aligned, result[i].schema));
        let b = choose|b: int|
            0 <= b < aligned.len() && #[trigger] aligned[b].schema == result[i].schema;
        assert(align::aligned(read[b], schema) == Ok::<BatchView, Seq<char>>(aligned[b]));
    }
    if 0 <= column < schema.fields.len() {
        assert forall|i: int| 0 <= i < rows.len() implies arrange::number_of(
            (#[trigger] rows[i])[column],
        ) == arrange::number_in(read[order[i].0], COLUMN_WAL_SEQUENCE@, order[i].1) by {
            let at = order[i];
            assert(arrange::names_row(aligned, at));
            let source = read[at.0];
            assert(source.wf());
            assert(align::aligned(source, schema) == Ok::<BatchView, Seq<char>>(aligned[at.0]));
            align::alignment_keeps_columns(source, schema, aligned[at.0]);
            assert(rows[i] == arrange::row_at(aligned[at.0], at.1));
            assert(aligned[at.0].columns[column].cells[at.1] == rows[i][column]);
        }
        assert forall|i: int, j: int| 0 <= i < j < rows.len() implies arrange::number_of(
            (#[trigger] rows[i])[column],
        ) <= arrange::number_of((#[trigger] rows[j])[column]) by {
            assert(wal_order::earlier(read, order[i], order[j]));
        }
    }
}

proof fn lemma_file_count_step(sources: Seq<VisibleView>, at: int)
    requires
        0 <= at < sources.len(),
    ensures
        file_count(sources.take(at + 1)) == file_count(sources.take(at)) + if sources[at] is File {
            1nat
        } else {
            0
        },
        file_count(sources.take(at + 1)) <= file_count(sources),
    decreases sources.len() - at,
{
    assert(sources.take(at + 1).drop_last() =~= sources.take(at));
    if at + 1 < sources.len() {
        lemma_file_count_step(sources, at + 1);
    } else {
        assert(sources.take(at + 1) =~= sources);
    }
}

/// The batches of all sources that have rows.
fn read_sources(plan: &ScanPlan, files: &Vec<Vec<Arc<RecordBatch>>>) -> (read: Vec<Arc<RecordBatch>>)
    requires
        files.len() == file_count(plan.sources.deep_view()),
    ensures
        read.deep_view() == read_batches(
            plan.sources.deep_view(),
            files.deep_view(),
            plan.sources.len() as int,
        ),
{
    let ghost sources = plan.sources.deep_view();
    let ghost contents = files.deep_view();
    let mut read: Vec<Arc<RecordBatch>> = Vec::new();
    let mut next_file: usize = 0;
    let mut i: usize = 0;
    assert(read.deep_view() =~= Seq::empty());
    assert(sources.take(0) =~= Seq::empty());
    while i < plan.sources.len()
        invariant
            i <= plan.sources.len(),
            sources == plan.sources.deep_view(),
            contents == files.deep_view(),
            files.len() == file_count(sources),
            next_file == file_count(sources.take(i as int)),
            read.deep_view() == read_batches(sources, contents, i as int),
        decreases plan.sources.len() - i,
    {
        assert(sources[i as int] == plan.sources@[i as int].deep_view());
        proof {
            lemma_file_count_step(sources, i as int);
        }
        let mut kept = match &plan.sources[i] {
            Visible::Memory { hour: _, batches } => keep_rows(batches),
            Visible::File { hour: _, relative_path: _, statistics: _ } => {
                assert(contents[next_file as int] == files@[next_file as int].deep_view());
                next_file = next_file + 1;
                keep_rows(&files[next_file - 1])
            },
        };
        let ghost before = read.deep_view();
        let ghost added = kept.deep_view();
        read.append(&mut kept);
        assert(read.deep_view() =~= before + added);
        i = i + 1;
    }
    read
}

pub proof fn lemma_read_batches(sources: Seq<VisibleView>, files: Seq<Seq<BatchView>>, count: int)
    ensures
        forall|i: int|
            0 <= i < read_batches(sources, files, count).len() ==> (#[trigger] read_batches(
                sources,
                files,
                count,
            )[i]).rows > 0,
    decreases count,
{
    if count > 0 {
        lemma_read_batches(sources, files, count - 1);
        let batches = source_batches(sources, files, count - 1);
        let keep = |batch: BatchView| batch.rows > 0;
        let kept = scan::with_rows(batches);
        assert forall|i: int| 0 <= i < kept.len() implies (#[trigger] kept[i]).rows > 0 by {
            batches.lemma_filter_pred(keep, i);
        }
        let before = read_batches(sources, files, count - 1);
        let read = read_batches(sources, files, count);
        assert forall|i: int| 0 <= i < read.len() implies (#[trigger] read[i]).rows > 0 by {
            if i < before.len() {
                assert(read[i] == before[i]);
            } else {
                assert(read[i] == kept[i - before.len()]);
            }
        }
    }
}

/// The rows of a scan, in WAL order. `files` holds the batches of each file among the sources, in
/// their order.
///
/// Files hold their rows from the newest event to the oldest, so the order is restored here: by WAL
/// sequence, then by record index. Each returned batch holds rows of one batch that was read.
///
/// # Errors
///
/// Returns [`StoreError::Memtable`] when a batch does not fit the schema of the scan.
pub fn scan_rows(plan: &ScanPlan, files: &Vec<Vec<Arc<RecordBatch>>>) -> (result: Result<
    Vec<RecordBatch>,
    StoreError,
>)
    requires
        files.len() == file_count(plan.sources.deep_view()),
    ensures
        match scanned(plan.sources.deep_view(), files.deep_view(), plan.schema.deep_view()) {
            Ok(_) => {
                &&& result is Ok
                &&& scan_result(
                    plan.sources.deep_view(),
                    files.deep_view(),
                    plan.schema.deep_view(),
                    result->Ok_0.deep_view(),
                )
                &&& sequences_ascend(
                    plan.schema.deep_view(),
                    arrange::rows_of(result->Ok_0.deep_view()),
                )
                &&& forall|i: int|
                    0 <= i < result->Ok_0.deep_view().len() ==> (
                    #[trigger] result->Ok_0.deep_view()[i]).schema == plan.schema.deep_view()
            },
            Err(detail) => result is Err && result->Err_0 is Memtable
                && result->Err_0->Memtable_0.deep_view() == MemtableErrorView::IncompatibleBatch(
                detail,
            ),
        },
{
    let read = read_sources(plan, files);
    let ghost views = read.deep_view();
    let ghost target = plan.schema.deep_view();
    let aligned = match align_source(&read, &plan.schema) {
        Ok(aligned) => aligned,
        Err(error) => {
            return Err(error);
        },
    };
    let keys = shared_keys(&read);
    proof {
        lemma_read_batches(
            plan.sources.deep_view(),
            files.deep_view(),
            plan.sources.deep_view().len() as int,
        );
        lemma_aligned_each(views, target);
        wal_order::lemma_wal_keys(views);
    }
    let result = arrange(&aligned, keys);
    proof {
        let keys = choose|keys: Seq<SortKey>| #[trigger]
            arrange::sorts(wal_order::wal_keys(views), keys) && arrange::arranges(
                aligned.deep_view(),
                arrange::places(keys),
                result.deep_view(),
            );
        let order = arrange::places(keys);
        arrange::lemma_arrangement(order, aligned.deep_view());
        wal_order::lemma_sorted_keys_ascend(views, keys, order);
        assert(wal_order::ascends(views, order));
        lemma_sequences_ascend(views, target, order, result.deep_view());
    }
    Ok(result)
}

} // verus!
