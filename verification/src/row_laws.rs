//! Rows as bags: what scans return of their sources, and what publication keeps.
use vstd::multiset::Multiset;
use vstd::prelude::*;
use crate::align;
use crate::arrange;
use crate::batch;
use crate::batch::{BatchView, CellView};
use crate::catalog;
use crate::catalog::CatalogError;
use crate::commit::{CommitFileView, CommitView};
use crate::generation;
use crate::generation::{GenerationView, HourView};
use crate::layout;
use crate::memtable;
use crate::newest;
use crate::parquet;
use crate::parquet::{HourFileView, ParquetFileView};
use crate::publication;
use crate::rows;
use crate::scan;
use crate::scan::{Scan, VisibleView};
use crate::schema;
use crate::schema::{FieldView, SchemaView, COLUMN_RECORD_INDEX, COLUMN_WAL_SEQUENCE};
use crate::store;
use crate::store::StoreView;
use crate::wal_order;

verus! {

// Bags of rows under a schema.

/// One row under a schema: its cells by name, nulls for the columns that its batch lacks.
pub open spec fn row_under(schema: SchemaView, batch: BatchView, row: int) -> Seq<CellView> {
    Seq::new(
        schema.fields.len(),
        |c: int|
            match batch.column_by_name(schema.fields[c].name) {
                Some(column) => column.cells[row],
                None => CellView::Null,
            },
    )
}

pub open spec fn rows_under(schema: SchemaView, batch: BatchView) -> Seq<Seq<CellView>> {
    Seq::new(batch.rows, |row: int| row_under(schema, batch, row))
}

/// The rows of batches under a schema, whatever their order.
pub open spec fn bag_under(schema: SchemaView, batches: Seq<BatchView>) -> Multiset<Seq<CellView>>
    decreases batches.len(),
{
    if batches.len() == 0 {
        Multiset::empty()
    } else {
        bag_under(schema, batches.drop_last()).add(rows_under(schema, batches.last()).to_multiset())
    }
}

/// The batches of each source.
pub open spec fn contents(sources: Seq<VisibleView>, files: Seq<Seq<BatchView>>) -> Seq<
    Seq<BatchView>,
> {
    Seq::new(sources.len(), |s: int| rows::source_batches(sources, files, s))
}

/// The rows of several sources under a schema, whatever their order.
pub open spec fn total_bag(schema: SchemaView, contents: Seq<Seq<BatchView>>) -> Multiset<
    Seq<CellView>,
>
    decreases contents.len(),
{
    if contents.len() == 0 {
        Multiset::empty()
    } else {
        total_bag(schema, contents.drop_last()).add(bag_under(schema, contents.last()))
    }
}

/// Whether all batches are well formed, as every batch is.
pub open spec fn all_wf(contents: Seq<Seq<BatchView>>) -> bool {
    forall|s: int, b: int|
        0 <= s < contents.len() && 0 <= b < contents[s].len() ==> (#[trigger] contents[s][b]).wf()
}

proof fn lemma_bag_add(schema: SchemaView, left: Seq<BatchView>, right: Seq<BatchView>)
    ensures
        bag_under(schema, left + right) == bag_under(schema, left).add(bag_under(schema, right)),
    decreases right.len(),
{
    if right.len() == 0 {
        assert(left + right =~= left);
        assert(bag_under(schema, left).add(Multiset::empty()) =~= bag_under(schema, left));
    } else {
        assert((left + right).drop_last() =~= left + right.drop_last());
        lemma_bag_add(schema, left, right.drop_last());
        assert(bag_under(schema, left + right) =~= bag_under(schema, left).add(
            bag_under(schema, right),
        ));
    }
}

proof fn lemma_total_add(
    schema: SchemaView,
    left: Seq<Seq<BatchView>>,
    right: Seq<Seq<BatchView>>,
)
    ensures
        total_bag(schema, left + right) == total_bag(schema, left).add(total_bag(schema, right)),
    decreases right.len(),
{
    if right.len() == 0 {
        assert(left + right =~= left);
        assert(total_bag(schema, left).add(Multiset::empty()) =~= total_bag(schema, left));
    } else {
        assert((left + right).drop_last() =~= left + right.drop_last());
        lemma_total_add(schema, left, right.drop_last());
        assert(total_bag(schema, left + right) =~= total_bag(schema, left).add(
            total_bag(schema, right),
        ));
    }
}

/// A batch without rows adds nothing to a bag.
proof fn lemma_empty_bag(schema: SchemaView, batch: BatchView)
    requires
        batch.rows == 0,
    ensures
        rows_under(schema, batch).to_multiset() == Multiset::<Seq<CellView>>::empty(),
{
    broadcast use vstd::seq_lib::group_to_multiset_ensures;

    assert(rows_under(schema, batch) =~= Seq::empty());
    assert(rows_under(schema, batch).to_multiset().len() == 0);
    assert(rows_under(schema, batch).to_multiset() =~= Multiset::empty());
}

proof fn lemma_bag_with_rows(schema: SchemaView, batches: Seq<BatchView>)
    ensures
        bag_under(schema, scan::with_rows(batches)) == bag_under(schema, batches),
    decreases batches.len(),
{
    reveal(Seq::filter);
    if batches.len() > 0 {
        let front = batches.drop_last();
        let last = batches.last();
        lemma_bag_with_rows(schema, front);
        if last.rows > 0 {
            let kept = scan::with_rows(front);
            assert(scan::with_rows(batches) =~= kept.push(last));
            assert(kept.push(last).drop_last() =~= kept);
        } else {
            lemma_empty_bag(schema, last);
            assert(scan::with_rows(batches) =~= scan::with_rows(front));
            assert(bag_under(schema, front).add(Multiset::empty()) =~= bag_under(schema, front));
        }
    }
}

proof fn lemma_read_bag(
    schema: SchemaView,
    sources: Seq<VisibleView>,
    files: Seq<Seq<BatchView>>,
    count: int,
)
    requires
        0 <= count <= sources.len(),
    ensures
        bag_under(schema, rows::read_batches(sources, files, count)) == total_bag(
            schema,
            contents(sources, files).take(count),
        ),
    decreases count,
{
    let all = contents(sources, files);
    if count > 0 {
        lemma_read_bag(schema, sources, files, count - 1);
        let batches = rows::source_batches(sources, files, count - 1);
        assert(all.take(count).drop_last() =~= all.take(count - 1));
        assert(all.take(count).last() == batches);
        lemma_bag_add(
            schema,
            rows::read_batches(sources, files, count - 1),
            scan::with_rows(batches),
        );
        lemma_bag_with_rows(schema, batches);
    } else {
        assert(all.take(0) =~= Seq::empty());
    }
}

/// A batch under a schema holds the rows that the batch holds.
proof fn lemma_aligned_rows_under(batch: BatchView, schema: SchemaView, result: BatchView)
    requires
        batch.wf(),
        align::aligned(batch, schema) == Ok::<BatchView, Seq<char>>(result),
    ensures
        arrange::rows_in(result) == rows_under(schema, batch),
{
    align::alignment_keeps_columns(batch, schema, result);
    assert forall|row: int| 0 <= row < batch.rows implies #[trigger] arrange::rows_in(result)[row]
        == rows_under(schema, batch)[row] by {
        let here = arrange::row_at(result, row);
        let there = row_under(schema, batch, row);
        assert forall|c: int| 0 <= c < schema.fields.len() implies #[trigger] here[c] == there[c] by {
            assert(here[c] == result.columns[c].cells[row]);
        }
        assert(here =~= there);
    }
    assert(arrange::rows_in(result) =~= rows_under(schema, batch));
}

proof fn lemma_aligned_bag(batches: Seq<BatchView>, schema: SchemaView)
    requires
        scan::aligned_rows(batches, schema) is Ok,
        forall|i: int| 0 <= i < batches.len() ==> (#[trigger] batches[i]).wf(),
    ensures
        arrange::row_bag(scan::aligned_rows(batches, schema)->Ok_0) == bag_under(schema, batches),
    decreases batches.len(),
{
    broadcast use vstd::seq_lib::group_to_multiset_ensures;

    if batches.len() > 0 {
        let front = batches.drop_last();
        let last = batches[batches.len() - 1];
        assert forall|i: int| 0 <= i < front.len() implies (#[trigger] front[i]).wf() by {
            assert(front[i] == batches[i]);
        }
        lemma_aligned_bag(front, schema);
        let before = scan::aligned_rows(front, schema)->Ok_0;
        let after = scan::aligned_rows(batches, schema)->Ok_0;
        assert(last.wf());
        if last.rows > 0 {
            let kept = align::aligned(last, schema)->Ok_0;
            lemma_aligned_rows_under(last, schema, kept);
            assert(after =~= before.push(kept));
            assert(after.drop_last() =~= before);
            vstd::seq_lib::lemma_multiset_commutative(
                arrange::rows_of(before),
                arrange::rows_in(kept),
            );
        } else {
            lemma_empty_bag(schema, last);
            assert(bag_under(schema, front).add(Multiset::empty()) =~= bag_under(schema, front));
        }
    } else {
        let none = arrange::rows_of(Seq::<BatchView>::empty());
        assert(scan::aligned_rows(batches, schema)->Ok_0 =~= Seq::empty());
        assert(none =~= Seq::empty());
        assert(none.to_multiset().len() == 0);
        assert(none.to_multiset() =~= Multiset::empty());
    }
}

proof fn lemma_read_wf(sources: Seq<VisibleView>, files: Seq<Seq<BatchView>>, count: int)
    requires
        0 <= count <= sources.len(),
        all_wf(contents(sources, files)),
    ensures
        forall|i: int|
            0 <= i < rows::read_batches(sources, files, count).len() ==> (
            #[trigger] rows::read_batches(sources, files, count)[i]).wf(),
    decreases count,
{
    if count > 0 {
        lemma_read_wf(sources, files, count - 1);
        let batches = rows::source_batches(sources, files, count - 1);
        let kept = scan::with_rows(batches);
        let before = rows::read_batches(sources, files, count - 1);
        let read = rows::read_batches(sources, files, count);
        assert(contents(sources, files)[count - 1] == batches);
        assert forall|i: int| 0 <= i < kept.len() implies (#[trigger] kept[i]).wf() by {
            assert(kept.contains(kept[i]));
            batches.lemma_filter_contains_rev(|batch: BatchView| batch.rows > 0, kept[i]);
            let b = choose|b: int| 0 <= b < batches.len() && batches[b] == kept[i];
            assert(contents(sources, files)[count - 1][b].wf());
        }
        assert forall|i: int| 0 <= i < read.len() implies (#[trigger] read[i]).wf() by {
            if i < before.len() {
                assert(read[i] == before[i]);
            } else {
                assert(read[i] == kept[i - before.len()]);
            }
        }
    }
}

/// A scan returns every row of its sources, and returns it once, with its values unchanged under the
/// schema of the scan.
pub proof fn scans_return_rows_once(
    sources: Seq<VisibleView>,
    files: Seq<Seq<BatchView>>,
    schema: SchemaView,
    result: Seq<BatchView>,
)
    requires
        all_wf(contents(sources, files)),
        rows::scan_result(sources, files, schema, result),
    ensures
        arrange::row_bag(result) == total_bag(schema, contents(sources, files)),
{
    let count = sources.len() as int;
    let read = rows::read_batches(sources, files, count);
    let aligned = rows::scanned(sources, files, schema)->Ok_0;
    let order = choose|order: Seq<(int, int)>| #[trigger]
        wal_order::ascends(read, order) && arrange::arranges(aligned, order, result);
    arrange::arranging_keeps_rows(aligned, order, result);
    lemma_read_wf(sources, files, count);
    lemma_aligned_bag(read, schema);
    lemma_read_bag(schema, sources, files, count);
    assert(contents(sources, files).take(count) =~= contents(sources, files));
}

// Publication.

/// Whether `written` are the hour files of the first `count` partitions of a generation, each with
/// its rows from the newest event to the oldest. An hour without rows has no file.
pub open spec fn written_files(
    root: Seq<char>,
    tenant: Seq<char>,
    generation: GenerationView,
    count: int,
    written: Seq<HourFileView>,
) -> bool
    decreases count,
{
    if count <= 0 {
        written.len() == 0
    } else {
        match parquet::hour_file_of(root, tenant, generation, count - 1) {
            Err(_) => false,
            Ok(None) => written_files(root, tenant, generation, count - 1, written),
            Ok(Some(file)) => {
                &&& written.len() > 0
                &&& newest::orders_file(file, written.last())
                &&& written_files(root, tenant, generation, count - 1, written.drop_last())
            },
        }
    }
}

/// The batches of the files that a scan reads.
pub open spec fn selected_batches(written: Seq<HourFileView>, scan: &Scan) -> Seq<Seq<BatchView>>
    decreases written.len(),
{
    if written.len() == 0 {
        Seq::empty()
    } else {
        let before = selected_batches(written.drop_last(), scan);
        if scan::selects(scan, written.last().hour) {
            before.push(written.last().batches)
        } else {
            before
        }
    }
}

/// The batches of sources in memory.
pub open spec fn memory_batches(sources: Seq<VisibleView>) -> Seq<Seq<BatchView>> {
    sources.map_values(|source: VisibleView| source->Memory_batches)
}

/// The cells of a row by the names of a schema, where `fields` name the cells.
pub open spec fn picked(schema: SchemaView, fields: Seq<FieldView>) -> spec_fn(
    Seq<CellView>,
) -> Seq<CellView> {
    |row: Seq<CellView>|
        Seq::new(
            schema.fields.len(),
            |c: int|
                {
                    let at = schema::field_index(fields, schema.fields[c].name);
                    if at < fields.len() {
                        row[at]
                    } else {
                        CellView::Null
                    }
                },
        )
}

/// The bag of batches that share their fields follows from their rows alone.
proof fn lemma_bag_by_rows(schema: SchemaView, fields: Seq<FieldView>, batches: Seq<BatchView>)
    requires
        forall|i: int|
            0 <= i < batches.len() ==> (#[trigger] batches[i]).schema.fields == fields
                && batches[i].wf(),
    ensures
        bag_under(schema, batches) == arrange::rows_of(batches).map_values(
            picked(schema, fields),
        ).to_multiset(),
    decreases batches.len(),
{
    broadcast use vstd::seq_lib::group_to_multiset_ensures;

    let pick = picked(schema, fields);
    if batches.len() > 0 {
        let front = batches.drop_last();
        let last = batches[batches.len() - 1];
        assert forall|i: int| 0 <= i < front.len() implies (#[trigger] front[i]).schema.fields
            == fields && front[i].wf() by {
            assert(front[i] == batches[i]);
        }
        lemma_bag_by_rows(schema, fields, front);
        assert(last.schema.fields == fields && last.wf());
        assert(last.columns.len() == fields.len());
        let here = arrange::rows_in(last);
        assert forall|row: int| 0 <= row < last.rows implies pick(here[row])
            == #[trigger] rows_under(schema, last)[row] by {
            assert forall|c: int| 0 <= c < schema.fields.len() implies pick(here[row])[c]
                == #[trigger] row_under(schema, last, row)[c] by {
                schema::lemma_field_index(fields, schema.fields[c].name);
            }
            assert(pick(here[row]) =~= row_under(schema, last, row));
        }
        assert(here.map_values(pick) =~= rows_under(schema, last));
        assert(arrange::rows_of(batches).map_values(pick) =~= arrange::rows_of(front).map_values(
            pick,
        ) + here.map_values(pick));
        vstd::seq_lib::lemma_multiset_commutative(
            arrange::rows_of(front).map_values(pick),
            here.map_values(pick),
        );
    } else {
        let none = arrange::rows_of(batches).map_values(pick);
        assert(none =~= Seq::empty());
        assert(none.to_multiset().len() == 0);
        assert(none.to_multiset() =~= Multiset::empty());
    }
}

/// Batches under a schema with their own fields hold their own rows.
proof fn lemma_aligned_all_bag(
    schema: SchemaView,
    batches: Seq<BatchView>,
    target: SchemaView,
    result: Seq<BatchView>,
)
    requires
        parquet::aligned_all(batches, target) == Ok::<Seq<BatchView>, Seq<char>>(result),
        forall|i: int|
            0 <= i < batches.len() ==> (#[trigger] batches[i]).schema.fields == target.fields
                && batches[i].wf(),
    ensures
        bag_under(schema, result) == bag_under(schema, batches),
        forall|i: int|
            0 <= i < result.len() ==> (#[trigger] result[i]).schema == target && result[i].wf(),
    decreases batches.len(),
{
    if batches.len() > 0 {
        let front = batches.drop_last();
        let last = batches[batches.len() - 1];
        assert forall|i: int| 0 <= i < front.len() implies (#[trigger] front[i]).schema.fields
            == target.fields && front[i].wf() by {
            assert(front[i] == batches[i]);
        }
        let before = parquet::aligned_all(front, target)->Ok_0;
        let kept = align::aligned(last, target)->Ok_0;
        lemma_aligned_all_bag(schema, front, target, before);
        assert(last.schema.fields == target.fields && last.wf());
        align::alignment_keeps_columns(last, target, kept);
        assert(result =~= before.push(kept));
        assert(result.drop_last() =~= before);
        assert forall|row: int| 0 <= row < last.rows implies #[trigger] rows_under(schema, kept)[row]
            == rows_under(schema, last)[row] by {
            let here = row_under(schema, kept, row);
            let there = row_under(schema, last, row);
            assert forall|c: int| 0 <= c < schema.fields.len() implies #[trigger] here[c]
                == there[c] by {
                let name = schema.fields[c].name;
                let at = schema::field_index(target.fields, name);
                schema::lemma_field_index(target.fields, name);
                if at < target.fields.len() {
                    assert(target.fields[at].name == name);
                    assert(kept.columns[at] == last.column_by_name(name)->0);
                }
            }
            assert(here =~= there);
        }
        assert(rows_under(schema, kept) =~= rows_under(schema, last));
        assert forall|i: int| 0 <= i < result.len() implies (#[trigger] result[i]).schema == target
            && result[i].wf() by {
            if i < before.len() {
                assert(result[i] == before[i]);
            }
        }
    }
}

proof fn lemma_no_rows_bag(schema: SchemaView, batches: Seq<BatchView>)
    requires
        generation::batch_rows(batches) == 0,
    ensures
        bag_under(schema, batches) == Multiset::<Seq<CellView>>::empty(),
    decreases batches.len(),
{
    if batches.len() > 0 {
        lemma_no_rows_bag(schema, batches.drop_last());
        lemma_empty_bag(schema, batches.last());
        assert(Multiset::<Seq<CellView>>::empty().add(Multiset::empty()) =~= Multiset::empty());
    }
}

/// The file of an hour holds the rows that the hour holds in memory.
proof fn lemma_hour_bag(
    root: Seq<char>,
    tenant: Seq<char>,
    generation: GenerationView,
    at: int,
    file: HourFileView,
    sorted: HourFileView,
    schema: SchemaView,
)
    requires
        memtable::frozen_ok(generation),
        0 <= at < generation.partitions.len(),
        parquet::hour_file_of(root, tenant, generation, at) == Ok::<
            Option<HourFileView>,
            parquet::ParquetErrorView,
        >(Some(file)),
        newest::orders_file(file, sorted),
    ensures
        bag_under(schema, sorted.batches) == bag_under(schema, generation.partitions[at].batches),
        sorted.hour == generation.partitions[at].hour,
        forall|i: int| 0 <= i < sorted.batches.len() ==> (#[trigger] sorted.batches[i]).wf(),
{
    let held = generation.partitions[at].batches;
    let target = file.schema;
    let fields = generation.schema.fields;
    let under = generation::frozen_under(generation.schema);
    assert forall|i: int| 0 <= i < held.len() implies (#[trigger] held[i]).schema.fields
        == target.fields && held[i].wf() by {
        assert(under(generation.partitions[at].batches[i]));
    }
    lemma_aligned_all_bag(schema, held, target, file.batches);
    let order = choose|order: Seq<(int, int)>| #[trigger]
        newest::newest_order(file.batches, order) && arrange::arranges(
            file.batches,
            order,
            sorted.batches,
        );
    arrange::arranging_keeps_rows(file.batches, order, sorted.batches);
    assert forall|i: int| 0 <= i < sorted.batches.len() implies (#[trigger] sorted.batches[i]).schema.fields
        == fields && sorted.batches[i].wf() by {
        assert(arrange::has_schema(file.batches, sorted.batches[i].schema));
    }
    lemma_bag_by_rows(schema, fields, file.batches);
    lemma_bag_by_rows(schema, fields, sorted.batches);
    arrange::lemma_bag_of_map(
        arrange::rows_of(sorted.batches),
        arrange::rows_of(file.batches),
        picked(schema, fields),
    );
}

/// The files of a generation that a scan reads hold the rows of the hours that it reads.
proof fn lemma_written_bag(
    root: Seq<char>,
    tenant: Seq<char>,
    generation: GenerationView,
    count: int,
    written: Seq<HourFileView>,
    schema: SchemaView,
    scan: &Scan,
)
    requires
        memtable::frozen_ok(generation),
        0 <= count <= generation.partitions.len(),
        written_files(root, tenant, generation, count, written),
    ensures
        total_bag(schema, selected_batches(written, scan)) == total_bag(
            schema,
            memory_batches(scan::visible_partitions(generation.partitions.take(count), scan)),
        ),
        all_wf(selected_batches(written, scan)),
    decreases count,
{
    let head = generation.partitions.take(count);
    if count <= 0 {
        assert(memory_batches(scan::visible_partitions(head, scan)) =~= Seq::empty());
        assert(selected_batches(written, scan) =~= Seq::empty());
    } else {
        let front = generation.partitions.take(count - 1);
        let partition = generation.partitions[count - 1];
        assert(head.drop_last() =~= front);
        assert(head.last() == partition);
        let before = scan::visible_partitions(front, scan);
        let source = VisibleView::Memory { hour: partition.hour, batches: partition.batches };
        let was = memory_batches(before);
        if scan::selects(scan, partition.hour) {
            assert(memory_batches(scan::visible_partitions(head, scan)) =~= was.push(
                partition.batches,
            ));
            assert(was.push(partition.batches).drop_last() =~= was);
        }
        match parquet::hour_file_of(root, tenant, generation, count - 1) {
            Err(_) => {},
            Ok(None) => {
                lemma_written_bag(root, tenant, generation, count - 1, written, schema, scan);
                lemma_no_rows_bag(schema, partition.batches);
                assert(total_bag(schema, was).add(Multiset::empty()) =~= total_bag(schema, was));
            },
            Ok(Some(file)) => {
                let rest = written.drop_last();
                let last = written.last();
                lemma_written_bag(root, tenant, generation, count - 1, rest, schema, scan);
                lemma_hour_bag(root, tenant, generation, count - 1, file, last, schema);
                let kept = selected_batches(rest, scan);
                if scan::selects(scan, partition.hour) {
                    let now = selected_batches(written, scan);
                    assert(now =~= kept.push(last.batches));
                    assert(now.drop_last() =~= kept);
                    assert forall|s: int, b: int|
                        0 <= s < now.len() && 0 <= b < now[s].len() implies (
                    #[trigger] now[s][b]).wf() by {
                        if s < kept.len() {
                            assert(now[s] == kept[s]);
                            assert(kept[s][b].wf());
                        } else {
                            assert(last.batches[b].wf());
                        }
                    }
                }
            },
        }
    }
}

/// The sources of the oldest generation come first.
proof fn lemma_oldest_first(generations: Seq<GenerationView>, scan: &Scan)
    requires
        generations.len() > 0,
    ensures
        scan::visible_generations(generations, scan) == scan::visible_partitions(
            generations[0].partitions,
            scan,
        ) + scan::visible_generations(generations.drop_first(), scan),
    decreases generations.len(),
{
    let front = generations.drop_last();
    let rest = generations.drop_first();
    if generations.len() == 1 {
        assert(front =~= Seq::empty());
        assert(rest =~= Seq::empty());
        assert(scan::visible_generations(generations, scan) =~= scan::visible_partitions(
            generations[0].partitions,
            scan,
        ) + scan::visible_generations(rest, scan));
    } else {
        lemma_oldest_first(front, scan);
        assert(front.drop_first() =~= rest.drop_last());
        assert(front[0] == generations[0]);
        assert(rest.last() == generations.last());
        assert(scan::visible_generations(generations, scan) =~= scan::visible_partitions(
            generations[0].partitions,
            scan,
        ) + scan::visible_generations(rest, scan));
    }
}

spec fn only_files(sources: Seq<VisibleView>) -> bool {
    forall|i: int| 0 <= i < sources.len() ==> (#[trigger] sources[i]) is File
}

spec fn only_memory(sources: Seq<VisibleView>) -> bool {
    forall|i: int| 0 <= i < sources.len() ==> (#[trigger] sources[i]) is Memory
}

proof fn lemma_files_only(files: Seq<CommitFileView>, retired: Set<Seq<char>>, scan: &Scan)
    ensures
        only_files(scan::visible_files(files, retired, scan)),
    decreases files.len(),
{
    if files.len() > 0 {
        lemma_files_only(files.drop_last(), retired, scan);
    }
}

proof fn lemma_commits_only(commits: Seq<CommitView>, retired: Set<Seq<char>>, scan: &Scan)
    ensures
        only_files(scan::visible_commits(commits, retired, scan)),
    decreases commits.len(),
{
    if commits.len() > 0 {
        lemma_commits_only(commits.drop_last(), retired, scan);
        lemma_files_only(commits.last().files, retired, scan);
    }
}

proof fn lemma_partitions_only(partitions: Seq<HourView>, scan: &Scan)
    ensures
        only_memory(scan::visible_partitions(partitions, scan)),
    decreases partitions.len(),
{
    if partitions.len() > 0 {
        lemma_partitions_only(partitions.drop_last(), scan);
    }
}

proof fn lemma_generations_only(generations: Seq<GenerationView>, scan: &Scan)
    ensures
        only_memory(scan::visible_generations(generations, scan)),
    decreases generations.len(),
{
    if generations.len() > 0 {
        lemma_generations_only(generations.drop_last(), scan);
        lemma_partitions_only(generations.last().partitions, scan);
    }
}

proof fn lemma_count_files(sources: Seq<VisibleView>)
    requires
        only_files(sources),
    ensures
        rows::file_count(sources) == sources.len(),
    decreases sources.len(),
{
    if sources.len() > 0 {
        let front = sources.drop_last();
        assert forall|i: int| 0 <= i < front.len() implies (#[trigger] front[i]) is File by {
            assert(front[i] == sources[i]);
        }
        lemma_count_files(front);
        assert(sources[sources.len() - 1] is File);
    }
}

proof fn lemma_count_mixed(published: Seq<VisibleView>, memory: Seq<VisibleView>)
    requires
        only_files(published),
        only_memory(memory),
    ensures
        rows::file_count(published + memory) == published.len(),
    decreases memory.len(),
{
    if memory.len() == 0 {
        assert(published + memory =~= published);
        lemma_count_files(published);
    } else {
        let front = memory.drop_last();
        assert forall|i: int| 0 <= i < front.len() implies (#[trigger] front[i]) is Memory by {
            assert(front[i] == memory[i]);
        }
        lemma_count_mixed(published, front);
        assert((published + memory).drop_last() =~= published + front);
        assert(memory[memory.len() - 1] is Memory);
    }
}

/// What files and memory hold together: what was read, then what memory has.
proof fn lemma_contents(
    published: Seq<VisibleView>,
    memory: Seq<VisibleView>,
    files: Seq<Seq<BatchView>>,
)
    requires
        only_files(published),
        only_memory(memory),
        files.len() == published.len(),
    ensures
        contents(published + memory, files) == files + memory_batches(memory),
{
    let sources = published + memory;
    assert forall|s: int| 0 <= s < sources.len() implies #[trigger] contents(sources, files)[s] == (
    files + memory_batches(memory))[s] by {
        if s < published.len() {
            let head = published.take(s);
            assert(sources.take(s) =~= head);
            assert forall|i: int| 0 <= i < head.len() implies (#[trigger] head[i]) is File by {
                assert(head[i] == published[i]);
            }
            lemma_count_files(head);
            assert(sources[s] == published[s]);
        } else {
            assert(sources[s] == memory[s - published.len()]);
        }
    }
    assert(contents(sources, files) =~= files + memory_batches(memory));
}

/// A commit names one file for each that was written, in their order.
proof fn lemma_recorded_hours(
    tenant_dir: Seq<char>,
    files: Seq<ParquetFileView>,
    written: Seq<HourFileView>,
    retired: Set<Seq<char>>,
    scan: &Scan,
)
    requires
        publication::recorded_files(tenant_dir, files) is Ok,
        files.len() == written.len(),
        forall|k: int| 0 <= k < files.len() ==> (#[trigger] files[k]).hour == written[k].hour,
        forall|k: int|
            0 <= k < publication::recorded_files(tenant_dir, files)->Ok_0.len()
                ==> !retired.contains(
                (#[trigger] publication::recorded_files(tenant_dir, files)->Ok_0[k]).relative_path,
            ),
    ensures
        scan::visible_files(
            publication::recorded_files(tenant_dir, files)->Ok_0,
            retired,
            scan,
        ).len() == selected_batches(written, scan).len(),
    decreases files.len(),
{
    if files.len() > 0 {
        let front = files.drop_last();
        let rest = written.drop_last();
        let recorded = publication::recorded_files(tenant_dir, files)->Ok_0;
        let before = publication::recorded_files(tenant_dir, front)->Ok_0;
        assert(recorded.drop_last() =~= before);
        assert forall|k: int| 0 <= k < front.len() implies (#[trigger] front[k]).hour
            == rest[k].hour by {
            assert(front[k] == files[k]);
        }
        assert forall|k: int| 0 <= k < before.len() implies !retired.contains(
            (#[trigger] before[k]).relative_path,
        ) by {
            assert(before[k] == recorded[k]);
        }
        lemma_recorded_hours(tenant_dir, front, rest, retired, scan);
        assert(!retired.contains(recorded[recorded.len() - 1].relative_path));
        assert(files[files.len() - 1].hour == written[written.len() - 1].hour);
    }
}

// Reading back.

/// The number of a row under a name, where `fields` name its cells.
pub open spec fn number_under(fields: Seq<FieldView>, name: Seq<char>, row: Seq<CellView>) -> u64 {
    let at = schema::field_index(fields, name);
    if at < fields.len() {
        arrange::number_of(row[at])
    } else {
        0
    }
}

/// Whether a row was written before another, by WAL sequence and record index.
pub open spec fn written_before(
    fields: Seq<FieldView>,
    first: Seq<CellView>,
    second: Seq<CellView>,
) -> bool {
    let first_sequence = number_under(fields, COLUMN_WAL_SEQUENCE@, first);
    let second_sequence = number_under(fields, COLUMN_WAL_SEQUENCE@, second);
    ||| first_sequence < second_sequence
    ||| first_sequence == second_sequence && number_under(fields, COLUMN_RECORD_INDEX@, first)
        < number_under(fields, COLUMN_RECORD_INDEX@, second)
}

/// Whether rows stand in WAL order, no two at one place of the log.
pub open spec fn in_log_order(fields: Seq<FieldView>, rows: Seq<Seq<CellView>>) -> bool {
    forall|i: int, j: int|
        0 <= i < j < rows.len() ==> written_before(fields, #[trigger] rows[i], #[trigger] rows[j])
}

/// Rows that are alike as bags, one of them in strict order and the other never against it, are the
/// same rows in the same order.
proof fn lemma_one_log_order(
    fields: Seq<FieldView>,
    strict: Seq<Seq<CellView>>,
    other: Seq<Seq<CellView>>,
)
    requires
        strict.to_multiset() == other.to_multiset(),
        in_log_order(fields, strict),
        forall|i: int, j: int|
            0 <= i < j < other.len() ==> !written_before(
                fields,
                #[trigger] other[j],
                #[trigger] other[i],
            ),
    ensures
        other == strict,
    decreases strict.len(),
{
    broadcast use vstd::seq_lib::group_to_multiset_ensures;

    assert(strict.to_multiset().len() == strict.len());
    assert(other.to_multiset().len() == other.len());
    if strict.len() == 0 {
        assert(other =~= strict);
    } else {
        let last = strict.len() - 1;
        assert(strict.contains(strict[last]));
        assert(other.to_multiset().count(strict[last]) > 0);
        assert(other.contains(strict[last]));
        let j = choose|j: int| 0 <= j < other.len() && other[j] == strict[last];
        assert(other.contains(other[last]));
        assert(strict.to_multiset().count(other[last]) > 0);
        assert(strict.contains(other[last]));
        let k = choose|k: int| 0 <= k < strict.len() && strict[k] == other[last];
        if k < last {
            assert(written_before(fields, strict[k], strict[last]));
            assert(!written_before(fields, other[last], other[j]));
        }
        let front = strict.drop_last();
        let rest = other.drop_last();
        assert(front.push(strict[last]) =~= strict);
        assert(rest.push(other[last]) =~= other);
        assert(front.to_multiset() =~= strict.to_multiset().remove(strict[last]));
        assert(rest.to_multiset() =~= other.to_multiset().remove(strict[last]));
        assert forall|i: int, j: int| 0 <= i < j < front.len() implies written_before(
            fields,
            #[trigger] front[i],
            #[trigger] front[j],
        ) by {
            assert(written_before(fields, strict[i], strict[j]));
        }
        assert forall|i: int, j: int| 0 <= i < j < rest.len() implies !written_before(
            fields,
            #[trigger] rest[j],
            #[trigger] rest[i],
        ) by {
            assert(!written_before(fields, other[j], other[i]));
        }
        lemma_one_log_order(fields, front, rest);
    }
}

/// What is read of an hour comes back in the order in which it was written, though its file holds
/// the rows from the newest event to the oldest.
pub proof fn hours_read_back_in_order(
    fields: Seq<FieldView>,
    written: HourFileView,
    stored: HourFileView,
    read: Seq<BatchView>,
    order: Seq<(int, int)>,
)
    requires
        forall|i: int|
            0 <= i < written.batches.len() ==> (#[trigger] written.batches[i]).schema.fields
                == fields,
        in_log_order(fields, arrange::rows_of(written.batches)),
        newest::orders_file(written, stored),
        wal_order::ascends(stored.batches, order),
        arrange::arranges(stored.batches, order, read),
    ensures
        arrange::rows_of(read) == arrange::rows_of(written.batches),
{
    let sorted = stored.batches;
    let newest = choose|newest: Seq<(int, int)>| #[trigger]
        newest::newest_order(written.batches, newest) && arrange::arranges(
            written.batches,
            newest,
            sorted,
        );
    arrange::arranging_keeps_rows(written.batches, newest, sorted);
    arrange::arranging_keeps_rows(sorted, order, read);
    arrange::lemma_arrangement(order, sorted);
    let rows = arrange::rows_of(read);
    assert forall|i: int| 0 <= i < rows.len() implies {
        let row = #[trigger] rows[i];
        let source = sorted[order[i].0];
        &&& number_under(fields, COLUMN_WAL_SEQUENCE@, row) == arrange::number_in(
            source,
            COLUMN_WAL_SEQUENCE@,
            order[i].1,
        )
        &&& number_under(fields, COLUMN_RECORD_INDEX@, row) == arrange::number_in(
            source,
            COLUMN_RECORD_INDEX@,
            order[i].1,
        )
    } by {
        assert(arrange::names_row(sorted, order[i]));
        let source = sorted[order[i].0];
        assert(arrange::has_schema(written.batches, source.schema));
        assert(source.schema.fields == fields);
        assert(source.wf());
        assert(rows[i] == arrange::row_at(source, order[i].1));
        schema::lemma_field_index(fields, COLUMN_WAL_SEQUENCE@);
        schema::lemma_field_index(fields, COLUMN_RECORD_INDEX@);
    }
    assert forall|i: int, j: int| 0 <= i < j < rows.len() implies !written_before(
        fields,
        #[trigger] rows[j],
        #[trigger] rows[i],
    ) by {
        assert(wal_order::earlier(sorted, order[i], order[j]));
    }
    lemma_one_log_order(fields, arrange::rows_of(written.batches), rows);
}

// Scans that succeed.

/// Whether every batch that has rows fits a schema.
pub open spec fn all_fit(contents: Seq<Seq<BatchView>>, schema: SchemaView) -> bool {
    forall|s: int, b: int|
        0 <= s < contents.len() && 0 <= b < contents[s].len() && contents[s][b].rows > 0
            ==> align::aligned(#[trigger] contents[s][b], schema) is Ok
}

proof fn lemma_aligned_rows_fit(batches: Seq<BatchView>, schema: SchemaView)
    ensures
        scan::aligned_rows(batches, schema) is Ok <==> forall|i: int|
            0 <= i < batches.len() && batches[i].rows > 0 ==> align::aligned(
                #[trigger] batches[i],
                schema,
            ) is Ok,
    decreases batches.len(),
{
    if batches.len() > 0 {
        let front = batches.drop_last();
        lemma_aligned_rows_fit(front, schema);
        assert(forall|i: int| 0 <= i < front.len() ==> #[trigger] front[i] == batches[i]);
        assert(batches[batches.len() - 1] == batches.last());
        if scan::aligned_rows(batches, schema) is Ok {
            assert forall|i: int| 0 <= i < batches.len() && batches[i].rows > 0 implies align::aligned(
                #[trigger] batches[i],
                schema,
            ) is Ok by {
                if i < front.len() {
                    assert(front[i] == batches[i]);
                }
            }
        }
        if forall|i: int|
            0 <= i < batches.len() && batches[i].rows > 0 ==> align::aligned(
                #[trigger] batches[i],
                schema,
            ) is Ok {
            assert forall|i: int| 0 <= i < front.len() && front[i].rows > 0 implies align::aligned(
                #[trigger] front[i],
                schema,
            ) is Ok by {
                assert(align::aligned(batches[i], schema) is Ok);
            }
        }
    }
}

/// A scan succeeds if and only if what its sources hold fits its schema.
proof fn lemma_scanned_fit(
    sources: Seq<VisibleView>,
    files: Seq<Seq<BatchView>>,
    schema: SchemaView,
    count: int,
)
    requires
        0 <= count <= sources.len(),
    ensures
        (forall|i: int|
            0 <= i < rows::read_batches(sources, files, count).len() ==> align::aligned(
                #[trigger] rows::read_batches(sources, files, count)[i],
                schema,
            ) is Ok) <==> all_fit(contents(sources, files).take(count), schema),
    decreases count,
{
    let read = rows::read_batches(sources, files, count);
    let held = contents(sources, files).take(count);
    if count > 0 {
        lemma_scanned_fit(sources, files, schema, count - 1);
        let before = rows::read_batches(sources, files, count - 1);
        let held_before = contents(sources, files).take(count - 1);
        let batches = rows::source_batches(sources, files, count - 1);
        let keep = |batch: BatchView| batch.rows > 0;
        let kept = scan::with_rows(batches);
        assert(held[count - 1] == batches);
        if all_fit(held, schema) {
            assert forall|s: int, b: int|
                0 <= s < held_before.len() && 0 <= b < held_before[s].len()
                    && held_before[s][b].rows > 0 implies align::aligned(
                #[trigger] held_before[s][b],
                schema,
            ) is Ok by {
                assert(align::aligned(held[s][b], schema) is Ok);
            }
            assert forall|i: int| 0 <= i < read.len() implies align::aligned(
                #[trigger] read[i],
                schema,
            ) is Ok by {
                if i < before.len() {
                    assert(read[i] == before[i]);
                } else {
                    let one = kept[i - before.len()];
                    assert(read[i] == one);
                    batches.lemma_filter_pred(keep, i - before.len());
                    assert(kept.contains(one));
                    batches.lemma_filter_contains_rev(keep, one);
                    let b = choose|b: int| 0 <= b < batches.len() && batches[b] == one;
                    assert(align::aligned(held[count - 1][b], schema) is Ok);
                }
            }
        }
        if forall|i: int|
            0 <= i < read.len() ==> align::aligned(#[trigger] read[i], schema) is Ok {
            assert forall|i: int| 0 <= i < before.len() implies align::aligned(
                #[trigger] before[i],
                schema,
            ) is Ok by {
                assert(read[i] == before[i]);
            }
            assert forall|s: int, b: int|
                0 <= s < held.len() && 0 <= b < held[s].len() && held[s][b].rows > 0 implies align::aligned(
                #[trigger] held[s][b],
                schema,
            ) is Ok by {
                if s < count - 1 {
                    assert(held_before[s] == held[s]);
                    assert(align::aligned(held_before[s][b], schema) is Ok);
                } else {
                    let one = batches[b];
                    batches.lemma_filter_contains(keep, b);
                    assert(kept.contains(one));
                    let k = choose|k: int| 0 <= k < kept.len() && kept[k] == one;
                    assert(read[before.len() + k] == one);
                }
            }
        }
    } else {
        assert(held =~= Seq::empty());
    }
}

/// A scan succeeds if and only if every batch of its sources that has rows fits its schema.
pub proof fn scans_succeed_on_fitting_batches(
    sources: Seq<VisibleView>,
    files: Seq<Seq<BatchView>>,
    schema: SchemaView,
)
    ensures
        rows::scanned(sources, files, schema) is Ok <==> all_fit(contents(sources, files), schema),
{
    let count = sources.len() as int;
    let read = rows::read_batches(sources, files, count);
    lemma_aligned_rows_fit(read, schema);
    lemma_scanned_fit(sources, files, schema, count);
    assert(contents(sources, files).take(count) =~= contents(sources, files));
    rows::lemma_read_batches(sources, files, count);
    assert forall|i: int| 0 <= i < read.len() implies (#[trigger] read[i]).rows > 0 by {}
}

proof fn lemma_aligned_all_each(batches: Seq<BatchView>, target: SchemaView, result: Seq<BatchView>)
    requires
        parquet::aligned_all(batches, target) == Ok::<Seq<BatchView>, Seq<char>>(result),
    ensures
        result.len() == batches.len(),
        forall|i: int|
            0 <= i < batches.len() ==> align::aligned(#[trigger] batches[i], target) == Ok::<
                BatchView,
                Seq<char>,
            >(result[i]),
    decreases batches.len(),
{
    if batches.len() > 0 {
        let front = batches.drop_last();
        let before = parquet::aligned_all(front, target)->Ok_0;
        lemma_aligned_all_each(front, target, before);
        assert forall|i: int| 0 <= i < batches.len() implies align::aligned(
            #[trigger] batches[i],
            target,
        ) == Ok::<BatchView, Seq<char>>(result[i]) by {
            if i < front.len() {
                assert(front[i] == batches[i]);
            }
        }
    }
}

/// Where a row of one batch stands among all rows.
proof fn lemma_row_among(batches: Seq<BatchView>, at: int, row: int) -> (k: int)
    requires
        0 <= at < batches.len(),
        0 <= row < batches[at].rows,
    ensures
        0 <= k < arrange::rows_of(batches).len(),
        arrange::rows_of(batches)[k] == arrange::row_at(batches[at], row),
    decreases batches.len(),
{
    let front = batches.drop_last();
    if at < front.len() {
        let k = lemma_row_among(front, at, row);
        assert(arrange::rows_of(batches)[k] == arrange::rows_of(front)[k]);
        k
    } else {
        let k = arrange::rows_of(front).len() + row;
        assert(arrange::rows_of(batches)[k] == arrange::rows_in(batches.last())[row]);
        k
    }
}

/// A batch of rows that fit a schema fits it, where all have the same fields.
proof fn lemma_like_fits(batch: BatchView, like: BatchView, schema: SchemaView)
    requires
        batch.wf(),
        like.wf(),
        batch.schema.fields == like.schema.fields,
        align::aligned(like, schema) is Ok,
        forall|i: int, row: int|
            0 <= i < schema.fields.len() && !schema.fields[i].nullable && 0 <= row < batch.rows
                ==> !(#[trigger] align::column_for(batch, schema.fields[i]).cells[row] is Null),
    ensures
        align::aligned(batch, schema) is Ok,
{
    let fields = schema.fields;
    let columns = align::columns_for(batch, fields);
    let others = align::columns_for(like, fields);
    align::lemma_no_fault(like, fields);
    generation::lemma_null_bytes(batch.rows);
    assert forall|i: int| 0 <= i < fields.len() implies align::column_fault(
        batch,
        #[trigger] fields[i],
    ) is None by {
        assert(align::column_fault(like, fields[i]) is None);
        schema::lemma_field_index(batch.schema.fields, fields[i].name);
        let at = schema::field_index(batch.schema.fields, fields[i].name);
        if at < batch.schema.fields.len() {
            assert(batch.columns[at].data_type == batch.schema.fields[at].data_type);
            assert(like.columns[at].data_type == like.schema.fields[at].data_type);
        }
    }
    align::lemma_no_fault(batch, fields);
    assert forall|i: int| 0 <= i < columns.len() implies {
        let column = #[trigger] columns[i];
        &&& column.cells.len() == batch.rows
        &&& column.data_type == fields[i].data_type
        &&& !fields[i].nullable ==> !batch::has_null(column.cells)
        &&& batch::cells_fit(column.cells, column.data_type)
        &&& batch::offsets_hold(column)
    } by {
        assert(columns[i] == align::column_for(batch, fields[i]));
        assert(align::column_fault(batch, fields[i]) is None);
        schema::lemma_field_index(batch.schema.fields, fields[i].name);
        let at = schema::field_index(batch.schema.fields, fields[i].name);
        if at < batch.schema.fields.len() {
            assert(columns[i] == batch.columns[at]);
        }
        if !fields[i].nullable {
            assert forall|row: int| 0 <= row < columns[i].cells.len() implies !(
            #[trigger] columns[i].cells[row] is Null) by {
                assert(!(align::column_for(batch, fields[i]).cells[row] is Null));
            }
        }
    }
    assert(others.len() > 0);
    assert(columns[0].cells.len() == batch.rows);
    assert(batch::required_columns_filled(fields, columns));
    assert(batch::column_types_match(fields, columns));
}

/// The file of an hour fits every schema that the hour in memory fits.
proof fn lemma_hour_fits(
    root: Seq<char>,
    tenant: Seq<char>,
    generation: GenerationView,
    at: int,
    file: HourFileView,
    sorted: HourFileView,
    schema: SchemaView,
)
    requires
        memtable::frozen_ok(generation),
        0 <= at < generation.partitions.len(),
        parquet::hour_file_of(root, tenant, generation, at) == Ok::<
            Option<HourFileView>,
            parquet::ParquetErrorView,
        >(Some(file)),
        newest::orders_file(file, sorted),
        forall|b: int|
            0 <= b < generation.partitions[at].batches.len()
                && generation.partitions[at].batches[b].rows > 0 ==> align::aligned(
                #[trigger] generation.partitions[at].batches[b],
                schema,
            ) is Ok,
    ensures
        forall|i: int|
            0 <= i < sorted.batches.len() ==> align::aligned(
                #[trigger] sorted.batches[i],
                schema,
            ) is Ok,
{
    let held = generation.partitions[at].batches;
    let target = file.schema;
    let under = generation::frozen_under(generation.schema);
    assert forall|i: int| 0 <= i < held.len() implies (#[trigger] held[i]).schema.fields
        == target.fields && held[i].wf() by {
        assert(under(generation.partitions[at].batches[i]));
    }
    lemma_aligned_all_each(held, target, file.batches);
    let order = choose|order: Seq<(int, int)>| #[trigger]
        newest::newest_order(file.batches, order) && arrange::arranges(
            file.batches,
            order,
            sorted.batches,
        );
    arrange::lemma_arrangement(order, file.batches);
    assert forall|w: int| 0 <= w < sorted.batches.len() implies align::aligned(
        #[trigger] sorted.batches[w],
        schema,
    ) is Ok by {
        let batch = sorted.batches[w];
        assert(batch.wf() && batch.rows > 0);
        assert(arrange::has_schema(file.batches, batch.schema));
        let from = choose|b: int|
            0 <= b < file.batches.len() && #[trigger] file.batches[b].schema == batch.schema;
        assert(align::aligned(held[from], target) == Ok::<BatchView, Seq<char>>(file.batches[from]));
        align::alignment_keeps_columns(held[from], target, file.batches[from]);
        assert(batch.schema.fields == target.fields);
        assert forall|i: int, row: int|
            0 <= i < schema.fields.len() && !schema.fields[i].nullable && 0 <= row
                < batch.rows implies !(#[trigger] align::column_for(
            batch,
            schema.fields[i],
        ).cells[row] is Null) by {
            lemma_cell_filled(held, file.batches, target, order, sorted.batches, w, row, schema, i);
        }
        let k = lemma_row_among(sorted.batches, w, 0);
        assert(arrange::names_row(file.batches, order[k]));
        let source = order[k].0;
        assert(align::aligned(held[source], target) == Ok::<BatchView, Seq<char>>(
            file.batches[source],
        ));
        align::alignment_keeps_columns(held[source], target, file.batches[source]);
        assert(held[source].rows > 0);
        lemma_like_fits(batch, held[source], schema);
    }
}

/// A required column of an hour file has no null where the hour in memory fits the schema.
proof fn lemma_cell_filled(
    held: Seq<BatchView>,
    batches: Seq<BatchView>,
    target: SchemaView,
    order: Seq<(int, int)>,
    sorted: Seq<BatchView>,
    w: int,
    row: int,
    schema: SchemaView,
    i: int,
)
    requires
        held.len() == batches.len(),
        forall|b: int|
            0 <= b < held.len() ==> (#[trigger] held[b]).schema.fields == target.fields
                && held[b].wf() && align::aligned(held[b], target) == Ok::<BatchView, Seq<char>>(
                batches[b],
            ),
        forall|b: int|
            0 <= b < held.len() && held[b].rows > 0 ==> align::aligned(
                #[trigger] held[b],
                schema,
            ) is Ok,
        arrange::arranges(batches, order, sorted),
        0 <= w < sorted.len(),
        sorted[w].schema.fields == target.fields,
        0 <= row < sorted[w].rows,
        0 <= i < schema.fields.len(),
        !schema.fields[i].nullable,
    ensures
        !(align::column_for(sorted[w], schema.fields[i]).cells[row] is Null),
{
    let field = schema.fields[i];
    let at = schema::field_index(target.fields, field.name);
    schema::lemma_field_index(target.fields, field.name);
    arrange::lemma_arrangement(order, batches);
    let k = lemma_row_among(sorted, w, row);
    assert(arrange::names_row(batches, order[k]));
    let source = order[k].0;
    let there = order[k].1;
    let like = held[source];
    assert(align::aligned(like, target) == Ok::<BatchView, Seq<char>>(batches[source]));
    align::alignment_keeps_columns(like, target, batches[source]);
    assert(like.rows > 0);
    assert(align::aligned(like, schema) is Ok);
    let result = align::aligned(like, schema)->Ok_0;
    align::alignment_keeps_columns(like, schema, result);
    align::lemma_no_fault(like, schema.fields);
    assert(align::column_fault(like, field) is None);
    assert(at < target.fields.len());
    assert(result.columns[i] == like.columns[at]);
    assert(batch::required_columns_filled(schema.fields, result.columns));
    assert(!batch::has_null(result.columns[i].cells));
    assert(!(like.columns[at].cells[there] is Null)) by {
        assert(result.columns[i].cells[there] == like.columns[at].cells[there]);
        assert(result.columns[i].cells.len() == result.rows);
    }
    assert(batches[source].columns[at] == like.column_by_name(target.fields[at].name)->0);
    assert(arrange::rows_of(sorted)[k] == arrange::row_at(batches[source], there));
    assert(arrange::row_at(sorted[w], row)[at] == batches[source].columns[at].cells[there]);
    assert(sorted[w].wf());
    assert(sorted[w].columns[at].cells[row] == arrange::row_at(sorted[w], row)[at]);
    assert(align::column_for(sorted[w], field) == sorted[w].columns[at]);
}

/// The files of a generation fit every schema that its hours in memory fit.
proof fn lemma_written_fits(
    root: Seq<char>,
    tenant: Seq<char>,
    generation: GenerationView,
    count: int,
    written: Seq<HourFileView>,
    schema: SchemaView,
    scan: &Scan,
)
    requires
        memtable::frozen_ok(generation),
        0 <= count <= generation.partitions.len(),
        written_files(root, tenant, generation, count, written),
        all_fit(
            memory_batches(scan::visible_partitions(generation.partitions.take(count), scan)),
            schema,
        ),
    ensures
        all_fit(selected_batches(written, scan), schema),
    decreases count,
{
    let head = generation.partitions.take(count);
    if count > 0 {
        let front = generation.partitions.take(count - 1);
        let partition = generation.partitions[count - 1];
        assert(head.drop_last() =~= front);
        let was = memory_batches(scan::visible_partitions(front, scan));
        let now = memory_batches(scan::visible_partitions(head, scan));
        assert(scan::selects(scan, partition.hour) ==> now =~= was.push(partition.batches));
        assert forall|s: int, b: int|
            0 <= s < was.len() && 0 <= b < was[s].len() && was[s][b].rows > 0 implies align::aligned(
            #[trigger] was[s][b],
            schema,
        ) is Ok by {
            assert(now[s] == was[s]);
            assert(align::aligned(now[s][b], schema) is Ok);
        }
        match parquet::hour_file_of(root, tenant, generation, count - 1) {
            Err(_) => {},
            Ok(None) => {
                lemma_written_fits(root, tenant, generation, count - 1, written, schema, scan);
            },
            Ok(Some(file)) => {
                let rest = written.drop_last();
                let last = written.last();
                lemma_written_fits(root, tenant, generation, count - 1, rest, schema, scan);
                let kept = selected_batches(rest, scan);
                let all = selected_batches(written, scan);
                if scan::selects(scan, partition.hour) {
                    assert forall|b: int|
                        0 <= b < partition.batches.len() && partition.batches[b].rows
                            > 0 implies align::aligned(
                        #[trigger] partition.batches[b],
                        schema,
                    ) is Ok by {
                        assert(align::aligned(now[was.len() as int][b], schema) is Ok);
                    }
                    lemma_hour_fits(root, tenant, generation, count - 1, file, last, schema);
                    assert(all =~= kept.push(last.batches));
                    assert forall|s: int, b: int|
                        0 <= s < all.len() && 0 <= b < all[s].len() && all[s][b].rows
                            > 0 implies align::aligned(#[trigger] all[s][b], schema) is Ok by {
                        if s < kept.len() {
                            assert(all[s] == kept[s]);
                            assert(align::aligned(kept[s][b], schema) is Ok);
                        } else {
                            assert(align::aligned(last.batches[b], schema) is Ok);
                        }
                    }
                }
            },
        }
    }
}

/// The store after the oldest frozen generation was published as `commit`.
pub open spec fn published_store(store: StoreView, commit: CommitView) -> StoreView {
    store::publication_outcome(store, commit.first_sequence, commit.next_sequence, commit)->Ok_0
}

/// Publishing the oldest frozen generation as files that no retirement hides changes no scan, as
/// [`publication_keeps_every_row`] says, whatever the commits that are published already name.
#[verifier::rlimit(40)]
pub proof fn publishing_visible_files_keeps_every_row(
    store: StoreView,
    commit: CommitView,
    scan: &Scan,
    files: Seq<Seq<BatchView>>,
    written: Seq<HourFileView>,
    recorded: Seq<ParquetFileView>,
    schema: SchemaView,
    before: Seq<BatchView>,
    after: Seq<BatchView>,
)
    requires
        store::store_ok(store),
        store.memtable.frozen.len() > 0,
        written_files(
            store.root,
            store.tenant,
            store.memtable.frozen[0],
            store.memtable.frozen[0].partitions.len() as int,
            written,
        ),
        recorded.len() == written.len(),
        forall|k: int| 0 <= k < recorded.len() ==> (#[trigger] recorded[k]).hour == written[k].hour,
        publication::commit_of(store.root, store.tenant, store.memtable.frozen[0], recorded) == Ok::<
            CommitView,
            Seq<char>,
        >(commit),
        forall|k: int|
            0 <= k < commit.files.len() ==> !store.retired.contains(
                (#[trigger] commit.files[k]).relative_path,
            ),
        catalog::insertion(store.catalog, commit) == Ok::<(bool, Seq<CommitView>), CatalogError>(
            (true, store.catalog.push(commit)),
        ),
        files.len() == rows::file_count(scan::visible(store::snapshot_of(store), scan)),
        all_wf(contents(scan::visible(store::snapshot_of(store), scan), files)),
        rows::schema_for(store::snapshot_of(store), scan) == Ok::<SchemaView, rows::SchemaFault>(
            schema,
        ),
        rows::scan_result(
            scan::visible(store::snapshot_of(store), scan),
            files,
            schema,
            before,
        ),
    ensures
        rows::scanned(
            scan::visible(store::snapshot_of(published_store(store, commit)), scan),
            files + selected_batches(written, scan),
            schema,
        ) is Ok,
        rows::scan_result(
            scan::visible(store::snapshot_of(published_store(store, commit)), scan),
            files + selected_batches(written, scan),
            schema,
            after,
        ) ==> arrange::row_bag(after) == arrange::row_bag(before),
        rows::schema_for(store::snapshot_of(published_store(store, commit)), scan) == Ok::<
            SchemaView,
            rows::SchemaFault,
        >(schema),
        published_store(store, commit).memtable.frozen == store.memtable.frozen.drop_first(),
        published_store(store, commit).catalog == store.catalog.push(commit),
        catalog::high_water(published_store(store, commit).catalog) == Some(commit.next_sequence),
{
    let oldest = store.memtable.frozen[0];
    let then = store::snapshot_of(store);
    let now = store::snapshot_of(published_store(store, commit));
    let count = oldest.partitions.len() as int;
    let added = selected_batches(written, scan);

    // Schemas.
    let generations = scan::memory_of(then);
    assert(generations[0] == oldest);
    assert(scan::memory_of(now) =~= generations.drop_first());
    assert(scan::schemas_of(now) =~= scan::schemas_of(then));

    // Sources.
    let published = scan::visible_commits(then.published, then.retired, scan);
    let more = scan::visible_files(commit.files, then.retired, scan);
    let first = scan::visible_partitions(oldest.partitions, scan);
    let rest = scan::visible_generations(generations.drop_first(), scan);
    lemma_oldest_first(generations, scan);
    assert(store.catalog.push(commit).drop_last() =~= store.catalog);
    assert(scan::visible(then, scan) =~= published + (first + rest));
    assert(scan::visible(now, scan) =~= (published + more) + rest);
    lemma_commits_only(then.published, then.retired, scan);
    lemma_files_only(commit.files, then.retired, scan);
    lemma_partitions_only(oldest.partitions, scan);
    lemma_generations_only(generations.drop_first(), scan);
    assert(only_files(published + more));
    assert(only_memory(first + rest));
    lemma_count_mixed(published, first + rest);

    // What they hold.
    lemma_contents(published, first + rest, files);
    lemma_recorded_hours(
        layout::tenant_dir(store.root, store.tenant),
        recorded,
        written,
        store.retired,
        scan,
    );
    lemma_contents(published + more, rest, files + added);
    assert(memory_batches(first + rest) =~= memory_batches(first) + memory_batches(rest));
    lemma_total_add(schema, files, memory_batches(first + rest));
    lemma_total_add(schema, memory_batches(first), memory_batches(rest));
    lemma_total_add(schema, files + added, memory_batches(rest));
    lemma_total_add(schema, files, added);
    assert(memtable::frozen_ok(oldest));
    lemma_written_bag(store.root, store.tenant, oldest, count, written, schema, scan);
    assert(oldest.partitions.take(count) =~= oldest.partitions);
    let held_then = contents(scan::visible(then, scan), files);
    let held_now = contents(scan::visible(now, scan), files + added);
    assert(total_bag(schema, held_now) =~= total_bag(schema, held_then));
    assert forall|s: int, b: int| 0 <= s < held_now.len() && 0 <= b < held_now[s].len() implies (
    #[trigger] held_now[s][b]).wf() by {
        if s < files.len() {
            assert(held_now[s] == held_then[s]);
            assert(held_then[s][b].wf());
        } else if s < files.len() + added.len() {
            assert(held_now[s] == added[s - files.len()]);
            assert(added[s - files.len()][b].wf());
        } else {
            let k = s - files.len() - added.len();
            assert(held_now[s] == memory_batches(rest)[k]);
            assert(held_then[files.len() + first.len() + k] == memory_batches(rest)[k]);
            assert(held_then[files.len() + first.len() + k][b].wf());
        }
    }
    scans_return_rows_once(scan::visible(then, scan), files, schema, before);
    if rows::scan_result(scan::visible(now, scan), files + added, schema, after) {
        scans_return_rows_once(scan::visible(now, scan), files + added, schema, after);
    }

    // That they fit.
    scans_succeed_on_fitting_batches(scan::visible(then, scan), files, schema);
    assert forall|s: int, b: int|
        0 <= s < first.len() && 0 <= b < memory_batches(first)[s].len() && memory_batches(
            first,
        )[s][b].rows > 0 implies align::aligned(
        #[trigger] memory_batches(first)[s][b],
        schema,
    ) is Ok by {
        assert(held_then[files.len() + s] == memory_batches(first)[s]);
        assert(align::aligned(held_then[files.len() + s][b], schema) is Ok);
    }
    lemma_written_fits(store.root, store.tenant, oldest, count, written, schema, scan);
    assert forall|s: int, b: int|
        0 <= s < held_now.len() && 0 <= b < held_now[s].len() && held_now[s][b].rows
            > 0 implies align::aligned(#[trigger] held_now[s][b], schema) is Ok by {
        if s < files.len() {
            assert(held_now[s] == held_then[s]);
            assert(align::aligned(held_then[s][b], schema) is Ok);
        } else if s < files.len() + added.len() {
            assert(held_now[s] == added[s - files.len()]);
            assert(align::aligned(added[s - files.len()][b], schema) is Ok);
        } else {
            let k = s - files.len() - added.len();
            assert(held_now[s] == memory_batches(rest)[k]);
            assert(held_then[files.len() + first.len() + k] == memory_batches(rest)[k]);
            assert(align::aligned(held_then[files.len() + first.len() + k][b], schema) is Ok);
        }
    }
    scans_succeed_on_fitting_batches(scan::visible(now, scan), files + added, schema);
}

/// The files of a generation are at the paths of their hours and of its range.
proof fn lemma_written_paths(
    root: Seq<char>,
    tenant: Seq<char>,
    generation: GenerationView,
    count: int,
    written: Seq<HourFileView>,
)
    requires
        written_files(root, tenant, generation, count, written),
    ensures
        forall|k: int|
            0 <= k < written.len() ==> (#[trigger] written[k]).path == layout::join_path(
                layout::hour_dir(root, tenant, written[k].hour),
                layout::range_name(
                    generation.first_sequence,
                    generation.next_sequence,
                    ".parquet"@,
                ),
            ),
    decreases count,
{
    if count > 0 {
        match parquet::hour_file_of(root, tenant, generation, count - 1) {
            Err(_) => {},
            Ok(None) => {
                lemma_written_paths(root, tenant, generation, count - 1, written);
            },
            Ok(Some(file)) => {
                let front = written.drop_last();
                lemma_written_paths(root, tenant, generation, count - 1, front);
                assert forall|k: int| 0 <= k < written.len() implies (#[trigger] written[k]).path
                    == layout::join_path(
                    layout::hour_dir(root, tenant, written[k].hour),
                    layout::range_name(
                        generation.first_sequence,
                        generation.next_sequence,
                        ".parquet"@,
                    ),
                ) by {
                    if k < front.len() {
                        assert(front[k] == written[k]);
                    }
                }
            },
        }
    }
}

/// No commit has the range of one that is added.
proof fn lemma_range_is_new(commits: Seq<CommitView>, commit: CommitView, c: int)
    requires
        catalog::with_range(commits, commit) is None,
        0 <= c < commits.len(),
    ensures
        catalog::range_of(commits[c]) != catalog::range_of(commit),
    decreases commits.len(),
{
    if c > 0 {
        assert(commits.drop_first()[c - 1] == commits[c]);
        lemma_range_is_new(commits.drop_first(), commit, c - 1);
    }
}

/// Publishing the oldest frozen generation changes no scan: where a scan succeeds before, it succeeds
/// after, and every row comes back once, with its values unchanged. Memory loses that generation and
/// the catalog gains its commit, up to whose end the store is durable. Its files, too, bear the name
/// of its range.
///
/// `files` holds what the published files hold, `written` what the files of the generation hold, and
/// `recorded` what was recorded of those.
pub proof fn publication_keeps_every_row(
    store: StoreView,
    commit: CommitView,
    scan: &Scan,
    files: Seq<Seq<BatchView>>,
    written: Seq<HourFileView>,
    recorded: Seq<ParquetFileView>,
    schema: SchemaView,
    before: Seq<BatchView>,
    after: Seq<BatchView>,
)
    requires
        store::store_ok(store),
        publication::all_bear_range(store.catalog),
        store.memtable.frozen.len() > 0,
        written_files(
            store.root,
            store.tenant,
            store.memtable.frozen[0],
            store.memtable.frozen[0].partitions.len() as int,
            written,
        ),
        recorded.len() == written.len(),
        forall|k: int|
            0 <= k < recorded.len() ==> (#[trigger] recorded[k]).hour == written[k].hour
                && recorded[k].path == written[k].path,
        publication::commit_of(store.root, store.tenant, store.memtable.frozen[0], recorded) == Ok::<
            CommitView,
            Seq<char>,
        >(commit),
        catalog::insertion(store.catalog, commit) == Ok::<(bool, Seq<CommitView>), CatalogError>(
            (true, store.catalog.push(commit)),
        ),
        files.len() == rows::file_count(scan::visible(store::snapshot_of(store), scan)),
        all_wf(contents(scan::visible(store::snapshot_of(store), scan), files)),
        rows::schema_for(store::snapshot_of(store), scan) == Ok::<SchemaView, rows::SchemaFault>(
            schema,
        ),
        rows::scan_result(
            scan::visible(store::snapshot_of(store), scan),
            files,
            schema,
            before,
        ),
    ensures
        rows::scanned(
            scan::visible(store::snapshot_of(published_store(store, commit)), scan),
            files + selected_batches(written, scan),
            schema,
        ) is Ok,
        rows::scan_result(
            scan::visible(store::snapshot_of(published_store(store, commit)), scan),
            files + selected_batches(written, scan),
            schema,
            after,
        ) ==> arrange::row_bag(after) == arrange::row_bag(before),
        rows::schema_for(store::snapshot_of(published_store(store, commit)), scan) == Ok::<
            SchemaView,
            rows::SchemaFault,
        >(schema),
        published_store(store, commit).memtable.frozen == store.memtable.frozen.drop_first(),
        published_store(store, commit).catalog == store.catalog.push(commit),
        catalog::high_water(published_store(store, commit).catalog) == Some(commit.next_sequence),
        publication::all_bear_range(published_store(store, commit).catalog),
{
    let oldest = store.memtable.frozen[0];
    let count = oldest.partitions.len() as int;
    lemma_written_paths(store.root, store.tenant, oldest, count, written);
    assert forall|k: int| 0 <= k < recorded.len() implies publication::at_its_path(
        store.root,
        store.tenant,
        oldest,
        #[trigger] recorded[k],
    ) by {
        assert(written[k].path == recorded[k].path);
    }
    publication::commits_bear_their_range(store.root, store.tenant, oldest, recorded);
    assert forall|k: int| 0 <= k < commit.files.len() implies !store.retired.contains(
        (#[trigger] commit.files[k]).relative_path,
    ) by {
        let path = commit.files[k].relative_path;
        if store.retired.contains(path) {
            assert(catalog::names_path(store.catalog, path));
            let (c, f) = choose|c: int, f: int|
                0 <= c < store.catalog.len() && 0 <= f < store.catalog[c].files.len() && (
                #[trigger] store.catalog[c].files[f]).relative_path == path;
            let other = store.catalog[c];
            assert(publication::bears_range(other));
            assert(other.files[f].relative_path == path);
            layout::file_paths_tell_their_range(
                path,
                commit.first_sequence,
                commit.next_sequence,
                other.first_sequence,
                other.next_sequence,
            );
            lemma_range_is_new(store.catalog, commit, c);
        }
    }
    publishing_visible_files_keeps_every_row(
        store,
        commit,
        scan,
        files,
        written,
        recorded,
        schema,
        before,
        after,
    );
    assert forall|c: int| 0 <= c < store.catalog.push(commit).len() implies publication::bears_range(
        #[trigger] store.catalog.push(commit)[c],
    ) by {
        if c < store.catalog.len() {
            assert(publication::bears_range(store.catalog[c]));
        }
    }
}

} // verus!
