//! Rows from the newest event to the oldest.
use vstd::prelude::*;
use crate::arrange;
use crate::arrange::{arrange, find_number, SortKey};
use crate::batch;
use crate::batch::{BatchView, RecordBatch};
use crate::parquet::{HourFile, HourFileView};
use crate::schema;
use crate::schema::{SchemaView, COLUMN_EVENT_TIME_UNIX_NANO, COLUMN_WAL_SEQUENCE};
use crate::statistics;

verus! {

/// Whether the row at one position stands before the row at another.
pub open spec fn precedes(batches: Seq<BatchView>, first: (int, int), second: (int, int)) -> bool {
    let first_time = arrange::number_in(batches[first.0], COLUMN_EVENT_TIME_UNIX_NANO@, first.1);
    let second_time = arrange::number_in(batches[second.0], COLUMN_EVENT_TIME_UNIX_NANO@, second.1);
    let first_sequence = arrange::number_in(batches[first.0], COLUMN_WAL_SEQUENCE@, first.1);
    let second_sequence = arrange::number_in(batches[second.0], COLUMN_WAL_SEQUENCE@, second.1);
    ||| first_time > second_time
    ||| first_time == second_time && first_sequence > second_sequence
    ||| first_time == second_time && first_sequence == second_sequence && (first.0 < second.0
        || first.0 == second.0 && first.1 < second.1)
}

/// Whether the rows run from the newest event to the oldest, from the highest WAL sequence to the
/// lowest among equal event times, and stay as they were among equal sequences.
pub open spec fn newest_order(batches: Seq<BatchView>, order: Seq<(int, int)>) -> bool {
    forall|i: int, j: int|
        0 <= i < j < order.len() ==> precedes(batches, #[trigger] order[i], #[trigger] order[j])
}

/// Event time and WAL sequence of a row, counted down from the highest, and its position.
pub open spec fn newest_key(batches: Seq<BatchView>, at: (int, int)) -> SortKey {
    (
        (u64::MAX - arrange::number_in(batches[at.0], COLUMN_EVENT_TIME_UNIX_NANO@, at.1)) as u64,
        (u64::MAX - arrange::number_in(batches[at.0], COLUMN_WAL_SEQUENCE@, at.1)) as u64,
        at.0 as usize,
        at.1 as usize,
    )
}

/// The keys of all rows, in row order.
fn build_keys(batches: &Vec<RecordBatch>) -> (keys: Vec<SortKey>)
    ensures
        arrange::places(keys@) == arrange::positions(batches.deep_view()),
        forall|k: int|
            0 <= k < keys@.len() ==> #[trigger] keys@[k] == newest_key(
                batches.deep_view(),
                arrange::place(keys@[k]),
            ),
{
    let ghost all = batches.deep_view();
    let mut keys: Vec<SortKey> = Vec::new();
    let mut i: usize = 0;
    assert(all.take(0) =~= Seq::empty());
    assert(arrange::places(keys@) =~= Seq::empty());
    while i < batches.len()
        invariant
            i <= batches.len(),
            all == batches.deep_view(),
            arrange::places(keys@) == arrange::positions(all.take(i as int)),
            forall|k: int|
                0 <= k < keys@.len() ==> #[trigger] keys@[k] == newest_key(
                    all,
                    arrange::place(keys@[k]),
                ),
        decreases batches.len() - i,
    {
        assert(all.take(i + 1).drop_last() =~= all.take(i as int));
        let batch = &batches[i];
        assert(all[i as int] == batch.deep_view());
        let ghost before = arrange::positions(all.take(i as int));
        let count = batch.num_rows();
        let mut row: usize = 0;
        assert(arrange::places(keys@) =~= before + Seq::new(0, |r: int| (i as int, r)));
        while row < count
            invariant
                row <= count,
                i < batches.len(),
                all == batches.deep_view(),
                all[i as int] == batch.deep_view(),
                count == batch.deep_view().rows,
                arrange::places(keys@) == before + Seq::new(row as nat, |r: int| (i as int, r)),
                forall|k: int|
                    0 <= k < keys@.len() ==> #[trigger] keys@[k] == newest_key(
                        all,
                        arrange::place(keys@[k]),
                    ),
            decreases count - row,
        {
            let time = find_number(batch, COLUMN_EVENT_TIME_UNIX_NANO, row);
            let sequence = find_number(batch, COLUMN_WAL_SEQUENCE, row);
            let ghost had = keys@;
            keys.push((u64::MAX - time, u64::MAX - sequence, i, row));
            proof {
                assert(arrange::places(keys@) =~= arrange::places(had).push((i as int, row as int)));
                assert(arrange::places(keys@) =~= before + Seq::new(
                    (row + 1) as nat,
                    |r: int| (i as int, r),
                ));
            }
            row = row + 1;
        }
        assert(arrange::places(keys@) =~= arrange::positions(all.take(i + 1)));
        i = i + 1;
    }
    assert(all.take(i as int) =~= all);
    keys
}

/// All rows, from the newest event to the oldest.
///
/// Rows are ordered by event time, then WAL sequence, both descending. Rows that agree in both stay
/// in their order. Each returned batch holds rows of one given batch, so that none outgrows its
/// offsets.
pub fn sort_by_newest_event(batches: &Vec<RecordBatch>) -> (sorted: Vec<RecordBatch>)
    ensures
        exists|order: Seq<(int, int)>| #[trigger]
            newest_order(batches.deep_view(), order) && arrange::arranges(
                batches.deep_view(),
                order,
                sorted.deep_view(),
            ),
{
    let ghost all = batches.deep_view();
    let keys = build_keys(batches);
    let ghost unsorted = keys@;
    let sorted = arrange(batches, keys);
    proof {
        let keys = choose|keys: Seq<SortKey>| #[trigger]
            arrange::sorts(unsorted, keys) && arrange::arranges(
                all,
                arrange::places(keys),
                sorted.deep_view(),
            );
        let order = arrange::places(keys);
        arrange::lemma_arrangement(order, all);
        assert forall|i: int, j: int| 0 <= i < j < order.len() implies precedes(
            all,
            #[trigger] order[i],
            #[trigger] order[j],
        ) by {
            let a = arrange::lemma_sorted_member(unsorted, keys, i);
            let b = arrange::lemma_sorted_member(unsorted, keys, j);
            assert(unsorted[a] == newest_key(all, arrange::place(unsorted[a])));
            assert(unsorted[b] == newest_key(all, arrange::place(unsorted[b])));
            assert(arrange::key_before(keys[i], keys[j]));
            assert(order[i] == arrange::place(keys[i]) && order[j] == arrange::place(keys[j]));
            assert(order[i] != order[j]);
        }
        assert(newest_order(all, order));
    }
    sorted
}

/// Batches that have the fields of the schema.
pub open spec fn share_schema(schema: SchemaView, batches: Seq<BatchView>) -> bool {
    forall|i: int|
        0 <= i < batches.len() ==> (#[trigger] batches[i]).schema.fields == schema.fields
            && batches[i].wf()
}

/// The cells of one column stand in the rows, in their order.
pub proof fn lemma_column_cells(
    schema: SchemaView,
    batches: Seq<BatchView>,
    name: Seq<char>,
    column: int,
)
    requires
        share_schema(schema, batches),
        column == schema::field_index(schema.fields, name),
        0 <= column < schema.fields.len(),
    ensures
        statistics::column_cells(name, batches).len() == arrange::rows_of(batches).len(),
        forall|k: int|
            0 <= k < arrange::rows_of(batches).len() ==> #[trigger] statistics::column_cells(
                name,
                batches,
            )[k] == arrange::rows_of(batches)[k][column],
    decreases batches.len(),
{
    if batches.len() > 0 {
        let front = batches.drop_last();
        let last = batches[batches.len() - 1];
        assert forall|i: int| 0 <= i < front.len() implies (#[trigger] front[i]).schema.fields
            == schema.fields && front[i].wf() by {
            assert(front[i] == batches[i]);
        }
        lemma_column_cells(schema, front, name, column);
        assert(last.wf());
        assert(last.columns[column].cells.len() == last.rows);
        let before = arrange::rows_of(front);
        let cells = statistics::column_cells(name, batches);
        assert(cells =~= statistics::column_cells(name, front) + last.columns[column].cells);
        assert forall|k: int| 0 <= k < arrange::rows_of(batches).len() implies #[trigger] cells[k]
            == arrange::rows_of(batches)[k][column] by {
            if k < before.len() {
                assert(cells[k] == statistics::column_cells(name, front)[k]);
            } else {
                assert(arrange::rows_of(batches)[k] == arrange::row_at(last, k - before.len()));
            }
        }
    }
}

/// Whether a schema records event times and WAL sequences of every row.
pub open spec fn records_order(schema: SchemaView) -> bool {
    let time = schema::field_index(schema.fields, COLUMN_EVENT_TIME_UNIX_NANO@);
    let sequence = schema::field_index(schema.fields, COLUMN_WAL_SEQUENCE@);
    &&& 0 <= time < schema.fields.len()
    &&& 0 <= sequence < schema.fields.len()
    &&& schema.fields[time].data_type is UInt64 && !schema.fields[time].nullable
    &&& schema.fields[sequence].data_type is UInt64 && !schema.fields[sequence].nullable
}

proof fn lemma_number_cell(batch: BatchView, column: int, row: int)
    requires
        batch.wf(),
        0 <= column < batch.schema.fields.len(),
        batch.schema.fields[column].data_type is UInt64,
        !batch.schema.fields[column].nullable,
        0 <= row < batch.rows,
    ensures
        arrange::row_at(batch, row)[column] is UInt64,
{
    let cells = batch.columns[column].cells;
    assert(batch::required_columns_filled(batch.schema.fields, batch.columns));
    assert(!batch::has_null(cells));
    assert(batch.columns[column].data_type == batch.schema.fields[column].data_type);
    assert(batch::cells_fit(cells, batch.columns[column].data_type));
    assert(batch::cell_fits(cells[row], batch.columns[column].data_type));
    assert(!(cells[row] is Null));
}

/// Whether one row has a later event time than another, or the same with a WAL sequence that is no lower.
pub open spec fn newer_or_same(
    schema: SchemaView,
    first: Seq<batch::CellView>,
    second: Seq<batch::CellView>,
) -> bool {
    let time = schema::field_index(schema.fields, COLUMN_EVENT_TIME_UNIX_NANO@);
    let sequence = schema::field_index(schema.fields, COLUMN_WAL_SEQUENCE@);
    ||| first[time]->UInt64_0 > second[time]->UInt64_0
    ||| first[time]->UInt64_0 == second[time]->UInt64_0 && first[sequence]->UInt64_0
        >= second[sequence]->UInt64_0
}

/// Rows in the newest order are what file statistics call ordered: event times do not rise from row to
/// row, and among equal ones WAL sequences do not.
pub proof fn newest_order_is_recorded(
    schema: SchemaView,
    batches: Seq<BatchView>,
    order: Seq<(int, int)>,
    sorted: Seq<BatchView>,
)
    requires
        share_schema(schema, batches),
        records_order(schema),
        newest_order(batches, order),
        arrange::arranges(batches, order, sorted),
    ensures
        statistics::batches_newest_first(sorted),
        forall|i: int, j: int|
            0 <= i < j < arrange::rows_of(sorted).len() ==> newer_or_same(
                schema,
                #[trigger] arrange::rows_of(sorted)[i],
                #[trigger] arrange::rows_of(sorted)[j],
            ),
{
    let time = schema::field_index(schema.fields, COLUMN_EVENT_TIME_UNIX_NANO@);
    let sequence = schema::field_index(schema.fields, COLUMN_WAL_SEQUENCE@);
    assert forall|i: int| 0 <= i < sorted.len() implies (#[trigger] sorted[i]).schema.fields
        == schema.fields && sorted[i].wf() by {
        assert(arrange::has_schema(batches, sorted[i].schema));
    }
    lemma_column_cells(schema, sorted, COLUMN_EVENT_TIME_UNIX_NANO@, time);
    lemma_column_cells(schema, sorted, COLUMN_WAL_SEQUENCE@, sequence);
    arrange::lemma_arrangement(order, batches);
    let times = statistics::column_cells(COLUMN_EVENT_TIME_UNIX_NANO@, sorted);
    let sequences = statistics::column_cells(COLUMN_WAL_SEQUENCE@, sorted);
    assert forall|i: int| 0 <= i < times.len() implies (#[trigger] times[i]) is UInt64
        && sequences[i] is UInt64 && times[i]->UInt64_0 == arrange::number_in(
        batches[order[i].0],
        COLUMN_EVENT_TIME_UNIX_NANO@,
        order[i].1,
    ) && sequences[i]->UInt64_0 == arrange::number_in(
        batches[order[i].0],
        COLUMN_WAL_SEQUENCE@,
        order[i].1,
    ) by {
        assert(arrange::names_row(batches, order[i]));
        let source = batches[order[i].0];
        assert(arrange::rows_of(sorted)[i] == arrange::row_at(source, order[i].1));
        lemma_number_cell(source, time, order[i].1);
        lemma_number_cell(source, sequence, order[i].1);
        assert(sequences[i] == arrange::rows_of(sorted)[i][sequence]);
    }
    assert forall|i: int, j: int| 0 <= i < j < times.len() implies statistics::not_older(
        (#[trigger] times[i])->UInt64_0,
        sequences[i]->UInt64_0,
        (#[trigger] times[j])->UInt64_0,
        sequences[j]->UInt64_0,
    ) by {
        assert(precedes(batches, order[i], order[j]));
    }
    let rows = arrange::rows_of(sorted);
    assert forall|i: int, j: int| 0 <= i < j < rows.len() implies newer_or_same(
        schema,
        #[trigger] rows[i],
        #[trigger] rows[j],
    ) by {
        assert(precedes(batches, order[i], order[j]));
        assert(times[i] == rows[i][time] && times[j] == rows[j][time]);
        assert(sequences[i] == rows[i][sequence] && sequences[j] == rows[j][sequence]);
    }
}

/// Whether one hour file holds the rows of another from the newest event to the oldest, and is the
/// same otherwise.
pub open spec fn orders_file(file: HourFileView, sorted: HourFileView) -> bool {
    &&& sorted == (HourFileView { batches: sorted.batches, ..file })
    &&& exists|order: Seq<(int, int)>| #[trigger]
        newest_order(file.batches, order) && arrange::arranges(file.batches, order, sorted.batches)
}

/// One hour file with its rows from the newest event to the oldest.
pub fn order_file(file: HourFile) -> (sorted: HourFile)
    requires
        file.wf(),
    ensures
        sorted.wf(),
        orders_file(file.deep_view(), sorted.deep_view()),
        records_order(file.deep_view().schema) ==> statistics::batches_newest_first(
            sorted.deep_view().batches,
        ),
{
    let ghost view = file.deep_view();
    let mut i: usize = 0;
    while i < file.batches.len()
        invariant
            i <= file.batches.len(),
            view == file.deep_view(),
            forall|k: int| 0 <= k < i ==> (#[trigger] view.batches[k]).wf(),
        decreases file.batches.len() - i,
    {
        assert(view.batches[i as int] == file.batches@[i as int].deep_view());
        let _rows = file.batches[i].num_rows();
        i = i + 1;
    }
    assert(share_schema(view.schema, view.batches));
    let batches = sort_by_newest_event(&file.batches);
    let ghost order = choose|order: Seq<(int, int)>| #[trigger]
        newest_order(view.batches, order) && arrange::arranges(
            view.batches,
            order,
            batches.deep_view(),
        );
    proof {
        assert(newest_order(view.batches, order));
        if records_order(view.schema) {
            newest_order_is_recorded(view.schema, view.batches, order, batches.deep_view());
        }
    }
    let sorted = HourFile {
        hour: file.hour,
        path: file.path,
        rows: file.rows,
        schema: file.schema,
        batches,
    };
    assert forall|k: int| 0 <= k < sorted.batches@.len() implies (
    #[trigger] sorted.deep_view().batches[k]).schema == sorted.schema.deep_view() by {
        assert(arrange::has_schema(view.batches, sorted.deep_view().batches[k].schema));
    }
    sorted
}

} // verus!
