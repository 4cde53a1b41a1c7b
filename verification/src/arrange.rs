//! The rows of batches, and the same rows in another order.
use vstd::multiset::Multiset;
use vstd::prelude::*;
use crate::batch;
use crate::batch::{BatchView, Cell, CellView, Column, ColumnView, RecordBatch};
use crate::schema::SchemaView;

verus! {

// Rows.

/// One row: its cells in column order.
pub open spec fn row_at(batch: BatchView, row: int) -> Seq<CellView> {
    batch.columns.map_values(|column: ColumnView| column.cells[row])
}

/// The rows of one batch.
pub open spec fn rows_in(batch: BatchView) -> Seq<Seq<CellView>> {
    Seq::new(batch.rows, |row: int| row_at(batch, row))
}

/// The rows of all batches, in their order.
pub open spec fn rows_of(batches: Seq<BatchView>) -> Seq<Seq<CellView>>
    decreases batches.len(),
{
    if batches.len() == 0 {
        Seq::empty()
    } else {
        rows_of(batches.drop_last()) + rows_in(batches.last())
    }
}

/// The rows of all batches, whatever their order.
pub open spec fn row_bag(batches: Seq<BatchView>) -> Multiset<Seq<CellView>> {
    rows_of(batches).to_multiset()
}

/// Where every row stands: its batch, and its place there.
pub open spec fn positions(batches: Seq<BatchView>) -> Seq<(int, int)>
    decreases batches.len(),
{
    if batches.len() == 0 {
        Seq::empty()
    } else {
        positions(batches.drop_last()) + Seq::new(
            batches.last().rows,
            |row: int| (batches.len() - 1, row),
        )
    }
}

/// The rows at some positions.
pub open spec fn rows_at(batches: Seq<BatchView>, order: Seq<(int, int)>) -> Seq<Seq<CellView>> {
    order.map_values(|at: (int, int)| row_at(batches[at.0], at.1))
}

/// Whether `order` names every row of the batches once.
pub open spec fn is_arrangement(order: Seq<(int, int)>, batches: Seq<BatchView>) -> bool {
    order.to_multiset() == positions(batches).to_multiset()
}

/// Whether a position is that of a row.
pub open spec fn names_row(batches: Seq<BatchView>, at: (int, int)) -> bool {
    &&& 0 <= at.0 < batches.len()
    &&& 0 <= at.1 < batches[at.0].rows
}

/// Whether one of the batches has this schema.
pub open spec fn has_schema(batches: Seq<BatchView>, schema: SchemaView) -> bool {
    exists|b: int| 0 <= b < batches.len() && #[trigger] batches[b].schema == schema
}

/// Whether `result` holds the rows of `batches` in the given order, in batches of their schemas that
/// are not empty.
pub open spec fn arranges(
    batches: Seq<BatchView>,
    order: Seq<(int, int)>,
    result: Seq<BatchView>,
) -> bool {
    &&& is_arrangement(order, batches)
    &&& rows_of(result) == rows_at(batches, order)
    &&& forall|i: int|
        0 <= i < result.len() ==> (#[trigger] result[i]).wf() && result[i].rows > 0 && has_schema(
            batches,
            result[i].schema,
        )
}

/// Every row has its position, and no position is there twice.
pub proof fn lemma_positions(batches: Seq<BatchView>)
    ensures
        positions(batches).no_duplicates(),
        rows_at(batches, positions(batches)) == rows_of(batches),
        forall|i: int|
            0 <= i < positions(batches).len() ==> names_row(
                batches,
                #[trigger] positions(batches)[i],
            ),
    decreases batches.len(),
{
    if batches.len() > 0 {
        let front = batches.drop_last();
        lemma_positions(front);
        let all = positions(batches);
        let before = positions(front);
        assert forall|i: int| 0 <= i < all.len() implies names_row(batches, #[trigger] all[i]) && (i
            < before.len() ==> all[i] == before[i] && all[i].0 < front.len()) && (i >= before.len()
            ==> all[i].0 == front.len()) by {
            if i < before.len() {
                assert(names_row(front, before[i]));
            }
        }
        assert(rows_at(batches, all) =~= rows_of(batches)) by {
            assert forall|i: int| 0 <= i < all.len() implies rows_at(batches, all)[i] == #[trigger] rows_of(
                batches,
            )[i] by {
                if i < before.len() {
                    assert(rows_at(front, before)[i] == rows_of(front)[i]);
                    assert(names_row(front, before[i]));
                    assert(front[before[i].0] == batches[before[i].0]);
                }
            }
        }
    }
}

/// What maps elements alike keeps bags alike.
pub proof fn lemma_bag_of_map<A, B>(left: Seq<A>, right: Seq<A>, f: spec_fn(A) -> B)
    requires
        left.to_multiset() == right.to_multiset(),
    ensures
        left.map_values(f).to_multiset() == right.map_values(f).to_multiset(),
    decreases left.len(),
{
    broadcast use vstd::seq_lib::group_to_multiset_ensures;

    assert(left.to_multiset().len() == left.len());
    assert(right.to_multiset().len() == right.len());
    if left.len() == 0 {
        assert(left.map_values(f) =~= right.map_values(f));
    } else {
        let last = left.last();
        let front = left.drop_last();
        assert(left =~= front.push(last));
        assert(left.contains(last));
        assert(right.to_multiset().count(last) > 0);
        assert(right.contains(last));
        let k = choose|k: int| 0 <= k < right.len() && right[k] == last;
        let rest = right.remove(k);
        assert(front.to_multiset() =~= left.to_multiset().remove(last)) by {
            assert(front.push(last).to_multiset() =~= front.to_multiset().insert(last));
        }
        assert(rest.to_multiset() =~= right.to_multiset().remove(last));
        lemma_bag_of_map(front, rest, f);
        assert(left.map_values(f) =~= front.map_values(f).push(f(last)));
        assert(rest.map_values(f) =~= right.map_values(f).remove(k));
        assert(right.map_values(f)[k] == f(last));
        assert(right.map_values(f).contains(f(last)));
        assert(right.map_values(f).to_multiset().count(f(last)) > 0);
        assert(left.map_values(f).to_multiset() =~= right.map_values(f).to_multiset());
    }
}

/// Arranging rows loses none, doubles none and changes none.
pub proof fn arranging_keeps_rows(
    batches: Seq<BatchView>,
    order: Seq<(int, int)>,
    result: Seq<BatchView>,
)
    requires
        arranges(batches, order, result),
    ensures
        row_bag(result) == row_bag(batches),
        rows_of(result).len() == rows_of(batches).len(),
{
    broadcast use vstd::seq_lib::group_to_multiset_ensures;

    lemma_positions(batches);
    lemma_bag_of_map(
        order,
        positions(batches),
        |at: (int, int)| row_at(batches[at.0], at.1),
    );
    assert(row_bag(result).len() == rows_of(result).len());
    assert(row_bag(batches).len() == rows_of(batches).len());
}

/// Each position of an arrangement is that of a row, and no position is there twice.
pub proof fn lemma_arrangement(order: Seq<(int, int)>, batches: Seq<BatchView>)
    requires
        is_arrangement(order, batches),
    ensures
        order.no_duplicates(),
        order.len() == rows_of(batches).len(),
        forall|i: int| 0 <= i < order.len() ==> names_row(batches, #[trigger] order[i]),
{
    broadcast use vstd::seq_lib::group_to_multiset_ensures;

    let all = positions(batches);
    lemma_positions(batches);
    all.lemma_multiset_has_no_duplicates();
    order.lemma_multiset_has_no_duplicates_conv();
    assert(order.to_multiset().len() == order.len());
    assert(all.to_multiset().len() == all.len());
    assert forall|i: int| 0 <= i < order.len() implies names_row(batches, #[trigger] order[i]) by {
        assert(order.contains(order[i]));
        assert(all.to_multiset().count(order[i]) > 0);
        assert(all.contains(order[i]));
        let k = choose|k: int| 0 <= k < all.len() && all[k] == order[i];
        assert(names_row(batches, all[k]));
    }
}

// Numbers in rows.

/// Number in a cell, zero where it holds none.
pub open spec fn number_of(cell: CellView) -> u64 {
    match cell {
        CellView::UInt64(value) => value,
        CellView::Float64(bits) => bits,
        CellView::UInt32(value) => value as u64,
        _ => 0,
    }
}

/// The number of one row in the named column, zero where there is no such column.
pub open spec fn number_in(batch: BatchView, name: Seq<char>, row: int) -> u64 {
    match batch.column_by_name(name) {
        Some(column) => number_of(column.cells[row]),
        None => 0,
    }
}

/// The number of one row in the named column, zero where there is no such column.
pub(crate) fn find_number(batch: &RecordBatch, name: &str, row: usize) -> (number: u64)
    requires
        row < batch.deep_view().rows,
    ensures
        number == number_in(batch.deep_view(), name@, row as int),
{
    let _rows = batch.num_rows();
    match batch.column_by_name(name) {
        Some(column) => {
            proof {
                crate::schema::lemma_field_index(batch.deep_view().schema.fields, name@);
                let at = crate::schema::field_index(batch.deep_view().schema.fields, name@);
                assert(batch.deep_view().columns[at].cells.len() == batch.deep_view().rows);
                assert(column.cells.deep_view()[row as int] == column.cells@[row as int].deep_view());
            }
            match column.cells[row].as_u64() {
                Some(value) => value,
                None => match column.cells[row].as_u32() {
                    Some(value) => value as u64,
                    None => 0,
                },
            }
        },
        None => 0,
    }
}

// Sorting.

/// A row's rank, by two numbers, and its position.
pub type SortKey = (u64, u64, usize, usize);

/// Whether one key may stand before another.
pub open spec fn key_before(left: SortKey, right: SortKey) -> bool {
    ||| left.0 < right.0
    ||| left.0 == right.0 && left.1 < right.1
    ||| left.0 == right.0 && left.1 == right.1 && left.2 < right.2
    ||| left.0 == right.0 && left.1 == right.1 && left.2 == right.2 && left.3 <= right.3
}

/// `slice::sort_unstable` on tuples: the same elements, in ascending lexicographic order.
#[verifier::external_body]
fn sort_keys(keys: &mut Vec<SortKey>)
    ensures
        final(keys)@.to_multiset() == old(keys)@.to_multiset(),
        forall|i: int, j: int|
            0 <= i < j < final(keys)@.len() ==> key_before(
                #[trigger] final(keys)@[i],
                #[trigger] final(keys)@[j],
            ),
{
    keys.sort_unstable();
}

pub open spec fn place(key: SortKey) -> (int, int) {
    (key.2 as int, key.3 as int)
}

/// The positions that keys name, in their order.
pub open spec fn places(keys: Seq<SortKey>) -> Seq<(int, int)> {
    keys.map_values(|key: SortKey| place(key))
}

/// Whether `order` holds the elements of `keys`, in ascending order.
pub open spec fn sorts(keys: Seq<SortKey>, order: Seq<SortKey>) -> bool {
    &&& order.to_multiset() == keys.to_multiset()
    &&& forall|i: int, j: int|
        0 <= i < j < order.len() ==> key_before(#[trigger] order[i], #[trigger] order[j])
}

pub proof fn lemma_sorted_member(keys: Seq<SortKey>, order: Seq<SortKey>, i: int) -> (k: int)
    requires
        sorts(keys, order),
        0 <= i < order.len(),
    ensures
        0 <= k < keys.len(),
        keys[k] == order[i],
{
    broadcast use vstd::seq_lib::group_to_multiset_ensures;

    assert(order.contains(order[i]));
    assert(order.to_multiset().count(order[i]) > 0);
    assert(keys.contains(order[i]));
    choose|k: int| 0 <= k < keys.len() && keys[k] == order[i]
}

/// The cells at some places.
pub open spec fn cells_at(cells: Seq<CellView>, rows: Seq<int>) -> Seq<CellView> {
    rows.map_values(|row: int| cells[row])
}

/// The rows of a batch at some places.
pub open spec fn taken(batch: BatchView, rows: Seq<int>) -> BatchView {
    BatchView {
        schema: batch.schema,
        columns: batch.columns.map_values(
            |column: ColumnView|
                ColumnView { data_type: column.data_type, cells: cells_at(column.cells, rows) },
        ),
        rows: rows.len(),
    }
}

proof fn lemma_value_bytes_remove(cells: Seq<CellView>, at: int)
    requires
        0 <= at < cells.len(),
    ensures
        batch::value_bytes(cells) == batch::value_bytes(cells.remove(at)) + batch::cell_bytes(
            cells[at],
        ),
    decreases cells.len(),
{
    if at == cells.len() - 1 {
        assert(cells.remove(at) =~= cells.drop_last());
    } else {
        lemma_value_bytes_remove(cells.drop_last(), at);
        assert(cells.remove(at).drop_last() =~= cells.drop_last().remove(at));
        assert(cells.remove(at).last() == cells.last());
    }
}

/// Cells at different places take no more bytes than all cells.
proof fn lemma_value_bytes_at(cells: Seq<CellView>, rows: Seq<int>)
    requires
        rows.no_duplicates(),
        forall|i: int| 0 <= i < rows.len() ==> 0 <= #[trigger] rows[i] < cells.len(),
    ensures
        batch::value_bytes(cells_at(cells, rows)) <= batch::value_bytes(cells),
    decreases cells.len(),
{
    if rows.len() > 0 {
        assert(0 <= rows[0] < cells.len());
        let front = cells.drop_last();
        let last = cells.len() - 1;
        if rows.contains(last) {
            let k = choose|k: int| 0 <= k < rows.len() && rows[k] == last;
            let rest = rows.remove(k);
            assert forall|i: int| 0 <= i < rest.len() implies 0 <= #[trigger] rest[i] < front.len() by {
                let from = if i < k {
                    i
                } else {
                    i + 1
                };
                assert(rest[i] == rows[from]);
            }
            assert(rest.no_duplicates());
            lemma_value_bytes_at(front, rest);
            lemma_value_bytes_remove(cells_at(cells, rows), k);
            assert(cells_at(cells, rows).remove(k) =~= cells_at(front, rest));
        } else {
            assert forall|i: int| 0 <= i < rows.len() implies 0 <= #[trigger] rows[i] < front.len() by {
                assert(rows[i] != last);
            }
            lemma_value_bytes_at(front, rows);
            assert(cells_at(cells, rows) =~= cells_at(front, rows));
        }
    }
}

/// Some rows of a batch are a batch.
proof fn lemma_taken_wf(batch: BatchView, rows: Seq<int>)
    requires
        batch.wf(),
        rows.no_duplicates(),
        forall|i: int| 0 <= i < rows.len() ==> 0 <= #[trigger] rows[i] < batch.rows,
    ensures
        taken(batch, rows).wf(),
        rows_in(taken(batch, rows)) == rows.map_values(|row: int| row_at(batch, row)),
{
    let result = taken(batch, rows);
    assert forall|c: int| 0 <= c < result.columns.len() implies {
        let column = #[trigger] result.columns[c];
        &&& column.cells.len() == rows.len()
        &&& column.data_type == batch.columns[c].data_type
        &&& !batch::has_null(batch.columns[c].cells) ==> !batch::has_null(column.cells)
        &&& batch::cells_fit(column.cells, column.data_type)
        &&& batch::offsets_hold(column)
    } by {
        let column = batch.columns[c];
        assert(column.cells.len() == batch.rows);
        assert(batch::cells_fit(column.cells, column.data_type));
        assert(batch::offsets_hold(column));
        lemma_value_bytes_at(column.cells, rows);
        assert forall|i: int| 0 <= i < rows.len() implies batch::cell_fits(
            #[trigger] cells_at(column.cells, rows)[i],
            column.data_type,
        ) by {
            assert(batch::cell_fits(column.cells[rows[i]], column.data_type));
        }
    }
    assert(batch::required_columns_filled(batch.schema.fields, batch.columns));
    assert(batch::column_types_match(batch.schema.fields, batch.columns));
    assert forall|i: int| 0 <= i < result.columns.len() && !batch.schema.fields[i].nullable implies
    !batch::has_null((#[trigger] result.columns[i]).cells) by {
        assert(!batch::has_null(batch.columns[i].cells));
    }
    assert forall|i: int| 0 <= i < result.columns.len() implies (#[trigger] result.columns[i]).data_type
        == batch.schema.fields[i].data_type by {
        assert(batch.columns[i].data_type == batch.schema.fields[i].data_type);
    }
    let rows_then = rows.map_values(|row: int| row_at(batch, row));
    assert forall|i: int| 0 <= i < rows.len() implies #[trigger] rows_in(result)[i] == rows_then[i] by {
        assert(row_at(result, i) =~= row_at(batch, rows[i]));
    }
    assert(rows_in(result) =~= rows_then);
}

/// The rows of one batch that `keys[from..to]` name.
fn take_rows(batch: &RecordBatch, keys: &Vec<SortKey>, from: usize, to: usize) -> (result: RecordBatch)
    requires
        from <= to <= keys@.len(),
        forall|i: int| from <= i < to ==> (#[trigger] keys@[i]).3 < batch.deep_view().rows,
        forall|i: int, j: int|
            from <= i < j < to ==> (#[trigger] keys@[i]).3 != (#[trigger] keys@[j]).3,
    ensures
        result.deep_view() == taken(
            batch.deep_view(),
            keys@.subrange(from as int, to as int).map_values(|key: SortKey| key.3 as int),
        ),
        result.deep_view().wf(),
        rows_in(result.deep_view()) == keys@.subrange(from as int, to as int).map_values(
            |key: SortKey| row_at(batch.deep_view(), key.3 as int),
        ),
{
    let ghost view = batch.deep_view();
    let ghost rows = keys@.subrange(from as int, to as int).map_values(|key: SortKey| key.3 as int);
    let ghost target = taken(view, rows);
    let width = batch.num_columns();
    let mut columns: Vec<Column> = Vec::new();
    let mut c: usize = 0;
    while c < width
        invariant
            c <= width,
            width == view.columns.len(),
            view == batch.deep_view(),
            view.wf(),
            from <= to <= keys@.len(),
            rows == keys@.subrange(from as int, to as int).map_values(
                |key: SortKey| key.3 as int,
            ),
            target == taken(view, rows),
            forall|i: int| from <= i < to ==> (#[trigger] keys@[i]).3 < view.rows,
            columns.deep_view() =~= target.columns.take(c as int),
        decreases width - c,
    {
        let ghost before = columns.deep_view();
        let source = batch.column(c);
        let ghost cells = source.cells.deep_view();
        assert(view.columns[c as int].cells.len() == view.rows);
        let mut picked: Vec<Cell> = Vec::new();
        let mut i: usize = from;
        assert(picked.deep_view() =~= Seq::empty());
        while i < to
            invariant
                from <= i <= to <= keys@.len(),
                cells == source.cells.deep_view(),
                cells.len() == view.rows,
                rows == keys@.subrange(from as int, to as int).map_values(
                    |key: SortKey| key.3 as int,
                ),
                forall|i: int| from <= i < to ==> (#[trigger] keys@[i]).3 < view.rows,
                picked.deep_view() =~= cells_at(cells, rows).take(i - from),
            decreases to - i,
        {
            let ghost had = picked.deep_view();
            let row = keys[i].3;
            assert(keys@[i as int].3 < view.rows);
            assert(cells[row as int] == source.cells@[row as int].deep_view());
            picked.push(source.cells[row].clone());
            assert(rows[i - from] == row);
            assert(picked.deep_view() =~= had.push(cells_at(cells, rows)[i - from]));
            i = i + 1;
        }
        assert(picked.deep_view() =~= cells_at(cells, rows));
        let column = Column { data_type: source.data_type.clone(), cells: picked };
        let ghost added = column.deep_view();
        columns.push(column);
        assert(added =~= target.columns[c as int]);
        assert(columns.deep_view() =~= before.push(added));
        c = c + 1;
    }
    proof {
        assert(columns.deep_view() =~= target.columns);
        assert forall|i: int, j: int| 0 <= i < rows.len() && 0 <= j < rows.len() && i != j implies
        rows[i] != rows[j] by {
            assert(keys@[from + i].3 == rows[i] && keys@[from + j].3 == rows[j]);
        }
        assert forall|i: int| 0 <= i < rows.len() implies 0 <= #[trigger] rows[i] < view.rows by {
            assert(keys@[from + i].3 == rows[i]);
        }
        lemma_taken_wf(view, rows);
        assert(rows.map_values(|row: int| row_at(view, row)) =~= keys@.subrange(
            from as int,
            to as int,
        ).map_values(|key: SortKey| row_at(view, key.3 as int)));
    }
    match RecordBatch::try_new_with_rows(batch.schema().clone(), columns, to - from) {
        Ok(result) => result,
        Err(_) => batch.clone(),
    }
}

/// The rows of all batches in the order of their keys, in batches each of which holds rows of one.
pub(crate) fn arrange(batches: &Vec<RecordBatch>, keys: Vec<SortKey>) -> (result: Vec<RecordBatch>)
    requires
        places(keys@) == positions(batches.deep_view()),
    ensures
        exists|order: Seq<SortKey>| #[trigger]
            sorts(keys@, order) && arranges(
                batches.deep_view(),
                places(order),
                result.deep_view(),
            ),
{
    let ghost all = batches.deep_view();
    let ghost unsorted = keys@;
    let mut keys = keys;
    sort_keys(&mut keys);
    let ghost order = places(keys@);
    let ghost target = rows_at(all, order);
    proof {
        lemma_bag_of_map(keys@, unsorted, |key: SortKey| place(key));
        assert(is_arrangement(order, all));
        lemma_arrangement(order, all);
    }
    let mut result: Vec<RecordBatch> = Vec::new();
    let mut from: usize = 0;
    assert(result.deep_view() =~= Seq::empty());
    while from < keys.len()
        invariant
            from <= keys@.len(),
            all == batches.deep_view(),
            order == places(keys@),
            order.no_duplicates(),
            forall|i: int| 0 <= i < order.len() ==> names_row(all, #[trigger] order[i]),
            target == rows_at(all, order),
            rows_of(result.deep_view()) =~= target.take(from as int),
            forall|i: int|
                0 <= i < result.deep_view().len() ==> (#[trigger] result.deep_view()[i]).wf()
                    && result.deep_view()[i].rows > 0 && has_schema(
                    all,
                    result.deep_view()[i].schema,
                ),
        decreases keys@.len() - from,
    {
        let source = keys[from].2;
        let mut to: usize = from + 1;
        while to < keys.len() && keys[to].2 == source
            invariant
                from < to <= keys@.len(),
                forall|i: int| from <= i < to ==> (#[trigger] keys@[i]).2 == source,
            decreases keys@.len() - to,
        {
            to = to + 1;
        }
        assert(names_row(all, order[from as int]));
        assert(order[from as int] == place(keys@[from as int]));
        assert(all[source as int] == batches@[source as int].deep_view());
        proof {
            assert forall|i: int| from <= i < to implies (#[trigger] keys@[i]).3
                < all[source as int].rows by {
                assert(order[i] == place(keys@[i]));
                assert(names_row(all, order[i]));
            }
            assert forall|i: int, j: int| from <= i < j < to implies (#[trigger] keys@[i]).3 != (
            #[trigger] keys@[j]).3 by {
                assert(order[i] == place(keys@[i]) && order[j] == place(keys@[j]));
                assert(order[i] != order[j]);
            }
        }
        let ghost before = result.deep_view();
        let batch = take_rows(&batches[source], &keys, from, to);
        let ghost added = batch.deep_view();
        result.push(batch);
        proof {
            assert(result.deep_view() =~= before.push(added));
            assert(result.deep_view().drop_last() =~= before);
            assert(rows_in(added) =~= target.subrange(from as int, to as int)) by {
                assert forall|i: int| 0 <= i < to - from implies #[trigger] rows_in(added)[i]
                    == target[from + i] by {
                    assert(order[from + i] == place(keys@[from + i]));
                }
            }
            assert(target.take(to as int) =~= target.take(from as int) + target.subrange(
                from as int,
                to as int,
            ));
            assert(all[source as int].schema == added.schema);
            assert forall|i: int| 0 <= i < result.deep_view().len() implies (
            #[trigger] result.deep_view()[i]).wf() && result.deep_view()[i].rows > 0 && has_schema(
                all,
                result.deep_view()[i].schema,
            ) by {
                if i < before.len() {
                    assert(result.deep_view()[i] == before[i]);
                }
            }
        }
        from = to;
    }
    assert(target.take(from as int) =~= target);
    assert(sorts(unsorted, keys@));
    result
}

} // verus!
