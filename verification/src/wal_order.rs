//! Rows in the order of the write-ahead log.
use std::sync::Arc;
use vstd::prelude::*;
use crate::arrange;
use crate::arrange::{arrange, find_number, SortKey};
use crate::batch::{BatchView, RecordBatch};
use crate::schema::{COLUMN_RECORD_INDEX, COLUMN_WAL_SEQUENCE};

verus! {

/// Whether the row at one position was written before the row at another.
pub open spec fn earlier(batches: Seq<BatchView>, first: (int, int), second: (int, int)) -> bool {
    let first_sequence = arrange::number_in(batches[first.0], COLUMN_WAL_SEQUENCE@, first.1);
    let second_sequence = arrange::number_in(batches[second.0], COLUMN_WAL_SEQUENCE@, second.1);
    let first_record = arrange::number_in(batches[first.0], COLUMN_RECORD_INDEX@, first.1);
    let second_record = arrange::number_in(batches[second.0], COLUMN_RECORD_INDEX@, second.1);
    ||| first_sequence < second_sequence
    ||| first_sequence == second_sequence && first_record < second_record
    ||| first_sequence == second_sequence && first_record == second_record && (first.0 < second.0
        || first.0 == second.0 && first.1 < second.1)
}

/// Whether the rows run in WAL order: by sequence, then by their place in the frame. Rows that agree
/// in both stay in their order.
pub open spec fn ascends(batches: Seq<BatchView>, order: Seq<(int, int)>) -> bool {
    forall|i: int, j: int|
        0 <= i < j < order.len() ==> earlier(batches, #[trigger] order[i], #[trigger] order[j])
}

/// WAL sequence and record index of a row, and its position.
pub open spec fn wal_key(batch: BatchView, at: int, row: int) -> SortKey {
    (
        arrange::number_in(batch, COLUMN_WAL_SEQUENCE@, row),
        arrange::number_in(batch, COLUMN_RECORD_INDEX@, row),
        at as usize,
        row as usize,
    )
}

/// The keys of the rows of all batches, in row order.
pub open spec fn wal_keys(batches: Seq<BatchView>) -> Seq<SortKey>
    decreases batches.len(),
{
    if batches.len() == 0 {
        Seq::empty()
    } else {
        wal_keys(batches.drop_last()) + Seq::new(
            batches.last().rows,
            |row: int| wal_key(batches.last(), batches.len() - 1, row),
        )
    }
}

/// Adds the keys of the rows of one batch.
fn push_keys(keys: &mut Vec<SortKey>, batch: &RecordBatch, at: usize)
    ensures
        final(keys)@ == old(keys)@ + Seq::new(
            batch.deep_view().rows,
            |row: int| wal_key(batch.deep_view(), at as int, row),
        ),
        batch.deep_view().wf(),
        batch.deep_view().rows <= usize::MAX,
{
    let ghost before = keys@;
    let ghost view = batch.deep_view();
    let count = batch.num_rows();
    let mut row: usize = 0;
    assert(keys@ =~= before + Seq::new(0, |r: int| wal_key(view, at as int, r)));
    while row < count
        invariant
            row <= count,
            view == batch.deep_view(),
            count == view.rows,
            keys@ == before + Seq::new(row as nat, |r: int| wal_key(view, at as int, r)),
        decreases count - row,
    {
        let sequence = find_number(batch, COLUMN_WAL_SEQUENCE, row);
        let record = find_number(batch, COLUMN_RECORD_INDEX, row);
        let ghost had = keys@;
        keys.push((sequence, record, at, row));
        assert(keys@ =~= had.push(wal_key(view, at as int, row as int)));
        assert(keys@ =~= before + Seq::new((row + 1) as nat, |r: int| wal_key(view, at as int, r)));
        row = row + 1;
    }
}

/// The keys of the rows of all batches, in row order.
pub(crate) fn shared_keys(batches: &Vec<Arc<RecordBatch>>) -> (keys: Vec<SortKey>)
    ensures
        keys@ == wal_keys(batches.deep_view()),
        positions_fit(batches.deep_view()),
        forall|i: int|
            0 <= i < batches.deep_view().len() ==> (#[trigger] batches.deep_view()[i]).wf(),
{
    let ghost all = batches.deep_view();
    let mut keys: Vec<SortKey> = Vec::new();
    let mut i: usize = 0;
    assert(all.take(0) =~= Seq::empty());
    while i < batches.len()
        invariant
            i <= batches.len(),
            all == batches.deep_view(),
            keys@ == wal_keys(all.take(i as int)),
            forall|k: int|
                0 <= k < i ==> (#[trigger] all[k]).wf() && all[k].rows <= usize::MAX,
        decreases batches.len() - i,
    {
        assert(all.take(i + 1).drop_last() =~= all.take(i as int));
        assert(all[i as int] == batches@[i as int].deep_view());
        push_keys(&mut keys, &batches[i], i);
        assert(keys@ =~= wal_keys(all.take(i + 1)));
        i = i + 1;
    }
    assert(all.take(i as int) =~= all);
    keys
}

fn build_keys(batches: &Vec<RecordBatch>) -> (keys: Vec<SortKey>)
    ensures
        keys@ == wal_keys(batches.deep_view()),
        positions_fit(batches.deep_view()),
{
    let ghost all = batches.deep_view();
    let mut keys: Vec<SortKey> = Vec::new();
    let mut i: usize = 0;
    assert(all.take(0) =~= Seq::empty());
    while i < batches.len()
        invariant
            i <= batches.len(),
            all == batches.deep_view(),
            keys@ == wal_keys(all.take(i as int)),
            forall|k: int| 0 <= k < i ==> (#[trigger] all[k]).rows <= usize::MAX,
        decreases batches.len() - i,
    {
        assert(all.take(i + 1).drop_last() =~= all.take(i as int));
        assert(all[i as int] == batches@[i as int].deep_view());
        push_keys(&mut keys, &batches[i], i);
        assert(keys@ =~= wal_keys(all.take(i + 1)));
        i = i + 1;
    }
    assert(all.take(i as int) =~= all);
    keys
}

/// Whether positions of rows are machine numbers.
pub open spec fn positions_fit(batches: Seq<BatchView>) -> bool {
    &&& batches.len() <= usize::MAX
    &&& forall|i: int| 0 <= i < batches.len() ==> (#[trigger] batches[i]).rows <= usize::MAX
}

/// Keys name their rows.
pub proof fn lemma_wal_keys(batches: Seq<BatchView>)
    requires
        positions_fit(batches),
    ensures
        arrange::places(wal_keys(batches)) == arrange::positions(batches),
        forall|k: int|
            0 <= k < wal_keys(batches).len() ==> {
                let at = arrange::place(#[trigger] wal_keys(batches)[k]);
                &&& arrange::names_row(batches, at)
                &&& wal_keys(batches)[k] == wal_key(batches[at.0], at.0, at.1)
            },
    decreases batches.len(),
{
    let keys = wal_keys(batches);
    if batches.len() > 0 {
        let front = batches.drop_last();
        let last = batches[batches.len() - 1];
        assert forall|i: int| 0 <= i < front.len() implies (#[trigger] front[i]).rows
            <= usize::MAX by {
            assert(front[i] == batches[i]);
        }
        lemma_wal_keys(front);
        assert(last.rows <= usize::MAX);
        let before = wal_keys(front);
        assert(arrange::places(keys) =~= arrange::positions(batches)) by {
            assert forall|k: int| 0 <= k < keys.len() implies arrange::places(keys)[k]
                == #[trigger] arrange::positions(batches)[k] by {
                if k < before.len() {
                    assert(arrange::places(before)[k] == arrange::positions(front)[k]);
                }
            }
        }
        assert forall|k: int| 0 <= k < keys.len() implies {
            let at = arrange::place(#[trigger] keys[k]);
            &&& arrange::names_row(batches, at)
            &&& keys[k] == wal_key(batches[at.0], at.0, at.1)
        } by {
            if k < before.len() {
                let at = arrange::place(before[k]);
                assert(keys[k] == before[k]);
                assert(arrange::names_row(front, at));
                assert(front[at.0] == batches[at.0]);
            }
        }
    } else {
        assert(arrange::places(keys) =~= arrange::positions(batches));
    }
}

/// Sorting the keys puts the rows in WAL order.
pub proof fn lemma_sorted_keys_ascend(
    batches: Seq<BatchView>,
    keys: Seq<SortKey>,
    order: Seq<(int, int)>,
)
    requires
        positions_fit(batches),
        arrange::sorts(wal_keys(batches), keys),
        order == arrange::places(keys),
        order.no_duplicates(),
    ensures
        ascends(batches, order),
{
    let unsorted = wal_keys(batches);
    lemma_wal_keys(batches);
    assert forall|i: int, j: int| 0 <= i < j < order.len() implies earlier(
        batches,
        #[trigger] order[i],
        #[trigger] order[j],
    ) by {
        let a = arrange::lemma_sorted_member(unsorted, keys, i);
        let b = arrange::lemma_sorted_member(unsorted, keys, j);
        let (first, second) = (arrange::place(unsorted[a]), arrange::place(unsorted[b]));
        assert(unsorted[a] == wal_key(batches[first.0], first.0, first.1));
        assert(unsorted[b] == wal_key(batches[second.0], second.0, second.1));
        assert(arrange::key_before(keys[i], keys[j]));
        assert(order[i] == first && order[j] == second);
        assert(order[i] != order[j]);
    }
}

/// All rows, in WAL order.
///
/// An hour file holds its rows from the newest event to the oldest; what is read from it is handed
/// out in the order in which it was written to the log. Each returned batch holds rows of one given
/// batch.
pub fn sort_by_wal_order(batches: &Vec<RecordBatch>) -> (sorted: Vec<RecordBatch>)
    ensures
        exists|order: Seq<(int, int)>| #[trigger]
            ascends(batches.deep_view(), order) && arrange::arranges(
                batches.deep_view(),
                order,
                sorted.deep_view(),
            ),
{
    let ghost all = batches.deep_view();
    let keys = build_keys(batches);
    proof {
        lemma_wal_keys(all);
    }
    let sorted = arrange(batches, keys);
    proof {
        let keys = choose|keys: Seq<SortKey>| #[trigger]
            arrange::sorts(wal_keys(all), keys) && arrange::arranges(
                all,
                arrange::places(keys),
                sorted.deep_view(),
            );
        let order = arrange::places(keys);
        arrange::lemma_arrangement(order, all);
        lemma_sorted_keys_ascend(all, keys, order);
    }
    sorted
}

/// In WAL order a row never stands before one of an earlier sequence, nor before one of the same sequence
/// with a lower record index.
pub proof fn wal_order_goes_by_sequence_then_record(
    batches: Seq<BatchView>,
    order: Seq<(int, int)>,
    i: int,
    j: int,
    first: (u64, u32),
    second: (u64, u32),
)
    requires
        ascends(batches, order),
        0 <= i < order.len(),
        0 <= j < order.len(),
        shows_place(batches[order[i].0], order[i].1, first),
        shows_place(batches[order[j].0], order[j].1, second),
        first.0 < second.0 || (first.0 == second.0 && first.1 < second.1),
    ensures
        i < j,
{
    if j < i {
        assert(earlier(batches, order[j], order[i]));
    }
}

/// Whether a row has this WAL sequence and record index in the columns of these names.
pub open spec fn shows_place(batch: BatchView, row: int, place: (u64, u32)) -> bool {
    let sequence = batch.column_by_name(COLUMN_WAL_SEQUENCE@);
    let record = batch.column_by_name(COLUMN_RECORD_INDEX@);
    &&& sequence is Some
    &&& record is Some
    &&& sequence->0.cells[row] == crate::batch::CellView::UInt64(place.0)
    &&& record->0.cells[row] == crate::batch::CellView::UInt32(place.1)
}

} // verus!
