//! Per-tenant active and frozen generations.
//!
//! The caller decodes a WAL frame, then appends the resulting [`DecodedLogs`]. A generation owns a
//! contiguous exclusive sequence range and one dynamic schema. New attribute fields are admitted
//! until the generation column cap; later fields stay in the JSON fallback columns. A normalized
//! name collision renames every member of that group and rebuilds batch schemas around the same
//! columns. Freezing aligns every batch to the union schema, inserting typed nulls for columns a
//! batch does not contain. The frame that crosses the row or byte limit stays in the active
//! generation, and that generation then freezes. Age freezes a generation that already holds frames
//! before the next frame starts a new window. An empty generation does not rotate.
use std::collections::VecDeque;
use std::sync::Arc;
use vstd::prelude::*;
use crate::align;
use crate::align::{
    align_batch, names_changed, project_batch, schema_fingerprint, MemtableError, MemtableErrorView,
};
use crate::batch;
use crate::batch::{share, total_bytes, BatchView, RecordBatch};
use crate::clock::Clock;
use crate::decode::{DecodedLogs, DecodedPartition, DecodedView};
use crate::frame;
use crate::frame::{project, FrameView, ProjectedFrame};
use crate::generation;
use crate::generation::{
    place_batch, Generation, GenerationPartition, GenerationView, HourView,
};
use crate::identity::{DynamicField, DynamicFieldView, DynamicIdentity, IdentityView};
use crate::naming;
use crate::schema::{logs_schema, Schema, SchemaView};
use crate::text::same_text;

verus! {

/// Upper bounds that rotate or pause one memtable.
#[derive(Clone, Copy, Debug, PartialEq, Eq, Structural)]
pub struct MemtableConfig {
    /// Freeze after an append makes the active generation contain more than this many rows.
    pub max_rows: u64,
    /// Freeze after an append makes the active generation use more than this many Arrow buffer
    /// bytes.
    pub max_bytes: u64,
    /// Freeze a generation that already holds frames when it is at least this old.
    pub max_age_nanos: u128,
    /// Maximum number of frozen generations waiting to be released.
    pub max_frozen: usize,
    /// Maximum number of dynamic attribute columns admitted into one generation.
    ///
    /// Fields past this limit are removed from the stored batches and remain in the JSON fallback
    /// columns. Already admitted fields stay when a later frame arrives.
    pub max_dynamic_columns: usize,
}

/// Result of storing one decoded frame.
#[derive(Clone, Copy, Debug, PartialEq, Eq, Structural)]
pub struct Appended {
    /// Store epoch after this append.
    pub epoch: u64,
    /// Generation that received the frame.
    pub generation_id: u64,
    /// The receiving generation was frozen because the row or byte limit was crossed.
    pub sealed: bool,
}

/// Point-in-time view of every generation that still owns rows or sequence progress.
#[derive(Debug)]
pub struct Snapshot {
    /// Epoch at which the view was taken.
    pub epoch: u64,
    /// Frozen generations, oldest first.
    pub frozen: Vec<Generation>,
    /// Active generation after it has accepted at least one frame.
    pub active: Option<Generation>,
}

#[verifier::ext_equal]
pub struct SnapshotView {
    pub epoch: u64,
    pub frozen: Seq<GenerationView>,
    pub active: Option<GenerationView>,
}

impl DeepView for Snapshot {
    type V = SnapshotView;

    open spec fn deep_view(&self) -> SnapshotView {
        SnapshotView {
            epoch: self.epoch,
            frozen: self.frozen.deep_view(),
            active: self.active.deep_view(),
        }
    }
}

// The active generation.

#[verifier::ext_equal]
pub struct ActiveView {
    pub admitted: Seq<IdentityView>,
    pub generation: GenerationView,
}

/// A generation without frames.
pub open spec fn empty_active(id: u64) -> ActiveView {
    let fields = Seq::<DynamicFieldView>::empty();
    ActiveView {
        admitted: Seq::empty(),
        generation: GenerationView {
            id,
            first_sequence: 0,
            next_sequence: 0,
            rows: 0,
            bytes: 0,
            opened_at_unix_nanos: 0,
            dynamic_fields: fields,
            schema: generation::generation_schema(fields),
            fingerprint: align::fingerprint_of(generation::generation_schema(fields).fields),
            partitions: Seq::empty(),
        },
    }
}

pub open spec fn map_batches(
    partitions: Seq<HourView>,
    change: spec_fn(BatchView) -> BatchView,
) -> Seq<HourView> {
    partitions.map_values(
        |partition: HourView|
            HourView { hour: partition.hour, batches: partition.batches.map_values(change) },
    )
}

/// What a stored batch becomes under new names for its columns.
pub open spec fn renaming(fields: Seq<DynamicFieldView>) -> spec_fn(BatchView) -> BatchView {
    |batch: BatchView| align::projected(batch, fields)->Ok_0
}

/// What a stored batch becomes when its generation freezes.
pub open spec fn alignment(schema: SchemaView) -> spec_fn(BatchView) -> BatchView {
    |batch: BatchView| align::aligned(batch, schema)->Ok_0
}

/// The active generation after one more frame.
pub open spec fn stored_frame(
    active: ActiveView,
    frame: FrameView,
    sequence: u64,
    now: u64,
    frame_bytes: u64,
) -> ActiveView {
    let before = active.generation;
    ActiveView {
        admitted: frame.admitted,
        generation: GenerationView {
            id: before.id,
            first_sequence: if before.has_frames() {
                before.first_sequence
            } else {
                sequence
            },
            next_sequence: (sequence + 1) as u64,
            rows: generation::clamped(
                before.rows + generation::clamped(
                    generation::frame_rows(frame.partitions) as int,
                ),
            ),
            bytes: generation::clamped(before.bytes + frame_bytes),
            opened_at_unix_nanos: if before.has_frames() {
                before.opened_at_unix_nanos
            } else {
                now
            },
            dynamic_fields: frame.fields,
            schema: generation::generation_schema(frame.fields),
            fingerprint: align::fingerprint_of(
                generation::generation_schema(frame.fields).fields,
            ),
            partitions: generation::push_batches(
                map_batches(before.partitions, renaming(frame.fields)),
                frame.partitions,
            ),
        },
    }
}

/// A frozen generation: every batch stands under the schema of the generation.
pub open spec fn frozen_generation(generation: GenerationView, bytes: u64) -> GenerationView {
    GenerationView {
        bytes,
        partitions: map_batches(generation.partitions, alignment(generation.schema)),
        ..generation
    }
}

/// What holds of every generation, active or frozen.
pub open spec fn generation_ok(generation: GenerationView) -> bool {
    &&& generation::fields_ok(generation.dynamic_fields)
    &&& generation.schema == generation::generation_schema(generation.dynamic_fields)
    &&& generation.fingerprint == align::fingerprint_of(generation.schema.fields)
    &&& generation.first_sequence <= generation.next_sequence
    &&& generation::hours_sorted(generation.partitions)
    &&& generation.rows == generation::clamped(
        generation::partition_rows(generation.partitions) as int,
    )
    &&& batch::covers(generation.bytes, generation::partition_bytes(generation.partitions))
}

/// What holds of the active generation.
pub open spec fn active_ok(active: ActiveView) -> bool {
    let fields = active.generation.dynamic_fields;
    &&& generation_ok(active.generation)
    &&& forall|i: int|
        0 <= i < fields.len() ==> active.admitted.contains((#[trigger] fields[i]).identity)
    &&& forall|i: int|
        0 <= i < active.admitted.len() ==> naming::has_column(
            fields,
            #[trigger] active.admitted[i],
        )
    &&& generation::every_batch(active.generation.partitions, generation::stored_under(fields))
    &&& !active.generation.has_frames() ==> active == empty_active(active.generation.id)
}

/// What holds of a frozen generation: it has frames, and every batch has its schema.
pub open spec fn frozen_ok(generation: GenerationView) -> bool {
    &&& generation_ok(generation)
    &&& generation.has_frames()
    &&& generation::every_batch(
        generation.partitions,
        generation::frozen_under(generation.schema),
    )
}

proof fn lemma_empty_active(id: u64)
    ensures
        active_ok(empty_active(id)),
{
}

proof fn lemma_map_rows(partitions: Seq<HourView>, change: spec_fn(BatchView) -> BatchView)
    requires
        forall|p: int, b: int|
            0 <= p < partitions.len() && 0 <= b < partitions[p].batches.len() ==> change(
                #[trigger] partitions[p].batches[b],
            ).rows == partitions[p].batches[b].rows,
    ensures
        generation::partition_rows(map_batches(partitions, change)) == generation::partition_rows(
            partitions,
        ),
    decreases partitions.len(),
{
    if partitions.len() > 0 {
        let front = partitions.drop_last();
        let mapped = map_batches(partitions, change);
        assert forall|p: int, b: int|
            0 <= p < front.len() && 0 <= b < front[p].batches.len() implies change(
            #[trigger] front[p].batches[b],
        ).rows == front[p].batches[b].rows by {
            assert(front[p] == partitions[p]);
            assert(change(partitions[p].batches[b]).rows == partitions[p].batches[b].rows);
        }
        lemma_map_rows(front, change);
        assert(mapped.drop_last() =~= map_batches(front, change));
        let at = partitions.len() - 1;
        let batches = partitions[at].batches;
        assert forall|b: int| 0 <= b < batches.len() implies change(#[trigger] batches[b]).rows
            == batches[b].rows by {
            assert(change(partitions[at].batches[b]).rows == partitions[at].batches[b].rows);
        }
        lemma_map_batch_rows(batches, change);
    } else {
        assert(map_batches(partitions, change) =~= partitions);
    }
}

proof fn lemma_map_batch_rows(batches: Seq<BatchView>, change: spec_fn(BatchView) -> BatchView)
    requires
        forall|b: int|
            0 <= b < batches.len() ==> change(#[trigger] batches[b]).rows == batches[b].rows,
    ensures
        generation::batch_rows(batches.map_values(change)) == generation::batch_rows(batches),
    decreases batches.len(),
{
    if batches.len() > 0 {
        let front = batches.drop_last();
        assert forall|b: int| 0 <= b < front.len() implies change(#[trigger] front[b]).rows
            == front[b].rows by {
            assert(front[b] == batches[b]);
        }
        lemma_map_batch_rows(front, change);
        assert(batches.map_values(change).drop_last() =~= front.map_values(change));
        assert(change(batches[batches.len() - 1]).rows == batches[batches.len() - 1].rows);
    } else {
        assert(batches.map_values(change) =~= batches);
    }
}

proof fn lemma_map_bytes(partitions: Seq<HourView>, change: spec_fn(BatchView) -> BatchView)
    requires
        forall|p: int, b: int|
            0 <= p < partitions.len() && 0 <= b < partitions[p].batches.len() ==> change(
                #[trigger] partitions[p].batches[b],
            ).columns == partitions[p].batches[b].columns,
    ensures
        generation::partition_bytes(map_batches(partitions, change))
            == generation::partition_bytes(partitions),
    decreases partitions.len(),
{
    if partitions.len() > 0 {
        let front = partitions.drop_last();
        let mapped = map_batches(partitions, change);
        assert forall|p: int, b: int|
            0 <= p < front.len() && 0 <= b < front[p].batches.len() implies change(
            #[trigger] front[p].batches[b],
        ).columns == front[p].batches[b].columns by {
            assert(front[p] == partitions[p]);
            assert(change(partitions[p].batches[b]).columns == partitions[p].batches[b].columns);
        }
        lemma_map_bytes(front, change);
        assert(mapped.drop_last() =~= map_batches(front, change));
        let at = partitions.len() - 1;
        let batches = partitions[at].batches;
        assert forall|b: int| 0 <= b < batches.len() implies change(#[trigger] batches[b]).columns
            == batches[b].columns by {
            assert(change(partitions[at].batches[b]).columns == partitions[at].batches[b].columns);
        }
        lemma_map_batch_bytes(batches, change);
    } else {
        assert(map_batches(partitions, change) =~= partitions);
    }
}

proof fn lemma_map_batch_bytes(batches: Seq<BatchView>, change: spec_fn(BatchView) -> BatchView)
    requires
        forall|b: int|
            0 <= b < batches.len() ==> change(#[trigger] batches[b]).columns == batches[b].columns,
    ensures
        generation::batch_bytes(batches.map_values(change)) == generation::batch_bytes(batches),
    decreases batches.len(),
{
    if batches.len() > 0 {
        let front = batches.drop_last();
        assert forall|b: int| 0 <= b < front.len() implies change(#[trigger] front[b]).columns
            == front[b].columns by {
            assert(front[b] == batches[b]);
        }
        lemma_map_batch_bytes(front, change);
        assert(batches.map_values(change).drop_last() =~= front.map_values(change));
        assert(change(batches[batches.len() - 1]).columns == batches[batches.len() - 1].columns);
    } else {
        assert(batches.map_values(change) =~= batches);
    }
}

proof fn lemma_map_hours(partitions: Seq<HourView>, change: spec_fn(BatchView) -> BatchView)
    requires
        generation::hours_sorted(partitions),
    ensures
        generation::hours_sorted(map_batches(partitions, change)),
{
    let mapped = map_batches(partitions, change);
    assert forall|i: int, j: int| 0 <= i < j < mapped.len() implies (#[trigger] mapped[i]).hour < (
    #[trigger] mapped[j]).hour by {
        assert(partitions[i].hour < partitions[j].hour);
    }
}

proof fn lemma_map_every(
    partitions: Seq<HourView>,
    change: spec_fn(BatchView) -> BatchView,
    before: spec_fn(BatchView) -> bool,
    after: spec_fn(BatchView) -> bool,
)
    requires
        generation::every_batch(partitions, before),
        forall|batch: BatchView| #[trigger] before(batch) ==> after(change(batch)),
    ensures
        generation::every_batch(map_batches(partitions, change), after),
{
    let mapped = map_batches(partitions, change);
    assert forall|p: int, b: int|
        0 <= p < mapped.len() && 0 <= b < mapped[p].batches.len() implies after(
        #[trigger] mapped[p].batches[b],
    ) by {
        assert(mapped[p].batches[b] == change(partitions[p].batches[b]));
        assert(before(partitions[p].batches[b]));
    }
}

/// Storing a frame keeps what holds of the active generation.
proof fn lemma_stored_frame(
    active: ActiveView,
    frame: FrameView,
    sequence: u64,
    now: u64,
    frame_bytes: u64,
)
    requires
        active_ok(active),
        frame::frame_ok(frame),
        sequence < u64::MAX,
        active.generation.has_frames() ==> active.generation.next_sequence == sequence,
        active.admitted.len() <= frame.admitted.len(),
        frame.admitted.take(active.admitted.len() as int) == active.admitted,
    ensures
        batch::covers(frame_bytes, generation::frame_bytes(frame.partitions)) ==> active_ok(
            stored_frame(active, frame, sequence, now, frame_bytes),
        ),
        stored_frame(active, frame, sequence, now, frame_bytes).generation.has_frames(),
        generation::partition_rows(
            stored_frame(active, frame, sequence, now, frame_bytes).generation.partitions,
        ) == generation::partition_rows(active.generation.partitions) + generation::frame_rows(
            frame.partitions,
        ),
{
    let before = active.generation;
    let fields = before.dynamic_fields;
    let after = stored_frame(active, frame, sequence, now, frame_bytes).generation;
    assert forall|i: int| 0 <= i < fields.len() implies naming::has_column(
        frame.fields,
        (#[trigger] fields[i]).identity,
    ) by {
        assert(active.admitted.contains(fields[i].identity));
        let k = choose|k: int|
            0 <= k < active.admitted.len() && active.admitted[k] == fields[i].identity;
        assert(frame.admitted.take(active.admitted.len() as int)[k] == frame.admitted[k]);
        assert(naming::has_column(frame.fields, frame.admitted[k]));
    }
    let change = renaming(frame.fields);
    let renamed = map_batches(before.partitions, change);
    assert forall|batch: BatchView| #[trigger] generation::stored_under(fields)(batch) implies
    generation::stored_under(frame.fields)(change(batch)) && change(batch).rows == batch.rows
        && change(batch).columns == batch.columns by {
        generation::lemma_stored_projects(batch, fields, frame.fields);
    }
    lemma_map_every(
        before.partitions,
        change,
        generation::stored_under(fields),
        generation::stored_under(frame.fields),
    );
    lemma_map_hours(before.partitions, change);
    assert forall|p: int, b: int|
        0 <= p < before.partitions.len() && 0 <= b < before.partitions[p].batches.len() implies
    change(#[trigger] before.partitions[p].batches[b]).rows
        == before.partitions[p].batches[b].rows by {
        assert(generation::stored_under(fields)(before.partitions[p].batches[b]));
    }
    lemma_map_rows(before.partitions, change);
    assert forall|p: int, b: int|
        0 <= p < before.partitions.len() && 0 <= b < before.partitions[p].batches.len() implies
    change(#[trigger] before.partitions[p].batches[b]).columns
        == before.partitions[p].batches[b].columns by {
        assert(generation::stored_under(fields)(before.partitions[p].batches[b]));
    }
    lemma_map_bytes(before.partitions, change);
    assert forall|i: int| 0 <= i < frame.partitions.len() implies generation::stored_under(
        frame.fields,
    )((#[trigger] frame.partitions[i]).batch) by {
        assert(generation::stored_ok(frame.partitions[i].batch, frame.fields));
    }
    generation::lemma_push_batches(
        renamed,
        frame.partitions,
        generation::stored_under(frame.fields),
    );
}

/// Whether `bytes` can be the size of the generation once it is frozen.
pub open spec fn frozen_size(generation: GenerationView, bytes: u64) -> bool {
    batch::measures(
        bytes,
        generation::all_batches(
            map_batches(generation.partitions, alignment(generation.schema)),
        ),
    )
}

/// Freezing keeps the rows, aligns every batch, and changes nothing else but the measured bytes.
pub proof fn freezing_aligns(active: ActiveView, bytes: u64)
    requires
        active_ok(active),
        active.generation.has_frames(),
    ensures
        frozen_size(active.generation, bytes) ==> frozen_ok(
            frozen_generation(active.generation, bytes),
        ),
        generation::partition_rows(frozen_generation(active.generation, bytes).partitions)
            == generation::partition_rows(active.generation.partitions),
{
    let before = active.generation;
    let fields = before.dynamic_fields;
    let change = alignment(before.schema);
    assert forall|batch: BatchView| #[trigger] generation::stored_under(fields)(batch) implies
    generation::frozen_under(before.schema)(change(batch)) && change(batch).rows == batch.rows by {
        generation::stored_batches_align(batch, fields);
    }
    lemma_map_every(
        before.partitions,
        change,
        generation::stored_under(fields),
        generation::frozen_under(before.schema),
    );
    lemma_map_hours(before.partitions, change);
    assert forall|p: int, b: int|
        0 <= p < before.partitions.len() && 0 <= b < before.partitions[p].batches.len() implies
    change(#[trigger] before.partitions[p].batches[b]).rows
        == before.partitions[p].batches[b].rows by {
        assert(generation::stored_under(fields)(before.partitions[p].batches[b]));
    }
    lemma_map_rows(before.partitions, change);
    if frozen_size(before, bytes) {
        let frozen = map_batches(before.partitions, change);
        batch::measures_cover_values(bytes, generation::all_batches(frozen));
        generation::lemma_all_batches(frozen);
    }
}

#[derive(Debug)]
struct ActiveGeneration {
    admitted: Vec<DynamicIdentity>,
    generation: Generation,
}

impl DeepView for ActiveGeneration {
    type V = ActiveView;

    closed spec fn deep_view(&self) -> ActiveView {
        ActiveView {
            admitted: self.admitted.deep_view(),
            generation: self.generation.deep_view(),
        }
    }
}

/// Adds the Arrow buffer bytes of each batch of one hour.
fn push_sizes(sizes: &mut Vec<u64>, batches: &Vec<Arc<RecordBatch>>)
    ensures
        final(sizes)@.len() == old(sizes)@.len() + batches.deep_view().len(),
        forall|k: int|
            0 <= k < old(sizes)@.len() ==> #[trigger] final(sizes)@[k] == old(sizes)@[k],
        forall|k: int|
            old(sizes)@.len() <= k < final(sizes)@.len() ==> batch::covers(
                #[trigger] final(sizes)@[k],
                batch::least_columns_bytes(
                    batches.deep_view()[k - old(sizes)@.len()].columns,
                ),
            ),
{
    let ghost all = batches.deep_view();
    let ghost before = sizes@;
    let mut b: usize = 0;
    while b < batches.len()
        invariant
            b <= batches.len(),
            all == batches.deep_view(),
            sizes@.len() == before.len() + b,
            forall|k: int| 0 <= k < before.len() ==> #[trigger] sizes@[k] == before[k],
            forall|k: int|
                before.len() <= k < sizes@.len() ==> batch::covers(
                    #[trigger] sizes@[k],
                    batch::least_columns_bytes(all[k - before.len()].columns),
                ),
        decreases batches.len() - b,
    {
        assert(all[b as int] == batches@[b as int].deep_view());
        sizes.push(batches[b].get_array_memory_size());
        b = b + 1;
    }
}

/// Arrow buffer bytes of the batches of all hours: the sum over the batches.
fn measured_bytes(partitions: &Vec<GenerationPartition>) -> (bytes: u64)
    ensures
        batch::measures(bytes, generation::all_batches(partitions.deep_view())),
{
    let ghost all = partitions.deep_view();
    let mut sizes: Vec<u64> = Vec::new();
    let mut p: usize = 0;
    assert(all.take(0) =~= Seq::empty());
    while p < partitions.len()
        invariant
            p <= partitions.len(),
            all == partitions.deep_view(),
            batch::batch_sizes(sizes@, generation::all_batches(all.take(p as int))),
        decreases partitions.len() - p,
    {
        assert(all.take(p + 1).drop_last() =~= all.take(p as int));
        assert(all[p as int] == partitions@[p as int].deep_view());
        let ghost had = sizes@;
        let ghost before = generation::all_batches(all.take(p as int));
        let ghost after = generation::all_batches(all.take(p + 1));
        push_sizes(&mut sizes, &partitions[p].batches);
        assert forall|k: int| 0 <= k < sizes@.len() implies batch::covers(
            #[trigger] sizes@[k],
            batch::least_columns_bytes(after[k].columns),
        ) by {
            if k < had.len() {
                assert(sizes@[k] == had[k]);
                assert(after[k] == before[k]);
            } else {
                assert(after[k] == all[p as int].batches[k - had.len()]);
            }
        }
        p = p + 1;
    }
    assert(all.take(p as int) =~= all);
    total_bytes(&sizes)
}

fn rename_batches(
    batches: &Vec<Arc<RecordBatch>>,
    current: &Vec<DynamicField>,
    fields: &Vec<DynamicField>,
) -> (renamed: Vec<Arc<RecordBatch>>)
    requires
        generation::fields_ok(current.deep_view()),
        generation::fields_ok(fields.deep_view()),
        forall|i: int|
            0 <= i < current.deep_view().len() ==> naming::has_column(
                fields.deep_view(),
                (#[trigger] current.deep_view()[i]).identity,
            ),
        forall|b: int|
            0 <= b < batches.deep_view().len() ==> generation::stored_ok(
                #[trigger] batches.deep_view()[b],
                current.deep_view(),
            ),
    ensures
        renamed.deep_view() == batches.deep_view().map_values(renaming(fields.deep_view())),
{
    let ghost all = batches.deep_view();
    let ghost was = current.deep_view();
    let ghost named = fields.deep_view();
    let ghost target = all.map_values(renaming(named));
    let mut renamed: Vec<Arc<RecordBatch>> = Vec::new();
    let mut b: usize = 0;
    while b < batches.len()
        invariant
            b <= batches.len(),
            all == batches.deep_view(),
            was == current.deep_view(),
            named == fields.deep_view(),
            target == all.map_values(renaming(named)),
            generation::fields_ok(was),
            generation::fields_ok(named),
            forall|i: int|
                0 <= i < was.len() ==> naming::has_column(named, (#[trigger] was[i]).identity),
            forall|b: int| 0 <= b < all.len() ==> generation::stored_ok(#[trigger] all[b], was),
            renamed.deep_view() =~= target.take(b as int),
        decreases batches.len() - b,
    {
        let ghost before = renamed.deep_view();
        assert(all[b as int] == batches@[b as int].deep_view());
        proof {
            generation::lemma_stored_projects(all[b as int], was, named);
        }
        match project_batch(&batches[b], fields) {
            Ok(batch) => {
                renamed.push(Arc::new(batch));
                assert(renamed.deep_view() =~= before.push(target[b as int]));
            },
            Err(_) => {
                assert(false);
            },
        }
        b = b + 1;
    }
    assert(renamed.deep_view() =~= target);
    renamed
}

fn align_batches(
    batches: &Vec<Arc<RecordBatch>>,
    schema: &Schema,
    fields: &Vec<DynamicField>,
) -> (aligned: Vec<Arc<RecordBatch>>)
    requires
        generation::fields_ok(fields.deep_view()),
        schema.deep_view() == generation::generation_schema(fields.deep_view()),
        forall|b: int|
            0 <= b < batches.deep_view().len() ==> generation::stored_ok(
                #[trigger] batches.deep_view()[b],
                fields.deep_view(),
            ),
    ensures
        aligned.deep_view() == batches.deep_view().map_values(alignment(schema.deep_view())),
{
    let ghost all = batches.deep_view();
    let ghost named = fields.deep_view();
    let ghost union = schema.deep_view();
    let ghost target = all.map_values(alignment(union));
    let mut aligned: Vec<Arc<RecordBatch>> = Vec::new();
    let mut b: usize = 0;
    while b < batches.len()
        invariant
            b <= batches.len(),
            all == batches.deep_view(),
            named == fields.deep_view(),
            union == schema.deep_view(),
            union == generation::generation_schema(named),
            target == all.map_values(alignment(union)),
            generation::fields_ok(named),
            forall|b: int| 0 <= b < all.len() ==> generation::stored_ok(#[trigger] all[b], named),
            aligned.deep_view() =~= target.take(b as int),
        decreases batches.len() - b,
    {
        let ghost before = aligned.deep_view();
        assert(all[b as int] == batches@[b as int].deep_view());
        if batches[b].schema().same(schema) {
            proof {
                generation::lemma_aligned_already(all[b as int], named);
            }
            aligned.push(share(&batches[b]));
            assert(aligned.deep_view() =~= before.push(target[b as int]));
        } else {
            proof {
                generation::stored_batches_align(all[b as int], named);
            }
            match align_batch(&batches[b], schema) {
                Ok(batch) => {
                    aligned.push(Arc::new(batch));
                    assert(aligned.deep_view() =~= before.push(target[b as int]));
                },
                Err(_) => {
                    assert(false);
                },
            }
        }
        b = b + 1;
    }
    assert(aligned.deep_view() =~= target);
    aligned
}

/// Where no name changes, renaming changes nothing.
proof fn lemma_renaming_nothing(
    partitions: Seq<HourView>,
    fields: Seq<DynamicFieldView>,
    named: Seq<DynamicFieldView>,
)
    requires
        generation::fields_ok(fields),
        generation::fields_ok(named),
        generation::every_batch(partitions, generation::stored_under(fields)),
        !align::some_name_changed(fields, named),
    ensures
        map_batches(partitions, renaming(named)) == partitions,
{
    let mapped = map_batches(partitions, renaming(named));
    assert forall|p: int| 0 <= p < partitions.len() implies mapped[p] == #[trigger] partitions[p] by {
        assert forall|b: int| 0 <= b < partitions[p].batches.len() implies mapped[p].batches[b]
            == #[trigger] partitions[p].batches[b] by {
            assert(generation::stored_under(fields)(partitions[p].batches[b]));
            generation::lemma_projected_already(partitions[p].batches[b], fields, named);
        }
        assert(mapped[p].batches =~= partitions[p].batches);
    }
    assert(mapped =~= partitions);
}

impl ActiveGeneration {
    fn empty(id: u64) -> (active: Self)
        ensures
            active.deep_view() == empty_active(id),
    {
        let schema = logs_schema();
        let fingerprint = schema_fingerprint(&schema);
        let active = ActiveGeneration {
            admitted: Vec::new(),
            generation: Generation {
                id,
                first_sequence: 0,
                next_sequence: 0,
                rows: 0,
                bytes: 0,
                opened_at_unix_nanos: 0,
                dynamic_fields: Vec::new(),
                schema,
                fingerprint,
                partitions: Vec::new(),
            },
        };
        proof {
            let fields = Seq::<DynamicFieldView>::empty();
            assert(generation::generation_schema(fields).fields =~= crate::schema::core_fields());
            assert(active.generation.dynamic_fields.deep_view() =~= fields);
            assert(active.deep_view() =~= empty_active(id));
        }
        active
    }

    fn has_frames(&self) -> (has: bool)
        ensures
            has == self.deep_view().generation.has_frames(),
    {
        self.generation.next_sequence != self.generation.first_sequence
    }

    /// The partitions under the names of `fields`.
    fn rename_partitions(&self, fields: &Vec<DynamicField>) -> (renamed: Vec<GenerationPartition>)
        requires
            active_ok(self.deep_view()),
            generation::fields_ok(fields.deep_view()),
            forall|i: int|
                0 <= i < self.deep_view().generation.dynamic_fields.len() ==> naming::has_column(
                    fields.deep_view(),
                    (#[trigger] self.deep_view().generation.dynamic_fields[i]).identity,
                ),
        ensures
            renamed.deep_view() == map_batches(
                self.deep_view().generation.partitions,
                renaming(fields.deep_view()),
            ),
    {
        let ghost view = self.deep_view();
        let ghost all = view.generation.partitions;
        let ghost was = view.generation.dynamic_fields;
        let ghost named = fields.deep_view();
        let ghost target = map_batches(all, renaming(named));
        let partitions = &self.generation.partitions;
        let mut renamed: Vec<GenerationPartition> = Vec::new();
        let mut p: usize = 0;
        while p < partitions.len()
            invariant
                p <= partitions.len(),
                view == self.deep_view(),
                active_ok(view),
                all == view.generation.partitions,
                all == partitions.deep_view(),
                was == view.generation.dynamic_fields,
                was == self.generation.dynamic_fields.deep_view(),
                named == fields.deep_view(),
                target == map_batches(all, renaming(named)),
                generation::fields_ok(named),
                forall|i: int|
                    0 <= i < was.len() ==> naming::has_column(named, (#[trigger] was[i]).identity),
                renamed.deep_view() =~= target.take(p as int),
            decreases partitions.len() - p,
        {
            let ghost before = renamed.deep_view();
            let partition = &partitions[p];
            assert(all[p as int] == partition.deep_view());
            assert forall|b: int| 0 <= b < all[p as int].batches.len() implies generation::stored_ok(
                #[trigger] all[p as int].batches[b],
                was,
            ) by {
                assert(generation::stored_under(was)(all[p as int].batches[b]));
            }
            let batches = rename_batches(
                &partition.batches,
                &self.generation.dynamic_fields,
                fields,
            );
            renamed.push(GenerationPartition { hour: partition.hour, batches });
            assert(renamed.deep_view() =~= before.push(target[p as int]));
            p = p + 1;
        }
        assert(renamed.deep_view() =~= target);
        renamed
    }

    /// The partitions under the schema of the generation.
    fn align_partitions(&self) -> (aligned: Vec<GenerationPartition>)
        requires
            active_ok(self.deep_view()),
        ensures
            aligned.deep_view() == map_batches(
                self.deep_view().generation.partitions,
                alignment(self.deep_view().generation.schema),
            ),
    {
        let ghost view = self.deep_view();
        let ghost all = view.generation.partitions;
        let ghost named = view.generation.dynamic_fields;
        let ghost target = map_batches(all, alignment(view.generation.schema));
        let partitions = &self.generation.partitions;
        let mut aligned: Vec<GenerationPartition> = Vec::new();
        let mut p: usize = 0;
        while p < partitions.len()
            invariant
                p <= partitions.len(),
                view == self.deep_view(),
                active_ok(view),
                all == view.generation.partitions,
                all == partitions.deep_view(),
                named == view.generation.dynamic_fields,
                named == self.generation.dynamic_fields.deep_view(),
                self.generation.schema.deep_view() == view.generation.schema,
                target == map_batches(all, alignment(view.generation.schema)),
                aligned.deep_view() =~= target.take(p as int),
            decreases partitions.len() - p,
        {
            let ghost before = aligned.deep_view();
            let partition = &partitions[p];
            assert(all[p as int] == partition.deep_view());
            assert forall|b: int| 0 <= b < all[p as int].batches.len() implies generation::stored_ok(
                #[trigger] all[p as int].batches[b],
                named,
            ) by {
                assert(generation::stored_under(named)(all[p as int].batches[b]));
            }
            let batches = align_batches(
                &partition.batches,
                &self.generation.schema,
                &self.generation.dynamic_fields,
            );
            aligned.push(GenerationPartition { hour: partition.hour, batches });
            assert(aligned.deep_view() =~= before.push(target[p as int]));
            p = p + 1;
        }
        assert(aligned.deep_view() =~= target);
        aligned
    }
}

// The table.

#[verifier::ext_equal]
pub struct MemtableView {
    pub tenant_id: Seq<char>,
    pub config: MemtableConfig,
    pub next_id: u64,
    pub next_sequence: Option<u64>,
    pub epoch: u64,
    pub active: ActiveView,
    pub frozen: Seq<GenerationView>,
}

/// Whether one generation was opened before another, by their ids. Ids stop growing once the counter
/// is full.
pub open spec fn opened_before(first: u64, second: u64) -> bool {
    first < second || second == u64::MAX
}

/// Whether ids increase from the oldest frozen generation to the active one, and the next id comes
/// after all of them.
pub open spec fn ids_increase(table: MemtableView) -> bool {
    &&& forall|i: int, j: int|
        0 <= i < j < table.frozen.len() ==> opened_before(
            (#[trigger] table.frozen[i]).id,
            (#[trigger] table.frozen[j]).id,
        )
    &&& forall|i: int|
        0 <= i < table.frozen.len() ==> opened_before(
            (#[trigger] table.frozen[i]).id,
            table.active.generation.id,
        )
    &&& opened_before(table.active.generation.id, table.next_id)
}

/// What holds of every memtable: frozen generations stay within their limit, every batch of a
/// frozen generation has the schema of its generation, ids increase from the oldest generation to
/// the active one, and the generations own adjoining sequence ranges up to the next sequence.
pub open spec fn table_ok(table: MemtableView) -> bool {
    let active = table.active.generation;
    &&& table.config.max_frozen > 0
    &&& table.frozen.len() <= table.config.max_frozen
    &&& active_ok(table.active)
    &&& ids_increase(table)
    &&& forall|i: int| 0 <= i < table.frozen.len() ==> frozen_ok(#[trigger] table.frozen[i])
    &&& forall|i: int, j: int|
        0 <= i < table.frozen.len() && j == i + 1 && j < table.frozen.len() ==> (
        #[trigger] table.frozen[i]).next_sequence == (#[trigger] table.frozen[j]).first_sequence
    &&& active.has_frames() ==> table.next_sequence == Some(active.next_sequence)
    &&& active.has_frames() && table.frozen.len() > 0 ==> table.frozen.last().next_sequence
        == active.first_sequence
    &&& !active.has_frames() && table.frozen.len() > 0 ==> table.next_sequence == Some(
        table.frozen.last().next_sequence,
    )
}

/// A memtable that has accepted nothing.
pub open spec fn empty_table(tenant_id: Seq<char>, config: MemtableConfig) -> MemtableView {
    MemtableView {
        tenant_id,
        config,
        next_id: 2,
        next_sequence: None,
        epoch: 0,
        active: empty_active(1),
        frozen: Seq::empty(),
    }
}

/// Whether a generation opened at `opened` has reached the age limit.
pub open spec fn age_reached(config: MemtableConfig, opened: u64, now: u64) -> bool {
    let age = if now >= opened {
        now - opened
    } else {
        0
    };
    age >= generation::clamped(config.max_age_nanos as int)
}

/// What an append will store.
#[verifier::ext_equal]
pub struct PlanView {
    pub aged: bool,
    pub sequence: u64,
    pub now: u64,
    pub frame: FrameView,
}

/// What an append at time `now` will store, or why the frame is refused.
pub open spec fn planned(table: MemtableView, logs: DecodedView, now: u64) -> Result<
    PlanView,
    MemtableErrorView,
> {
    let active = table.active.generation;
    let aged = active.has_frames() && age_reached(table.config, active.opened_at_unix_nanos, now);
    if logs.tenant_id != table.tenant_id {
        Err(
            MemtableErrorView::TenantMismatch {
                expected: table.tenant_id,
                actual: logs.tenant_id,
            },
        )
    } else if logs.sequence == u64::MAX {
        Err(MemtableErrorView::SequenceOverflow { sequence: logs.sequence })
    } else if table.next_sequence is Some && table.next_sequence->0 != logs.sequence {
        Err(
            MemtableErrorView::NonContiguous {
                expected: table.next_sequence->0,
                actual: logs.sequence,
            },
        )
    } else {
        match frame::project_frame(
            if aged {
                Seq::empty()
            } else {
                table.active.admitted
            },
            logs.partitions,
            table.config.max_dynamic_columns as nat,
        ) {
            Err(error) => Err(error),
            Ok(frame) => Ok(PlanView { aged, sequence: logs.sequence, now, frame }),
        }
    }
}

/// Whether the planned frame takes the receiving generation past its row or byte limit.
pub open spec fn crosses_limit(table: MemtableView, plan: PlanView, frame_bytes: u64) -> bool {
    let rows = if plan.aged {
        0
    } else {
        table.active.generation.rows
    };
    let bytes = if plan.aged {
        0
    } else {
        table.active.generation.bytes
    };
    let added = generation::clamped(generation::frame_rows(plan.frame.partitions) as int);
    ||| generation::clamped(rows + added) > table.config.max_rows
    ||| generation::clamped(bytes + frame_bytes) > table.config.max_bytes
}

/// Whether the planned frame freezes its generation, unless the frozen queue is full.
pub open spec fn admission_of(table: MemtableView, plan: PlanView, frame_bytes: u64) -> Result<
    bool,
    MemtableErrorView,
> {
    let sealed = crosses_limit(table, plan, frame_bytes);
    let aging: nat = if plan.aged {
        1
    } else {
        0
    };
    let sealing: nat = if sealed {
        1
    } else {
        0
    };
    if table.frozen.len() + aging + sealing > table.config.max_frozen {
        Err(MemtableErrorView::FrozenLimit)
    } else {
        Ok(sealed)
    }
}

/// The table after the active generation froze.
pub open spec fn sealed_table(table: MemtableView, bytes: u64) -> MemtableView {
    MemtableView {
        frozen: table.frozen.push(frozen_generation(table.active.generation, bytes)),
        active: empty_active(table.next_id),
        next_id: generation::clamped(table.next_id + 1),
        ..table
    }
}

/// The table after the planned frame entered the active generation.
pub open spec fn table_with_frame(
    table: MemtableView,
    plan: PlanView,
    frame_bytes: u64,
) -> MemtableView {
    MemtableView {
        active: stored_frame(table.active, plan.frame, plan.sequence, plan.now, frame_bytes),
        next_sequence: Some((plan.sequence + 1) as u64),
        ..table
    }
}

/// The table one epoch later.
pub open spec fn next_epoch(table: MemtableView) -> MemtableView {
    MemtableView { epoch: generation::clamped(table.epoch + 1), ..table }
}

/// Arrow buffer bytes that an append measured: of the frame, of the generation that age froze, and
/// of the generation that the frame froze.
pub struct Measured {
    pub frame: u64,
    pub aged: u64,
    pub sealed: u64,
}

/// Whether an append at time `now` can measure these sizes: each is a sum with one size for each
/// batch, and Arrow takes room for every value of a batch.
pub open spec fn can_measure(
    table: MemtableView,
    logs: DecodedView,
    now: u64,
    measured: Measured,
) -> bool {
    match planned(table, logs, now) {
        Ok(plan) => {
            let opened = if plan.aged {
                sealed_table(table, measured.aged)
            } else {
                table
            };
            let stored = table_with_frame(opened, plan, measured.frame);
            &&& batch::measures(measured.frame, generation::frame_batches(plan.frame.partitions))
            &&& match admission_of(table, plan, measured.frame) {
                Ok(sealed) => {
                    &&& plan.aged ==> frozen_size(table.active.generation, measured.aged)
                    &&& sealed ==> frozen_size(stored.active.generation, measured.sealed)
                },
                Err(_) => true,
            }
        },
        Err(_) => true,
    }
}

/// What an append does at time `now`, given the measured sizes.
pub open spec fn append_outcome(
    table: MemtableView,
    logs: DecodedView,
    now: u64,
    measured: Measured,
) -> Result<(MemtableView, Appended), MemtableErrorView> {
    match planned(table, logs, now) {
        Err(error) => Err(error),
        Ok(plan) => match admission_of(table, plan, measured.frame) {
            Err(error) => Err(error),
            Ok(sealed) => {
                let opened = if plan.aged {
                    sealed_table(table, measured.aged)
                } else {
                    table
                };
                let stored = table_with_frame(opened, plan, measured.frame);
                let closed = if sealed {
                    sealed_table(stored, measured.sealed)
                } else {
                    stored
                };
                let after = next_epoch(closed);
                Ok(
                    (
                        after,
                        Appended {
                            epoch: after.epoch,
                            generation_id: stored.active.generation.id,
                            sealed,
                        },
                    ),
                )
            },
        },
    }
}

/// Whether the active generation can take the planned frame.
pub open spec fn plan_fits(table: MemtableView, plan: PlanView) -> bool {
    &&& frame::frame_ok(plan.frame)
    &&& plan.sequence < u64::MAX
    &&& table.next_sequence is Some ==> table.next_sequence->0 == plan.sequence
    &&& table.active.admitted.len() <= plan.frame.admitted.len()
    &&& plan.frame.admitted.take(table.active.admitted.len() as int) == table.active.admitted
}

proof fn lemma_sealed_table(table: MemtableView, bytes: u64)
    requires
        table_ok(table),
        table.active.generation.has_frames(),
        frozen_size(table.active.generation, bytes),
        table.frozen.len() < table.config.max_frozen,
    ensures
        table_ok(sealed_table(table, bytes)),
{
    freezing_aligns(table.active, bytes);
    lemma_empty_active(table.next_id);
    let after = sealed_table(table, bytes);
    assert forall|i: int| 0 <= i < after.frozen.len() implies frozen_ok(
        #[trigger] after.frozen[i],
    ) by {
        if i < table.frozen.len() {
            assert(after.frozen[i] == table.frozen[i]);
        }
    }
    assert forall|i: int, j: int|
        0 <= i < after.frozen.len() && j == i + 1 && j < after.frozen.len() implies (
    #[trigger] after.frozen[i]).next_sequence == (
    #[trigger] after.frozen[j]).first_sequence by {
        assert(after.frozen[i] == table.frozen[i]);
        if j < table.frozen.len() {
            assert(after.frozen[j] == table.frozen[j]);
        } else {
            assert(table.frozen.last() == table.frozen[i]);
        }
    }
}

/// Rows of frozen generations.
pub open spec fn frozen_rows(frozen: Seq<GenerationView>) -> nat
    decreases frozen.len(),
{
    if frozen.len() == 0 {
        0
    } else {
        frozen_rows(frozen.drop_last()) + generation::partition_rows(frozen.last().partitions)
    }
}

/// Rows that a memtable holds.
pub open spec fn table_rows(table: MemtableView) -> nat {
    frozen_rows(table.frozen) + generation::partition_rows(table.active.generation.partitions)
}

/// Freezing moves the rows of the active generation and loses none.
pub proof fn sealing_keeps_rows(table: MemtableView, bytes: u64)
    requires
        table_ok(table),
        table.active.generation.has_frames(),
    ensures
        table_rows(sealed_table(table, bytes)) == table_rows(table),
{
    freezing_aligns(table.active, bytes);
    assert(sealed_table(table, bytes).frozen.drop_last() =~= table.frozen);
    assert(generation::partition_rows(Seq::<HourView>::empty()) == 0);
}

/// Storing a frame adds its rows to those of the memtable, and loses none.
pub proof fn storing_adds_rows(table: MemtableView, plan: PlanView, frame_bytes: u64)
    requires
        table_ok(table),
        plan_fits(table, plan),
    ensures
        table_rows(table_with_frame(table, plan, frame_bytes)) == table_rows(table)
            + generation::frame_rows(plan.frame.partitions),
{
    lemma_stored_frame(table.active, plan.frame, plan.sequence, plan.now, frame_bytes);
}

pub proof fn lemma_table_with_frame(table: MemtableView, plan: PlanView, frame_bytes: u64)
    requires
        table_ok(table),
        plan_fits(table, plan),
        batch::covers(frame_bytes, generation::frame_bytes(plan.frame.partitions)),
    ensures
        table_ok(table_with_frame(table, plan, frame_bytes)),
        table_with_frame(table, plan, frame_bytes).active.generation.has_frames(),
{
    lemma_stored_frame(table.active, plan.frame, plan.sequence, plan.now, frame_bytes);
}

/// Whether the active generation is within its row and byte limits.
pub open spec fn within_limits(table: MemtableView) -> bool {
    &&& table.active.generation.rows <= table.config.max_rows
    &&& table.active.generation.bytes <= table.config.max_bytes
}

/// A stored frame leaves an active generation within its row and byte limits: one that it takes
/// past a limit freezes.
pub proof fn appends_keep_limits(
    table: MemtableView,
    logs: DecodedView,
    now: u64,
    measured: Measured,
)
    requires
        append_outcome(table, logs, now, measured) is Ok,
    ensures
        within_limits(append_outcome(table, logs, now, measured)->Ok_0.0),
{
}

/// Within its limits, the active generation holds no more rows, and no more bytes of values, than
/// they say.
pub proof fn limits_bound_memory(table: MemtableView)
    requires
        table_ok(table),
        within_limits(table),
    ensures
        table.config.max_rows < u64::MAX ==> generation::partition_rows(
            table.active.generation.partitions,
        ) <= table.config.max_rows,
        table.config.max_bytes < u64::MAX ==> generation::partition_bytes(
            table.active.generation.partitions,
        ) <= table.config.max_bytes,
{
}

/// What a snapshot of a memtable shows: its frozen generations, and the active one once it has
/// frames.
pub open spec fn snapshot_of(table: MemtableView) -> SnapshotView {
    SnapshotView {
        epoch: table.epoch,
        frozen: table.frozen,
        active: if table.active.generation.has_frames() {
            Some(table.active.generation)
        } else {
            None
        },
    }
}

/// The generations of a snapshot, oldest first.
pub open spec fn generations_of(snapshot: SnapshotView) -> Seq<GenerationView> {
    match snapshot.active {
        Some(active) => snapshot.frozen.push(active),
        None => snapshot.frozen,
    }
}

/// A snapshot holds together. Its generations are in the order in which they were opened and own
/// nonempty sequence ranges that adjoin without a gap, up to the next sequence. Each counts the rows
/// of its partitions, and has one partition an hour, in hour order. Every batch of a frozen
/// generation has the schema of its generation.
pub proof fn snapshots_hold_together(table: MemtableView)
    requires
        table_ok(table),
    ensures
        ({
            let snapshot = snapshot_of(table);
            let all = generations_of(snapshot);
            &&& snapshot.frozen.len() <= table.config.max_frozen
            &&& all.len() > 0 ==> table.next_sequence == Some(all.last().next_sequence)
            &&& forall|i: int, j: int|
                0 <= i < j < all.len() ==> opened_before(
                    (#[trigger] all[i]).id,
                    (#[trigger] all[j]).id,
                )
            &&& forall|i: int, j: int|
                0 <= i < all.len() && j == i + 1 && j < all.len() ==> (
                #[trigger] all[i]).next_sequence == (#[trigger] all[j]).first_sequence
            &&& forall|i: int|
                0 <= i < all.len() ==> {
                    &&& (#[trigger] all[i]).first_sequence < all[i].next_sequence
                    &&& all[i].rows == generation::clamped(
                        generation::partition_rows(all[i].partitions) as int,
                    )
                    &&& generation::hours_sorted(all[i].partitions)
                    &&& all[i].schema == generation::generation_schema(all[i].dynamic_fields)
                }
            &&& forall|i: int|
                0 <= i < snapshot.frozen.len() ==> generation::every_batch(
                    (#[trigger] snapshot.frozen[i]).partitions,
                    generation::frozen_under(snapshot.frozen[i].schema),
                )
        }),
{
    let all = generations_of(snapshot_of(table));
    assert forall|i: int| 0 <= i < all.len() implies generation_ok(#[trigger] all[i])
        && all[i].has_frames() by {
        if i < table.frozen.len() {
            assert(all[i] == table.frozen[i]);
            assert(frozen_ok(table.frozen[i]));
        }
    }
    assert forall|i: int| 0 <= i < table.frozen.len() implies generation::every_batch(
        (#[trigger] table.frozen[i]).partitions,
        generation::frozen_under(table.frozen[i].schema),
    ) by {
        assert(frozen_ok(table.frozen[i]));
    }
}

/// The first sequence that memory holds, or waits for.
pub open spec fn memory_start(table: MemtableView) -> Option<u64> {
    if table.frozen.len() > 0 {
        Some(table.frozen[0].first_sequence)
    } else if table.active.generation.has_frames() {
        Some(table.active.generation.first_sequence)
    } else {
        table.next_sequence
    }
}

/// Appending moves where memory starts only where it was not set before.
pub proof fn append_keeps_start(
    table: MemtableView,
    logs: DecodedView,
    now: u64,
    measured: Measured,
)
    requires
        table_ok(table),
        memory_start(table) is Some,
        append_outcome(table, logs, now, measured) is Ok,
    ensures
        memory_start(append_outcome(table, logs, now, measured)->Ok_0.0) == memory_start(table),
{
    let plan = planned(table, logs, now)->Ok_0;
    let sealed = admission_of(table, plan, measured.frame)->Ok_0;
    let opened = if plan.aged {
        sealed_table(table, measured.aged)
    } else {
        table
    };
    if plan.aged && table.frozen.len() > 0 {
        assert(opened.frozen[0] == table.frozen[0]);
    }
    let stored = table_with_frame(opened, plan, measured.frame);
    assert(stored.active.generation.has_frames());
    let closed = if sealed {
        sealed_table(stored, measured.sealed)
    } else {
        stored
    };
    if sealed && stored.frozen.len() > 0 {
        assert(closed.frozen[0] == stored.frozen[0]);
    }
}

/// Freezing the active generation does not move where memory starts.
pub proof fn sealing_keeps_start(table: MemtableView, bytes: u64)
    requires
        table.active.generation.has_frames(),
    ensures
        memory_start(sealed_table(table, bytes)) == memory_start(table),
{
    let after = sealed_table(table, bytes);
    if table.frozen.len() > 0 {
        assert(after.frozen[0] == table.frozen[0]);
    }
}

/// What an append will store.
#[derive(Debug)]
pub struct FramePlan {
    /// The active generation freezes first, because of its age.
    pub aged: bool,
    pub sequence: u64,
    pub now: u64,
    pub frame: ProjectedFrame,
}

impl DeepView for FramePlan {
    type V = PlanView;

    open spec fn deep_view(&self) -> PlanView {
        PlanView {
            aged: self.aged,
            sequence: self.sequence,
            now: self.now,
            frame: self.frame.deep_view(),
        }
    }
}

/// In-memory active generation plus a bounded frozen queue for one tenant.
pub struct Memtable {
    tenant_id: String,
    config: MemtableConfig,
    clock: Box<Arc<dyn Clock>>,
    next_id: u64,
    next_sequence: Option<u64>,
    epoch: u64,
    active: ActiveGeneration,
    frozen: VecDeque<Generation>,
}

impl View for Memtable {
    type V = MemtableView;

    closed spec fn view(&self) -> MemtableView {
        MemtableView {
            tenant_id: self.tenant_id@,
            config: self.config,
            next_id: self.next_id,
            next_sequence: self.next_sequence,
            epoch: self.epoch,
            active: self.active.deep_view(),
            frozen: self.frozen.deep_view(),
        }
    }
}

impl Memtable {
    /// What every operation keeps.
    pub open spec fn wf(&self) -> bool {
        table_ok(self@)
    }

    /// Open an empty memtable. The first appended sequence establishes the range start.
    ///
    /// # Errors
    ///
    /// Returns [`MemtableError::FrozenLimitZero`] when no generation could ever freeze.
    pub fn new(tenant_id: &str, config: MemtableConfig, clock: Arc<dyn Clock>) -> (table: Result<
        Self,
        MemtableError,
    >)
        ensures
            match table {
                Ok(table) => config.max_frozen != 0 && table.wf() && table@ == empty_table(
                    tenant_id@,
                    config,
                ),
                Err(error) => config.max_frozen == 0 && error is FrozenLimitZero,
            },
    {
        let clock = Box::new(clock);
        Memtable::with_clock(tenant_id, config, clock)
    }

    /// [`Memtable::new`] with a clock that is boxed already.
    pub(crate) fn with_clock(
        tenant_id: &str,
        config: MemtableConfig,
        clock: Box<Arc<dyn Clock>>,
    ) -> (table: Result<Self, MemtableError>)
        ensures
            match table {
                Ok(table) => config.max_frozen != 0 && table.wf() && table@ == empty_table(
                    tenant_id@,
                    config,
                ),
                Err(error) => config.max_frozen == 0 && error is FrozenLimitZero,
            },
    {
        if config.max_frozen == 0 {
            return Err(MemtableError::FrozenLimitZero);
        }
        let table = Memtable {
            tenant_id: tenant_id.to_owned(),
            config,
            clock,
            next_id: 2,
            next_sequence: None,
            epoch: 0,
            active: ActiveGeneration::empty(1),
            frozen: VecDeque::new(),
        };
        proof {
            lemma_empty_active(1);
            assert(table@ =~= empty_table(tenant_id@, config));
        }
        Ok(table)
    }

    /// The tenant whose frames this memtable takes.
    pub fn tenant_id(&self) -> (tenant_id: &str)
        ensures
            tenant_id@ == self@.tenant_id,
    {
        &self.tenant_id
    }

    /// Epoch of the last change.
    pub fn epoch(&self) -> (epoch: u64)
        ensures
            epoch == self@.epoch,
    {
        self.epoch
    }

    /// What storing `logs` at time `now` means, or why the frame is refused.
    ///
    /// # Errors
    ///
    /// Returns [`MemtableError::TenantMismatch`], [`MemtableError::SequenceOverflow`] or
    /// [`MemtableError::NonContiguous`] for a frame that does not continue this memtable, and the
    /// errors of projecting its batches.
    pub fn plan(&self, logs: &DecodedLogs, now: u64) -> (plan: Result<FramePlan, MemtableError>)
        requires
            self.wf(),
        ensures
            match plan {
                Ok(plan) => {
                    &&& planned(self@, logs.deep_view(), now) == Ok::<PlanView, MemtableErrorView>(
                        plan.deep_view(),
                    )
                    &&& plan.frame.wf()
                    &&& generation::frame_rows(plan.deep_view().frame.partitions)
                        == generation::frame_rows(logs.deep_view().partitions)
                    &&& !plan.aged ==> plan_fits(self@, plan.deep_view())
                    &&& plan.sequence < u64::MAX
                    &&& self@.next_sequence is Some ==> self@.next_sequence->0 == plan.sequence
                },
                Err(error) => planned(self@, logs.deep_view(), now) == Err::<
                    PlanView,
                    MemtableErrorView,
                >(error.deep_view()),
            },
    {
        if !same_text(&logs.tenant_id, &self.tenant_id) {
            return Err(
                MemtableError::TenantMismatch {
                    expected: self.tenant_id.clone(),
                    actual: logs.tenant_id.clone(),
                },
            );
        }
        if logs.sequence == u64::MAX {
            return Err(MemtableError::SequenceOverflow { sequence: logs.sequence });
        }
        match self.next_sequence {
            Some(expected) => {
                if logs.sequence != expected {
                    return Err(
                        MemtableError::NonContiguous { expected, actual: logs.sequence },
                    );
                }
            },
            None => {},
        }
        let aged = self.active.has_frames() && self.age_reached(now);
        let none: Vec<DynamicIdentity> = Vec::new();
        assert(none.deep_view() =~= Seq::empty());
        let ghost start = if aged {
            Seq::empty()
        } else {
            self@.active.admitted
        };
        let admitted = if aged {
            &none
        } else {
            &self.active.admitted
        };
        let frame = project(admitted, &logs.partitions, self.config.max_dynamic_columns)?;
        proof {
            frame::admission_keeps_columns(
                start,
                logs.deep_view().partitions,
                self.config.max_dynamic_columns as nat,
            );
        }
        Ok(FramePlan { aged, sequence: logs.sequence, now, frame })
    }

    /// Whether the planned frame freezes its generation.
    ///
    /// # Errors
    ///
    /// Returns [`MemtableError::FrozenLimit`] when freezing would exceed the frozen limit.
    pub fn admission(&self, plan: &FramePlan, frame_bytes: u64) -> (sealed: Result<
        bool,
        MemtableError,
    >)
        requires
            self.wf(),
        ensures
            match sealed {
                Ok(sealed) => admission_of(self@, plan.deep_view(), frame_bytes) == Ok::<
                    bool,
                    MemtableErrorView,
                >(sealed),
                Err(error) => admission_of(self@, plan.deep_view(), frame_bytes) == Err::<
                    bool,
                    MemtableErrorView,
                >(error.deep_view()),
            },
    {
        let frame_rows = plan.frame.rows();
        let rows_before = if plan.aged {
            0
        } else {
            self.active.generation.rows
        };
        let bytes_before = if plan.aged {
            0
        } else {
            self.active.generation.bytes
        };
        let sealed = rows_before.saturating_add(frame_rows) > self.config.max_rows
            || bytes_before.saturating_add(frame_bytes) > self.config.max_bytes;
        let mut free: usize = self.config.max_frozen - self.frozen.len();
        if plan.aged {
            if free == 0 {
                return Err(MemtableError::FrozenLimit);
            }
            free = free - 1;
        }
        if sealed && free == 0 {
            return Err(MemtableError::FrozenLimit);
        }
        Ok(sealed)
    }

    /// Enters the planned frame into the active generation.
    fn store(&mut self, plan: FramePlan, frame_bytes: u64)
        requires
            old(self).wf(),
            plan.frame.wf(),
            plan_fits(old(self)@, plan.deep_view()),
            batch::covers(
                frame_bytes,
                generation::frame_bytes(plan.deep_view().frame.partitions),
            ),
        ensures
            final(self)@ == table_with_frame(old(self)@, plan.deep_view(), frame_bytes),
            final(self).wf(),
            final(self)@.active.generation.has_frames(),
    {
        let ghost before = self@;
        let ghost view = plan.deep_view();
        let ghost was = before.active.generation.dynamic_fields;
        proof {
            lemma_table_with_frame(before, view, frame_bytes);
            assert forall|i: int| 0 <= i < was.len() implies naming::has_column(
                view.frame.fields,
                (#[trigger] was[i]).identity,
            ) by {
                let admitted = before.active.admitted;
                assert(admitted.contains(was[i].identity));
                let k = choose|k: int| 0 <= k < admitted.len() && admitted[k] == was[i].identity;
                assert(view.frame.admitted.take(admitted.len() as int)[k]
                    == view.frame.admitted[k]);
                assert(naming::has_column(view.frame.fields, view.frame.admitted[k]));
            }
        }
        let frame_rows = plan.frame.rows();
        let sequence = plan.sequence;
        let first = !self.active.has_frames();
        let ghost target = map_batches(
            before.active.generation.partitions,
            renaming(view.frame.fields),
        );
        if names_changed(&self.active.generation.dynamic_fields, &plan.frame.fields) {
            let renamed = self.active.rename_partitions(&plan.frame.fields);
            self.active.generation.partitions = renamed;
        } else {
            proof {
                lemma_renaming_nothing(
                    before.active.generation.partitions,
                    was,
                    view.frame.fields,
                );
            }
        }
        assert(self.active.generation.partitions.deep_view() == target);
        proof {
            lemma_map_hours(before.active.generation.partitions, renaming(view.frame.fields));
        }
        if first {
            self.active.generation.opened_at_unix_nanos = plan.now;
            self.active.generation.first_sequence = sequence;
        }
        self.active.generation.next_sequence = sequence + 1;
        self.active.generation.rows = self.active.generation.rows.saturating_add(frame_rows);
        self.active.generation.bytes = self.active.generation.bytes.saturating_add(frame_bytes);
        let ProjectedFrame { admitted, fields, schema, fingerprint, partitions } = plan.frame;
        place_batches(&mut self.active.generation.partitions, partitions);
        self.active.admitted = admitted;
        self.active.generation.dynamic_fields = fields;
        self.active.generation.schema = schema;
        self.active.generation.fingerprint = fingerprint;
        self.next_sequence = Some(sequence + 1);
        assert(self@ =~= table_with_frame(before, view, frame_bytes));
    }

    /// Freezes the active generation and opens the next one.
    fn seal_active(&mut self)
        requires
            old(self).wf(),
            old(self)@.active.generation.has_frames(),
            old(self)@.frozen.len() < old(self)@.config.max_frozen,
        ensures
            final(self).wf(),
            exists|bytes: u64|
                frozen_size(old(self)@.active.generation, bytes) && final(self)@
                    == #[trigger] sealed_table(old(self)@, bytes),
    {
        let ghost before = self@;
        let partitions = self.active.align_partitions();
        let bytes = measured_bytes(&partitions);
        assert(frozen_size(before.active.generation, bytes));
        proof {
            lemma_sealed_table(before, bytes);
        }
        let mut sealed = ActiveGeneration::empty(self.next_id);
        self.next_id = self.next_id.saturating_add(1);
        std::mem::swap(&mut self.active, &mut sealed);
        let mut generation = sealed.generation;
        generation.partitions = partitions;
        generation.bytes = bytes;
        let ghost view = generation.deep_view();
        let ghost queue = self.frozen.deep_view();
        self.frozen.push_back(generation);
        assert(self.frozen.deep_view() =~= queue.push(view));
        assert(view =~= frozen_generation(before.active.generation, bytes));
        assert(self@ =~= sealed_table(before, bytes));
    }

    /// Store one decoded frame.
    ///
    /// Whatever the error, the memtable is unchanged, and the same frame can be retried when the
    /// rejection condition is gone. The clock gives the time, and Arrow the sizes.
    ///
    /// # Errors
    ///
    /// Returns the errors of [`Memtable::plan`] and [`Memtable::admission`].
    pub fn append(&mut self, logs: &DecodedLogs) -> (result: Result<Appended, MemtableError>)
        requires
            old(self).wf(),
        ensures
            final(self).wf(),
            result is Ok ==> table_rows(final(self)@) == table_rows(old(self)@)
                + generation::frame_rows(logs.deep_view().partitions),
            result is Ok ==> within_limits(final(self)@),
            match result {
                Ok(appended) => exists|now: u64, measured: Measured|
                    can_measure(old(self)@, logs.deep_view(), now, measured) && #[trigger]
                    append_outcome(old(self)@, logs.deep_view(), now, measured) == Ok::<
                        (MemtableView, Appended),
                        MemtableErrorView,
                    >((final(self)@, appended)),
                Err(error) => final(self)@ == old(self)@ && exists|now: u64, measured: Measured|
                    can_measure(old(self)@, logs.deep_view(), now, measured) && #[trigger]
                    append_outcome(old(self)@, logs.deep_view(), now, measured) == Err::<
                        (MemtableView, Appended),
                        MemtableErrorView,
                    >(error.deep_view()),
            },
    {
        let ghost before = self@;
        let now = self.clock.unix_nanos();
        let ghost mut measured = Measured { frame: 0, aged: 0, sealed: 0 };
        let plan = match self.plan(logs, now) {
            Ok(plan) => plan,
            Err(error) => {
                assert(append_outcome(before, logs.deep_view(), now, measured) == Err::<
                    (MemtableView, Appended),
                    MemtableErrorView,
                >(error.deep_view()));
                return Err(error);
            },
        };
        let ghost planning = plan.deep_view();
        let frame_bytes = plan.frame.bytes();
        proof {
            measured = Measured { frame: frame_bytes, aged: 0, sealed: 0 };
        }
        let sealed = match self.admission(&plan, frame_bytes) {
            Ok(sealed) => sealed,
            Err(error) => {
                assert(append_outcome(before, logs.deep_view(), now, measured) == Err::<
                    (MemtableView, Appended),
                    MemtableErrorView,
                >(error.deep_view()));
                return Err(error);
            },
        };
        if plan.aged {
            self.seal_active();
            proof {
                let bytes = choose|bytes: u64|
                    frozen_size(before.active.generation, bytes) && self@
                        == #[trigger] sealed_table(before, bytes);
                measured = Measured { frame: frame_bytes, aged: bytes, sealed: 0 };
                assert(plan.deep_view().frame.admitted.take(0) =~= Seq::empty());
                sealing_keeps_rows(before, bytes);
            }
        }
        proof {
            storing_adds_rows(self@, planning, frame_bytes);
        }
        self.store(plan, frame_bytes);
        let ghost stored = self@;
        let generation_id = self.active.generation.id;
        if sealed {
            self.seal_active();
            proof {
                let bytes = choose|bytes: u64|
                    frozen_size(stored.active.generation, bytes) && self@
                        == #[trigger] sealed_table(stored, bytes);
                measured = Measured { frame: frame_bytes, aged: measured.aged, sealed: bytes };
                sealing_keeps_rows(stored, bytes);
            }
        }
        self.epoch = self.epoch.saturating_add(1);
        let appended = Appended { epoch: self.epoch, generation_id, sealed };
        proof {
            let outcome = append_outcome(before, logs.deep_view(), now, measured);
            assert(outcome is Ok);
            assert(outcome->Ok_0.0 =~= self@);
            appends_keep_limits(before, logs.deep_view(), now, measured);
        }
        Ok(appended)
    }

    /// Freeze the active generation even when it is below the row, byte, and age limits.
    ///
    /// An active generation with no frames stays open. A full frozen queue leaves the active
    /// generation unchanged.
    ///
    /// # Errors
    ///
    /// Returns [`MemtableError::FrozenLimit`] when the frozen queue is full.
    pub fn rotate(&mut self) -> (result: Result<Option<u64>, MemtableError>)
        requires
            old(self).wf(),
        ensures
            final(self).wf(),
            match result {
                Ok(None) => !old(self)@.active.generation.has_frames() && final(self)@
                    == old(self)@,
                Ok(Some(id)) => {
                    &&& old(self)@.active.generation.has_frames()
                    &&& old(self)@.frozen.len() < old(self)@.config.max_frozen
                    &&& id == old(self)@.active.generation.id
                    &&& exists|bytes: u64|
                        frozen_size(old(self)@.active.generation, bytes) && final(self)@
                            == next_epoch(#[trigger] sealed_table(old(self)@, bytes))
                },
                Err(error) => {
                    &&& old(self)@.active.generation.has_frames()
                    &&& old(self)@.frozen.len() >= old(self)@.config.max_frozen
                    &&& error is FrozenLimit
                    &&& final(self)@ == old(self)@
                },
            },
    {
        if !self.active.has_frames() {
            return Ok(None);
        }
        if self.frozen.len() >= self.config.max_frozen {
            return Err(MemtableError::FrozenLimit);
        }
        let ghost before = self@;
        let generation_id = self.active.generation.id;
        self.seal_active();
        let ghost bytes = choose|bytes: u64|
            frozen_size(before.active.generation, bytes) && self@
                == #[trigger] sealed_table(before, bytes);
        self.epoch = self.epoch.saturating_add(1);
        assert(self@ =~= next_epoch(sealed_table(before, bytes)));
        Ok(Some(generation_id))
    }

    /// Require the next appended sequence to be `next_sequence`.
    ///
    /// Used after recovery so new frames continue past the published high-water mark. The memtable
    /// must not already hold a sequence.
    ///
    /// # Errors
    ///
    /// Returns [`MemtableError::NotResumable`] when a frame was already accepted or
    /// [`Self::resume`] was already called.
    pub fn resume(&mut self, next_sequence: u64) -> (result: Result<(), MemtableError>)
        requires
            old(self).wf(),
        ensures
            final(self).wf(),
            match result {
                Ok(_) => {
                    &&& old(self)@.next_sequence is None
                    &&& !old(self)@.active.generation.has_frames()
                    &&& old(self)@.frozen.len() == 0
                    &&& final(self)@ == (MemtableView {
                        next_sequence: Some(next_sequence),
                        ..old(self)@
                    })
                },
                Err(error) => {
                    &&& old(self)@.next_sequence is Some
                        || old(self)@.active.generation.has_frames() || old(self)@.frozen.len() > 0
                    &&& error is NotResumable
                    &&& final(self)@ == old(self)@
                },
            },
    {
        if self.next_sequence.is_some() || self.active.has_frames() || self.frozen.len() > 0 {
            return Err(MemtableError::NotResumable);
        }
        self.next_sequence = Some(next_sequence);
        Ok(())
    }

    /// Oldest frozen generation, still owned by the memtable.
    #[must_use]
    pub fn oldest_frozen(&self) -> (oldest: Option<Generation>)
        ensures
            oldest.deep_view() == if self@.frozen.len() > 0 {
                Some(self@.frozen[0])
            } else {
                None
            },
    {
        if self.frozen.len() == 0 {
            return None;
        }
        Some(self.frozen[0].clone())
    }

    /// Remove the oldest frozen generation after a later phase has finished with it.
    #[must_use]
    pub fn release_oldest_frozen(&mut self) -> (oldest: Option<Generation>)
        requires
            old(self).wf(),
        ensures
            final(self).wf(),
            match oldest {
                Some(oldest) => {
                    &&& old(self)@.frozen.len() > 0
                    &&& oldest.deep_view() == old(self)@.frozen[0]
                    &&& final(self)@ == next_epoch(
                        MemtableView { frozen: old(self)@.frozen.drop_first(), ..old(self)@ },
                    )
                },
                None => old(self)@.frozen.len() == 0 && final(self)@ == old(self)@,
            },
    {
        let ghost before = self@;
        match self.frozen.pop_front() {
            Some(generation) => {
                self.epoch = self.epoch.saturating_add(1);
                proof {
                    let rest = before.frozen.drop_first();
                    assert(self.frozen.deep_view() =~= rest);
                    assert(self@ =~= next_epoch(MemtableView { frozen: rest, ..before }));
                    assert forall|i: int| 0 <= i < rest.len() implies frozen_ok(
                        #[trigger] rest[i],
                    ) by {
                        assert(rest[i] == before.frozen[i + 1]);
                    }
                    assert forall|i: int, j: int|
                        0 <= i < rest.len() && j == i + 1 && j < rest.len() implies (
                    #[trigger] rest[i]).next_sequence == (
                    #[trigger] rest[j]).first_sequence by {
                        assert(rest[i] == before.frozen[i + 1]);
                        assert(rest[j] == before.frozen[j + 1]);
                    }
                    if rest.len() > 0 {
                        assert(rest.last() == before.frozen.last());
                    }
                }
                Some(generation)
            },
            None => None,
        }
    }

    /// Clone batch handles from the active and frozen generations at the current epoch.
    #[must_use]
    pub fn snapshot(&self) -> (snapshot: Snapshot)
        ensures
            snapshot.deep_view() == snapshot_of(self@),
    {
        let ghost all = self.frozen.deep_view();
        let mut frozen: Vec<Generation> = Vec::new();
        let mut i: usize = 0;
        while i < self.frozen.len()
            invariant
                i <= self.frozen@.len(),
                all == self.frozen.deep_view(),
                frozen.deep_view() =~= all.take(i as int),
            decreases self.frozen@.len() - i,
        {
            let ghost before = frozen.deep_view();
            assert(all[i as int] == self.frozen@[i as int].deep_view());
            frozen.push(self.frozen[i].clone());
            assert(frozen.deep_view() =~= before.push(all[i as int]));
            i = i + 1;
        }
        assert(frozen.deep_view() =~= all);
        let active = if self.active.has_frames() {
            Some(self.active.generation.clone())
        } else {
            None
        };
        Snapshot { epoch: self.epoch, frozen, active }
    }

    fn age_reached(&self, now: u64) -> (reached: bool)
        ensures
            reached == age_reached(
                self@.config,
                self@.active.generation.opened_at_unix_nanos,
                now,
            ),
    {
        let limit = if self.config.max_age_nanos > u64::MAX as u128 {
            u64::MAX
        } else {
            self.config.max_age_nanos as u64
        };
        now.saturating_sub(self.active.generation.opened_at_unix_nanos) >= limit
    }
}

fn place_batches(partitions: &mut Vec<GenerationPartition>, added: Vec<DecodedPartition>)
    requires
        generation::hours_sorted(old(partitions).deep_view()),
    ensures
        final(partitions).deep_view() == generation::push_batches(
            old(partitions).deep_view(),
            added.deep_view(),
        ),
{
    let ghost start = partitions.deep_view();
    let ghost all = added.deep_view();
    let mut i: usize = 0;
    assert(all.take(0) =~= Seq::empty());
    while i < added.len()
        invariant
            i <= added.len(),
            start == old(partitions).deep_view(),
            all == added.deep_view(),
            generation::hours_sorted(partitions.deep_view()),
            partitions.deep_view() == generation::push_batches(start, all.take(i as int)),
        decreases added.len() - i,
    {
        assert(all.take(i + 1).drop_last() =~= all.take(i as int));
        assert(all[i as int] == added@[i as int].deep_view());
        place_batch(partitions, added[i].hour, added[i].batch.clone());
        i = i + 1;
    }
    assert(all.take(i as int) =~= all);
}

// What an append does, by its inputs.

/// Whether the active generation is as old as the limit says, or older.
pub open spec fn is_old(table: MemtableView, now: u64) -> bool {
    let opened = table.active.generation.opened_at_unix_nanos;
    &&& table.active.generation.has_frames()
    &&& now >= opened ==> now - opened >= table.config.max_age_nanos
    &&& now < opened ==> table.config.max_age_nanos == 0
}

/// Rows that the generation that receives a frame holds with it.
pub open spec fn rows_with(table: MemtableView, logs: DecodedView, now: u64) -> int {
    generation::frame_rows(logs.partitions) + if is_old(table, now) {
        0int
    } else {
        table.active.generation.rows as int
    }
}

/// Bytes that the generation that receives a frame holds with it.
pub open spec fn bytes_with(table: MemtableView, now: u64, frame_bytes: u64) -> int {
    frame_bytes + if is_old(table, now) {
        0int
    } else {
        table.active.generation.bytes as int
    }
}

/// How many generations an append freezes.
pub open spec fn freezes(table: MemtableView, logs: DecodedView, now: u64, frame_bytes: u64) -> nat {
    let old: nat = if is_old(table, now) {
        1
    } else {
        0
    };
    let full: nat = if rows_with(table, logs, now) > table.config.max_rows || bytes_with(
        table,
        now,
        frame_bytes,
    ) > table.config.max_bytes {
        1
    } else {
        0
    };
    old + full
}

/// Whether the limits of a memtable are below what its counters can show.
pub open spec fn limits_can_be_reached(config: MemtableConfig) -> bool {
    &&& config.max_rows < u64::MAX
    &&& config.max_bytes < u64::MAX
    &&& config.max_age_nanos <= u64::MAX
}

proof fn lemma_frame_plan(table: MemtableView, logs: DecodedView, now: u64)
    requires
        limits_can_be_reached(table.config),
        forall|i: int| 0 <= i < logs.partitions.len() ==> (#[trigger] logs.partitions[i]).batch.wf(),
    ensures
        planned(table, logs, now) is Ok ==> planned(table, logs, now)->Ok_0.aged == is_old(
            table,
            now,
        ) && generation::frame_rows(planned(table, logs, now)->Ok_0.frame.partitions)
            == generation::frame_rows(logs.partitions),
{
    if planned(table, logs, now) is Ok {
        let plan = planned(table, logs, now)->Ok_0;
        frame::frames_keep_their_rows(
            if plan.aged {
                Seq::empty()
            } else {
                table.active.admitted
            },
            logs.partitions,
            table.config.max_dynamic_columns as nat,
        );
    }
}

/// A frame is refused exactly where it is another tenant's, its sequence is not the next or is the last
/// that there is, its batches do not fit, or it would freeze more generations than the queue has room
/// for. The first of these that holds is the error.
pub proof fn appends_are_refused_for_a_reason(
    table: MemtableView,
    logs: DecodedView,
    now: u64,
    measured: Measured,
)
    requires
        limits_can_be_reached(table.config),
        forall|i: int| 0 <= i < logs.partitions.len() ==> (#[trigger] logs.partitions[i]).batch.wf(),
    ensures
        ({
            let outcome = append_outcome(table, logs, now, measured);
            let frame = frame::project_frame(
                if is_old(table, now) {
                    Seq::empty()
                } else {
                    table.active.admitted
                },
                logs.partitions,
                table.config.max_dynamic_columns as nat,
            );
            if logs.tenant_id != table.tenant_id {
                outcome is Err && outcome->Err_0 == (MemtableErrorView::TenantMismatch {
                    expected: table.tenant_id,
                    actual: logs.tenant_id,
                })
            } else if logs.sequence == u64::MAX {
                outcome is Err && outcome->Err_0 == (MemtableErrorView::SequenceOverflow {
                    sequence: u64::MAX,
                })
            } else if table.next_sequence is Some && table.next_sequence->0 != logs.sequence {
                outcome is Err && outcome->Err_0 == (MemtableErrorView::NonContiguous {
                    expected: table.next_sequence->0,
                    actual: logs.sequence,
                })
            } else if frame is Err {
                outcome is Err && outcome->Err_0 == frame->Err_0
            } else if table.frozen.len() + freezes(table, logs, now, measured.frame)
                > table.config.max_frozen {
                outcome is Err && outcome->Err_0 == MemtableErrorView::FrozenLimit
            } else {
                outcome is Ok
            }
        }),
{
    lemma_frame_plan(table, logs, now);
}

/// A frame enters the active generation, or a new one where the active one is too old. The generation
/// that it takes past a limit freezes behind it. What was frozen stays as it is and in front, the next
/// sequence follows the frame, and the epoch moves on.
pub proof fn appends_go_by_age_and_limits(
    table: MemtableView,
    logs: DecodedView,
    now: u64,
    measured: Measured,
)
    requires
        table_ok(table),
        limits_can_be_reached(table.config),
        forall|i: int| 0 <= i < logs.partitions.len() ==> (#[trigger] logs.partitions[i]).batch.wf(),
        append_outcome(table, logs, now, measured) is Ok,
    ensures
        ({
            let (after, appended) = append_outcome(table, logs, now, measured)->Ok_0;
            let active = table.active.generation;
            let count = table.frozen.len() as int;
            &&& appended.generation_id == if is_old(table, now) {
                table.next_id
            } else {
                active.id
            }
            &&& appended.sealed <==> rows_with(table, logs, now) > table.config.max_rows
                || bytes_with(table, now, measured.frame) > table.config.max_bytes
            &&& after.frozen.len() == count + freezes(table, logs, now, measured.frame)
            &&& forall|i: int| 0 <= i < count ==> after.frozen[i] == #[trigger] table.frozen[i]
            &&& is_old(table, now) ==> after.frozen[count].id == active.id
                && after.frozen[count].first_sequence == active.first_sequence
                && after.frozen[count].next_sequence == active.next_sequence
                && after.frozen[count].rows == active.rows
            &&& appended.sealed ==> after.frozen[after.frozen.len() - 1].id
                == appended.generation_id && after.frozen[after.frozen.len() - 1].next_sequence
                == logs.sequence + 1 && !after.active.generation.has_frames()
            &&& !appended.sealed ==> after.active.generation.id == appended.generation_id
                && after.active.generation.next_sequence == logs.sequence + 1
                && after.active.generation.has_frames()
            &&& after.next_sequence == Some((logs.sequence + 1) as u64)
            &&& after.tenant_id == table.tenant_id
            &&& after.config == table.config
            &&& appended.epoch == after.epoch
            &&& table.epoch < u64::MAX ==> after.epoch == table.epoch + 1
        }),
{
    lemma_frame_plan(table, logs, now);
    let plan = planned(table, logs, now)->Ok_0;
    assert(logs.sequence < u64::MAX);
}

/// A generation keeps the time of its first frame, and its sequences start with that frame: later frames
/// change neither.
pub proof fn generations_open_with_their_first_frame(
    table: MemtableView,
    logs: DecodedView,
    now: u64,
    measured: Measured,
)
    requires
        limits_can_be_reached(table.config),
        forall|i: int| 0 <= i < logs.partitions.len() ==> (#[trigger] logs.partitions[i]).batch.wf(),
        append_outcome(table, logs, now, measured) is Ok,
        !append_outcome(table, logs, now, measured)->Ok_0.1.sealed,
    ensures
        ({
            let before = table.active.generation;
            let after = append_outcome(table, logs, now, measured)->Ok_0.0.active.generation;
            if before.has_frames() && !is_old(table, now) {
                after.opened_at_unix_nanos == before.opened_at_unix_nanos && after.first_sequence
                    == before.first_sequence
            } else {
                after.opened_at_unix_nanos == now && after.first_sequence == logs.sequence
            }
        }),
{
    lemma_frame_plan(table, logs, now);
}

/// A generation that freezes keeps its id, its sequences, its columns and its hours. Each batch stands where
/// it stood, under the schema of the generation, with its rows.
pub proof fn freezing_keeps_every_batch(
    table: MemtableView,
    bytes: u64,
    p: int,
    b: int,
)
    requires
        table_ok(table),
        table.active.generation.has_frames(),
        0 <= p < table.active.generation.partitions.len(),
        0 <= b < table.active.generation.partitions[p].batches.len(),
    ensures
        ({
            let active = table.active.generation;
            let after = sealed_table(table, bytes);
            let frozen = after.frozen[after.frozen.len() - 1];
            let batch = active.partitions[p].batches[b];
            &&& after.frozen.len() == table.frozen.len() + 1
            &&& frozen.id == active.id
            &&& frozen.first_sequence == active.first_sequence
            &&& frozen.next_sequence == active.next_sequence
            &&& frozen.rows == active.rows
            &&& frozen.schema == active.schema
            &&& frozen.partitions.len() == active.partitions.len()
            &&& frozen.partitions[p].hour == active.partitions[p].hour
            &&& frozen.partitions[p].batches.len() == active.partitions[p].batches.len()
            &&& align::aligned(batch, active.schema) == Ok::<BatchView, Seq<char>>(
                frozen.partitions[p].batches[b],
            )
            &&& frozen.partitions[p].batches[b].rows == batch.rows
            &&& !after.active.generation.has_frames()
            &&& after.active.generation.id == table.next_id
        }),
{
    let active = table.active.generation;
    let batch = active.partitions[p].batches[b];
    assert(generation::stored_under(active.dynamic_fields)(batch));
    generation::stored_batches_align(batch, active.dynamic_fields);
    align::alignment_keeps_columns(
        batch,
        active.schema,
        align::aligned(batch, active.schema)->Ok_0,
    );
}

} // verus!
