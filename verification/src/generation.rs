//! Batches of one contiguous sequence range, by UTC event hour.
use std::sync::Arc;
use vstd::prelude::*;
use crate::align;
use crate::batch;
use crate::batch::{share, BatchView, RecordBatch};
use crate::decode;
use crate::decode::PartitionView;
use crate::identity;
use crate::identity::{DynamicField, DynamicFieldView, DynamicIdentity};
use crate::naming;
use crate::schema;
use crate::schema::{EventHour, FieldView, Schema, SchemaView};

verus! {

/// Batches that share one derived UTC event hour.
#[derive(Debug)]
pub struct GenerationPartition {
    pub hour: EventHour,
    pub batches: Vec<Arc<RecordBatch>>,
}

#[verifier::ext_equal]
pub struct HourView {
    pub hour: u64,
    pub batches: Seq<BatchView>,
}

impl DeepView for GenerationPartition {
    type V = HourView;

    open spec fn deep_view(&self) -> HourView {
        HourView { hour: self.hour@, batches: self.batches.deep_view() }
    }
}

pub(crate) fn share_batches(batches: &Vec<Arc<RecordBatch>>) -> (copy: Vec<Arc<RecordBatch>>)
    ensures
        copy.deep_view() == batches.deep_view(),
{
    let ghost all = batches.deep_view();
    let mut copy: Vec<Arc<RecordBatch>> = Vec::new();
    let mut i: usize = 0;
    while i < batches.len()
        invariant
            i <= batches.len(),
            all == batches.deep_view(),
            copy.deep_view() =~= all.take(i as int),
        decreases batches.len() - i,
    {
        let ghost before = copy.deep_view();
        copy.push(share(&batches[i]));
        assert(copy.deep_view() =~= before.push(all[i as int]));
        i = i + 1;
    }
    assert(all.take(i as int) =~= all);
    copy
}

impl Clone for GenerationPartition {
    fn clone(&self) -> (copy: Self)
        ensures
            copy.deep_view() == self.deep_view(),
    {
        GenerationPartition { hour: self.hour, batches: share_batches(&self.batches) }
    }
}

fn share_partitions(partitions: &Vec<GenerationPartition>) -> (copy: Vec<GenerationPartition>)
    ensures
        copy.deep_view() == partitions.deep_view(),
{
    let ghost all = partitions.deep_view();
    let mut copy: Vec<GenerationPartition> = Vec::new();
    let mut i: usize = 0;
    while i < partitions.len()
        invariant
            i <= partitions.len(),
            all == partitions.deep_view(),
            copy.deep_view() =~= all.take(i as int),
        decreases partitions.len() - i,
    {
        let ghost before = copy.deep_view();
        copy.push(partitions[i].clone());
        assert(copy.deep_view() =~= before.push(all[i as int]));
        i = i + 1;
    }
    assert(all.take(i as int) =~= all);
    copy
}

fn copy_dynamic_fields(fields: &Vec<DynamicField>) -> (copy: Vec<DynamicField>)
    ensures
        copy.deep_view() == fields.deep_view(),
{
    let ghost all = fields.deep_view();
    let mut copy: Vec<DynamicField> = Vec::new();
    let mut i: usize = 0;
    while i < fields.len()
        invariant
            i <= fields.len(),
            all == fields.deep_view(),
            copy.deep_view() =~= all.take(i as int),
        decreases fields.len() - i,
    {
        let ghost before = copy.deep_view();
        copy.push(fields[i].clone());
        assert(copy.deep_view() =~= before.push(all[i as int]));
        i = i + 1;
    }
    assert(all.take(i as int) =~= all);
    copy
}

pub(crate) fn copy_identities(identities: &Vec<DynamicIdentity>) -> (copy: Vec<DynamicIdentity>)
    ensures
        copy.deep_view() == identities.deep_view(),
{
    let ghost all = identities.deep_view();
    let mut copy: Vec<DynamicIdentity> = Vec::new();
    let mut i: usize = 0;
    while i < identities.len()
        invariant
            i <= identities.len(),
            all == identities.deep_view(),
            copy.deep_view() =~= all.take(i as int),
        decreases identities.len() - i,
    {
        let ghost before = copy.deep_view();
        copy.push(identities[i].clone());
        assert(copy.deep_view() =~= before.push(all[i as int]));
        i = i + 1;
    }
    assert(all.take(i as int) =~= all);
    copy
}

/// One active or frozen generation.
#[derive(Debug)]
pub struct Generation {
    /// Identifier assigned when the generation was opened.
    pub id: u64,
    /// First WAL sequence stored in this generation.
    pub first_sequence: u64,
    /// Exclusive WAL sequence following the last stored frame.
    pub next_sequence: u64,
    /// Rows currently referenced by this generation.
    pub rows: u64,
    /// Arrow buffer bytes currently referenced by this generation.
    pub bytes: u64,
    /// Clock time when this generation accepted its first frame.
    pub opened_at_unix_nanos: u64,
    /// Admitted dynamic columns in physical-name order.
    pub dynamic_fields: Vec<DynamicField>,
    /// Core columns plus [`Generation::dynamic_fields`].
    ///
    /// While the generation is active, an individual batch can omit a dynamic column. Freezing
    /// aligns every batch to this schema.
    pub schema: Schema,
    /// BLAKE3 of [`Generation::schema`]. The same admitted fields produce the same fingerprint.
    pub fingerprint: String,
    /// Hour batches in UTC hour order. Each batch list preserves append order.
    pub partitions: Vec<GenerationPartition>,
}

#[verifier::ext_equal]
pub struct GenerationView {
    pub id: u64,
    pub first_sequence: u64,
    pub next_sequence: u64,
    pub rows: u64,
    pub bytes: u64,
    pub opened_at_unix_nanos: u64,
    pub dynamic_fields: Seq<DynamicFieldView>,
    pub schema: SchemaView,
    pub fingerprint: Seq<char>,
    pub partitions: Seq<HourView>,
}

impl DeepView for Generation {
    type V = GenerationView;

    open spec fn deep_view(&self) -> GenerationView {
        GenerationView {
            id: self.id,
            first_sequence: self.first_sequence,
            next_sequence: self.next_sequence,
            rows: self.rows,
            bytes: self.bytes,
            opened_at_unix_nanos: self.opened_at_unix_nanos,
            dynamic_fields: self.dynamic_fields.deep_view(),
            schema: self.schema.deep_view(),
            fingerprint: self.fingerprint@,
            partitions: self.partitions.deep_view(),
        }
    }
}

impl Clone for Generation {
    fn clone(&self) -> (copy: Self)
        ensures
            copy.deep_view() == self.deep_view(),
    {
        Generation {
            id: self.id,
            first_sequence: self.first_sequence,
            next_sequence: self.next_sequence,
            rows: self.rows,
            bytes: self.bytes,
            opened_at_unix_nanos: self.opened_at_unix_nanos,
            dynamic_fields: copy_dynamic_fields(&self.dynamic_fields),
            schema: self.schema.clone(),
            fingerprint: self.fingerprint.clone(),
            partitions: share_partitions(&self.partitions),
        }
    }
}

impl GenerationView {
    /// Whether a frame was stored.
    pub open spec fn has_frames(self) -> bool {
        self.next_sequence != self.first_sequence
    }
}

/// The schema of a generation: the core columns, then its dynamic columns.
pub open spec fn generation_schema(fields: Seq<DynamicFieldView>) -> SchemaView {
    schema::plain_schema(decode::partition_fields(fields))
}

// Hours.

/// One more batch under its hour.
pub open spec fn push_batch(partitions: Seq<HourView>, hour: u64, batch: BatchView) -> Seq<HourView>
    decreases partitions.len(),
{
    if partitions.len() == 0 {
        seq![HourView { hour, batches: seq![batch] }]
    } else if partitions.last().hour == hour {
        partitions.drop_last().push(
            HourView { hour, batches: partitions.last().batches.push(batch) },
        )
    } else if partitions.last().hour < hour {
        partitions.push(HourView { hour, batches: seq![batch] })
    } else {
        push_batch(partitions.drop_last(), hour, batch).push(partitions.last())
    }
}

/// The batches of a frame, each under its hour.
pub open spec fn push_batches(partitions: Seq<HourView>, added: Seq<PartitionView>) -> Seq<HourView>
    decreases added.len(),
{
    if added.len() == 0 {
        partitions
    } else {
        push_batch(
            push_batches(partitions, added.drop_last()),
            added.last().hour,
            added.last().batch,
        )
    }
}

/// Every hour stands once, in ascending order.
pub open spec fn hours_sorted(partitions: Seq<HourView>) -> bool {
    forall|i: int, j: int|
        0 <= i < j < partitions.len() ==> (#[trigger] partitions[i]).hour < (
        #[trigger] partitions[j]).hour
}

/// Whether `keep` holds of every batch.
pub open spec fn every_batch(partitions: Seq<HourView>, keep: spec_fn(BatchView) -> bool) -> bool {
    forall|p: int, b: int|
        0 <= p < partitions.len() && 0 <= b < partitions[p].batches.len() ==> keep(
            #[trigger] partitions[p].batches[b],
        )
}

/// Rows in one hour.
pub open spec fn batch_rows(batches: Seq<BatchView>) -> nat
    decreases batches.len(),
{
    if batches.len() == 0 {
        0
    } else {
        batch_rows(batches.drop_last()) + batches.last().rows
    }
}

/// Rows in all hours.
pub open spec fn partition_rows(partitions: Seq<HourView>) -> nat
    decreases partitions.len(),
{
    if partitions.len() == 0 {
        0
    } else {
        partition_rows(partitions.drop_last()) + batch_rows(partitions.last().batches)
    }
}

/// Rows of a frame.
pub open spec fn frame_rows(added: Seq<PartitionView>) -> nat
    decreases added.len(),
{
    if added.len() == 0 {
        0
    } else {
        frame_rows(added.drop_last()) + added.last().batch.rows
    }
}

/// Bytes that Arrow takes at least to hold batches.
pub open spec fn batch_bytes(batches: Seq<BatchView>) -> nat
    decreases batches.len(),
{
    if batches.len() == 0 {
        0
    } else {
        batch_bytes(batches.drop_last()) + batch::least_columns_bytes(batches.last().columns)
    }
}

/// Bytes that Arrow takes at least to hold all hours.
pub open spec fn partition_bytes(partitions: Seq<HourView>) -> nat
    decreases partitions.len(),
{
    if partitions.len() == 0 {
        0
    } else {
        partition_bytes(partitions.drop_last()) + batch_bytes(partitions.last().batches)
    }
}

/// Bytes that Arrow takes at least to hold a frame.
pub open spec fn frame_bytes(added: Seq<PartitionView>) -> nat
    decreases added.len(),
{
    if added.len() == 0 {
        0
    } else {
        frame_bytes(added.drop_last()) + batch::least_columns_bytes(added.last().batch.columns)
    }
}

/// The batches of a frame, hour by hour.
pub open spec fn frame_batches(added: Seq<PartitionView>) -> Seq<BatchView> {
    added.map_values(|partition: PartitionView| partition.batch)
}

/// The batches of all hours, in their order.
pub open spec fn all_batches(partitions: Seq<HourView>) -> Seq<BatchView>
    decreases partitions.len(),
{
    if partitions.len() == 0 {
        Seq::empty()
    } else {
        all_batches(partitions.drop_last()) + partitions.last().batches
    }
}

pub proof fn lemma_frame_batches(added: Seq<PartitionView>)
    ensures
        batch_bytes(frame_batches(added)) == frame_bytes(added),
    decreases added.len(),
{
    if added.len() > 0 {
        lemma_frame_batches(added.drop_last());
        assert(frame_batches(added).drop_last() =~= frame_batches(added.drop_last()));
    }
}

proof fn lemma_batch_bytes_add(left: Seq<BatchView>, right: Seq<BatchView>)
    ensures
        batch_bytes(left + right) == batch_bytes(left) + batch_bytes(right),
    decreases right.len(),
{
    if right.len() == 0 {
        assert(left + right =~= left);
    } else {
        assert((left + right).drop_last() =~= left + right.drop_last());
        lemma_batch_bytes_add(left, right.drop_last());
    }
}

pub proof fn lemma_all_batches(partitions: Seq<HourView>)
    ensures
        batch_bytes(all_batches(partitions)) == partition_bytes(partitions),
    decreases partitions.len(),
{
    if partitions.len() > 0 {
        lemma_all_batches(partitions.drop_last());
        lemma_batch_bytes_add(
            all_batches(partitions.drop_last()),
            partitions.last().batches,
        );
    }
}

/// A count as 64 bits hold it.
pub open spec fn clamped(count: int) -> u64 {
    if count > u64::MAX {
        u64::MAX
    } else {
        count as u64
    }
}

proof fn lemma_push_batch(
    partitions: Seq<HourView>,
    hour: u64,
    batch: BatchView,
    keep: spec_fn(BatchView) -> bool,
)
    requires
        hours_sorted(partitions),
        every_batch(partitions, keep),
        keep(batch),
    ensures
        hours_sorted(push_batch(partitions, hour, batch)),
        every_batch(push_batch(partitions, hour, batch), keep),
        partition_rows(push_batch(partitions, hour, batch)) == partition_rows(partitions)
            + batch.rows,
        partition_bytes(push_batch(partitions, hour, batch)) == partition_bytes(partitions)
            + batch::least_columns_bytes(batch.columns),
        partitions.len() > 0 ==> push_batch(partitions, hour, batch).last().hour == if hour
            > partitions.last().hour {
            hour
        } else {
            partitions.last().hour
        },
        partitions.len() == 0 ==> push_batch(partitions, hour, batch).last().hour == hour,
        push_batch(partitions, hour, batch).len() > 0,
    decreases partitions.len(),
{
    let result = push_batch(partitions, hour, batch);
    let alone = HourView { hour, batches: seq![batch] };
    assert(batch_rows(alone.batches) == batch.rows && batch_bytes(alone.batches)
        == batch::least_columns_bytes(batch.columns)) by {
        assert(alone.batches.drop_last() =~= Seq::empty());
        assert(batch_rows(Seq::<BatchView>::empty()) == 0);
        assert(batch_bytes(Seq::<BatchView>::empty()) == 0);
    }
    if partitions.len() == 0 {
        assert(result.drop_last() =~= Seq::empty());
        assert(partition_rows(Seq::<HourView>::empty()) == 0);
        assert(partition_bytes(Seq::<HourView>::empty()) == 0);
    } else if partitions.last().hour == hour {
        let old_last = partitions[partitions.len() - 1];
        let last = HourView { hour, batches: old_last.batches.push(batch) };
        assert(result.drop_last() =~= partitions.drop_last());
        assert(last.batches.drop_last() =~= old_last.batches);
        assert forall|p: int, b: int|
            0 <= p < result.len() && 0 <= b < result[p].batches.len() implies keep(
            #[trigger] result[p].batches[b],
        ) by {
            if p < result.len() - 1 {
                assert(result[p] == partitions[p]);
                assert(keep(partitions[p].batches[b]));
            } else if b < old_last.batches.len() {
                assert(result[p].batches[b] == partitions[p].batches[b]);
            }
        }
    } else if partitions.last().hour < hour {
        assert(result.drop_last() =~= partitions);
        assert forall|p: int, b: int|
            0 <= p < result.len() && 0 <= b < result[p].batches.len() implies keep(
            #[trigger] result[p].batches[b],
        ) by {
            if p < partitions.len() {
                assert(result[p] == partitions[p]);
                assert(keep(partitions[p].batches[b]));
            }
        }
    } else {
        let front = partitions.drop_last();
        let last = partitions[partitions.len() - 1];
        assert forall|p: int, b: int|
            0 <= p < front.len() && 0 <= b < front[p].batches.len() implies keep(
            #[trigger] front[p].batches[b],
        ) by {
            assert(front[p] == partitions[p]);
            assert(keep(partitions[p].batches[b]));
        }
        lemma_push_batch(front, hour, batch, keep);
        let inner = push_batch(front, hour, batch);
        assert(result.drop_last() =~= inner);
        if front.len() > 0 {
            assert(front.last() == partitions[partitions.len() - 2]);
            assert(front.last().hour < last.hour);
        }
        assert(inner.last() == inner[inner.len() - 1]);
        assert forall|i: int, j: int| 0 <= i < j < result.len() implies (
        #[trigger] result[i]).hour < (#[trigger] result[j]).hour by {
            if j == inner.len() {
                if i < inner.len() - 1 {
                    assert(inner[i].hour < inner[inner.len() - 1].hour);
                }
            }
        }
        assert forall|p: int, b: int|
            0 <= p < result.len() && 0 <= b < result[p].batches.len() implies keep(
            #[trigger] result[p].batches[b],
        ) by {
            if p < inner.len() {
                assert(keep(inner[p].batches[b]));
            } else {
                assert(keep(partitions[partitions.len() - 1].batches[b]));
            }
        }
    }
}

pub proof fn lemma_push_batches(
    partitions: Seq<HourView>,
    added: Seq<PartitionView>,
    keep: spec_fn(BatchView) -> bool,
)
    requires
        hours_sorted(partitions),
        every_batch(partitions, keep),
        forall|i: int| 0 <= i < added.len() ==> keep((#[trigger] added[i]).batch),
    ensures
        hours_sorted(push_batches(partitions, added)),
        every_batch(push_batches(partitions, added), keep),
        partition_rows(push_batches(partitions, added)) == partition_rows(partitions) + frame_rows(
            added,
        ),
        partition_bytes(push_batches(partitions, added)) == partition_bytes(partitions)
            + frame_bytes(added),
    decreases added.len(),
{
    if added.len() > 0 {
        let front = added.drop_last();
        assert forall|i: int| 0 <= i < front.len() implies keep((#[trigger] front[i]).batch) by {
            assert(front[i] == added[i]);
        }
        lemma_push_batches(partitions, front, keep);
        assert(keep(added[added.len() - 1].batch));
        lemma_push_batch(
            push_batches(partitions, front),
            added.last().hour,
            added.last().batch,
            keep,
        );
    }
}

proof fn lemma_push_batch_inside(
    partitions: Seq<HourView>,
    hour: u64,
    batch: BatchView,
    at: int,
)
    requires
        hours_sorted(partitions),
        0 <= at < partitions.len(),
        partitions[at].hour == hour,
    ensures
        push_batch(partitions, hour, batch) == partitions.update(
            at,
            HourView { hour, batches: partitions[at].batches.push(batch) },
        ),
    decreases partitions.len(),
{
    let changed = HourView { hour, batches: partitions[at].batches.push(batch) };
    if at == partitions.len() - 1 {
        assert(partitions.update(at, changed) =~= partitions.drop_last().push(changed));
    } else {
        assert(partitions[at].hour < partitions[partitions.len() - 1].hour);
        lemma_push_batch_inside(partitions.drop_last(), hour, batch, at);
        assert(partitions.update(at, changed) =~= partitions.drop_last().update(at, changed).push(
            partitions.last(),
        ));
    }
}

proof fn lemma_push_batch_new(partitions: Seq<HourView>, hour: u64, batch: BatchView, at: int)
    requires
        0 <= at <= partitions.len(),
        at > 0 ==> partitions[at - 1].hour < hour,
        forall|i: int| at <= i < partitions.len() ==> (#[trigger] partitions[i]).hour > hour,
    ensures
        push_batch(partitions, hour, batch) == partitions.insert(
            at,
            HourView { hour, batches: seq![batch] },
        ),
    decreases partitions.len(),
{
    let alone = HourView { hour, batches: seq![batch] };
    if at == partitions.len() {
        assert(partitions.insert(at, alone) =~= partitions.push(alone));
        if at == 0 {
            assert(partitions.push(alone) =~= seq![alone]);
        }
    } else {
        assert(partitions[partitions.len() - 1].hour > hour);
        let front = partitions.drop_last();
        assert forall|i: int| at <= i < front.len() implies (#[trigger] front[i]).hour > hour by {
            assert(front[i] == partitions[i]);
        }
        lemma_push_batch_new(front, hour, batch, at);
        assert(partitions.insert(at, alone) =~= front.insert(at, alone).push(partitions.last()));
    }
}

/// Adds one batch under its hour.
pub(crate) fn place_batch(partitions: &mut Vec<GenerationPartition>, hour: EventHour, batch: RecordBatch)
    requires
        hours_sorted(old(partitions).deep_view()),
    ensures
        final(partitions).deep_view() == push_batch(
            old(partitions).deep_view(),
            hour@,
            batch.deep_view(),
        ),
        hours_sorted(final(partitions).deep_view()),
{
    let ghost all = partitions.deep_view();
    let ghost view = batch.deep_view();
    proof {
        lemma_push_batch(all, hour@, view, |batch: BatchView| true);
    }
    let mut at: usize = partitions.len();
    while at > 0
        invariant
            at <= partitions.len(),
            all == partitions.deep_view(),
            hours_sorted(all),
            forall|i: int| at <= i < all.len() ==> (#[trigger] all[i]).hour > hour@,
        ensures
            at <= partitions.len(),
            at > 0 ==> all[at - 1].hour <= hour@,
            forall|i: int| at <= i < all.len() ==> (#[trigger] all[i]).hour > hour@,
        decreases at,
    {
        assert(all[at - 1] == partitions@[at - 1].deep_view());
        if partitions[at - 1].hour.start_unix_nano() <= hour.start_unix_nano() {
            break;
        }
        at = at - 1;
    }
    if at > 0 && partitions[at - 1].hour.same(hour) {
        assert(all[at - 1] == partitions@[at - 1].deep_view());
        let mut partition = partitions.remove(at - 1);
        let ghost before = partition.batches.deep_view();
        partition.batches.push(Arc::new(batch));
        assert(partition.batches.deep_view() =~= before.push(view));
        partitions.insert(at - 1, partition);
        proof {
            lemma_push_batch_inside(all, hour@, view, at - 1);
        }
        assert(partitions.deep_view() =~= all.update(
            at - 1,
            HourView { hour: hour@, batches: all[at - 1].batches.push(view) },
        ));
    } else {
        if at > 0 {
            assert(all[at - 1] == partitions@[at - 1].deep_view());
        }
        let mut batches: Vec<Arc<RecordBatch>> = Vec::new();
        batches.push(Arc::new(batch));
        assert(batches.deep_view() =~= seq![view]);
        partitions.insert(at, GenerationPartition { hour, batches });
        proof {
            lemma_push_batch_new(all, hour@, view, at as int);
        }
        assert(partitions.deep_view() =~= all.insert(
            at as int,
            HourView { hour: hour@, batches: seq![view] },
        ));
    }
}

// Dynamic fields of a generation.

/// Whether the metadata of a field's column gives its identity back.
pub open spec fn field_reads_back(field: DynamicFieldView) -> bool {
    identity::identity_of(identity::dynamic_field(field)) == Some(field.identity)
}

/// What holds of the dynamic fields of every generation.
pub open spec fn fields_ok(fields: Seq<DynamicFieldView>) -> bool {
    &&& naming::names_distinct(fields)
    &&& forall|i: int|
        0 <= i < fields.len() ==> naming::name_shaped(#[trigger] fields[i]) && field_reads_back(
            fields[i],
        )
}

/// Whether a field is the column of one of `fields`.
pub open spec fn is_column_of(field: FieldView, fields: Seq<DynamicFieldView>) -> bool {
    exists|i: int|
        0 <= i < fields.len() && field == identity::dynamic_field(#[trigger] fields[i])
}

/// What holds of every batch that a generation with these dynamic fields stores.
pub open spec fn stored_ok(batch: BatchView, fields: Seq<DynamicFieldView>) -> bool {
    &&& batch.wf()
    &&& align::starts_with_core(batch.schema.fields)
    &&& forall|i: int|
        schema::core_fields().len() <= i < batch.schema.fields.len() ==> is_column_of(
            #[trigger] batch.schema.fields[i],
            fields,
        )
}

pub open spec fn stored_under(fields: Seq<DynamicFieldView>) -> spec_fn(BatchView) -> bool {
    |batch: BatchView| stored_ok(batch, fields)
}

/// What holds of every batch of a frozen generation.
pub open spec fn frozen_under(schema: SchemaView) -> spec_fn(BatchView) -> bool {
    |batch: BatchView| batch.wf() && batch.schema == schema
}

proof fn lemma_core_names_distinct(i: int, j: int)
    requires
        0 <= i < j < schema::core_fields().len(),
    ensures
        schema::core_fields()[i].name != schema::core_fields()[j].name,
{
    reveal_strlit("schema_version");
    reveal_strlit("tenant_id");
    reveal_strlit("wal_sequence");
    reveal_strlit("record_index");
    reveal_strlit("time_unix_nano");
    reveal_strlit("observed_time_unix_nano");
    reveal_strlit("received_time_unix_nano");
    reveal_strlit("event_time_unix_nano");
    reveal_strlit("severity_number");
    reveal_strlit("severity_text");
    reveal_strlit("body");
    reveal_strlit("trace_id");
    reveal_strlit("span_id");
    reveal_strlit("service_name");
    reveal_strlit("resource_attributes");
    reveal_strlit("scope_attributes");
    reveal_strlit("log_attributes");
    let a = schema::core_fields()[i].name;
    let b = schema::core_fields()[j].name;
    assert(a.len() != b.len() || a[0] != b[0]);
}

/// Where a core column stands in a stored batch.
proof fn lemma_core_position(batch: BatchView, fields: Seq<DynamicFieldView>, at: int)
    requires
        stored_ok(batch, fields),
        0 <= at < schema::core_fields().len(),
    ensures
        batch.schema.fields[at] == schema::core_fields()[at],
        batch.column_by_name(schema::core_fields()[at].name) == Some(batch.columns[at]),
{
    let core = schema::core_fields();
    let all = batch.schema.fields;
    let name = core[at].name;
    assert(all.take(core.len() as int)[at] == all[at]);
    schema::lemma_field_index(all, name);
    let found = schema::field_index(all, name);
    if found < at {
        assert(all.take(core.len() as int)[found] == all[found]);
        lemma_core_names_distinct(found, at);
    }
}

/// What stands under the name of a dynamic column in a stored batch.
proof fn lemma_dynamic_position(batch: BatchView, fields: Seq<DynamicFieldView>, at: int)
    requires
        fields_ok(fields),
        stored_ok(batch, fields),
        0 <= at < fields.len(),
    ensures
        ({
            let found = schema::field_index(batch.schema.fields, fields[at].physical_name);
            found < batch.schema.fields.len() ==> schema::core_fields().len() <= found
                && batch.schema.fields[found] == identity::dynamic_field(fields[at])
        }),
{
    let core = schema::core_fields();
    let all = batch.schema.fields;
    let name = fields[at].physical_name;
    schema::lemma_field_index(all, name);
    let found = schema::field_index(all, name);
    if found < all.len() {
        if found < core.len() {
            assert(all.take(core.len() as int)[found] == all[found]);
            naming::columns_avoid_core_names(fields[at], found);
        } else {
            assert(is_column_of(all[found], fields));
            let k = choose|k: int|
                0 <= k < fields.len() && all[found] == identity::dynamic_field(
                    #[trigger] fields[k],
                );
            assert(fields[k].physical_name == fields[at].physical_name);
            if k < at {
                assert(fields[k].physical_name != fields[at].physical_name);
            } else if at < k {
                assert(fields[at].physical_name != fields[k].physical_name);
            }
        }
    }
}

pub proof fn lemma_null_bytes(rows: nat)
    ensures
        batch::value_bytes(batch::null_cells(rows)) == 0,
    decreases rows,
{
    if rows > 0 {
        lemma_null_bytes((rows - 1) as nat);
        assert(batch::null_cells(rows).drop_last() =~= batch::null_cells((rows - 1) as nat));
    }
}

/// Every batch that a generation stores aligns to the schema of the generation, and keeps its rows.
pub proof fn stored_batches_align(batch: BatchView, fields: Seq<DynamicFieldView>)
    requires
        fields_ok(fields),
        stored_ok(batch, fields),
    ensures
        align::aligned(batch, generation_schema(fields)) is Ok,
        align::aligned(batch, generation_schema(fields))->Ok_0.rows == batch.rows,
        align::aligned(batch, generation_schema(fields))->Ok_0.wf(),
        align::aligned(batch, generation_schema(fields))->Ok_0.schema == generation_schema(fields),
{
    let core = schema::core_fields();
    let all = decode::partition_fields(fields);
    let columns = align::columns_for(batch, all);
    assert forall|i: int| 0 <= i < all.len() implies align::column_fault(
        batch,
        #[trigger] all[i],
    ) is None by {
        if i < core.len() {
            assert(all[i] == core[i]);
            lemma_core_position(batch, fields, i);
        } else {
            assert(all[i] == identity::dynamic_field(fields[i - core.len()]));
            lemma_dynamic_position(batch, fields, i - core.len());
        }
    }
    align::lemma_no_fault(batch, all);
    lemma_null_bytes(batch.rows);
    assert forall|i: int| 0 <= i < columns.len() implies {
        let column = #[trigger] columns[i];
        &&& column.cells.len() == batch.rows
        &&& column.data_type == all[i].data_type
        &&& !all[i].nullable ==> !batch::has_null(column.cells)
        &&& batch::cells_fit(column.cells, column.data_type)
        &&& batch::offsets_hold(column)
    } by {
        assert(columns[i] == align::column_for(batch, all[i]));
        assert(align::column_fault(batch, all[i]) is None);
        schema::lemma_field_index(batch.schema.fields, all[i].name);
        if i < core.len() {
            assert(all[i] == core[i]);
            lemma_core_position(batch, fields, i);
        }
    }
    assert(columns[0].cells.len() == batch.rows);
    assert(batch::required_columns_filled(all, columns));
    assert(batch::column_types_match(all, columns));
}

/// A batch that has the schema of its generation already is its own alignment.
pub proof fn lemma_aligned_already(batch: BatchView, fields: Seq<DynamicFieldView>)
    requires
        fields_ok(fields),
        stored_ok(batch, fields),
        batch.schema == generation_schema(fields),
    ensures
        align::aligned(batch, generation_schema(fields)) == Ok::<BatchView, Seq<char>>(batch),
{
    stored_batches_align(batch, fields);
    let core = schema::core_fields();
    let all = decode::partition_fields(fields);
    let columns = align::columns_for(batch, all);
    assert forall|i: int| 0 <= i < columns.len() implies #[trigger] columns[i] == batch.columns[i] by {
        assert(columns[i] == align::column_for(batch, all[i]));
        if i < core.len() {
            lemma_core_position(batch, fields, i);
        } else {
            let at = i - core.len();
            assert(all[i] == identity::dynamic_field(fields[at]));
            lemma_dynamic_position(batch, fields, at);
            schema::lemma_field_index(all, fields[at].physical_name);
            let found = schema::field_index(all, fields[at].physical_name);
            if found != i {
                assert(all[found] == identity::dynamic_field(fields[found - core.len()]));
                assert(fields[found - core.len()].physical_name != fields[at].physical_name);
            }
        }
    }
    assert(columns =~= batch.columns);
}

/// Where every field is kept, projection renames in place.
proof fn lemma_all_kept(
    fields: Seq<FieldView>,
    columns: Seq<batch::ColumnView>,
    named: Seq<DynamicFieldView>,
)
    requires
        columns.len() >= fields.len(),
        forall|i: int|
            0 <= i < fields.len() ==> align::renamed_field(#[trigger] fields[i], named) is Some,
    ensures
        align::projected_fields(fields, named).len() == fields.len(),
        forall|i: int|
            0 <= i < fields.len() ==> (#[trigger] align::projected_fields(fields, named)[i])
                == align::renamed_field(fields[i], named)->0,
        align::projected_columns(fields, columns, named) == columns.take(fields.len() as int),
    decreases fields.len(),
{
    if fields.len() > 0 {
        let front = fields.drop_last();
        assert forall|i: int| 0 <= i < front.len() implies align::renamed_field(
            #[trigger] front[i],
            named,
        ) is Some by {
            assert(front[i] == fields[i]);
        }
        lemma_all_kept(front, columns, named);
        assert(align::renamed_field(fields[fields.len() - 1], named) is Some);
        let whole = align::projected_fields(fields, named);
        let part = align::projected_fields(front, named);
        assert forall|i: int| 0 <= i < fields.len() implies (#[trigger] whole[i])
            == align::renamed_field(fields[i], named)->0 by {
            if i < front.len() {
                assert(whole[i] == part[i]);
                assert(front[i] == fields[i]);
            }
        }
        assert(align::projected_columns(fields, columns, named) =~= columns.take(
            fields.len() as int,
        ));
    } else {
        assert(columns.take(0) =~= Seq::empty());
    }
}

/// A stored batch stays stored under new names for the same identities, with its rows and columns.
pub proof fn lemma_stored_projects(
    batch: BatchView,
    fields: Seq<DynamicFieldView>,
    named: Seq<DynamicFieldView>,
)
    requires
        fields_ok(fields),
        fields_ok(named),
        stored_ok(batch, fields),
        forall|i: int|
            0 <= i < fields.len() ==> naming::has_column(named, (#[trigger] fields[i]).identity),
    ensures
        align::projected(batch, named) is Ok,
        stored_ok(align::projected(batch, named)->Ok_0, named),
        align::projected(batch, named)->Ok_0.rows == batch.rows,
        align::projected(batch, named)->Ok_0.columns == batch.columns,
{
    let core = schema::core_fields();
    let all = batch.schema.fields;
    assert forall|i: int| 0 <= i < all.len() implies {
        let renamed = align::renamed_field(#[trigger] all[i], named);
        &&& renamed is Some
        &&& renamed->0.data_type == all[i].data_type
        &&& renamed->0.nullable == all[i].nullable
        &&& i < core.len() ==> renamed->0 == core[i]
        &&& core.len() <= i ==> is_column_of(renamed->0, named)
    } by {
        if i < core.len() {
            assert(all.take(core.len() as int)[i] == all[i]);
            identity::lemma_plain_field_has_no_identity(all[i]);
        } else {
            assert(is_column_of(all[i], fields));
            let k = choose|k: int|
                0 <= k < fields.len() && all[i] == identity::dynamic_field(#[trigger] fields[k]);
            assert(field_reads_back(fields[k]));
            align::lemma_named_as(named, fields[k].identity);
            let name = align::named_as(named, fields[k].identity)->0;
            let m = choose|m: int| 0 <= m < named.len() && named[m] == name;
            assert(identity::dynamic_field(named[m]) == identity::dynamic_field(name));
        }
    }
    assert forall|i: int| 0 <= i < all.len() implies align::renamed_field(
        #[trigger] all[i],
        named,
    ) is Some by {}
    lemma_all_kept(all, batch.columns, named);
    assert(batch.columns.take(all.len() as int) =~= batch.columns);
    let renamed = align::projected_fields(all, named);
    assert forall|i: int| 0 <= i < renamed.len() implies {
        &&& (#[trigger] renamed[i]).data_type == all[i].data_type
        &&& renamed[i].nullable == all[i].nullable
    } by {
        assert(align::renamed_field(all[i], named) is Some);
    }
    let columns = batch.columns;
    assert(batch::required_columns_filled(renamed, columns)) by {
        assert forall|i: int| 0 <= i < columns.len() && !renamed[i].nullable implies !batch::has_null(
            (#[trigger] columns[i]).cells,
        ) by {
            assert(!all[i].nullable);
        }
    }
    assert(batch::column_types_match(renamed, columns)) by {
        assert forall|i: int| 0 <= i < columns.len() implies (#[trigger] columns[i]).data_type
            == renamed[i].data_type by {
            assert(renamed[i].data_type == all[i].data_type);
        }
    }
    assert(columns[0].cells.len() == batch.rows);
    assert(batch::batch_fault(renamed, columns, None) is None);
    let result = align::projected(batch, named)->Ok_0;
    assert(result.schema.fields == renamed);
    assert(result.wf());
    assert forall|i: int| 0 <= i < core.len() implies renamed[i] == core[i] by {
        assert(align::renamed_field(all[i], named) is Some);
    }
    assert(renamed.take(core.len() as int) =~= core);
    assert forall|i: int| core.len() <= i < renamed.len() implies is_column_of(
        #[trigger] renamed[i],
        named,
    ) by {
        assert(align::renamed_field(all[i], named) is Some);
    }
}

/// Under unchanged names a stored batch is its own projection.
pub proof fn lemma_projected_already(
    batch: BatchView,
    fields: Seq<DynamicFieldView>,
    named: Seq<DynamicFieldView>,
)
    requires
        fields_ok(fields),
        fields_ok(named),
        stored_ok(batch, fields),
        !align::some_name_changed(fields, named),
    ensures
        align::projected(batch, named) == Ok::<BatchView, Seq<char>>(batch),
{
    let core = schema::core_fields();
    let all = batch.schema.fields;
    assert forall|i: int| 0 <= i < all.len() implies align::renamed_field(#[trigger] all[i], named)
        == Some(all[i]) by {
        if i < core.len() {
            assert(all.take(core.len() as int)[i] == all[i]);
            identity::lemma_plain_field_has_no_identity(all[i]);
        } else {
            assert(is_column_of(all[i], fields));
            let k = choose|k: int|
                0 <= k < fields.len() && all[i] == identity::dynamic_field(#[trigger] fields[k]);
            assert(field_reads_back(fields[k]));
            assert(align::named_as(named, fields[k].identity) == Some(fields[k]));
        }
    }
    lemma_all_kept(all, batch.columns, named);
    assert(align::projected_fields(all, named) =~= all);
}

/// What projection keeps of the fields of an accepted batch.
proof fn lemma_projected_shape(
    fields: Seq<FieldView>,
    columns: Seq<batch::ColumnView>,
    named: Seq<DynamicFieldView>,
)
    requires
        align::starts_with_core(fields),
        columns.len() >= fields.len(),
        forall|i: int|
            schema::core_fields().len() <= i < fields.len() ==> identity::identity_of(
                #[trigger] fields[i],
            ) is Some,
    ensures
        align::starts_with_core(align::projected_fields(fields, named)),
        forall|i: int|
            schema::core_fields().len() <= i < align::projected_fields(fields, named).len()
                ==> is_column_of(#[trigger] align::projected_fields(fields, named)[i], named),
        align::projected_columns(fields, columns, named).len() > 0,
        align::projected_columns(fields, columns, named)[0] == columns[0],
    decreases fields.len(),
{
    let core = schema::core_fields();
    let count = core.len() as int;
    if fields.len() == core.len() {
        assert(fields =~= core) by {
            assert(fields.take(count) =~= fields);
        }
        assert forall|i: int| 0 <= i < fields.len() implies align::renamed_field(
            #[trigger] fields[i],
            named,
        ) == Some(fields[i]) by {
            identity::lemma_plain_field_has_no_identity(core[i]);
        }
        lemma_all_kept(fields, columns, named);
        assert(align::projected_fields(fields, named) =~= fields);
    } else {
        let front = fields.drop_last();
        assert(front.take(count) =~= fields.take(count));
        assert forall|i: int| count <= i < front.len() implies identity::identity_of(
            #[trigger] front[i],
        ) is Some by {
            assert(front[i] == fields[i]);
        }
        lemma_projected_shape(front, columns, named);
        let last = fields[fields.len() - 1];
        assert(identity::identity_of(last) is Some);
        let id = identity::identity_of(last)->0;
        align::lemma_named_as(named, id);
        let part = align::projected_fields(front, named);
        let whole = align::projected_fields(fields, named);
        if align::renamed_field(last, named) is Some {
            let name = align::named_as(named, id)->0;
            let m = choose|m: int| 0 <= m < named.len() && named[m] == name;
            assert(identity::dynamic_field(named[m]) == whole[whole.len() - 1]);
            assert(is_column_of(whole[whole.len() - 1], named));
            assert(whole.take(count) =~= part.take(count));
            assert forall|i: int| count <= i < whole.len() implies is_column_of(
                #[trigger] whole[i],
                named,
            ) by {
                if i < part.len() {
                    assert(whole[i] == part[i]);
                }
            }
        }
    }
}

/// An accepted batch of a frame is stored under the names it was projected on, with its rows.
pub proof fn lemma_frame_projects(batch: BatchView, named: Seq<DynamicFieldView>)
    requires
        batch.wf(),
        fields_ok(named),
        align::starts_with_core(batch.schema.fields),
        forall|i: int|
            schema::core_fields().len() <= i < batch.schema.fields.len() ==> identity::identity_of(
                #[trigger] batch.schema.fields[i],
            ) is Some,
        align::projected(batch, named) is Ok,
    ensures
        stored_ok(align::projected(batch, named)->Ok_0, named),
        align::projected(batch, named)->Ok_0.rows == batch.rows,
{
    lemma_projected_shape(batch.schema.fields, batch.columns, named);
    let result = align::projected(batch, named)->Ok_0;
    assert(batch.columns[0].cells.len() == batch.rows);
    assert(result.wf());
}

// Laws of placing.

/// The batches of an hour, in the order in which they came.
pub open spec fn hour_batches(partitions: Seq<HourView>, hour: u64) -> Seq<BatchView> {
    if exists|p: int| 0 <= p < partitions.len() && (#[trigger] partitions[p]).hour == hour {
        partitions[choose|p: int|
            0 <= p < partitions.len() && (#[trigger] partitions[p]).hour == hour].batches
    } else {
        Seq::empty()
    }
}

proof fn lemma_hour_batches(partitions: Seq<HourView>, at: int)
    requires
        hours_sorted(partitions),
        0 <= at < partitions.len(),
    ensures
        hour_batches(partitions, partitions[at].hour) == partitions[at].batches,
{
    let hour = partitions[at].hour;
    let p = choose|p: int| 0 <= p < partitions.len() && (#[trigger] partitions[p]).hour == hour;
    assert(partitions[p].hour == hour);
    if p < at {
        assert(partitions[p].hour < partitions[at].hour);
    } else if at < p {
        assert(partitions[at].hour < partitions[p].hour);
    }
}

/// A batch is placed behind those of its hour, and the batches of the other hours stay as they are.
pub proof fn batches_enter_their_hour(
    partitions: Seq<HourView>,
    hour: u64,
    batch: BatchView,
    other: u64,
)
    requires
        hours_sorted(partitions),
    ensures
        hours_sorted(push_batch(partitions, hour, batch)),
        hour_batches(push_batch(partitions, hour, batch), hour) == hour_batches(
            partitions,
            hour,
        ).push(batch),
        other != hour ==> hour_batches(push_batch(partitions, hour, batch), other) == hour_batches(
            partitions,
            other,
        ),
{
    let after = push_batch(partitions, hour, batch);
    lemma_push_batch(partitions, hour, batch, |batch: BatchView| true);
    if exists|p: int| 0 <= p < partitions.len() && (#[trigger] partitions[p]).hour == hour {
        let at = choose|p: int| 0 <= p < partitions.len() && (#[trigger] partitions[p]).hour == hour;
        lemma_push_batch_inside(partitions, hour, batch, at);
        lemma_hour_batches(partitions, at);
        lemma_hour_batches(after, at);
        if other != hour {
            if exists|p: int| 0 <= p < partitions.len() && (#[trigger] partitions[p]).hour == other {
                let p = choose|p: int|
                    0 <= p < partitions.len() && (#[trigger] partitions[p]).hour == other;
                assert(after[p] == partitions[p]);
                lemma_hour_batches(partitions, p);
                lemma_hour_batches(after, p);
            } else {
                assert forall|p: int| 0 <= p < after.len() implies (#[trigger] after[p]).hour
                    != other by {
                    assert(after[p].hour == partitions[p].hour);
                }
            }
        }
    } else {
        lemma_place_of(partitions, hour, partitions.len() as int);
        let at = place_of(partitions, hour, partitions.len() as int);
        lemma_push_batch_new(partitions, hour, batch, at);
        assert(after[at].hour == hour);
        lemma_hour_batches(after, at);
        assert(after[at].batches =~= Seq::<BatchView>::empty().push(batch));
        if other != hour {
            if exists|p: int| 0 <= p < partitions.len() && (#[trigger] partitions[p]).hour == other {
                let p = choose|p: int|
                    0 <= p < partitions.len() && (#[trigger] partitions[p]).hour == other;
                let q = if p < at {
                    p
                } else {
                    p + 1
                };
                assert(after[q] == partitions[p]);
                lemma_hour_batches(partitions, p);
                lemma_hour_batches(after, q);
            } else {
                assert forall|q: int| 0 <= q < after.len() implies (#[trigger] after[q]).hour
                    != other by {
                    if q < at {
                        assert(after[q] == partitions[q]);
                    } else if q > at {
                        assert(after[q] == partitions[q - 1]);
                    }
                }
            }
        }
    }
}

/// How many of the first hours come before a place for this hour.
spec fn place_of(partitions: Seq<HourView>, hour: u64, count: int) -> int
    decreases count,
{
    if count <= 0 || partitions[count - 1].hour < hour {
        count
    } else {
        place_of(partitions, hour, count - 1)
    }
}

proof fn lemma_place_of(partitions: Seq<HourView>, hour: u64, count: int)
    requires
        0 <= count <= partitions.len(),
        forall|p: int| 0 <= p < partitions.len() ==> (#[trigger] partitions[p]).hour != hour,
        forall|p: int| count <= p < partitions.len() ==> (#[trigger] partitions[p]).hour > hour,
    ensures
        0 <= place_of(partitions, hour, count) <= partitions.len(),
        place_of(partitions, hour, count) > 0 ==> partitions[place_of(partitions, hour, count)
            - 1].hour < hour,
        forall|p: int|
            place_of(partitions, hour, count) <= p < partitions.len() ==> (
            #[trigger] partitions[p]).hour > hour,
    decreases count,
{
    if count > 0 && partitions[count - 1].hour >= hour {
        lemma_place_of(partitions, hour, count - 1);
    }
}

/// The batches of a frame enter their hours, behind what these hold, and in their order: an hour keeps its
/// batches in front, and has each batch of the frame that is of the hour.
pub proof fn frames_enter_their_hours(
    partitions: Seq<HourView>,
    added: Seq<PartitionView>,
    hour: u64,
    i: int,
)
    requires
        hours_sorted(partitions),
    ensures
        hours_sorted(push_batches(partitions, added)),
        hour_batches(partitions, hour).is_prefix_of(
            hour_batches(push_batches(partitions, added), hour),
        ),
        0 <= i < added.len() ==> hour_batches(
            push_batches(partitions, added),
            added[i].hour,
        ).contains(added[i].batch),
        (forall|k: int| 0 <= k < added.len() ==> (#[trigger] added[k]).hour != hour)
            ==> hour_batches(push_batches(partitions, added), hour) == hour_batches(
            partitions,
            hour,
        ),
    decreases added.len(),
{
    if added.len() > 0 {
        let front = added.drop_last();
        let end = added.len() - 1;
        let last = added[end];
        let before = push_batches(partitions, front);
        frames_enter_their_hours(partitions, front, hour, i);
        batches_enter_their_hour(before, last.hour, last.batch, hour);
        assert(forall|k: int| 0 <= k < front.len() ==> front[k] == #[trigger] added[k]);
        let after = push_batches(partitions, added);
        if hour == last.hour {
            assert(hour_batches(before, hour).is_prefix_of(hour_batches(after, hour)));
        }
        if 0 <= i < end {
            batches_enter_their_hour(before, last.hour, last.batch, added[i].hour);
            let held = hour_batches(before, added[i].hour);
            let k = choose|k: int| 0 <= k < held.len() && held[k] == added[i].batch;
            assert(hour_batches(after, added[i].hour)[k] == added[i].batch);
        } else if i == end {
            let held = hour_batches(before, last.hour);
            assert(hour_batches(after, last.hour)[held.len() as int] == last.batch);
        }
        if forall|k: int| 0 <= k < added.len() ==> (#[trigger] added[k]).hour != hour {
            assert(added[end].hour != hour);
            assert forall|k: int| 0 <= k < front.len() implies (#[trigger] front[k]).hour
                != hour by {
                assert(added[k].hour != hour);
            }
        }
    }
}

} // verus!
