//! One decoded frame under the schema of the generation that receives it.
use vstd::prelude::*;
use crate::align;
use crate::align::{
    core_columns_match, project_batch, schema_fingerprint, MemtableError, MemtableErrorView,
};
use crate::batch;
use crate::batch::{total_bytes, BatchView};
use crate::decode::{DecodedPartition, PartitionView};
use crate::generation;
use crate::generation::copy_identities;
use crate::identity;
use crate::identity::{
    dynamic_identity, DynamicField, DynamicFieldView, DynamicIdentity, IdentityView,
};
use crate::naming;
use crate::naming::discover_dynamic_schema;
use crate::schema;
use crate::schema::{logs_batch_schema, Field, FieldView, Schema};

verus! {

// Admission.

/// The admitted identities after one more was seen: new ones enter up to the cap.
pub open spec fn admitting(admitted: Seq<IdentityView>, identity: IdentityView, max_columns: nat) -> Seq<
    IdentityView,
> {
    if admitted.contains(identity) || admitted.len() >= max_columns {
        admitted
    } else {
        admitted.push(identity)
    }
}

/// The admitted identities after the dynamic columns among `fields`, or why one is refused.
pub open spec fn admit_fields(
    admitted: Seq<IdentityView>,
    fields: Seq<FieldView>,
    max_columns: nat,
) -> Result<Seq<IdentityView>, Seq<char>>
    decreases fields.len(),
{
    if fields.len() <= schema::core_fields().len() {
        Ok(admitted)
    } else {
        match admit_fields(admitted, fields.drop_last(), max_columns) {
            Err(detail) => Err(detail),
            Ok(before) => match identity::identity_of(fields.last()) {
                None => Err(
                    "dynamic column "@ + fields.last().name + " has no attribute identity"@,
                ),
                Some(identity) => Ok(admitting(before, identity, max_columns)),
            },
        }
    }
}

/// The admitted identities after the batches of a frame, or why one is refused.
pub open spec fn admit_batches(
    admitted: Seq<IdentityView>,
    added: Seq<PartitionView>,
    max_columns: nat,
) -> Result<Seq<IdentityView>, Seq<char>>
    decreases added.len(),
{
    if added.len() == 0 {
        Ok(admitted)
    } else {
        match admit_batches(admitted, added.drop_last(), max_columns) {
            Err(detail) => Err(detail),
            Ok(before) => if !align::starts_with_core(added.last().batch.schema.fields) {
                Err("batch does not start with the core logs schema"@)
            } else {
                admit_fields(before, added.last().batch.schema.fields, max_columns)
            },
        }
    }
}

/// The batches of a frame under the names of their columns, or why one does not fit.
pub open spec fn project_partitions(
    added: Seq<PartitionView>,
    named: Seq<DynamicFieldView>,
) -> Result<Seq<PartitionView>, Seq<char>>
    decreases added.len(),
{
    if added.len() == 0 {
        Ok(Seq::empty())
    } else {
        match project_partitions(added.drop_last(), named) {
            Err(detail) => Err(detail),
            Ok(before) => match align::projected(added.last().batch, named) {
                Err(detail) => Err(detail),
                Ok(batch) => Ok(before.push(PartitionView { hour: added.last().hour, batch })),
            },
        }
    }
}

/// A frame ready to be stored.
#[verifier::ext_equal]
pub struct FrameView {
    pub admitted: Seq<IdentityView>,
    pub fields: Seq<DynamicFieldView>,
    pub partitions: Seq<PartitionView>,
}

/// What a frame becomes in a generation that has admitted these identities.
pub open spec fn project_frame(
    admitted: Seq<IdentityView>,
    added: Seq<PartitionView>,
    max_columns: nat,
) -> Result<FrameView, MemtableErrorView> {
    match admit_batches(admitted, added, max_columns) {
        Err(detail) => Err(MemtableErrorView::IncompatibleBatch(detail)),
        Ok(admitted) => match naming::discovered(admitted, admitted.len()) {
            None => Err(MemtableErrorView::Dynamic(naming::DynamicError::DigestCollision)),
            Some(fields) => match project_partitions(added, fields) {
                Err(detail) => Err(MemtableErrorView::IncompatibleBatch(detail)),
                Ok(partitions) => Ok(FrameView { admitted, fields, partitions }),
            },
        },
    }
}

proof fn lemma_admit_fields_fail(
    admitted: Seq<IdentityView>,
    fields: Seq<FieldView>,
    max_columns: nat,
    count: int,
)
    requires
        0 <= count <= fields.len(),
        admit_fields(admitted, fields.take(count), max_columns) is Err,
    ensures
        admit_fields(admitted, fields, max_columns) == admit_fields(
            admitted,
            fields.take(count),
            max_columns,
        ),
    decreases fields.len() - count,
{
    if count < fields.len() {
        assert(fields.take(count + 1).drop_last() =~= fields.take(count));
        lemma_admit_fields_fail(admitted, fields, max_columns, count + 1);
    } else {
        assert(fields.take(count) =~= fields);
    }
}

proof fn lemma_admit_batches_fail(
    admitted: Seq<IdentityView>,
    added: Seq<PartitionView>,
    max_columns: nat,
    count: int,
)
    requires
        0 <= count <= added.len(),
        admit_batches(admitted, added.take(count), max_columns) is Err,
    ensures
        admit_batches(admitted, added, max_columns) == admit_batches(
            admitted,
            added.take(count),
            max_columns,
        ),
    decreases added.len() - count,
{
    if count < added.len() {
        assert(added.take(count + 1).drop_last() =~= added.take(count));
        lemma_admit_batches_fail(admitted, added, max_columns, count + 1);
    } else {
        assert(added.take(count) =~= added);
    }
}

proof fn lemma_project_fail(
    added: Seq<PartitionView>,
    named: Seq<DynamicFieldView>,
    count: int,
)
    requires
        0 <= count <= added.len(),
        project_partitions(added.take(count), named) is Err,
    ensures
        project_partitions(added, named) == project_partitions(added.take(count), named),
    decreases added.len() - count,
{
    if count < added.len() {
        assert(added.take(count + 1).drop_last() =~= added.take(count));
        lemma_project_fail(added, named, count + 1);
    } else {
        assert(added.take(count) =~= added);
    }
}

/// Admission keeps what was admitted, and the columns of an accepted batch have identities.
proof fn lemma_admit_fields(admitted: Seq<IdentityView>, fields: Seq<FieldView>, max_columns: nat)
    requires
        admit_fields(admitted, fields, max_columns) is Ok,
    ensures
        ({
            let after = admit_fields(admitted, fields, max_columns)->Ok_0;
            &&& admitted.len() <= after.len()
            &&& after.take(admitted.len() as int) == admitted
            &&& after.len() <= admitted.len() || after.len() <= max_columns
        }),
        forall|i: int|
            schema::core_fields().len() <= i < fields.len() ==> identity::identity_of(
                #[trigger] fields[i],
            ) is Some,
    decreases fields.len(),
{
    if fields.len() <= schema::core_fields().len() {
        assert(admitted.take(admitted.len() as int) =~= admitted);
    } else {
        let front = fields.drop_last();
        lemma_admit_fields(admitted, front, max_columns);
        let before = admit_fields(admitted, front, max_columns)->Ok_0;
        let after = admit_fields(admitted, fields, max_columns)->Ok_0;
        assert(after.take(admitted.len() as int) =~= before.take(admitted.len() as int));
        assert forall|i: int|
            schema::core_fields().len() <= i < fields.len() implies identity::identity_of(
            #[trigger] fields[i],
        ) is Some by {
            if i < front.len() {
                assert(front[i] == fields[i]);
            }
        }
    }
}

/// Whether a batch has the core columns, and an identity for each other column.
pub open spec fn acceptable(batch: BatchView) -> bool {
    &&& align::starts_with_core(batch.schema.fields)
    &&& forall|i: int|
        schema::core_fields().len() <= i < batch.schema.fields.len() ==> identity::identity_of(
            #[trigger] batch.schema.fields[i],
        ) is Some
}

/// What a generation has admitted stays admitted, and no later frame takes it past the cap.
pub proof fn admission_keeps_columns(
    admitted: Seq<IdentityView>,
    added: Seq<PartitionView>,
    max_columns: nat,
)
    requires
        admit_batches(admitted, added, max_columns) is Ok,
    ensures
        ({
            let after = admit_batches(admitted, added, max_columns)->Ok_0;
            &&& admitted.len() <= after.len()
            &&& after.take(admitted.len() as int) == admitted
            &&& after.len() <= admitted.len() || after.len() <= max_columns
        }),
        forall|i: int| 0 <= i < added.len() ==> acceptable((#[trigger] added[i]).batch),
    decreases added.len(),
{
    if added.len() == 0 {
        assert(admitted.take(admitted.len() as int) =~= admitted);
    } else {
        let front = added.drop_last();
        admission_keeps_columns(admitted, front, max_columns);
        let before = admit_batches(admitted, front, max_columns)->Ok_0;
        let last = added[added.len() - 1].batch;
        lemma_admit_fields(before, last.schema.fields, max_columns);
        let after = admit_batches(admitted, added, max_columns)->Ok_0;
        assert(after.take(admitted.len() as int) =~= after.take(before.len() as int).take(
            admitted.len() as int,
        ));
        assert forall|i: int| 0 <= i < added.len() implies acceptable(
            (#[trigger] added[i]).batch,
        ) by {
            if i < front.len() {
                assert(front[i] == added[i]);
            }
        }
    }
}

fn contains_identity(identities: &Vec<DynamicIdentity>, identity: &DynamicIdentity) -> (found: bool)
    ensures
        found == identities.deep_view().contains(identity.deep_view()),
{
    let ghost all = identities.deep_view();
    let mut i: usize = 0;
    while i < identities.len()
        invariant
            i <= identities.len(),
            all == identities.deep_view(),
            forall|k: int| 0 <= k < i ==> #[trigger] all[k] != identity.deep_view(),
        decreases identities.len() - i,
    {
        assert(all[i as int] == identities@[i as int].deep_view());
        if identities[i].same(identity) {
            return true;
        }
        i = i + 1;
    }
    false
}

fn admit_batch_fields(
    admitted: &mut Vec<DynamicIdentity>,
    fields: &Vec<Field>,
    max_columns: usize,
) -> (result: Result<(), MemtableError>)
    ensures
        match result {
            Ok(_) => admit_fields(
                old(admitted).deep_view(),
                fields.deep_view(),
                max_columns as nat,
            ) == Ok::<Seq<IdentityView>, Seq<char>>(final(admitted).deep_view()),
            Err(error) => admit_fields(
                old(admitted).deep_view(),
                fields.deep_view(),
                max_columns as nat,
            ) is Err && error.deep_view() == MemtableErrorView::IncompatibleBatch(
                admit_fields(
                    old(admitted).deep_view(),
                    fields.deep_view(),
                    max_columns as nat,
                )->Err_0,
            ),
        },
{
    let ghost start = admitted.deep_view();
    let ghost all = fields.deep_view();
    let mut i: usize = 17;
    assert(schema::core_fields().len() == 17);
    if fields.len() <= 17 {
        return Ok(());
    }
    while i < fields.len()
        invariant
            17 <= i <= fields.len(),
            schema::core_fields().len() == 17,
            start == old(admitted).deep_view(),
            all == fields.deep_view(),
            admit_fields(start, all.take(i as int), max_columns as nat) == Ok::<
                Seq<IdentityView>,
                Seq<char>,
            >(admitted.deep_view()),
        decreases fields.len() - i,
    {
        assert(all.take(i + 1).drop_last() =~= all.take(i as int));
        assert(all[i as int] == fields@[i as int].deep_view());
        match dynamic_identity(&fields[i]) {
            None => {
                let mut detail = "dynamic column ".to_owned();
                detail.append(&fields[i].name);
                detail.append(" has no attribute identity");
                proof {
                    lemma_admit_fields_fail(start, all, max_columns as nat, i + 1);
                }
                return Err(MemtableError::IncompatibleBatch(detail));
            },
            Some(identity) => {
                if !contains_identity(admitted, &identity) && admitted.len() < max_columns {
                    let ghost before = admitted.deep_view();
                    let ghost view = identity.deep_view();
                    admitted.push(identity);
                    assert(admitted.deep_view() =~= before.push(view));
                }
            },
        }
        i = i + 1;
    }
    assert(all.take(i as int) =~= all);
    Ok(())
}

/// A frame ready to be stored.
#[derive(Debug)]
pub struct ProjectedFrame {
    pub admitted: Vec<DynamicIdentity>,
    pub fields: Vec<DynamicField>,
    pub schema: Schema,
    pub fingerprint: String,
    pub partitions: Vec<DecodedPartition>,
}

impl DeepView for ProjectedFrame {
    type V = FrameView;

    open spec fn deep_view(&self) -> FrameView {
        FrameView {
            admitted: self.admitted.deep_view(),
            fields: self.fields.deep_view(),
            partitions: self.partitions.deep_view(),
        }
    }
}

impl ProjectedFrame {
    /// The frame's schema and fingerprint follow from its fields.
    pub open spec fn wf(&self) -> bool {
        &&& frame_ok(self.deep_view())
        &&& self.schema.deep_view() == generation::generation_schema(self.fields.deep_view())
        &&& self.fingerprint@ == align::fingerprint_of(
            generation::generation_schema(self.fields.deep_view()).fields,
        )
    }

    /// Rows of the frame, as far as 64 bits hold them.
    pub fn rows(&self) -> (rows: u64)
        ensures
            rows == generation::clamped(
                generation::frame_rows(self.deep_view().partitions) as int,
            ),
    {
        let ghost all = self.partitions.deep_view();
        let mut total: u64 = 0;
        let mut i: usize = 0;
        assert(all.take(0) =~= Seq::empty());
        while i < self.partitions.len()
            invariant
                i <= self.partitions.len(),
                all == self.partitions.deep_view(),
                total == generation::clamped(generation::frame_rows(all.take(i as int)) as int),
            decreases self.partitions.len() - i,
        {
            assert(all.take(i + 1).drop_last() =~= all.take(i as int));
            assert(all[i as int] == self.partitions@[i as int].deep_view());
            let rows = self.partitions[i].batch.num_rows() as u64;
            total = total.saturating_add(rows);
            i = i + 1;
        }
        assert(all.take(i as int) =~= all);
        total
    }

    /// Arrow buffer bytes of the frame: the sum over its batches.
    pub fn bytes(&self) -> (bytes: u64)
        ensures
            batch::measures(bytes, generation::frame_batches(self.deep_view().partitions)),
            batch::covers(bytes, generation::frame_bytes(self.deep_view().partitions)),
    {
        let ghost all = generation::frame_batches(self.partitions.deep_view());
        let mut sizes: Vec<u64> = Vec::new();
        let mut i: usize = 0;
        while i < self.partitions.len()
            invariant
                i <= self.partitions.len(),
                all == generation::frame_batches(self.partitions.deep_view()),
                sizes@.len() == i,
                forall|k: int|
                    0 <= k < i ==> batch::covers(
                        #[trigger] sizes@[k],
                        batch::least_columns_bytes(all[k].columns),
                    ),
            decreases self.partitions.len() - i,
        {
            assert(self.partitions.deep_view()[i as int]
                == self.partitions@[i as int].deep_view());
            sizes.push(self.partitions[i].batch.get_array_memory_size());
            i = i + 1;
        }
        let bytes = total_bytes(&sizes);
        proof {
            assert(batch::batch_sizes(sizes@, all));
            batch::measures_cover_values(bytes, all);
            generation::lemma_frame_batches(self.partitions.deep_view());
        }
        bytes
    }
}

/// What holds of every frame that is ready to be stored.
pub open spec fn frame_ok(frame: FrameView) -> bool {
    &&& generation::fields_ok(frame.fields)
    &&& forall|i: int|
        0 <= i < frame.fields.len() ==> frame.admitted.contains(
            (#[trigger] frame.fields[i]).identity,
        )
    &&& forall|i: int|
        0 <= i < frame.admitted.len() ==> naming::has_column(
            frame.fields,
            #[trigger] frame.admitted[i],
        )
    &&& forall|i: int|
        0 <= i < frame.partitions.len() ==> generation::stored_ok(
            (#[trigger] frame.partitions[i]).batch,
            frame.fields,
        )
}

/// The schema of a generation. The metadata of every dynamic column gives its identity back.
fn build_schema(fields: &Vec<DynamicField>) -> (schema: Schema)
    ensures
        schema.deep_view() == generation::generation_schema(fields.deep_view()),
        forall|i: int|
            0 <= i < fields.deep_view().len() ==> generation::field_reads_back(
                #[trigger] fields.deep_view()[i],
            ),
{
    let ghost names = fields.deep_view();
    let ghost expected = names.map_values(
        |field: DynamicFieldView| identity::dynamic_field(field),
    );
    let mut dynamic_fields: Vec<Field> = Vec::new();
    let mut i: usize = 0;
    while i < fields.len()
        invariant
            i <= fields.len(),
            names == fields.deep_view(),
            expected == names.map_values(
                |field: DynamicFieldView| identity::dynamic_field(field),
            ),
            dynamic_fields.deep_view() =~= expected.take(i as int),
            forall|k: int| 0 <= k < i ==> generation::field_reads_back(#[trigger] names[k]),
        decreases fields.len() - i,
    {
        let ghost before = dynamic_fields.deep_view();
        dynamic_fields.push(fields[i].arrow_field());
        assert(names[i as int] == fields@[i as int].deep_view());
        assert(generation::field_reads_back(names[i as int]));
        assert(dynamic_fields.deep_view() =~= before.push(expected[i as int]));
        i = i + 1;
    }
    assert(dynamic_fields.deep_view() =~= expected);
    logs_batch_schema(&dynamic_fields)
}

proof fn lemma_project_stored(
    added: Seq<PartitionView>,
    named: Seq<DynamicFieldView>,
)
    requires
        generation::fields_ok(named),
        project_partitions(added, named) is Ok,
        forall|i: int|
            0 <= i < added.len() ==> (#[trigger] added[i]).batch.wf() && acceptable(added[i].batch),
    ensures
        project_partitions(added, named)->Ok_0.len() == added.len(),
        forall|i: int|
            0 <= i < added.len() ==> generation::stored_ok(
                (#[trigger] project_partitions(added, named)->Ok_0[i]).batch,
                named,
            ),
        generation::frame_rows(project_partitions(added, named)->Ok_0) == generation::frame_rows(
            added,
        ),
    decreases added.len(),
{
    if added.len() > 0 {
        let front = added.drop_last();
        assert forall|i: int| 0 <= i < front.len() implies (#[trigger] front[i]).batch.wf()
            && acceptable(front[i].batch) by {
            assert(front[i] == added[i]);
        }
        lemma_project_stored(front, named);
        let last = added[added.len() - 1];
        assert(last.batch.wf() && acceptable(last.batch));
        generation::lemma_frame_projects(last.batch, named);
        let part = project_partitions(front, named)->Ok_0;
        let whole = project_partitions(added, named)->Ok_0;
        assert(whole.drop_last() =~= part);
        assert forall|i: int| 0 <= i < added.len() implies generation::stored_ok(
            (#[trigger] whole[i]).batch,
            named,
        ) by {
            if i < part.len() {
                assert(whole[i] == part[i]);
            }
        }
    }
}

/// Projects a frame on what a generation has admitted.
///
/// # Errors
///
/// Returns [`MemtableError::IncompatibleBatch`] for a batch that lacks the core columns or an
/// identity, and [`MemtableError::Dynamic`] when the columns cannot be named.
pub fn project(
    admitted: &Vec<DynamicIdentity>,
    added: &Vec<DecodedPartition>,
    max_columns: usize,
) -> (frame: Result<ProjectedFrame, MemtableError>)
    ensures
        match frame {
            Ok(frame) => {
                &&& frame.wf()
                &&& project_frame(
                    admitted.deep_view(),
                    added.deep_view(),
                    max_columns as nat,
                ) == Ok::<FrameView, MemtableErrorView>(frame.deep_view())
                &&& generation::frame_rows(frame.deep_view().partitions) == generation::frame_rows(
                    added.deep_view(),
                )
            },
            Err(error) => project_frame(
                admitted.deep_view(),
                added.deep_view(),
                max_columns as nat,
            ) == Err::<FrameView, MemtableErrorView>(error.deep_view()),
        },
{
    let ghost start = admitted.deep_view();
    let ghost all = added.deep_view();
    let mut extended = copy_identities(admitted);
    let mut i: usize = 0;
    assert(all.take(0) =~= Seq::empty());
    while i < added.len()
        invariant
            i <= added.len(),
            start == admitted.deep_view(),
            all == added.deep_view(),
            forall|k: int| 0 <= k < i ==> (#[trigger] all[k]).batch.wf(),
            admit_batches(start, all.take(i as int), max_columns as nat) == Ok::<
                Seq<IdentityView>,
                Seq<char>,
            >(extended.deep_view()),
        decreases added.len() - i,
    {
        assert(all.take(i + 1).drop_last() =~= all.take(i as int));
        assert(all[i as int] == added@[i as int].deep_view());
        let batch = &added[i].batch;
        let current = batch.schema();
        if !core_columns_match(batch) {
            proof {
                lemma_admit_batches_fail(start, all, max_columns as nat, i + 1);
            }
            return Err(
                MemtableError::IncompatibleBatch(
                    "batch does not start with the core logs schema".to_owned(),
                ),
            );
        }
        match admit_batch_fields(&mut extended, &current.fields, max_columns) {
            Ok(()) => {},
            Err(error) => {
                proof {
                    lemma_admit_batches_fail(start, all, max_columns as nat, i + 1);
                }
                return Err(error);
            },
        }
        i = i + 1;
    }
    assert(all.take(i as int) =~= all);
    let named = match discover_dynamic_schema(&extended, extended.len()) {
        Ok(named) => named,
        Err(error) => {
            return Err(MemtableError::Dynamic(error));
        },
    };
    let ghost names = named.fields.deep_view();
    let schema = build_schema(&named.fields);
    let partitions = project_all(added, &named.fields)?;
    proof {
        admission_keeps_columns(start, all, max_columns as nat);
        let ids = extended.deep_view();
        naming::columns_stand_for_identities(ids, ids.len(), names);
        assert forall|k: int| 0 <= k < ids.len() implies naming::has_column(
            names,
            #[trigger] ids[k],
        ) by {
            assert(!naming::overflow_identities(ids, ids.len()).contains(ids[k]));
        }
        assert(generation::fields_ok(names));
        lemma_project_stored(all, names);
    }
    let fingerprint = schema_fingerprint(&schema);
    let frame = ProjectedFrame {
        admitted: extended,
        fields: named.fields,
        schema,
        fingerprint,
        partitions,
    };
    Ok(frame)
}

fn project_all(added: &Vec<DecodedPartition>, fields: &Vec<DynamicField>) -> (partitions: Result<
    Vec<DecodedPartition>,
    MemtableError,
>)
    ensures
        match partitions {
            Ok(partitions) => project_partitions(added.deep_view(), fields.deep_view()) == Ok::<
                Seq<PartitionView>,
                Seq<char>,
            >(partitions.deep_view()),
            Err(error) => project_partitions(added.deep_view(), fields.deep_view()) is Err
                && error.deep_view() == MemtableErrorView::IncompatibleBatch(
                project_partitions(added.deep_view(), fields.deep_view())->Err_0,
            ),
        },
{
    let ghost all = added.deep_view();
    let ghost named = fields.deep_view();
    let mut partitions: Vec<DecodedPartition> = Vec::new();
    let mut i: usize = 0;
    assert(all.take(0) =~= Seq::empty());
    assert(partitions.deep_view() =~= Seq::empty());
    while i < added.len()
        invariant
            i <= added.len(),
            all == added.deep_view(),
            named == fields.deep_view(),
            project_partitions(all.take(i as int), named) == Ok::<Seq<PartitionView>, Seq<char>>(
                partitions.deep_view(),
            ),
        decreases added.len() - i,
    {
        assert(all.take(i + 1).drop_last() =~= all.take(i as int));
        assert(all[i as int] == added@[i as int].deep_view());
        match project_batch(&added[i].batch, fields) {
            Ok(batch) => {
                let ghost before = partitions.deep_view();
                let ghost view = batch.deep_view();
                partitions.push(DecodedPartition { hour: added[i].hour, batch });
                assert(partitions.deep_view() =~= before.push(
                    PartitionView { hour: all[i as int].hour, batch: view },
                ));
            },
            Err(error) => {
                proof {
                    lemma_project_fail(all, named, i + 1);
                }
                return Err(error);
            },
        }
        i = i + 1;
    }
    assert(all.take(i as int) =~= all);
    Ok(partitions)
}

/// Whether an attribute column of a batch has this identity.
pub open spec fn has_identity(batch: BatchView, identity: IdentityView) -> bool {
    exists|f: int|
        schema::core_fields().len() <= f < batch.schema.fields.len() && identity::identity_of(
            #[trigger] batch.schema.fields[f],
        ) == Some(identity)
}

/// Whether an attribute column of a frame has this identity.
pub open spec fn some_batch_has(added: Seq<PartitionView>, identity: IdentityView) -> bool {
    exists|i: int| 0 <= i < added.len() && has_identity((#[trigger] added[i]).batch, identity)
}

proof fn lemma_fields_admitted(
    admitted: Seq<IdentityView>,
    fields: Seq<FieldView>,
    max_columns: nat,
    identity: IdentityView,
)
    ensures
        admit_fields(admitted, fields, max_columns) is Ok <==> forall|f: int|
            schema::core_fields().len() <= f < fields.len() ==> identity::identity_of(
                #[trigger] fields[f],
            ) is Some,
        admit_fields(admitted, fields, max_columns) is Ok ==> {
            let after = admit_fields(admitted, fields, max_columns)->Ok_0;
            let found = exists|f: int|
                schema::core_fields().len() <= f < fields.len() && identity::identity_of(
                    #[trigger] fields[f],
                ) == Some(identity);
            &&& admitted.contains(identity) ==> after.contains(identity)
            &&& admitted.len() <= after.len()
            &&& found ==> after.contains(identity) || after.len() >= max_columns
            &&& after.contains(identity) ==> admitted.contains(identity) || found
        },
    decreases fields.len(),
{
    if fields.len() > schema::core_fields().len() {
        let front = fields.drop_last();
        let end = fields.len() - 1;
        lemma_fields_admitted(admitted, front, max_columns, identity);
        assert(forall|f: int| 0 <= f < front.len() ==> front[f] == #[trigger] fields[f]);
        if admit_fields(admitted, front, max_columns) is Err {
            let f = choose|f: int|
                schema::core_fields().len() <= f < front.len() && identity::identity_of(
                    #[trigger] front[f],
                ) is None;
            assert(identity::identity_of(fields[f]) is None);
        } else {
            let before = admit_fields(admitted, front, max_columns)->Ok_0;
            if identity::identity_of(fields[end]) is Some {
                let seen = identity::identity_of(fields[end])->0;
                let after = admitting(before, seen, max_columns);
                assert forall|f: int|
                    schema::core_fields().len() <= f < fields.len() implies identity::identity_of(
                    #[trigger] fields[f],
                ) is Some by {
                    if f < end {
                        assert(identity::identity_of(front[f]) is Some);
                    }
                }
                if before.contains(identity) {
                    let k = choose|k: int| 0 <= k < before.len() && before[k] == identity;
                    assert(after[k] == identity);
                }
                if after.contains(identity) && !before.contains(identity) {
                    let k = choose|k: int| 0 <= k < after.len() && after[k] == identity;
                    if k < before.len() {
                        assert(before[k] == identity);
                    }
                    assert(identity::identity_of(fields[end]) == Some(identity));
                }
                if seen == identity && !before.contains(identity) && before.len() < max_columns {
                    assert(after[before.len() as int] == identity);
                }
                if exists|f: int|
                    schema::core_fields().len() <= f < front.len() && identity::identity_of(
                        #[trigger] front[f],
                    ) == Some(identity) {
                    let f = choose|f: int|
                        schema::core_fields().len() <= f < front.len() && identity::identity_of(
                            #[trigger] front[f],
                        ) == Some(identity);
                    assert(identity::identity_of(fields[f]) == Some(identity));
                }
                if exists|f: int|
                    schema::core_fields().len() <= f < fields.len() && identity::identity_of(
                        #[trigger] fields[f],
                    ) == Some(identity) {
                    let f = choose|f: int|
                        schema::core_fields().len() <= f < fields.len() && identity::identity_of(
                            #[trigger] fields[f],
                        ) == Some(identity);
                    if f < end {
                        assert(identity::identity_of(front[f]) == Some(identity));
                    }
                }
            }
        }
    }
}

/// A frame is admitted exactly where each of its batches starts with the core columns and every other
/// column has an identity. Each attribute of it is then admitted unless the columns are as many as they
/// may be, and nothing else is.
pub proof fn attributes_are_admitted_up_to_the_cap(
    admitted: Seq<IdentityView>,
    added: Seq<PartitionView>,
    max_columns: nat,
    identity: IdentityView,
)
    ensures
        admit_batches(admitted, added, max_columns) is Ok <==> forall|i: int|
            0 <= i < added.len() ==> acceptable((#[trigger] added[i]).batch),
        admit_batches(admitted, added, max_columns) is Ok ==> {
            let after = admit_batches(admitted, added, max_columns)->Ok_0;
            &&& admitted.contains(identity) ==> after.contains(identity)
            &&& admitted.len() <= after.len()
            &&& some_batch_has(added, identity) ==> after.contains(identity) || after.len()
                >= max_columns
            &&& after.contains(identity) ==> admitted.contains(identity) || some_batch_has(
                added,
                identity,
            )
        },
    decreases added.len(),
{
    if added.len() > 0 {
        let front = added.drop_last();
        let end = added.len() - 1;
        attributes_are_admitted_up_to_the_cap(admitted, front, max_columns, identity);
        assert(forall|i: int| 0 <= i < front.len() ==> front[i] == #[trigger] added[i]);
        if admit_batches(admitted, front, max_columns) is Err {
            let i = choose|i: int|
                0 <= i < front.len() && !acceptable((#[trigger] front[i]).batch);
            assert(!acceptable(added[i].batch));
        } else {
            let before = admit_batches(admitted, front, max_columns)->Ok_0;
            let fields = added[end].batch.schema.fields;
            lemma_fields_admitted(before, fields, max_columns, identity);
            assert(admit_batches(admitted, added, max_columns) is Ok <==> acceptable(
                added[end].batch,
            ));
            assert forall|i: int| 0 <= i < front.len() implies acceptable(
                (#[trigger] added[i]).batch,
            ) by {
                assert(acceptable(front[i].batch));
            }
            if some_batch_has(front, identity) {
                let i = choose|i: int|
                    0 <= i < front.len() && has_identity((#[trigger] front[i]).batch, identity);
                assert(has_identity(added[i].batch, identity));
            }
            if some_batch_has(added, identity) {
                let i = choose|i: int|
                    0 <= i < added.len() && has_identity((#[trigger] added[i]).batch, identity);
                if i < end {
                    assert(has_identity(front[i].batch, identity));
                }
            }
            if has_identity(added[end].batch, identity) {
                assert(some_batch_has(added, identity));
            }
        }
    }
}

/// A projected frame has the batches of the frame, each under its hour and projected on the columns of
/// the generation.
pub proof fn frames_keep_their_batches(
    admitted: Seq<IdentityView>,
    added: Seq<PartitionView>,
    max_columns: nat,
    i: int,
)
    requires
        project_frame(admitted, added, max_columns) is Ok,
        0 <= i < added.len(),
    ensures
        ({
            let frame = project_frame(admitted, added, max_columns)->Ok_0;
            &&& frame.partitions.len() == added.len()
            &&& frame.partitions[i].hour == added[i].hour
            &&& align::projected(added[i].batch, frame.fields) == Ok::<BatchView, Seq<char>>(
                frame.partitions[i].batch,
            )
        }),
{
    let frame = project_frame(admitted, added, max_columns)->Ok_0;
    lemma_partition_at(added, frame.fields, i);
}

proof fn lemma_partition_at(added: Seq<PartitionView>, named: Seq<DynamicFieldView>, i: int)
    requires
        project_partitions(added, named) is Ok,
        0 <= i < added.len(),
    ensures
        ({
            let parts = project_partitions(added, named)->Ok_0;
            &&& parts.len() == added.len()
            &&& parts[i].hour == added[i].hour
            &&& align::projected(added[i].batch, named) == Ok::<BatchView, Seq<char>>(
                parts[i].batch,
            )
        }),
    decreases added.len(),
{
    let front = added.drop_last();
    if front.len() > 0 {
        lemma_partition_at(front, named, if i < front.len() { i } else { 0 });
    }
    assert(project_partitions(front, named)->Ok_0.len() == front.len());
}

/// A projected frame has as many rows as the frame.
pub proof fn frames_keep_their_rows(
    admitted: Seq<IdentityView>,
    added: Seq<PartitionView>,
    max_columns: nat,
)
    requires
        project_frame(admitted, added, max_columns) is Ok,
        forall|i: int| 0 <= i < added.len() ==> (#[trigger] added[i]).batch.wf(),
    ensures
        generation::frame_rows(project_frame(admitted, added, max_columns)->Ok_0.partitions)
            == generation::frame_rows(added),
{
    lemma_partition_rows(added, project_frame(admitted, added, max_columns)->Ok_0.fields);
}

proof fn lemma_partition_rows(added: Seq<PartitionView>, named: Seq<DynamicFieldView>)
    requires
        project_partitions(added, named) is Ok,
        forall|i: int| 0 <= i < added.len() ==> (#[trigger] added[i]).batch.wf(),
    ensures
        generation::frame_rows(project_partitions(added, named)->Ok_0) == generation::frame_rows(
            added,
        ),
    decreases added.len(),
{
    if added.len() > 0 {
        let front = added.drop_last();
        let last = added[added.len() - 1].batch;
        assert forall|i: int| 0 <= i < front.len() implies (#[trigger] front[i]).batch.wf() by {
            assert(front[i] == added[i]);
        }
        lemma_partition_rows(front, named);
        let before = project_partitions(front, named)->Ok_0;
        let whole = project_partitions(added, named)->Ok_0;
        assert(whole.drop_last() =~= before);
        align::projection_keeps_named_columns(last, named);
        let result = align::projected(last, named)->Ok_0;
        if align::projected_fields(last.schema.fields, named) != last.schema.fields {
            assert(align::comes_from(
                last.schema.fields,
                last.columns,
                named,
                result.schema.fields[0],
                result.columns[0],
            ));
        }
        assert(result.rows == last.rows);
    }
}

} // verus!
