//! Dynamic typed columns projected from OTLP attribute lists.
//!
//! Each admitted leaf becomes a nullable field. Nested key-value lists flatten until
//! [`DynamicLimits::max_depth`]; arrays and maps past that depth become one canonical JSON value.
//! Physical names are `{source}_{normalized_path}_{type}`. When different exact paths share a name,
//! every member of that admitted group gains a path digest suffix. Fields beyond
//! [`DynamicLimits::max_columns`] stay out of the projection. This module does not build batches
//! and does not replace the canonical JSON attribute columns.
use vstd::prelude::*;
use crate::batch;
use crate::batch::{Cell, CellView};
use crate::canonical_json;
use crate::canonical_json::canonical_any_value_json;
use crate::identity;
use crate::identity::{
    copy_path, AttributeSource, DynamicField, DynamicFieldView, DynamicIdentity, DynamicKind,
    IdentityView,
};
use crate::naming;
use crate::naming::{discover_dynamic_schema, DynamicError};
use crate::otlp::{AnyValue, KeyValue, Value};
use crate::schema::Field;
use crate::text::same_text;

verus! {

/// Typed value stored for one admitted leaf. A float is held by its IEEE 754 bits.
#[derive(Debug)]
pub enum DynamicValue {
    /// OTLP bool.
    Bool(bool),
    /// OTLP int64.
    Int64(i64),
    /// OTLP double.
    Float64(u64),
    /// OTLP string.
    String(String),
    /// OTLP bytes.
    Bytes(Vec<u8>),
    /// Canonical JSON text.
    Json(String),
}

pub enum DynamicValueView {
    Bool(bool),
    Int64(i64),
    Float64(u64),
    String(Seq<char>),
    Bytes(Seq<u8>),
    Json(Seq<char>),
}

impl DynamicValueView {
    pub open spec fn kind(self) -> DynamicKind {
        match self {
            DynamicValueView::Bool(_) => DynamicKind::Bool,
            DynamicValueView::Int64(_) => DynamicKind::Int64,
            DynamicValueView::Float64(_) => DynamicKind::Float64,
            DynamicValueView::String(_) => DynamicKind::String,
            DynamicValueView::Bytes(_) => DynamicKind::Bytes,
            DynamicValueView::Json(_) => DynamicKind::Json,
        }
    }

    /// The value as it stands in a column.
    pub open spec fn cell(self) -> CellView {
        match self {
            DynamicValueView::Bool(value) => CellView::Bool(value),
            DynamicValueView::Int64(value) => CellView::Int64(value),
            DynamicValueView::Float64(bits) => CellView::Float64(bits),
            DynamicValueView::String(value) => CellView::Text(value),
            DynamicValueView::Bytes(bytes) => CellView::Bytes(bytes),
            DynamicValueView::Json(value) => CellView::Text(value),
        }
    }
}

impl DeepView for DynamicValue {
    type V = DynamicValueView;

    open spec fn deep_view(&self) -> DynamicValueView {
        match self {
            DynamicValue::Bool(value) => DynamicValueView::Bool(*value),
            DynamicValue::Int64(value) => DynamicValueView::Int64(*value),
            DynamicValue::Float64(bits) => DynamicValueView::Float64(*bits),
            DynamicValue::String(value) => DynamicValueView::String(value@),
            DynamicValue::Bytes(bytes) => DynamicValueView::Bytes(bytes@),
            DynamicValue::Json(value) => DynamicValueView::Json(value@),
        }
    }
}

impl Clone for DynamicValue {
    fn clone(&self) -> (copy: Self)
        ensures
            copy.deep_view() == self.deep_view(),
    {
        match self {
            DynamicValue::Bool(value) => DynamicValue::Bool(*value),
            DynamicValue::Int64(value) => DynamicValue::Int64(*value),
            DynamicValue::Float64(bits) => DynamicValue::Float64(*bits),
            DynamicValue::String(value) => DynamicValue::String(value.clone()),
            DynamicValue::Bytes(bytes) => DynamicValue::Bytes(batch::copy_bytes(bytes)),
            DynamicValue::Json(value) => DynamicValue::Json(value.clone()),
        }
    }
}

impl DynamicValue {
    pub fn kind(&self) -> (kind: DynamicKind)
        ensures
            kind == self.deep_view().kind(),
    {
        match self {
            DynamicValue::Bool(_) => DynamicKind::Bool,
            DynamicValue::Int64(_) => DynamicKind::Int64,
            DynamicValue::Float64(_) => DynamicKind::Float64,
            DynamicValue::String(_) => DynamicKind::String,
            DynamicValue::Bytes(_) => DynamicKind::Bytes,
            DynamicValue::Json(_) => DynamicKind::Json,
        }
    }

    /// The value as it stands in a column.
    pub fn to_cell(&self) -> (cell: Cell)
        ensures
            cell.deep_view() == self.deep_view().cell(),
    {
        match self {
            DynamicValue::Bool(value) => Cell::Bool(*value),
            DynamicValue::Int64(value) => Cell::Int64(*value),
            DynamicValue::Float64(bits) => Cell::Float64(*bits),
            DynamicValue::String(value) => Cell::Text(value.clone()),
            DynamicValue::Bytes(bytes) => Cell::Bytes(batch::copy_bytes(bytes)),
            DynamicValue::Json(value) => Cell::Text(value.clone()),
        }
    }
}

/// One admitted dynamic column and the value found in this attribute set.
#[derive(Debug)]
pub struct DynamicColumn {
    /// Exact source, path, and type.
    pub identity: DynamicIdentity,
    /// Leaf value.
    pub value: DynamicValue,
    /// Normalized physical field name, including a digest suffix when names collide.
    pub physical_name: String,
}

#[verifier::ext_equal]
pub struct DynamicColumnView {
    pub identity: IdentityView,
    pub value: DynamicValueView,
    pub physical_name: Seq<char>,
}

impl DeepView for DynamicColumn {
    type V = DynamicColumnView;

    open spec fn deep_view(&self) -> DynamicColumnView {
        DynamicColumnView {
            identity: self.identity.deep_view(),
            value: self.value.deep_view(),
            physical_name: self.physical_name@,
        }
    }
}

impl DynamicColumn {
    /// Nullable field for this column.
    ///
    /// Metadata preserves the original source, path, and type.
    #[must_use]
    pub fn arrow_field(&self) -> (field: Field)
        ensures
            field.deep_view() == identity::dynamic_field(
                DynamicFieldView {
                    identity: self.identity.deep_view(),
                    physical_name: self.physical_name@,
                },
            ),
            identity::identity_of(field.deep_view()) == Some(self.identity.deep_view()),
    {
        let field = DynamicField {
            identity: self.identity.clone(),
            physical_name: self.physical_name.clone(),
        };
        field.arrow_field()
    }
}

/// How far nested maps flatten, and how many dynamic columns a projection may admit.
#[derive(Clone, Copy, Debug, PartialEq, Eq, Structural)]
pub struct DynamicLimits {
    /// Nested key-value lists entered before the remainder becomes one JSON leaf.
    ///
    /// Zero keeps every top-level map as JSON. One flattens a single map level.
    pub max_depth: usize,
    /// Maximum number of dynamic columns in the projection.
    pub max_columns: usize,
}

/// Admitted columns plus the identities that stayed in JSON because of the column cap.
#[derive(Debug)]
pub struct DynamicProjection {
    /// Columns ordered by physical name, then exact identity.
    pub columns: Vec<DynamicColumn>,
    /// Fields excluded by [`DynamicLimits::max_columns`], ordered by base name, then identity.
    pub overflow: Vec<DynamicIdentity>,
}

/// One leaf of an attribute list.
#[derive(Debug)]
pub struct Leaf {
    pub source: AttributeSource,
    pub path: Vec<String>,
    pub value: DynamicValue,
}

#[verifier::ext_equal]
pub struct LeafView {
    pub source: AttributeSource,
    pub path: Seq<Seq<char>>,
    pub value: DynamicValueView,
}

impl LeafView {
    pub open spec fn identity(self) -> IdentityView {
        IdentityView { source: self.source, path: self.path, kind: self.value.kind() }
    }

    /// Whether the leaf lies at `path` or below it.
    pub open spec fn is_under(self, source: AttributeSource, path: Seq<Seq<char>>) -> bool {
        self.source == source && path.len() <= self.path.len() && self.path.take(path.len() as int)
            == path
    }
}

impl DeepView for Leaf {
    type V = LeafView;

    open spec fn deep_view(&self) -> LeafView {
        LeafView {
            source: self.source,
            path: self.path.deep_view(),
            value: self.value.deep_view(),
        }
    }
}

impl Leaf {
    pub fn identity(&self) -> (identity: DynamicIdentity)
        ensures
            identity.deep_view() == self.deep_view().identity(),
    {
        DynamicIdentity {
            source: self.source,
            path: copy_path(&self.path),
            kind: self.value.kind(),
        }
    }

    fn is_under(&self, source: AttributeSource, path: &Vec<String>) -> (under: bool)
        ensures
            under == self.deep_view().is_under(source, path.deep_view()),
    {
        if self.source != source || path.len() > self.path.len() {
            return false;
        }
        let ghost mine = self.path.deep_view();
        let ghost theirs = path.deep_view();
        let mut i: usize = 0;
        while i < path.len()
            invariant
                i <= path.len() <= self.path.len(),
                mine == self.path.deep_view(),
                theirs == path.deep_view(),
                forall|k: int| 0 <= k < i ==> mine[k] == theirs[k],
            decreases path.len() - i,
        {
            if !same_text(&self.path[i], &path[i]) {
                assert(mine.take(theirs.len() as int)[i as int] != theirs[i as int]);
                return false;
            }
            i = i + 1;
        }
        assert(mine.take(theirs.len() as int) =~= theirs);
        true
    }
}

/// The leaves that do not lie at `path` or below it.
pub open spec fn without(
    leaves: Seq<LeafView>,
    source: AttributeSource,
    path: Seq<Seq<char>>,
) -> Seq<LeafView>
    decreases leaves.len(),
{
    if leaves.len() == 0 {
        Seq::empty()
    } else if leaves.last().is_under(source, path) {
        without(leaves.drop_last(), source, path)
    } else {
        without(leaves.drop_last(), source, path).push(leaves.last())
    }
}

/// The leaves after an attribute list was read into them, unless a JSON leaf is nested too deep.
///
/// A key replaces what an earlier equal key left, including everything below it.
pub open spec fn collected(
    leaves: Seq<LeafView>,
    source: AttributeSource,
    attributes: Seq<KeyValue>,
    path: Seq<Seq<char>>,
    depth: nat,
    max_depth: nat,
) -> Option<Seq<LeafView>>
    decreases attributes,
{
    if attributes.len() == 0 {
        Some(leaves)
    } else {
        match collected(leaves, source, attributes.drop_last(), path, depth, max_depth) {
            None => None,
            Some(before) => {
                let child = path.push(attributes.last().key@);
                let cleared = without(before, source, child);
                match attributes.last().value {
                    None => Some(cleared),
                    Some(value) => projected(cleared, source, child, value, depth, max_depth),
                }
            },
        }
    }
}

/// The leaves after one value was read into them, unless a JSON leaf is nested too deep.
pub open spec fn projected(
    leaves: Seq<LeafView>,
    source: AttributeSource,
    path: Seq<Seq<char>>,
    value: AnyValue,
    depth: nat,
    max_depth: nat,
) -> Option<Seq<LeafView>>
    decreases value,
{
    match value.value {
        None => Some(leaves),
        Some(Value::StringValueStrindex(_)) => Some(leaves),
        Some(Value::StringValue(text)) => Some(
            leaves.push(LeafView { source, path, value: DynamicValueView::String(text@) }),
        ),
        Some(Value::BoolValue(flag)) => Some(
            leaves.push(LeafView { source, path, value: DynamicValueView::Bool(flag) }),
        ),
        Some(Value::IntValue(integer)) => Some(
            leaves.push(LeafView { source, path, value: DynamicValueView::Int64(integer) }),
        ),
        Some(Value::DoubleValue(number)) => Some(
            leaves.push(LeafView { source, path, value: DynamicValueView::Float64(number.bits) }),
        ),
        Some(Value::BytesValue(bytes)) => Some(
            leaves.push(LeafView { source, path, value: DynamicValueView::Bytes(bytes@) }),
        ),
        Some(Value::ArrayValue(_)) => json_leaf(leaves, source, path, value),
        Some(Value::KvlistValue(list)) => if depth >= max_depth {
            json_leaf(leaves, source, path, value)
        } else {
            collected(leaves, source, list.values@, path, depth + 1, max_depth)
        },
    }
}

/// The leaves and the canonical JSON of one more value, unless it is nested too deep.
pub open spec fn json_leaf(
    leaves: Seq<LeafView>,
    source: AttributeSource,
    path: Seq<Seq<char>>,
    value: AnyValue,
) -> Option<Seq<LeafView>> {
    match canonical_json::value_text(value, 0) {
        None => None,
        Some(json) => Some(
            leaves.push(LeafView { source, path, value: DynamicValueView::Json(json) }),
        ),
    }
}

/// The outcome of reading attributes agrees with the leaves that they leave.
pub open spec fn collects(
    result: Result<(), DynamicError>,
    leaves: Seq<LeafView>,
    expected: Option<Seq<LeafView>>,
) -> bool {
    match result {
        Ok(_) => expected == Some(leaves),
        Err(error) => expected is None && error is CanonicalJson,
    }
}

fn clear_prefix(leaves: Vec<Leaf>, source: AttributeSource, path: &Vec<String>) -> (kept: Vec<Leaf>)
    ensures
        kept.deep_view() == without(leaves.deep_view(), source, path.deep_view()),
{
    let ghost all = leaves.deep_view();
    let mut rest = leaves;
    let mut kept_reversed: Vec<Leaf> = Vec::new();
    while rest.len() > 0
        invariant
            all.len() >= rest@.len(),
            rest.deep_view() == all.take(rest@.len() as int),
            without(all, source, path.deep_view()) =~= without(
                rest.deep_view(),
                source,
                path.deep_view(),
            ) + kept_reversed.deep_view().reverse(),
        decreases rest@.len(),
    {
        let ghost before = rest.deep_view();
        let ghost kept_before = kept_reversed.deep_view();
        let leaf = match rest.pop() {
            Some(leaf) => leaf,
            None => {
                return Vec::new();
            },
        };
        assert(rest.deep_view() =~= before.drop_last());
        assert(rest.deep_view() =~= all.take(rest@.len() as int));
        assert(leaf.deep_view() == before.last());
        if !leaf.is_under(source, path) {
            let ghost view = leaf.deep_view();
            kept_reversed.push(leaf);
            assert(kept_reversed.deep_view() =~= kept_before.push(view));
            assert(kept_reversed.deep_view().reverse() =~= seq![view] + kept_before.reverse());
        }
    }
    let mut kept: Vec<Leaf> = Vec::new();
    let ghost target = kept_reversed.deep_view().reverse();
    assert(rest.deep_view() =~= Seq::empty());
    assert(without(all, source, path.deep_view()) =~= target);
    assert(kept.deep_view() =~= Seq::empty());
    while kept_reversed.len() > 0
        invariant
            kept.deep_view() + kept_reversed.deep_view().reverse() =~= target,
        decreases kept_reversed@.len(),
    {
        let ghost before = kept_reversed.deep_view();
        let ghost kept_before = kept.deep_view();
        if let Some(leaf) = kept_reversed.pop() {
            assert(kept_reversed.deep_view() =~= before.drop_last());
            let ghost view = leaf.deep_view();
            assert(view == before.last());
            assert(before.reverse() =~= seq![view] + before.drop_last().reverse());
            kept.push(leaf);
            assert(kept.deep_view() =~= kept_before.push(view));
        }
    }
    assert(kept_reversed.deep_view().reverse() =~= Seq::empty());
    kept
}

proof fn lemma_collect_fails(
    leaves: Seq<LeafView>,
    source: AttributeSource,
    attributes: Seq<KeyValue>,
    path: Seq<Seq<char>>,
    depth: nat,
    max_depth: nat,
    count: int,
)
    requires
        0 <= count <= attributes.len(),
        collected(leaves, source, attributes.take(count), path, depth, max_depth) is None,
    ensures
        collected(leaves, source, attributes, path, depth, max_depth) is None,
    decreases attributes.len() - count,
{
    if count < attributes.len() {
        assert(attributes.take(count + 1).drop_last() =~= attributes.take(count));
        lemma_collect_fails(leaves, source, attributes, path, depth, max_depth, count + 1);
    } else {
        assert(attributes.take(count) =~= attributes);
    }
}

/// Reads an attribute list into `leaves`.
fn collect_attributes(
    leaves: &mut Vec<Leaf>,
    source: AttributeSource,
    attributes: &[KeyValue],
    path: &Vec<String>,
    depth: usize,
    max_depth: usize,
) -> (result: Result<(), DynamicError>)
    ensures
        collects(
            result,
            final(leaves).deep_view(),
            collected(
                old(leaves).deep_view(),
                source,
                attributes@,
                path.deep_view(),
                depth as nat,
                max_depth as nat,
            ),
        ),
    decreases attributes@,
{
    let ghost start = leaves.deep_view();
    let mut i: usize = 0;
    assert(attributes@.take(0) =~= Seq::empty());
    while i < attributes.len()
        invariant
            i <= attributes.len(),
            start == old(leaves).deep_view(),
            collected(
                start,
                source,
                attributes@.take(i as int),
                path.deep_view(),
                depth as nat,
                max_depth as nat,
            ) == Some(leaves.deep_view()),
        decreases attributes.len() - i,
    {
        let attribute = &attributes[i];
        assert(attributes@.take(i + 1).drop_last() =~= attributes@.take(i as int));
        proof {
            assert(decreases_to!(attributes@ => attributes@[i as int]));
        }
        let mut child = copy_path(path);
        let ghost child_before = child.deep_view();
        child.push(attribute.key.clone());
        assert(child.deep_view() =~= child_before.push(attribute.key@));
        let mut taken: Vec<Leaf> = Vec::new();
        std::mem::swap(&mut taken, leaves);
        *leaves = clear_prefix(taken, source, &child);
        if let Some(value) = &attribute.value {
            match project_value(leaves, source, &child, value, depth, max_depth) {
                Ok(()) => {},
                Err(error) => {
                    proof {
                        lemma_collect_fails(
                            start,
                            source,
                            attributes@,
                            path.deep_view(),
                            depth as nat,
                            max_depth as nat,
                            i + 1,
                        );
                    }
                    return Err(error);
                },
            }
        }
        i = i + 1;
    }
    assert(attributes@.take(i as int) =~= attributes@);
    Ok(())
}

/// Reads one value into `leaves`.
fn project_value(
    leaves: &mut Vec<Leaf>,
    source: AttributeSource,
    path: &Vec<String>,
    value: &AnyValue,
    depth: usize,
    max_depth: usize,
) -> (result: Result<(), DynamicError>)
    ensures
        collects(
            result,
            final(leaves).deep_view(),
            projected(
                old(leaves).deep_view(),
                source,
                path.deep_view(),
                *value,
                depth as nat,
                max_depth as nat,
            ),
        ),
    decreases *value,
{
    let kind = match &value.value {
        None => {
            return Ok(());
        },
        Some(kind) => kind,
    };
    match kind {
        Value::StringValueStrindex(_) => Ok(()),
        Value::StringValue(text) => {
            push(leaves, source, path, DynamicValue::String(text.clone()));
            Ok(())
        },
        Value::BoolValue(flag) => {
            push(leaves, source, path, DynamicValue::Bool(*flag));
            Ok(())
        },
        Value::IntValue(integer) => {
            push(leaves, source, path, DynamicValue::Int64(*integer));
            Ok(())
        },
        Value::DoubleValue(number) => {
            push(leaves, source, path, DynamicValue::Float64(number.bits));
            Ok(())
        },
        Value::BytesValue(bytes) => {
            push(leaves, source, path, DynamicValue::Bytes(batch::copy_bytes(bytes)));
            Ok(())
        },
        Value::ArrayValue(_) => push_json(leaves, source, path, value),
        Value::KvlistValue(list) => {
            if depth >= max_depth {
                push_json(leaves, source, path, value)
            } else {
                collect_attributes(
                    leaves,
                    source,
                    list.values.as_slice(),
                    path,
                    depth + 1,
                    max_depth,
                )
            }
        },
    }
}

fn push_json(
    leaves: &mut Vec<Leaf>,
    source: AttributeSource,
    path: &Vec<String>,
    value: &AnyValue,
) -> (result: Result<(), DynamicError>)
    ensures
        collects(
            result,
            final(leaves).deep_view(),
            json_leaf(old(leaves).deep_view(), source, path.deep_view(), *value),
        ),
{
    match canonical_any_value_json(value) {
        Ok(json) => {
            push(leaves, source, path, DynamicValue::Json(json));
            Ok(())
        },
        Err(error) => Err(DynamicError::CanonicalJson(error)),
    }
}

fn push(leaves: &mut Vec<Leaf>, source: AttributeSource, path: &Vec<String>, value: DynamicValue)
    ensures
        final(leaves).deep_view() == old(leaves).deep_view().push(
            LeafView { source, path: path.deep_view(), value: value.deep_view() },
        ),
{
    let ghost before = leaves.deep_view();
    let leaf = Leaf { source, path: copy_path(path), value };
    let ghost view = leaf.deep_view();
    leaves.push(leaf);
    assert(leaves.deep_view() =~= before.push(view));
}

/// The attribute lists that are read, one after the other.
pub open spec fn group_leaves(groups: Seq<(AttributeSource, &[KeyValue])>, max_depth: nat) -> Option<
    Seq<LeafView>,
>
    decreases groups.len(),
{
    if groups.len() == 0 {
        Some(Seq::empty())
    } else {
        match group_leaves(groups.drop_last(), max_depth) {
            None => None,
            Some(leaves) => collected(
                leaves,
                groups.last().0,
                groups.last().1@,
                Seq::empty(),
                0,
                max_depth,
            ),
        }
    }
}

proof fn lemma_groups_fail(
    groups: Seq<(AttributeSource, &[KeyValue])>,
    max_depth: nat,
    count: int,
)
    requires
        0 <= count <= groups.len(),
        group_leaves(groups.take(count), max_depth) is None,
    ensures
        group_leaves(groups, max_depth) is None,
    decreases groups.len() - count,
{
    if count < groups.len() {
        assert(groups.take(count + 1).drop_last() =~= groups.take(count));
        lemma_groups_fail(groups, max_depth, count + 1);
    } else {
        assert(groups.take(count) =~= groups);
    }
}

/// The leaves of attribute lists that are read one after the other.
///
/// # Errors
///
/// Returns [`DynamicError::CanonicalJson`] when a JSON leaf exceeds the canonical encoder depth.
pub fn collect_leaves(groups: &[(AttributeSource, &[KeyValue])], max_depth: usize) -> (leaves:
    Result<Vec<Leaf>, DynamicError>)
    ensures
        match leaves {
            Ok(leaves) => group_leaves(groups@, max_depth as nat) == Some(leaves.deep_view()),
            Err(error) => group_leaves(groups@, max_depth as nat) is None && error is CanonicalJson,
        },
{
    let mut leaves: Vec<Leaf> = Vec::new();
    let root: Vec<String> = Vec::new();
    assert(root.deep_view() =~= Seq::empty());
    assert(leaves.deep_view() =~= Seq::empty());
    let mut i: usize = 0;
    assert(groups@.take(0) =~= Seq::empty());
    while i < groups.len()
        invariant
            i <= groups.len(),
            root.deep_view() == Seq::<Seq<char>>::empty(),
            group_leaves(groups@.take(i as int), max_depth as nat) == Some(leaves.deep_view()),
        decreases groups.len() - i,
    {
        assert(groups@.take(i + 1).drop_last() =~= groups@.take(i as int));
        match collect_attributes(&mut leaves, groups[i].0, groups[i].1, &root, 0, max_depth) {
            Ok(()) => {},
            Err(error) => {
                proof {
                    lemma_groups_fail(groups@, max_depth as nat, i + 1);
                }
                return Err(error);
            },
        }
        i = i + 1;
    }
    assert(groups@.take(i as int) =~= groups@);
    Ok(leaves)
}

/// The leaves of one record: resource attributes first, then scope, then log attributes.
pub open spec fn record_leaves(
    resource: Seq<KeyValue>,
    scope: Seq<KeyValue>,
    log: Seq<KeyValue>,
    max_depth: nat,
) -> Option<Seq<LeafView>> {
    match collected(
        Seq::empty(),
        AttributeSource::Resource,
        resource,
        Seq::empty(),
        0,
        max_depth,
    ) {
        None => None,
        Some(leaves) => match collected(
            leaves,
            AttributeSource::Scope,
            scope,
            Seq::empty(),
            0,
            max_depth,
        ) {
            None => None,
            Some(leaves) => collected(
                leaves,
                AttributeSource::Log,
                log,
                Seq::empty(),
                0,
                max_depth,
            ),
        },
    }
}

/// The leaves of one record.
///
/// # Errors
///
/// Returns [`DynamicError::CanonicalJson`] when a JSON leaf exceeds the canonical encoder depth.
pub fn record_dynamic_values(
    resource: &[KeyValue],
    scope: &[KeyValue],
    log: &[KeyValue],
    max_depth: usize,
) -> (leaves: Result<Vec<Leaf>, DynamicError>)
    ensures
        match leaves {
            Ok(leaves) => record_leaves(resource@, scope@, log@, max_depth as nat) == Some(
                leaves.deep_view(),
            ),
            Err(error) => record_leaves(resource@, scope@, log@, max_depth as nat) is None
                && error is CanonicalJson,
        },
{
    let root: Vec<String> = Vec::new();
    let mut leaves: Vec<Leaf> = Vec::new();
    assert(root.deep_view() =~= Seq::empty());
    assert(leaves.deep_view() =~= Seq::empty());
    collect_attributes(&mut leaves, AttributeSource::Resource, resource, &root, 0, max_depth)?;
    collect_attributes(&mut leaves, AttributeSource::Scope, scope, &root, 0, max_depth)?;
    collect_attributes(&mut leaves, AttributeSource::Log, log, &root, 0, max_depth)?;
    Ok(leaves)
}

/// The identities of leaves.
pub open spec fn leaf_identities(leaves: Seq<LeafView>) -> Seq<IdentityView> {
    leaves.map_values(|leaf: LeafView| leaf.identity())
}

/// The value of the first leaf with that identity.
pub open spec fn leaf_value(leaves: Seq<LeafView>, identity: IdentityView) -> Option<
    DynamicValueView,
>
    decreases leaves.len(),
{
    if leaves.len() == 0 {
        None
    } else if leaves[0].identity() == identity {
        Some(leaves[0].value)
    } else {
        leaf_value(leaves.drop_first(), identity)
    }
}

pub proof fn lemma_leaf_value(leaves: Seq<LeafView>, identity: IdentityView, at: int)
    requires
        0 <= at <= leaves.len(),
        forall|i: int| 0 <= i < at ==> (#[trigger] leaves[i]).identity() != identity,
        at < leaves.len() ==> leaves[at].identity() == identity,
    ensures
        leaf_value(leaves, identity) == if at < leaves.len() {
            Some(leaves[at].value)
        } else {
            None
        },
    decreases leaves.len(),
{
    if leaves.len() > 0 && at > 0 {
        assert(leaves[0].identity() != identity);
        lemma_leaf_value(leaves.drop_first(), identity, at - 1);
    }
}

/// The value of the first leaf with that identity.
pub fn find_leaf<'a>(leaves: &'a Vec<Leaf>, identity: &DynamicIdentity) -> (leaf: Option<&'a Leaf>)
    ensures
        leaf is Some == leaf_value(leaves.deep_view(), identity.deep_view()) is Some,
        leaf is Some ==> leaf->0.deep_view().value == leaf_value(
            leaves.deep_view(),
            identity.deep_view(),
        )->0 && leaf->0.deep_view().identity() == identity.deep_view(),
{
    let ghost all = leaves.deep_view();
    let mut i: usize = 0;
    while i < leaves.len()
        invariant
            i <= leaves.len(),
            all == leaves.deep_view(),
            forall|k: int| 0 <= k < i ==> (#[trigger] all[k]).identity() != identity.deep_view(),
        decreases leaves.len() - i,
    {
        assert(all[i as int] == leaves@[i as int].deep_view());
        if leaves[i].identity().same(identity) {
            proof {
                lemma_leaf_value(all, identity.deep_view(), i as int);
            }
            return Some(&leaves[i]);
        }
        i = i + 1;
    }
    proof {
        lemma_leaf_value(all, identity.deep_view(), i as int);
    }
    None
}

/// The columns that leaves fill.
pub open spec fn filled_columns(fields: Seq<DynamicFieldView>, leaves: Seq<LeafView>) -> Seq<
    DynamicColumnView,
> {
    fields.map_values(
        |field: DynamicFieldView|
            DynamicColumnView {
                identity: field.identity,
                value: leaf_value(leaves, field.identity)->0,
                physical_name: field.physical_name,
            },
    )
}

/// Copies the identities of leaves.
pub fn identities_of(leaves: &Vec<Leaf>) -> (identities: Vec<DynamicIdentity>)
    ensures
        identities.deep_view() == leaf_identities(leaves.deep_view()),
{
    let ghost all = leaves.deep_view();
    let mut identities: Vec<DynamicIdentity> = Vec::new();
    let mut i: usize = 0;
    while i < leaves.len()
        invariant
            i <= leaves.len(),
            all == leaves.deep_view(),
            identities.deep_view() =~= leaf_identities(all).take(i as int),
        decreases leaves.len() - i,
    {
        let ghost before = identities.deep_view();
        identities.push(leaves[i].identity());
        assert(identities.deep_view() =~= before.push(all[i as int].identity()));
        i = i + 1;
    }
    assert(leaf_identities(all).take(i as int) =~= leaf_identities(all));
    identities
}

/// Project attribute lists into bounded typed leaves.
///
/// Duplicate keys keep the last value, including nested keys. Empty values and profiling string
/// indexes produce no column. Collision suffixes are assigned only among admitted columns.
///
/// # Errors
///
/// Returns [`DynamicError::CanonicalJson`] when a JSON leaf exceeds the canonical encoder depth,
/// or [`DynamicError::DigestCollision`] when a full digest does not separate a collision group.
pub fn project_dynamic_fields(
    groups: &[(AttributeSource, &[KeyValue])],
    limits: DynamicLimits,
) -> (projection: Result<DynamicProjection, DynamicError>)
    ensures
        match (projection, group_leaves(groups@, limits.max_depth as nat)) {
            (Ok(projection), Some(leaves)) => {
                let fields = naming::discovered(
                    leaf_identities(leaves),
                    limits.max_columns as nat,
                );
                &&& fields is Some
                &&& projection.columns.deep_view() == filled_columns(fields->0, leaves)
                &&& projection.overflow.deep_view() == naming::overflow_identities(
                    leaf_identities(leaves),
                    limits.max_columns as nat,
                )
                &&& naming::names_distinct(fields->0)
                &&& naming::identities_distinct(fields->0)
                &&& projection.columns.deep_view().len() <= limits.max_columns
            },
            (Err(DynamicError::CanonicalJson(_)), None) => true,
            (Err(DynamicError::DigestCollision), Some(leaves)) => naming::discovered(
                leaf_identities(leaves),
                limits.max_columns as nat,
            ) is None,
            _ => false,
        },
{
    let leaves = collect_leaves(groups, limits.max_depth)?;
    let identities = identities_of(&leaves);
    let schema = discover_dynamic_schema(&identities, limits.max_columns)?;
    let ghost all = leaves.deep_view();
    let ghost fields = schema.fields.deep_view();
    proof {
        naming::columns_stand_for_identities(
            leaf_identities(all),
            limits.max_columns as nat,
            fields,
        );
    }
    let mut columns: Vec<DynamicColumn> = Vec::new();
    let mut i: usize = 0;
    while i < schema.fields.len()
        invariant
            i <= schema.fields.len(),
            all == leaves.deep_view(),
            fields == schema.fields.deep_view(),
            forall|k: int|
                0 <= k < fields.len() ==> leaf_identities(all).contains(
                    (#[trigger] fields[k]).identity,
                ),
            columns.deep_view() =~= filled_columns(fields, all).take(i as int),
        decreases schema.fields.len() - i,
    {
        let field = &schema.fields[i];
        assert(fields[i as int] == field.deep_view());
        match find_leaf(&leaves, &field.identity) {
            Some(leaf) => {
                let ghost before = columns.deep_view();
                let column = DynamicColumn {
                    identity: field.identity.clone(),
                    value: leaf.value.clone(),
                    physical_name: field.physical_name.clone(),
                };
                let ghost view = column.deep_view();
                columns.push(column);
                assert(columns.deep_view() =~= before.push(view));
                assert(view == filled_columns(fields, all)[i as int]);
            },
            None => {
                proof {
                    let id = fields[i as int].identity;
                    let k = choose|k: int|
                        0 <= k < leaf_identities(all).len() && leaf_identities(all)[k] == id;
                    lemma_leaf_found(all, id, k);
                    assert(false);
                }
            },
        }
        i = i + 1;
    }
    assert(filled_columns(fields, all).take(i as int) =~= filled_columns(fields, all));
    Ok(DynamicProjection { columns, overflow: schema.overflow })
}

pub proof fn lemma_leaf_found(leaves: Seq<LeafView>, identity: IdentityView, at: int)
    requires
        0 <= at < leaves.len(),
        leaves[at].identity() == identity,
    ensures
        leaf_value(leaves, identity) is Some,
    decreases leaves.len(),
{
    if leaves[0].identity() != identity {
        lemma_leaf_found(leaves.drop_first(), identity, at - 1);
    }
}

/// Core field names first, then dynamic columns in their projection order.
#[must_use]
pub fn ordered_field_names<'a>(core: &'a [&'a str], columns: &'a Vec<DynamicColumn>) -> (names: Vec<
    &'a str,
>)
    ensures
        names@.len() == core@.len() + columns@.len(),
        forall|i: int| 0 <= i < core@.len() ==> (#[trigger] names@[i])@ == core@[i]@,
        forall|i: int|
            core@.len() <= i < names@.len() ==> (#[trigger] names@[i])@ == columns@[i
                - core@.len()].physical_name@,
{
    let mut names: Vec<&'a str> = Vec::new();
    let mut i: usize = 0;
    while i < core.len()
        invariant
            i <= core.len(),
            names@.len() == i,
            forall|k: int| 0 <= k < i ==> (#[trigger] names@[k])@ == core@[k]@,
        decreases core.len() - i,
    {
        names.push(core[i]);
        i = i + 1;
    }
    let mut k: usize = 0;
    while k < columns.len()
        invariant
            k <= columns.len(),
            names@.len() == core@.len() + k,
            forall|m: int| 0 <= m < core@.len() ==> (#[trigger] names@[m])@ == core@[m]@,
            forall|m: int|
                core@.len() <= m < names@.len() ==> (#[trigger] names@[m])@ == columns@[m
                    - core@.len()].physical_name@,
        decreases columns.len() - k,
    {
        names.push(columns[k].physical_name.as_str());
        k = k + 1;
    }
    names
}

// Leaves never overlap.

/// Whether one path continues another, or equals it.
pub open spec fn continues(path: Seq<Seq<char>>, start: Seq<Seq<char>>) -> bool {
    start.len() <= path.len() && path.take(start.len() as int) == start
}

/// Whether no leaf lies at the path of another leaf of its source, or below it.
pub open spec fn never_overlap(leaves: Seq<LeafView>) -> bool {
    forall|i: int, j: int|
        0 <= i < leaves.len() && 0 <= j < leaves.len() && i != j && (#[trigger] leaves[i]).source
            == (#[trigger] leaves[j]).source ==> !continues(leaves[i].path, leaves[j].path)
}

/// Whether no leaf of a source lies at `path` or above it.
pub open spec fn clear_above(
    leaves: Seq<LeafView>,
    source: AttributeSource,
    path: Seq<Seq<char>>,
) -> bool {
    forall|i: int|
        0 <= i < leaves.len() && (#[trigger] leaves[i]).source == source ==> !continues(
            path,
            leaves[i].path,
        )
}

/// Whether every leaf that was not there before lies below `path`.
pub open spec fn all_below(
    leaves: Seq<LeafView>,
    before: Seq<LeafView>,
    source: AttributeSource,
    path: Seq<Seq<char>>,
) -> bool {
    forall|i: int|
        0 <= i < leaves.len() ==> before.contains(#[trigger] leaves[i]) || (leaves[i].source
            == source && leaves[i].path.len() > path.len() && continues(leaves[i].path, path))
}

proof fn lemma_without(leaves: Seq<LeafView>, source: AttributeSource, path: Seq<Seq<char>>)
    ensures
        forall|i: int|
            0 <= i < without(leaves, source, path).len() ==> leaves.contains(
                #[trigger] without(leaves, source, path)[i],
            ) && !without(leaves, source, path)[i].is_under(source, path),
        never_overlap(leaves) ==> never_overlap(without(leaves, source, path)),
    decreases leaves.len(),
{
    if leaves.len() > 0 {
        let front = leaves.drop_last();
        let last = leaves.last();
        let kept = without(leaves, source, path);
        let before = without(front, source, path);
        lemma_without(front, source, path);
        assert forall|i: int| 0 <= i < kept.len() implies leaves.contains(#[trigger] kept[i])
            && !kept[i].is_under(source, path) by {
            if i < before.len() {
                assert(before[i] == kept[i]);
                let k = choose|k: int| 0 <= k < front.len() && front[k] == before[i];
                assert(leaves[k] == kept[i]);
            } else {
                assert(leaves[leaves.len() - 1] == kept[i]);
            }
        }
        if never_overlap(leaves) {
            assert(never_overlap(front)) by {
                assert forall|i: int, j: int|
                    0 <= i < front.len() && 0 <= j < front.len() && i != j && (
                    #[trigger] front[i]).source == (#[trigger] front[j]).source implies !continues(
                    front[i].path,
                    front[j].path,
                ) by {
                    assert(leaves[i] == front[i] && leaves[j] == front[j]);
                }
            }
            assert forall|i: int, j: int|
                0 <= i < kept.len() && 0 <= j < kept.len() && i != j && (#[trigger] kept[i]).source
                    == (#[trigger] kept[j]).source implies !continues(
                kept[i].path,
                kept[j].path,
            ) by {
                let end = leaves.len() - 1;
                if i < before.len() && j < before.len() {
                    assert(before[i] == kept[i] && before[j] == kept[j]);
                } else if i < before.len() {
                    let k = choose|k: int| 0 <= k < front.len() && front[k] == before[i];
                    assert(before[i] == kept[i]);
                    assert(leaves[k] == kept[i] && leaves[end] == kept[j]);
                } else {
                    let k = choose|k: int| 0 <= k < front.len() && front[k] == before[j];
                    assert(before[j] == kept[j]);
                    assert(leaves[k] == kept[j] && leaves[end] == kept[i]);
                }
            }
        }
    }
}

/// One more leaf where nothing lies at its path, above it or below it.
proof fn lemma_push_leaf(leaves: Seq<LeafView>, leaf: LeafView, path: Seq<Seq<char>>)
    requires
        never_overlap(leaves),
        clear_above(leaves, leaf.source, leaf.path),
        forall|i: int|
            0 <= i < leaves.len() ==> !(#[trigger] leaves[i]).is_under(leaf.source, leaf.path),
        leaf.path.len() > path.len(),
        continues(leaf.path, path),
    ensures
        never_overlap(leaves.push(leaf)),
        all_below(leaves.push(leaf), leaves, leaf.source, path),
{
    let all = leaves.push(leaf);
    assert forall|i: int, j: int|
        0 <= i < all.len() && 0 <= j < all.len() && i != j && (#[trigger] all[i]).source == (
        #[trigger] all[j]).source implies !continues(all[i].path, all[j].path) by {
        if i < leaves.len() && j < leaves.len() {
            assert(leaves[i] == all[i] && leaves[j] == all[j]);
        } else if i < leaves.len() {
            assert(!leaves[i].is_under(leaf.source, leaf.path));
        } else {
            assert(leaves[j].source == leaf.source);
        }
    }
    assert forall|i: int| 0 <= i < all.len() implies leaves.contains(#[trigger] all[i]) || (
    all[i].source == leaf.source && all[i].path.len() > path.len() && continues(
        all[i].path,
        path,
    )) by {
        if i < leaves.len() {
            assert(leaves[i] == all[i]);
        }
    }
}

/// What lies above a path and at it does not change when leaves below it are added.
proof fn lemma_clear_above_kept(
    leaves: Seq<LeafView>,
    before: Seq<LeafView>,
    source: AttributeSource,
    path: Seq<Seq<char>>,
)
    requires
        clear_above(before, source, path),
        all_below(leaves, before, source, path),
    ensures
        clear_above(leaves, source, path),
{
    assert forall|i: int| 0 <= i < leaves.len() && (#[trigger] leaves[i]).source == source implies
        !continues(path, leaves[i].path) by {
        if before.contains(leaves[i]) {
            let k = choose|k: int| 0 <= k < before.len() && before[k] == leaves[i];
            assert(before[k].source == source);
        }
    }
}

proof fn lemma_collected(
    leaves: Seq<LeafView>,
    source: AttributeSource,
    attributes: Seq<KeyValue>,
    path: Seq<Seq<char>>,
    depth: nat,
    max_depth: nat,
)
    requires
        never_overlap(leaves),
        clear_above(leaves, source, path),
        collected(leaves, source, attributes, path, depth, max_depth) is Some,
    ensures
        never_overlap(collected(leaves, source, attributes, path, depth, max_depth)->0),
        all_below(
            collected(leaves, source, attributes, path, depth, max_depth)->0,
            leaves,
            source,
            path,
        ),
    decreases attributes,
{
    if attributes.len() == 0 {
        assert(forall|i: int| 0 <= i < leaves.len() ==> leaves.contains(#[trigger] leaves[i]));
    } else {
        let front = attributes.drop_last();
        let last = attributes.last();
        let before = collected(leaves, source, front, path, depth, max_depth)->0;
        let child = path.push(last.key@);
        let cleared = without(before, source, child);
        let after = collected(leaves, source, attributes, path, depth, max_depth)->0;
        assert(decreases_to!(attributes => front));
        lemma_collected(leaves, source, front, path, depth, max_depth);
        lemma_clear_above_kept(before, leaves, source, path);
        lemma_without(before, source, child);
        assert(child.take(path.len() as int) =~= path);
        assert(all_below(cleared, leaves, source, path)) by {
            assert forall|i: int| 0 <= i < cleared.len() implies leaves.contains(
                #[trigger] cleared[i],
            ) || (cleared[i].source == source && cleared[i].path.len() > path.len() && continues(
                cleared[i].path,
                path,
            )) by {
                let k = choose|k: int| 0 <= k < before.len() && before[k] == cleared[i];
                assert(before[k] == cleared[i]);
            }
        }
        assert(clear_above(cleared, source, child)) by {
            assert forall|i: int|
                0 <= i < cleared.len() && (#[trigger] cleared[i]).source == source implies
                !continues(child, cleared[i].path) by {
                let here = cleared[i].path;
                let k = choose|k: int| 0 <= k < before.len() && before[k] == cleared[i];
                assert(before[k].source == source);
                if continues(child, here) {
                    if here.len() <= path.len() {
                        assert(path.take(here.len() as int) =~= child.take(here.len() as int));
                    } else {
                        assert(here.take(child.len() as int) =~= here);
                        assert(child.take(here.len() as int) =~= child);
                        assert(cleared[i].is_under(source, child));
                    }
                }
            }
        }
        match last.value {
            None => {},
            Some(value) => {
                assert(decreases_to!(attributes => attributes[attributes.len() - 1]));
                lemma_projected(cleared, source, path, child, value, depth, max_depth);
                assert forall|i: int| 0 <= i < after.len() implies leaves.contains(
                    #[trigger] after[i],
                ) || (after[i].source == source && after[i].path.len() > path.len() && continues(
                    after[i].path,
                    path,
                )) by {
                    if cleared.contains(after[i]) {
                        let k = choose|k: int| 0 <= k < cleared.len() && cleared[k] == after[i];
                        assert(cleared[k] == after[i]);
                    }
                }
            },
        }
    }
}

proof fn lemma_projected(
    leaves: Seq<LeafView>,
    source: AttributeSource,
    parent: Seq<Seq<char>>,
    path: Seq<Seq<char>>,
    value: AnyValue,
    depth: nat,
    max_depth: nat,
)
    requires
        never_overlap(leaves),
        clear_above(leaves, source, path),
        forall|i: int| 0 <= i < leaves.len() ==> !(#[trigger] leaves[i]).is_under(source, path),
        path.len() > parent.len(),
        continues(path, parent),
        projected(leaves, source, path, value, depth, max_depth) is Some,
    ensures
        never_overlap(projected(leaves, source, path, value, depth, max_depth)->0),
        all_below(
            projected(leaves, source, path, value, depth, max_depth)->0,
            leaves,
            source,
            parent,
        ),
    decreases value,
{
    let after = projected(leaves, source, path, value, depth, max_depth)->0;
    if after == leaves {
        assert(forall|i: int| 0 <= i < leaves.len() ==> leaves.contains(#[trigger] leaves[i]));
    } else {
        match value.value {
            Some(Value::KvlistValue(list)) if depth < max_depth => {
                lemma_collected(leaves, source, list.values@, path, depth + 1, max_depth);
                assert forall|i: int| 0 <= i < after.len() implies leaves.contains(
                    #[trigger] after[i],
                ) || (after[i].source == source && after[i].path.len() > parent.len() && continues(
                    after[i].path,
                    parent,
                )) by {
                    if !leaves.contains(after[i]) {
                        assert(after[i].path.take(parent.len() as int) =~= after[i].path.take(
                            path.len() as int,
                        ).take(parent.len() as int));
                    }
                }
            },
            _ => {
                let leaf = after.last();
                assert(after == leaves.push(leaf));
                lemma_push_leaf(leaves, leaf, parent);
            },
        }
    }
}

/// The leaves of a record never overlap: a path of one source holds one value, and where an earlier
/// equal key left a value or a map, nothing of it remains.
pub proof fn leaves_never_overlap(
    resource: Seq<KeyValue>,
    scope: Seq<KeyValue>,
    log: Seq<KeyValue>,
    max_depth: nat,
)
    requires
        record_leaves(resource, scope, log, max_depth) is Some,
    ensures
        never_overlap(record_leaves(resource, scope, log, max_depth)->0),
{
    let none = Seq::<LeafView>::empty();
    let root = Seq::<Seq<char>>::empty();
    let first = collected(none, AttributeSource::Resource, resource, root, 0, max_depth)->0;
    lemma_collected(none, AttributeSource::Resource, resource, root, 0, max_depth);
    let second = collected(first, AttributeSource::Scope, scope, root, 0, max_depth)->0;
    lemma_collected(first, AttributeSource::Scope, scope, root, 0, max_depth);
    assert(clear_above(second, AttributeSource::Log, root)) by {
        assert forall|i: int|
            0 <= i < second.len() && (#[trigger] second[i]).source
                == AttributeSource::Log implies !continues(root, second[i].path) by {
            if first.contains(second[i]) {
                let k = choose|k: int| 0 <= k < first.len() && first[k] == second[i];
                assert(first[k] == second[i]);
            }
        }
    }
    lemma_collected(second, AttributeSource::Log, log, root, 0, max_depth);
}

// Which leaves a record has.

/// Whether no later attribute has the key of this one.
pub open spec fn is_last_of_key(attributes: Seq<KeyValue>, at: int) -> bool {
    &&& 0 <= at < attributes.len()
    &&& forall|later: int|
        at < later < attributes.len() ==> (#[trigger] attributes[later]).key@ != attributes[at].key@
}

/// Whether a path of keys, each the last of its name, leads through nested maps to this typed value.
/// Maps are entered while fewer than `max_depth` lie above them.
pub open spec fn leads_to(
    attributes: Seq<KeyValue>,
    path: Seq<Seq<char>>,
    depth: nat,
    max_depth: nat,
    found: DynamicValueView,
) -> bool
    decreases path.len(), 1int,
{
    path.len() > 0 && exists|at: int|
        #[trigger] is_last_of_key(attributes, at) && attributes[at].key@ == path[0]
            && attributes[at].value is Some && holds_leaf(
            attributes[at].value->0,
            path.drop_first(),
            depth,
            max_depth,
            found,
        )
}

/// Whether a value holds this typed value at the rest of a path: a scalar as itself, and an array, or
/// a map that is not entered, as its canonical JSON.
pub open spec fn holds_leaf(
    value: AnyValue,
    rest: Seq<Seq<char>>,
    depth: nat,
    max_depth: nat,
    found: DynamicValueView,
) -> bool
    decreases rest.len(), 2int,
{
    match value.value {
        None => false,
        Some(Value::StringValueStrindex(_)) => false,
        Some(Value::StringValue(text)) => rest.len() == 0 && found == DynamicValueView::String(
            text@,
        ),
        Some(Value::BoolValue(flag)) => rest.len() == 0 && found == DynamicValueView::Bool(flag),
        Some(Value::IntValue(integer)) => rest.len() == 0 && found == DynamicValueView::Int64(
            integer,
        ),
        Some(Value::DoubleValue(number)) => rest.len() == 0 && found == DynamicValueView::Float64(
            number.bits,
        ),
        Some(Value::BytesValue(bytes)) => rest.len() == 0 && found == DynamicValueView::Bytes(
            bytes@,
        ),
        Some(Value::ArrayValue(_)) => rest.len() == 0 && canonical_json::value_text(value, 0) is Some
            && found == DynamicValueView::Json(canonical_json::value_text(value, 0)->0),
        Some(Value::KvlistValue(list)) => if depth >= max_depth {
            rest.len() == 0 && canonical_json::value_text(value, 0) is Some && found
                == DynamicValueView::Json(canonical_json::value_text(value, 0)->0)
        } else {
            leads_to(list.values@, rest, depth + 1, max_depth, found)
        },
    }
}

proof fn lemma_without_members(
    leaves: Seq<LeafView>,
    source: AttributeSource,
    path: Seq<Seq<char>>,
    leaf: LeafView,
)
    ensures
        without(leaves, source, path).contains(leaf) <==> leaves.contains(leaf) && !leaf.is_under(
            source,
            path,
        ),
    decreases leaves.len(),
{
    if leaves.len() > 0 {
        let front = leaves.drop_last();
        let last = leaves[leaves.len() - 1];
        let kept = without(leaves, source, path);
        let before = without(front, source, path);
        lemma_without_members(front, source, path, leaf);
        if kept.contains(leaf) {
            let k = choose|k: int| 0 <= k < kept.len() && kept[k] == leaf;
            if k < before.len() {
                assert(before[k] == leaf);
                let m = choose|m: int| 0 <= m < front.len() && front[m] == leaf;
                assert(leaves[m] == leaf);
            } else {
                assert(last == leaf);
            }
        }
        if leaves.contains(leaf) && !leaf.is_under(source, path) {
            let k = choose|k: int| 0 <= k < leaves.len() && leaves[k] == leaf;
            if k < front.len() {
                assert(front[k] == leaf);
                let m = choose|m: int| 0 <= m < before.len() && before[m] == leaf;
                assert(kept[m] == leaf);
            } else {
                assert(kept[kept.len() - 1] == leaf);
            }
        }
    }
}

/// Whether the leaf lies under a key of these attributes.
spec fn under_a_key(
    leaf: LeafView,
    source: AttributeSource,
    attributes: Seq<KeyValue>,
    path: Seq<Seq<char>>,
) -> bool {
    exists|at: int|
        0 <= at < attributes.len() && leaf.is_under(
            source,
            path.push((#[trigger] attributes[at]).key@),
        )
}

/// Whether the attributes put this leaf below a path.
spec fn put_below(
    leaf: LeafView,
    source: AttributeSource,
    attributes: Seq<KeyValue>,
    path: Seq<Seq<char>>,
    depth: nat,
    max_depth: nat,
) -> bool {
    &&& leaf.source == source
    &&& continues(leaf.path, path)
    &&& leads_to(attributes, leaf.path.skip(path.len() as int), depth, max_depth, leaf.value)
}

proof fn lemma_under_key_step(
    leaf: LeafView,
    source: AttributeSource,
    attributes: Seq<KeyValue>,
    path: Seq<Seq<char>>,
)
    requires
        attributes.len() > 0,
    ensures
        under_a_key(leaf, source, attributes, path) <==> under_a_key(
            leaf,
            source,
            attributes.drop_last(),
            path,
        ) || leaf.is_under(source, path.push(attributes.last().key@)),
{
    let front = attributes.drop_last();
    if under_a_key(leaf, source, front, path) {
        let at = choose|at: int|
            0 <= at < front.len() && leaf.is_under(source, path.push((#[trigger] front[at]).key@));
        assert(attributes[at] == front[at]);
    }
    if under_a_key(leaf, source, attributes, path) {
        let at = choose|at: int|
            0 <= at < attributes.len() && leaf.is_under(
                source,
                path.push((#[trigger] attributes[at]).key@),
            );
        if at < front.len() {
            assert(front[at] == attributes[at]);
        }
    }
    if leaf.is_under(source, path.push(attributes.last().key@)) {
        assert(attributes[attributes.len() - 1] == attributes.last());
    }
}

/// The last attribute decides below its key, and the others elsewhere.
proof fn lemma_leads_step(
    attributes: Seq<KeyValue>,
    path: Seq<Seq<char>>,
    depth: nat,
    max_depth: nat,
    found: DynamicValueView,
)
    requires
        attributes.len() > 0,
    ensures
        path.len() > 0 && path[0] == attributes.last().key@ ==> (leads_to(
            attributes,
            path,
            depth,
            max_depth,
            found,
        ) <==> attributes.last().value is Some && holds_leaf(
            attributes.last().value->0,
            path.drop_first(),
            depth,
            max_depth,
            found,
        )),
        path.len() > 0 && path[0] != attributes.last().key@ ==> (leads_to(
            attributes,
            path,
            depth,
            max_depth,
            found,
        ) <==> leads_to(attributes.drop_last(), path, depth, max_depth, found)),
{
    if path.len() > 0 {
        let front = attributes.drop_last();
        let end = attributes.len() - 1;
        let last = attributes[end];
        if path[0] == last.key@ {
            assert(is_last_of_key(attributes, end));
            if leads_to(attributes, path, depth, max_depth, found) {
                let at = choose|at: int|
                    #[trigger] is_last_of_key(attributes, at) && attributes[at].key@ == path[0]
                        && attributes[at].value is Some && holds_leaf(
                        attributes[at].value->0,
                        path.drop_first(),
                        depth,
                        max_depth,
                        found,
                    );
                if at < end {
                    assert(attributes[end].key@ != attributes[at].key@);
                }
            }
        } else {
            if leads_to(attributes, path, depth, max_depth, found) {
                let at = choose|at: int|
                    #[trigger] is_last_of_key(attributes, at) && attributes[at].key@ == path[0]
                        && attributes[at].value is Some && holds_leaf(
                        attributes[at].value->0,
                        path.drop_first(),
                        depth,
                        max_depth,
                        found,
                    );
                assert(front[at] == attributes[at]);
                assert forall|later: int| at < later < front.len() implies (
                #[trigger] front[later]).key@ != front[at].key@ by {
                    assert(front[later] == attributes[later]);
                }
                assert(is_last_of_key(front, at));
            }
            if leads_to(front, path, depth, max_depth, found) {
                let at = choose|at: int|
                    #[trigger] is_last_of_key(front, at) && front[at].key@ == path[0]
                        && front[at].value is Some && holds_leaf(
                        front[at].value->0,
                        path.drop_first(),
                        depth,
                        max_depth,
                        found,
                    );
                assert(front[at] == attributes[at]);
                assert forall|later: int| at < later < attributes.len() implies (
                #[trigger] attributes[later]).key@ != attributes[at].key@ by {
                    if later < front.len() {
                        assert(front[later] == attributes[later]);
                    }
                }
                assert(is_last_of_key(attributes, at));
            }
        }
    }
}

/// Which leaves there are after attributes were read.
proof fn lemma_collected_members(
    leaves: Seq<LeafView>,
    source: AttributeSource,
    attributes: Seq<KeyValue>,
    path: Seq<Seq<char>>,
    depth: nat,
    max_depth: nat,
    leaf: LeafView,
)
    requires
        collected(leaves, source, attributes, path, depth, max_depth) is Some,
    ensures
        collected(leaves, source, attributes, path, depth, max_depth)->0.contains(leaf) <==> (
        leaves.contains(leaf) && !under_a_key(leaf, source, attributes, path)) || put_below(
            leaf,
            source,
            attributes,
            path,
            depth,
            max_depth,
        ),
    decreases attributes,
{
    let rest = leaf.path.skip(path.len() as int);
    if attributes.len() > 0 {
        let front = attributes.drop_last();
        let last = attributes[attributes.len() - 1];
        let before = collected(leaves, source, front, path, depth, max_depth)->0;
        let child = path.push(last.key@);
        let cleared = without(before, source, child);
        let after = collected(leaves, source, attributes, path, depth, max_depth)->0;
        assert(decreases_to!(attributes => front));
        lemma_collected_members(leaves, source, front, path, depth, max_depth, leaf);
        lemma_without_members(before, source, child, leaf);
        lemma_under_key_step(leaf, source, attributes, path);
        lemma_leads_step(attributes, rest, depth, max_depth, leaf.value);
        lemma_child_of(leaf, source, path, last.key@);
        match last.value {
            None => {},
            Some(value) => {
                assert(decreases_to!(attributes => attributes[attributes.len() - 1]));
                lemma_without(before, source, child);
                lemma_projected_members(cleared, source, child, value, depth, max_depth, leaf);
                if leaf.is_under(source, child) {
                    assert(leaf.path.skip(child.len() as int) =~= rest.drop_first());
                }
            },
        }
        if leaf.source == source && continues(leaf.path, path) && rest.len() == 0 {
            assert(!leads_to(attributes, rest, depth, max_depth, leaf.value));
            assert(!leads_to(front, rest, depth, max_depth, leaf.value));
        }
    } else {
        assert(!leads_to(attributes, rest, depth, max_depth, leaf.value)) by {
            assert forall|at: int| !#[trigger] is_last_of_key(attributes, at) by {}
        }
    }
}

/// A leaf lies under a key of a map where it lies under the map and continues with the key.
proof fn lemma_child_of(
    leaf: LeafView,
    source: AttributeSource,
    path: Seq<Seq<char>>,
    key: Seq<char>,
)
    ensures
        leaf.is_under(source, path.push(key)) <==> leaf.source == source && continues(
            leaf.path,
            path,
        ) && leaf.path.skip(path.len() as int).len() > 0 && leaf.path.skip(path.len() as int)[0]
            == key,
{
    let child = path.push(key);
    let depth = path.len() as int;
    if leaf.is_under(source, child) {
        assert(leaf.path.take(depth) =~= path) by {
            assert forall|i: int| 0 <= i < depth implies leaf.path[i] == path[i] by {
                assert(leaf.path.take(child.len() as int)[i] == child[i]);
            }
        }
        assert(leaf.path.take(child.len() as int)[depth] == child[depth]);
    }
    if continues(leaf.path, path) && leaf.path.skip(depth).len() > 0 && leaf.path.skip(depth)[0]
        == key {
        assert forall|i: int| 0 <= i < child.len() implies leaf.path[i] == child[i] by {
            if i < depth {
                assert(leaf.path.take(depth)[i] == path[i]);
            } else {
                assert(leaf.path.skip(depth)[0] == leaf.path[depth]);
            }
        }
        assert(leaf.path.take(child.len() as int) =~= child);
    }
}

/// Which leaves there are after a value was read at a path under which there were none.
proof fn lemma_projected_members(
    leaves: Seq<LeafView>,
    source: AttributeSource,
    path: Seq<Seq<char>>,
    value: AnyValue,
    depth: nat,
    max_depth: nat,
    leaf: LeafView,
)
    requires
        forall|i: int| 0 <= i < leaves.len() ==> !(#[trigger] leaves[i]).is_under(source, path),
        projected(leaves, source, path, value, depth, max_depth) is Some,
    ensures
        projected(leaves, source, path, value, depth, max_depth)->0.contains(leaf)
            <==> leaves.contains(leaf) || (leaf.is_under(source, path) && holds_leaf(
            value,
            leaf.path.skip(path.len() as int),
            depth,
            max_depth,
            leaf.value,
        )),
    decreases value,
{
    let after = projected(leaves, source, path, value, depth, max_depth)->0;
    let rest = leaf.path.skip(path.len() as int);
    match value.value {
        None => {},
        Some(Value::StringValueStrindex(_)) => {},
        Some(Value::KvlistValue(list)) if depth < max_depth => {
            lemma_collected_members(
                leaves,
                source,
                list.values@,
                path,
                depth + 1,
                max_depth,
                leaf,
            );
            if leaves.contains(leaf) {
                let k = choose|k: int| 0 <= k < leaves.len() && leaves[k] == leaf;
                assert(!leaves[k].is_under(source, path));
                if under_a_key(leaf, source, list.values@, path) {
                    let at = choose|at: int|
                        0 <= at < list.values@.len() && leaf.is_under(
                            source,
                            path.push((#[trigger] list.values@[at]).key@),
                        );
                    lemma_child_of(leaf, source, path, list.values@[at].key@);
                }
            }
        },
        _ => {
            let added = after.last();
            assert(after == leaves.push(added));
            assert(added.source == source && added.path == path);
            if after.contains(leaf) {
                let k = choose|k: int| 0 <= k < after.len() && after[k] == leaf;
                if k < leaves.len() {
                    assert(leaves[k] == leaf);
                } else {
                    assert(leaf.path.take(path.len() as int) =~= path);
                    assert(rest.len() == 0);
                }
            }
            if leaves.contains(leaf) {
                let k = choose|k: int| 0 <= k < leaves.len() && leaves[k] == leaf;
                assert(after[k] == leaf);
            }
            if leaf.is_under(source, path) && holds_leaf(value, rest, depth, max_depth, leaf.value) {
                assert(rest.len() == 0);
                assert(leaf.path =~= path);
                assert(leaf == added);
                assert(after[after.len() - 1] == leaf);
            }
        },
    }
}

/// The attribute list of a source.
pub open spec fn list_of(
    source: AttributeSource,
    resource: Seq<KeyValue>,
    scope: Seq<KeyValue>,
    log: Seq<KeyValue>,
) -> Seq<KeyValue> {
    match source {
        AttributeSource::Resource => resource,
        AttributeSource::Scope => scope,
        AttributeSource::Log => log,
    }
}

/// The leaves of a record are exactly those of its three attribute lists: a leaf stands there if and
/// only if its path of last keys leads to its value in the list of its source.
pub proof fn leaves_are_those_of_the_attributes(
    resource: Seq<KeyValue>,
    scope: Seq<KeyValue>,
    log: Seq<KeyValue>,
    max_depth: nat,
    leaf: LeafView,
)
    requires
        record_leaves(resource, scope, log, max_depth) is Some,
    ensures
        record_leaves(resource, scope, log, max_depth)->0.contains(leaf) <==> leads_to(
            list_of(leaf.source, resource, scope, log),
            leaf.path,
            0,
            max_depth,
            leaf.value,
        ),
{
    let none = Seq::<LeafView>::empty();
    let root = Seq::<Seq<char>>::empty();
    let first = collected(none, AttributeSource::Resource, resource, root, 0, max_depth)->0;
    let second = collected(first, AttributeSource::Scope, scope, root, 0, max_depth)->0;
    lemma_collected_members(none, AttributeSource::Resource, resource, root, 0, max_depth, leaf);
    lemma_collected_members(first, AttributeSource::Scope, scope, root, 0, max_depth, leaf);
    lemma_collected_members(second, AttributeSource::Log, log, root, 0, max_depth, leaf);
    assert(leaf.path.skip(0) =~= leaf.path);
    assert(leaf.path.take(0) =~= root);
}

/// Every scalar attribute becomes a leaf: where an attribute of the resource, the scope or the record
/// holds a scalar and no later attribute of its list has its key, the record has a leaf of that source
/// at that key with that very value.
pub proof fn scalar_attributes_become_leaves(
    resource: Seq<KeyValue>,
    scope: Seq<KeyValue>,
    log: Seq<KeyValue>,
    max_depth: nat,
    source: AttributeSource,
    at: int,
)
    requires
        record_leaves(resource, scope, log, max_depth) is Some,
        ({
            let list = list_of(source, resource, scope, log);
            &&& 0 <= at < list.len()
            &&& forall|later: int|
                at < later < list.len() ==> (#[trigger] list[later]).key@ != list[at].key@
            &&& list[at].value is Some
            &&& list[at].value->0.value is Some
        }),
    ensures
        ({
            let list = list_of(source, resource, scope, log);
            let leaves = record_leaves(resource, scope, log, max_depth)->0;
            let path = seq![list[at].key@];
            match list[at].value->0.value->0 {
                Value::StringValue(text) => leaves.contains(
                    LeafView { source, path, value: DynamicValueView::String(text@) },
                ),
                Value::BoolValue(flag) => leaves.contains(
                    LeafView { source, path, value: DynamicValueView::Bool(flag) },
                ),
                Value::IntValue(integer) => leaves.contains(
                    LeafView { source, path, value: DynamicValueView::Int64(integer) },
                ),
                Value::DoubleValue(number) => leaves.contains(
                    LeafView { source, path, value: DynamicValueView::Float64(number.bits) },
                ),
                Value::BytesValue(bytes) => leaves.contains(
                    LeafView { source, path, value: DynamicValueView::Bytes(bytes@) },
                ),
                _ => true,
            }
        }),
{
    let list = list_of(source, resource, scope, log);
    let path = seq![list[at].key@];
    let value = match list[at].value->0.value->0 {
        Value::StringValue(text) => DynamicValueView::String(text@),
        Value::BoolValue(flag) => DynamicValueView::Bool(flag),
        Value::IntValue(integer) => DynamicValueView::Int64(integer),
        Value::DoubleValue(number) => DynamicValueView::Float64(number.bits),
        Value::BytesValue(bytes) => DynamicValueView::Bytes(bytes@),
        _ => DynamicValueView::Bool(false),
    };
    leaves_are_those_of_the_attributes(
        resource,
        scope,
        log,
        max_depth,
        LeafView { source, path, value },
    );
    assert(path.drop_first().len() == 0);
    assert(is_last_of_key(list, at));
}

proof fn lemma_encodable_collected(
    leaves: Seq<LeafView>,
    source: AttributeSource,
    attributes: Seq<KeyValue>,
    path: Seq<Seq<char>>,
    depth: nat,
    max_depth: nat,
    level: nat,
)
    requires
        canonical_json::entry_texts(attributes, level) is Some,
    ensures
        collected(leaves, source, attributes, path, depth, max_depth) is Some,
    decreases attributes,
{
    if attributes.len() > 0 {
        let front = attributes.drop_last();
        let last = attributes[attributes.len() - 1];
        assert(decreases_to!(attributes => front));
        assert(decreases_to!(attributes => attributes[attributes.len() - 1]));
        lemma_encodable_collected(leaves, source, front, path, depth, max_depth, level);
        let before = collected(leaves, source, front, path, depth, max_depth)->0;
        let child = path.push(last.key@);
        let cleared = without(before, source, child);
        if last.value is Some {
            let value = last.value->0;
            canonical_json::only_deep_values_are_refused(value, level);
            canonical_json::only_deep_values_are_refused(value, 0);
            canonical_json::lemma_nested_monotone(value, (64 - level) as nat, 64);
            match value.value {
                Some(Value::KvlistValue(list)) => {
                    if depth < max_depth {
                        lemma_encodable_collected(
                            cleared,
                            source,
                            list.values@,
                            child,
                            depth + 1,
                            max_depth,
                            level + 1,
                        );
                    }
                },
                _ => {},
            }
            assert(projected(cleared, source, child, value, depth, max_depth) is Some);
        }
    }
}

/// Attributes that can be encoded as JSON have leaves, whatever the depth to which maps are entered.
pub proof fn encodable_attributes_have_leaves(
    resource: Seq<KeyValue>,
    scope: Seq<KeyValue>,
    log: Seq<KeyValue>,
    max_depth: nat,
)
    requires
        canonical_json::attributes_text(resource) is Some,
        canonical_json::attributes_text(scope) is Some,
        canonical_json::attributes_text(log) is Some,
    ensures
        record_leaves(resource, scope, log, max_depth) is Some,
{
    let none = Seq::<LeafView>::empty();
    let root = Seq::<Seq<char>>::empty();
    lemma_encodable_collected(none, AttributeSource::Resource, resource, root, 0, max_depth, 0);
    let first = collected(none, AttributeSource::Resource, resource, root, 0, max_depth)->0;
    lemma_encodable_collected(first, AttributeSource::Scope, scope, root, 0, max_depth, 0);
    let second = collected(first, AttributeSource::Scope, scope, root, 0, max_depth)->0;
    lemma_encodable_collected(second, AttributeSource::Log, log, root, 0, max_depth, 0);
}

} // verus!
