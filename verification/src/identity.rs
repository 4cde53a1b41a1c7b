//! Exact identities of dynamic attribute columns and the fields that carry them.
use vstd::prelude::*;
use crate::canonical_json;
use crate::schema::{DataType, DataTypeView, Field, FieldView};
use crate::sorted;
use crate::sorted::TextMap;
use crate::text;
use crate::text::{order_text, same_text, TextOrder};

verus! {

/// Field metadata key for [`AttributeSource::as_str`].
pub const FIELD_SOURCE: &'static str = "observer.attribute.source";

/// Field metadata key for the original path as a JSON string array.
pub const FIELD_PATH: &'static str = "observer.attribute.path";

/// Field metadata key for [`DynamicKind::as_str`].
pub const FIELD_KIND: &'static str = "observer.attribute.kind";

/// Which OTLP attribute list a dynamic field came from.
#[derive(Clone, Copy, Debug, PartialEq, Eq, Structural, PartialOrd, Ord, Hash)]
pub enum AttributeSource {
    /// Resource attributes.
    Resource,
    /// Instrumentation scope attributes.
    Scope,
    /// Log record attributes.
    Log,
}

impl AttributeSource {
    pub open spec fn text(self) -> Seq<char> {
        match self {
            AttributeSource::Resource => "resource"@,
            AttributeSource::Scope => "scope"@,
            AttributeSource::Log => "log"@,
        }
    }

    pub open spec fn number(self) -> u8 {
        match self {
            AttributeSource::Resource => 1,
            AttributeSource::Scope => 2,
            AttributeSource::Log => 3,
        }
    }

    /// Stable source prefix used in physical names and field metadata.
    #[must_use]
    pub fn as_str(self) -> (name: &'static str)
        ensures
            name@ == self.text(),
    {
        match self {
            AttributeSource::Resource => "resource",
            AttributeSource::Scope => "scope",
            AttributeSource::Log => "log",
        }
    }

    pub fn tag(self) -> (tag: u8)
        ensures
            tag == self.number(),
    {
        match self {
            AttributeSource::Resource => 1,
            AttributeSource::Scope => 2,
            AttributeSource::Log => 3,
        }
    }

    fn from_text(name: &str) -> (source: Option<AttributeSource>)
        ensures
            source == source_named(name@),
    {
        proof {
            lemma_source_texts();
        }
        if same_text(name, "resource") {
            Some(AttributeSource::Resource)
        } else if same_text(name, "scope") {
            Some(AttributeSource::Scope)
        } else if same_text(name, "log") {
            Some(AttributeSource::Log)
        } else {
            None
        }
    }
}

/// The source with that text.
pub open spec fn source_named(name: Seq<char>) -> Option<AttributeSource> {
    if name == AttributeSource::Resource.text() {
        Some(AttributeSource::Resource)
    } else if name == AttributeSource::Scope.text() {
        Some(AttributeSource::Scope)
    } else if name == AttributeSource::Log.text() {
        Some(AttributeSource::Log)
    } else {
        None
    }
}

proof fn lemma_source_texts()
    ensures
        "resource"@.len() == 8,
        "scope"@.len() == 5,
        "log"@.len() == 3,
{
    reveal_strlit("resource");
    reveal_strlit("scope");
    reveal_strlit("log");
}

/// Physical type of one dynamic leaf.
#[derive(Clone, Copy, Debug, PartialEq, Eq, Structural, PartialOrd, Ord, Hash)]
pub enum DynamicKind {
    /// OTLP bool.
    Bool,
    /// OTLP int64.
    Int64,
    /// OTLP double, including non-finite values.
    Float64,
    /// OTLP string.
    String,
    /// OTLP bytes.
    Bytes,
    /// Canonical JSON for an array or a map at the depth boundary.
    Json,
}

impl DynamicKind {
    pub open spec fn text(self) -> Seq<char> {
        match self {
            DynamicKind::Bool => "bool"@,
            DynamicKind::Int64 => "i64"@,
            DynamicKind::Float64 => "f64"@,
            DynamicKind::String => "string"@,
            DynamicKind::Bytes => "bytes"@,
            DynamicKind::Json => "json"@,
        }
    }

    pub open spec fn number(self) -> u8 {
        match self {
            DynamicKind::Bool => 1,
            DynamicKind::Int64 => 2,
            DynamicKind::Float64 => 3,
            DynamicKind::String => 4,
            DynamicKind::Bytes => 5,
            DynamicKind::Json => 6,
        }
    }

    pub open spec fn column_type(self) -> DataTypeView {
        match self {
            DynamicKind::Bool => DataTypeView::Boolean,
            DynamicKind::Int64 => DataTypeView::Int64,
            DynamicKind::Float64 => DataTypeView::Float64,
            DynamicKind::String => DataTypeView::Utf8,
            DynamicKind::Bytes => DataTypeView::Binary,
            DynamicKind::Json => DataTypeView::Utf8,
        }
    }

    /// Stable type suffix used in physical names and field metadata.
    #[must_use]
    pub fn as_str(self) -> (name: &'static str)
        ensures
            name@ == self.text(),
    {
        match self {
            DynamicKind::Bool => "bool",
            DynamicKind::Int64 => "i64",
            DynamicKind::Float64 => "f64",
            DynamicKind::String => "string",
            DynamicKind::Bytes => "bytes",
            DynamicKind::Json => "json",
        }
    }

    pub fn data_type(self) -> (data_type: DataType)
        ensures
            data_type.deep_view() == self.column_type(),
    {
        match self {
            DynamicKind::Bool => DataType::Boolean,
            DynamicKind::Int64 => DataType::Int64,
            DynamicKind::Float64 => DataType::Float64,
            DynamicKind::String => DataType::Utf8,
            DynamicKind::Bytes => DataType::Binary,
            DynamicKind::Json => DataType::Utf8,
        }
    }

    pub fn tag(self) -> (tag: u8)
        ensures
            tag == self.number(),
    {
        match self {
            DynamicKind::Bool => 1,
            DynamicKind::Int64 => 2,
            DynamicKind::Float64 => 3,
            DynamicKind::String => 4,
            DynamicKind::Bytes => 5,
            DynamicKind::Json => 6,
        }
    }

    fn from_text(name: &str) -> (kind: Option<DynamicKind>)
        ensures
            kind == kind_named(name@),
    {
        if same_text(name, "bool") {
            Some(DynamicKind::Bool)
        } else if same_text(name, "i64") {
            Some(DynamicKind::Int64)
        } else if same_text(name, "f64") {
            Some(DynamicKind::Float64)
        } else if same_text(name, "string") {
            Some(DynamicKind::String)
        } else if same_text(name, "bytes") {
            Some(DynamicKind::Bytes)
        } else if same_text(name, "json") {
            Some(DynamicKind::Json)
        } else {
            None
        }
    }
}

/// The kind with that text.
pub open spec fn kind_named(name: Seq<char>) -> Option<DynamicKind> {
    if name == DynamicKind::Bool.text() {
        Some(DynamicKind::Bool)
    } else if name == DynamicKind::Int64.text() {
        Some(DynamicKind::Int64)
    } else if name == DynamicKind::Float64.text() {
        Some(DynamicKind::Float64)
    } else if name == DynamicKind::String.text() {
        Some(DynamicKind::String)
    } else if name == DynamicKind::Bytes.text() {
        Some(DynamicKind::Bytes)
    } else if name == DynamicKind::Json.text() {
        Some(DynamicKind::Json)
    } else {
        None
    }
}

proof fn lemma_names_parse(source: AttributeSource, kind: DynamicKind)
    ensures
        source_named(source.text()) == Some(source),
        kind_named(kind.text()) == Some(kind),
{
    lemma_source_texts();
    reveal_strlit("bool");
    reveal_strlit("i64");
    reveal_strlit("f64");
    reveal_strlit("string");
    reveal_strlit("bytes");
    reveal_strlit("json");
    assert("bool"@[0] == 'b' && "json"@[0] == 'j');
    assert("i64"@[0] == 'i' && "f64"@[0] == 'f');
    assert("bool"@ != "json"@);
    assert("i64"@ != "f64"@);
    assert("bool"@.len() == 4 && "json"@.len() == 4 && "bytes"@.len() == 5 && "string"@.len() == 6);
}

/// Exact identity of a dynamic leaf, before normalization.
#[derive(Debug)]
pub struct DynamicIdentity {
    /// Attribute list that contained the leaf.
    pub source: AttributeSource,
    /// Original key segments, from the outer attribute to the leaf.
    pub path: Vec<String>,
    /// OTLP type stored for this path.
    pub kind: DynamicKind,
}

#[verifier::ext_equal]
pub struct IdentityView {
    pub source: AttributeSource,
    pub path: Seq<Seq<char>>,
    pub kind: DynamicKind,
}

impl DeepView for DynamicIdentity {
    type V = IdentityView;

    open spec fn deep_view(&self) -> IdentityView {
        IdentityView { source: self.source, path: self.path.deep_view(), kind: self.kind }
    }
}

/// Copies key segments.
pub fn copy_path(path: &Vec<String>) -> (copy: Vec<String>)
    ensures
        copy.deep_view() == path.deep_view(),
{
    let mut copy: Vec<String> = Vec::new();
    let mut i: usize = 0;
    let ghost all = path.deep_view();
    while i < path.len()
        invariant
            i <= path.len(),
            all == path.deep_view(),
            copy.deep_view() == all.take(i as int),
        decreases path.len() - i,
    {
        let ghost before = copy.deep_view();
        copy.push(path[i].clone());
        assert(copy.deep_view() =~= before.push(all[i as int]));
        assert(copy.deep_view() =~= all.take(i + 1));
        i = i + 1;
    }
    assert(all.take(i as int) =~= all);
    copy
}

impl Clone for DynamicIdentity {
    fn clone(&self) -> (copy: Self)
        ensures
            copy.deep_view() == self.deep_view(),
    {
        DynamicIdentity { source: self.source, path: copy_path(&self.path), kind: self.kind }
    }
}

/// Lexicographic order of key segments.
pub open spec fn path_lt(left: Seq<Seq<char>>, right: Seq<Seq<char>>) -> bool
    decreases left.len(),
{
    if right.len() == 0 {
        false
    } else if left.len() == 0 {
        true
    } else if left[0] != right[0] {
        text::text_lt(left[0], right[0])
    } else {
        path_lt(left.drop_first(), right.drop_first())
    }
}

pub proof fn lemma_path_lt_irreflexive(path: Seq<Seq<char>>)
    ensures
        !path_lt(path, path),
    decreases path.len(),
{
    if path.len() > 0 {
        lemma_path_lt_irreflexive(path.drop_first());
    }
}

pub proof fn lemma_path_lt_transitive(
    a: Seq<Seq<char>>,
    b: Seq<Seq<char>>,
    c: Seq<Seq<char>>,
)
    requires
        path_lt(a, b),
        path_lt(b, c),
    ensures
        path_lt(a, c),
    decreases a.len(),
{
    if a.len() > 0 {
        if a[0] == b[0] && b[0] == c[0] {
            lemma_path_lt_transitive(a.drop_first(), b.drop_first(), c.drop_first());
        } else if a[0] != b[0] && b[0] != c[0] {
            text::lemma_text_lt_transitive(a[0], b[0], c[0]);
            text::lemma_text_lt_irreflexive(a[0]);
        }
    }
}

pub proof fn lemma_path_lt_total(a: Seq<Seq<char>>, b: Seq<Seq<char>>)
    ensures
        path_lt(a, b) || path_lt(b, a) || a == b,
        path_lt(a, b) ==> !path_lt(b, a),
    decreases a.len(),
{
    if a.len() > 0 && b.len() > 0 {
        text::lemma_text_lt_total(a[0], b[0]);
        if a[0] == b[0] {
            lemma_path_lt_total(a.drop_first(), b.drop_first());
            if a.drop_first() == b.drop_first() {
                assert(a =~= seq![a[0]] + a.drop_first());
                assert(b =~= seq![b[0]] + b.drop_first());
            }
        }
    } else if a.len() == 0 && b.len() == 0 {
        assert(a =~= b);
    }
}

fn order_paths(left: &Vec<String>, right: &Vec<String>) -> (order: TextOrder)
    ensures
        order == if left.deep_view() == right.deep_view() {
            TextOrder::Same
        } else if path_lt(left.deep_view(), right.deep_view()) {
            TextOrder::Before
        } else {
            TextOrder::After
        },
{
    let ghost a = left.deep_view();
    let ghost b = right.deep_view();
    let mut i: usize = 0;
    assert(a.skip(0) =~= a);
    assert(b.skip(0) =~= b);
    proof {
        lemma_path_lt_total(a, b);
    }
    while i < left.len() && i < right.len()
        invariant
            a == left.deep_view(),
            b == right.deep_view(),
            i <= left.len(),
            i <= right.len(),
            a.take(i as int) == b.take(i as int),
            path_lt(a, b) == path_lt(a.skip(i as int), b.skip(i as int)),
            path_lt(b, a) == path_lt(b.skip(i as int), a.skip(i as int)),
            path_lt(a, b) || path_lt(b, a) || a == b,
            path_lt(a, b) ==> !path_lt(b, a),
        decreases left.len() - i,
    {
        assert(a.skip(i as int).drop_first() =~= a.skip(i + 1));
        assert(b.skip(i as int).drop_first() =~= b.skip(i + 1));
        assert(a.skip(i as int)[0] == left@[i as int]@);
        assert(b.skip(i as int)[0] == right@[i as int]@);
        match order_text(&left[i], &right[i]) {
            TextOrder::Same => {},
            TextOrder::Before => {
                assert(a[i as int] != b[i as int]) by {
                    text::lemma_text_lt_irreflexive(a[i as int]);
                }
                proof {
                    text::lemma_text_lt_irreflexive(a[i as int]);
                }
                return TextOrder::Before;
            },
            TextOrder::After => {
                assert(a[i as int] != b[i as int]);
                return TextOrder::After;
            },
        }
        assert(a.take(i + 1) =~= a.take(i as int).push(a[i as int]));
        assert(b.take(i + 1) =~= b.take(i as int).push(b[i as int]));
        i = i + 1;
    }
    if left.len() == right.len() {
        assert(a.take(i as int) =~= a);
        assert(b.take(i as int) =~= b);
        TextOrder::Same
    } else if left.len() < right.len() {
        TextOrder::Before
    } else {
        TextOrder::After
    }
}

/// Order of identities: by source, then path, then kind.
pub open spec fn identity_lt(left: IdentityView, right: IdentityView) -> bool {
    if left.source != right.source {
        left.source.number() < right.source.number()
    } else if left.path != right.path {
        path_lt(left.path, right.path)
    } else {
        left.kind.number() < right.kind.number()
    }
}

pub proof fn lemma_identity_lt_irreflexive(identity: IdentityView)
    ensures
        !identity_lt(identity, identity),
{
}

pub proof fn lemma_identity_lt_transitive(a: IdentityView, b: IdentityView, c: IdentityView)
    requires
        identity_lt(a, b),
        identity_lt(b, c),
    ensures
        identity_lt(a, c),
{
    if a.source == b.source && b.source == c.source && a.path != b.path && b.path != c.path {
        lemma_path_lt_transitive(a.path, b.path, c.path);
        lemma_path_lt_irreflexive(a.path);
    }
    lemma_path_lt_total(a.path, b.path);
}

pub proof fn lemma_identity_lt_total(a: IdentityView, b: IdentityView)
    ensures
        identity_lt(a, b) || identity_lt(b, a) || a == b,
        identity_lt(a, b) ==> !identity_lt(b, a),
{
    lemma_path_lt_total(a.path, b.path);
}

impl DynamicIdentity {
    /// Compares two identities.
    pub fn order(&self, other: &DynamicIdentity) -> (order: TextOrder)
        ensures
            order == if self.deep_view() == other.deep_view() {
                TextOrder::Same
            } else if identity_lt(self.deep_view(), other.deep_view()) {
                TextOrder::Before
            } else {
                TextOrder::After
            },
    {
        if self.source.tag() < other.source.tag() {
            return TextOrder::Before;
        }
        if self.source.tag() > other.source.tag() {
            return TextOrder::After;
        }
        proof {
            lemma_path_lt_irreflexive(self.path.deep_view());
        }
        match order_paths(&self.path, &other.path) {
            TextOrder::Before => TextOrder::Before,
            TextOrder::After => TextOrder::After,
            TextOrder::Same => {
                if self.kind.tag() < other.kind.tag() {
                    TextOrder::Before
                } else if self.kind.tag() > other.kind.tag() {
                    TextOrder::After
                } else {
                    TextOrder::Same
                }
            },
        }
    }

    /// Tests two identities for equality.
    pub fn same(&self, other: &DynamicIdentity) -> (same: bool)
        ensures
            same == (self.deep_view() == other.deep_view()),
    {
        matches!(self.order(other), TextOrder::Same)
    }
}

/// The JSON array of a list of strings, without white space.
pub open spec fn json_path(path: Seq<Seq<char>>) -> Seq<char> {
    seq!['['] + canonical_json::comma_joined(
        path.map_values(|segment: Seq<char>| canonical_json::json_string(segment)),
    ) + seq![']']
}

/// The list of strings that `serde_json::from_str` reads from a text, if it holds one.
pub uninterp spec fn parsed_json_path(json: Seq<char>) -> Option<Seq<Seq<char>>>;

/// `serde_json::to_string` of a list of strings: a JSON array in compact form. `serde_json::from_str`
/// reads the list back.
#[verifier::external_body]
fn path_to_json(path: &Vec<String>) -> (json: String)
    ensures
        json@ == json_path(path.deep_view()),
        parsed_json_path(json@) == Some(path.deep_view()),
{
    serde_json::to_string(path).expect("attribute path is JSON")
}

/// `serde_json::from_str` of a list of strings, without the reason of a failure.
#[verifier::external_body]
fn path_from_json(json: &str) -> (path: Option<Vec<String>>)
    ensures
        path is Some == parsed_json_path(json@) is Some,
        path is Some ==> path->0.deep_view() == parsed_json_path(json@)->0,
{
    serde_json::from_str(json).ok()
}

/// One admitted dynamic column.
#[derive(Debug)]
pub struct DynamicField {
    /// Exact source, path, and type.
    pub identity: DynamicIdentity,
    /// Normalized physical field name, including a digest suffix when names collide.
    pub physical_name: String,
}

#[verifier::ext_equal]
pub struct DynamicFieldView {
    pub identity: IdentityView,
    pub physical_name: Seq<char>,
}

impl DeepView for DynamicField {
    type V = DynamicFieldView;

    open spec fn deep_view(&self) -> DynamicFieldView {
        DynamicFieldView {
            identity: self.identity.deep_view(),
            physical_name: self.physical_name@,
        }
    }
}

impl Clone for DynamicField {
    fn clone(&self) -> (copy: Self)
        ensures
            copy.deep_view() == self.deep_view(),
    {
        DynamicField {
            identity: self.identity.clone(),
            physical_name: self.physical_name.clone(),
        }
    }
}

/// Field metadata that preserves the original source, path, and type.
pub open spec fn identity_metadata(identity: IdentityView) -> Seq<(Seq<char>, Seq<char>)> {
    sorted::put(
        sorted::put(
            sorted::put(Seq::empty(), FIELD_SOURCE@, identity.source.text()),
            FIELD_PATH@,
            json_path(identity.path),
        ),
        FIELD_KIND@,
        identity.kind.text(),
    )
}

/// Nullable field of a dynamic column.
pub open spec fn dynamic_field(field: DynamicFieldView) -> FieldView {
    FieldView {
        name: field.physical_name,
        data_type: field.identity.kind.column_type(),
        nullable: true,
        metadata: identity_metadata(field.identity),
    }
}

/// The identity that field metadata preserves, if it holds one.
pub open spec fn identity_of(field: FieldView) -> Option<IdentityView> {
    match (
        sorted::lookup(field.metadata, FIELD_SOURCE@),
        sorted::lookup(field.metadata, FIELD_PATH@),
        sorted::lookup(field.metadata, FIELD_KIND@),
    ) {
        (Some(source), Some(path), Some(kind)) => match (
            source_named(source),
            parsed_json_path(path),
            kind_named(kind),
        ) {
            (Some(source), Some(path), Some(kind)) => Some(IdentityView { source, path, kind }),
            _ => None,
        },
        _ => None,
    }
}

proof fn lemma_field_identity(field: DynamicFieldView)
    requires
        parsed_json_path(json_path(field.identity.path)) == Some(field.identity.path),
    ensures
        identity_of(dynamic_field(field)) == Some(field.identity),
{
    let identity = field.identity;
    lemma_names_parse(identity.source, identity.kind);
    reveal_strlit("observer.attribute.source");
    reveal_strlit("observer.attribute.path");
    reveal_strlit("observer.attribute.kind");
    assert(FIELD_PATH@[19] == 'p' && FIELD_KIND@[19] == 'k');
    assert(FIELD_SOURCE@ != FIELD_PATH@ && FIELD_SOURCE@ != FIELD_KIND@ && FIELD_PATH@
        != FIELD_KIND@);
    let first = sorted::put(Seq::empty(), FIELD_SOURCE@, identity.source.text());
    let second = sorted::put(first, FIELD_PATH@, json_path(identity.path));
    let keys = seq![FIELD_SOURCE@, FIELD_PATH@, FIELD_KIND@];
    assert forall|i: int| 0 <= i < 3 implies sorted::lookup(
        identity_metadata(identity),
        #[trigger] keys[i],
    ) == Some(
        if i == 0 {
            identity.source.text()
        } else if i == 1 {
            json_path(identity.path)
        } else {
            identity.kind.text()
        },
    ) by {
        sorted::lemma_lookup_put(
            Seq::<(Seq<char>, Seq<char>)>::empty(),
            FIELD_SOURCE@,
            identity.source.text(),
            keys[i],
        );
        sorted::lemma_lookup_put(first, FIELD_PATH@, json_path(identity.path), keys[i]);
        sorted::lemma_lookup_put(second, FIELD_KIND@, identity.kind.text(), keys[i]);
    }
    assert(keys[0] == FIELD_SOURCE@ && keys[1] == FIELD_PATH@ && keys[2] == FIELD_KIND@);
}

/// Nullable field of a dynamic column.
fn field_of(identity: &DynamicIdentity, physical_name: &str) -> (field: Field)
    ensures
        field.deep_view() == dynamic_field(
            DynamicFieldView {
                identity: identity.deep_view(),
                physical_name: physical_name@,
            },
        ),
        identity_of(field.deep_view()) == Some(identity.deep_view()),
{
    let mut metadata: TextMap<String> = TextMap::new();
    metadata.insert(FIELD_SOURCE.to_owned(), identity.source.as_str().to_owned());
    metadata.insert(FIELD_PATH.to_owned(), path_to_json(&identity.path));
    metadata.insert(FIELD_KIND.to_owned(), identity.kind.as_str().to_owned());
    proof {
        lemma_field_identity(
            DynamicFieldView {
                identity: identity.deep_view(),
                physical_name: physical_name@,
            },
        );
    }
    Field {
        name: physical_name.to_owned(),
        data_type: identity.kind.data_type(),
        nullable: true,
        metadata,
    }
}

impl DynamicField {
    /// Nullable field for this column.
    ///
    /// Metadata preserves the original source, path, and type.
    #[must_use]
    pub fn arrow_field(&self) -> (field: Field)
        ensures
            field.deep_view() == dynamic_field(self.deep_view()),
            identity_of(field.deep_view()) == Some(self.identity.deep_view()),
    {
        field_of(&self.identity, &self.physical_name)
    }
}

/// The identity that field metadata preserves, if it holds one.
#[must_use]
pub fn dynamic_identity(field: &Field) -> (identity: Option<DynamicIdentity>)
    ensures
        identity.deep_view() == identity_of(field.deep_view()),
{
    let source = match field.metadata.get(FIELD_SOURCE) {
        Some(source) => AttributeSource::from_text(source),
        None => None,
    };
    let path = match field.metadata.get(FIELD_PATH) {
        Some(path) => path_from_json(path),
        None => None,
    };
    let kind = match field.metadata.get(FIELD_KIND) {
        Some(kind) => DynamicKind::from_text(kind),
        None => None,
    };
    match (source, path, kind) {
        (Some(source), Some(path), Some(kind)) => Some(DynamicIdentity { source, path, kind }),
        _ => None,
    }
}

/// A field without metadata has no identity.
pub proof fn lemma_plain_field_has_no_identity(field: FieldView)
    requires
        field.metadata.len() == 0,
    ensures
        identity_of(field) is None,
{
}

/// The column of an attribute keeps what the attribute is, under whatever name it stands: its list, its
/// path and its type read back from the metadata. It takes nulls, for the records without the attribute.
pub proof fn columns_keep_their_identity(field: DynamicFieldView)
    requires
        parsed_json_path(json_path(field.identity.path)) == Some(field.identity.path),
    ensures
        identity_of(dynamic_field(field)) == Some(field.identity),
        dynamic_field(field).name == field.physical_name,
        dynamic_field(field).nullable,
{
    lemma_field_identity(field);
}

/// Paths are ordered by the first segment in which they differ, and a path stands before those that
/// continue it.
pub proof fn paths_are_ordered_by_the_first_difference(
    common: Seq<Seq<char>>,
    left: Seq<Seq<char>>,
    right: Seq<Seq<char>>,
)
    requires
        left.len() == 0 || right.len() == 0 || left[0] != right[0],
    ensures
        path_lt(common + left, common + right) <==> right.len() > 0 && (left.len() == 0
            || text::text_lt(left[0], right[0])),
    decreases common.len(),
{
    if common.len() == 0 {
        assert(common + left =~= left);
        assert(common + right =~= right);
    } else {
        assert((common + left).drop_first() =~= common.drop_first() + left);
        assert((common + right).drop_first() =~= common.drop_first() + right);
        paths_are_ordered_by_the_first_difference(common.drop_first(), left, right);
    }
}

/// Attributes of the resource stand before those of the scope, and these before those of the record; within
/// a list they stand by path.
pub proof fn attributes_are_ordered_by_list_then_path(left: IdentityView, right: IdentityView)
    ensures
        left.source is Resource && !(right.source is Resource) ==> identity_lt(left, right),
        left.source is Scope && right.source is Log ==> identity_lt(left, right),
        left.source is Scope && right.source is Resource ==> !identity_lt(left, right),
        left.source is Log && !(right.source is Log) ==> !identity_lt(left, right),
        left.source == right.source && path_lt(left.path, right.path) ==> identity_lt(left, right),
        left.source == right.source && path_lt(right.path, left.path) ==> !identity_lt(left, right),
{
    lemma_path_lt_irreflexive(left.path);
    if path_lt(left.path, right.path) && path_lt(right.path, left.path) {
        lemma_path_lt_transitive(left.path, right.path, left.path);
    }
}

} // verus!
