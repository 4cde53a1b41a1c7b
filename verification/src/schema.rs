//! Lean columnar schema for one OTLP log row.
use vstd::prelude::*;
use crate::calendar;
use crate::calendar::civil_from_days;
use crate::sorted::TextMap;
use crate::text::same_text;

verus! {

/// Schema version stamped on every decoded row.
pub const SCHEMA_VERSION: u16 = 1;

/// Resource attribute promoted into [`COLUMN_SERVICE_NAME`].
pub const SERVICE_NAME_ATTRIBUTE: &'static str = "service.name";

/// Version of the projection from OTLP into columns.
pub const PROJECTION_VERSION: u32 = 1;

/// Byte width of an OTLP trace id.
pub const TRACE_ID_BYTES: usize = 16;

/// Byte width of an OTLP span id.
pub const SPAN_ID_BYTES: usize = 8;

/// Column width of an OTLP trace id.
pub const TRACE_ID_LEN: i32 = 16;

/// Column width of an OTLP span id.
pub const SPAN_ID_LEN: i32 = 8;

pub const COLUMN_SCHEMA_VERSION: &'static str = "schema_version";

pub const COLUMN_TENANT_ID: &'static str = "tenant_id";

pub const COLUMN_WAL_SEQUENCE: &'static str = "wal_sequence";

pub const COLUMN_RECORD_INDEX: &'static str = "record_index";

pub const COLUMN_TIME_UNIX_NANO: &'static str = "time_unix_nano";

pub const COLUMN_OBSERVED_TIME_UNIX_NANO: &'static str = "observed_time_unix_nano";

pub const COLUMN_RECEIVED_TIME_UNIX_NANO: &'static str = "received_time_unix_nano";

pub const COLUMN_EVENT_TIME_UNIX_NANO: &'static str = "event_time_unix_nano";

pub const COLUMN_SEVERITY_NUMBER: &'static str = "severity_number";

pub const COLUMN_SEVERITY_TEXT: &'static str = "severity_text";

pub const COLUMN_BODY: &'static str = "body";

pub const COLUMN_TRACE_ID: &'static str = "trace_id";

pub const COLUMN_SPAN_ID: &'static str = "span_id";

pub const COLUMN_SERVICE_NAME: &'static str = "service_name";

pub const COLUMN_RESOURCE_ATTRIBUTES: &'static str = "resource_attributes";

pub const COLUMN_SCOPE_ATTRIBUTES: &'static str = "scope_attributes";

pub const COLUMN_LOG_ATTRIBUTES: &'static str = "log_attributes";

const NANOS_PER_SECOND: u64 = 1_000_000_000;

const SECONDS_PER_HOUR: u64 = 3_600;

const SECONDS_PER_DAY: u64 = 86_400;

/// Nanoseconds in one hour.
pub const NANOS_PER_HOUR: u64 = 3_600_000_000_000;

/// Nanoseconds in one day.
pub const NANOS_PER_DAY: u64 = 86_400_000_000_000;

/// Start of the UTC hour that contains `unix_nano`.
pub open spec fn hour_start(unix_nano: u64) -> u64 {
    (unix_nano - unix_nano % NANOS_PER_HOUR) as u64
}

/// UTC hour that contains a derived event timestamp.
#[derive(Clone, Copy, Debug, PartialEq, Eq, Structural, PartialOrd, Ord, Hash)]
pub struct EventHour {
    start_unix_nano: u64,
}

impl View for EventHour {
    type V = u64;

    closed spec fn view(&self) -> u64 {
        self.start_unix_nano
    }
}

impl DeepView for EventHour {
    type V = u64;

    open spec fn deep_view(&self) -> u64 {
        self@
    }
}

impl EventHour {
    #[verifier::type_invariant]
    spec fn aligned(self) -> bool {
        self.start_unix_nano % NANOS_PER_HOUR == 0
    }

    /// Hour containing `unix_nano`, aligned to the start of that UTC hour.
    #[must_use]
    pub fn containing(unix_nano: u64) -> (hour: Self)
        ensures
            hour@ == hour_start(unix_nano),
    {
        let nanos_per_hour: u64 = SECONDS_PER_HOUR * NANOS_PER_SECOND;
        Self { start_unix_nano: unix_nano - unix_nano % nanos_per_hour }
    }

    #[must_use]
    pub fn start_unix_nano(self) -> (start: u64)
        ensures
            start == self@,
            start % NANOS_PER_HOUR == 0,
    {
        proof {
            use_type_invariant(&self);
        }
        self.start_unix_nano
    }

    /// Tests whether two hours are the same.
    pub fn same(self, other: Self) -> (same: bool)
        ensures
            same == (self@ == other@),
            same == (self == other),
    {
        self.start_unix_nano == other.start_unix_nano
    }

    /// Civil year, month, and day of this hour in UTC.
    #[must_use]
    pub fn utc_date(self) -> (date: (i32, u32, u32))
        ensures
            calendar::is_date((date.0 as int, date.1 as int, date.2 as int)),
            calendar::day_number((date.0 as int, date.1 as int, date.2 as int)) == self@ as int
                / NANOS_PER_DAY as int,
            1970 <= date.0 <= 2554,
    {
        let seconds: u64 = self.start_unix_nano / NANOS_PER_SECOND;
        let days: u64 = seconds / SECONDS_PER_DAY;
        let date = civil_from_days(days as i64);
        proof {
            calendar::lemma_year_range((date.0 as int, date.1 as int, date.2 as int));
        }
        date
    }

    /// Hour of the day in UTC, from 0 through 23.
    #[must_use]
    pub fn utc_hour(self) -> (hour: u8)
        ensures
            hour == (self@ / NANOS_PER_HOUR) % 24,
    {
        let seconds: u64 = self.start_unix_nano / NANOS_PER_SECOND;
        ((seconds / SECONDS_PER_HOUR) % 24) as u8
    }
}

/// Every timestamp lies in the hour that contains it, and in no other aligned hour.
pub proof fn hours_partition_time(unix_nano: u64, start: u64)
    requires
        start % NANOS_PER_HOUR == 0,
    ensures
        hour_start(unix_nano) % NANOS_PER_HOUR == 0,
        hour_start(unix_nano) <= unix_nano < hour_start(unix_nano) + NANOS_PER_HOUR,
        start <= unix_nano < start + NANOS_PER_HOUR <==> start == hour_start(unix_nano),
{
    let q = (unix_nano / NANOS_PER_HOUR) as int;
    let p = (start / NANOS_PER_HOUR) as int;
    assert(start == p * NANOS_PER_HOUR);
    assert(hour_start(unix_nano) == q * NANOS_PER_HOUR);
}

/// Type of one column.
#[derive(Debug)]
pub enum DataType {
    Boolean,
    Int32,
    Int64,
    UInt16,
    UInt32,
    UInt64,
    Float64,
    Binary,
    Utf8,
    FixedSizeBinary(i32),
    /// A type outside the log schema, by its display name.
    Other(String),
}

pub enum DataTypeView {
    Boolean,
    Int32,
    Int64,
    UInt16,
    UInt32,
    UInt64,
    Float64,
    Binary,
    Utf8,
    FixedSizeBinary(i32),
    Other(Seq<char>),
}

impl DeepView for DataType {
    type V = DataTypeView;

    open spec fn deep_view(&self) -> DataTypeView {
        match self {
            DataType::Boolean => DataTypeView::Boolean,
            DataType::Int32 => DataTypeView::Int32,
            DataType::Int64 => DataTypeView::Int64,
            DataType::UInt16 => DataTypeView::UInt16,
            DataType::UInt32 => DataTypeView::UInt32,
            DataType::UInt64 => DataTypeView::UInt64,
            DataType::Float64 => DataTypeView::Float64,
            DataType::Binary => DataTypeView::Binary,
            DataType::Utf8 => DataTypeView::Utf8,
            DataType::FixedSizeBinary(width) => DataTypeView::FixedSizeBinary(*width),
            DataType::Other(name) => DataTypeView::Other(name@),
        }
    }
}

impl Clone for DataType {
    fn clone(&self) -> (copy: Self)
        ensures
            copy.deep_view() == self.deep_view(),
    {
        match self {
            DataType::Boolean => DataType::Boolean,
            DataType::Int32 => DataType::Int32,
            DataType::Int64 => DataType::Int64,
            DataType::UInt16 => DataType::UInt16,
            DataType::UInt32 => DataType::UInt32,
            DataType::UInt64 => DataType::UInt64,
            DataType::Float64 => DataType::Float64,
            DataType::Binary => DataType::Binary,
            DataType::Utf8 => DataType::Utf8,
            DataType::FixedSizeBinary(width) => DataType::FixedSizeBinary(*width),
            DataType::Other(name) => DataType::Other(name.clone()),
        }
    }
}

impl DataType {
    /// Tests two column types for equality.
    pub fn same(&self, other: &DataType) -> (same: bool)
        ensures
            same == (self.deep_view() == other.deep_view()),
    {
        match (self, other) {
            (DataType::Boolean, DataType::Boolean) => true,
            (DataType::Int32, DataType::Int32) => true,
            (DataType::Int64, DataType::Int64) => true,
            (DataType::UInt16, DataType::UInt16) => true,
            (DataType::UInt32, DataType::UInt32) => true,
            (DataType::UInt64, DataType::UInt64) => true,
            (DataType::Float64, DataType::Float64) => true,
            (DataType::Binary, DataType::Binary) => true,
            (DataType::Utf8, DataType::Utf8) => true,
            (DataType::FixedSizeBinary(left), DataType::FixedSizeBinary(right)) => *left == *right,
            (DataType::Other(left), DataType::Other(right)) => same_text(left, right),
            _ => false,
        }
    }
}

/// One column of a schema.
#[derive(Debug)]
pub struct Field {
    pub name: String,
    pub data_type: DataType,
    pub nullable: bool,
    pub metadata: TextMap<String>,
}

#[verifier::ext_equal]
pub struct FieldView {
    pub name: Seq<char>,
    pub data_type: DataTypeView,
    pub nullable: bool,
    pub metadata: Seq<(Seq<char>, Seq<char>)>,
}

impl DeepView for Field {
    type V = FieldView;

    open spec fn deep_view(&self) -> FieldView {
        FieldView {
            name: self.name@,
            data_type: self.data_type.deep_view(),
            nullable: self.nullable,
            metadata: self.metadata@,
        }
    }
}

impl Clone for Field {
    fn clone(&self) -> (copy: Self)
        ensures
            copy.deep_view() == self.deep_view(),
    {
        Field {
            name: self.name.clone(),
            data_type: self.data_type.clone(),
            nullable: self.nullable,
            metadata: self.metadata.clone(),
        }
    }
}

/// A field without metadata.
pub open spec fn plain_field(name: Seq<char>, data_type: DataTypeView, nullable: bool) -> FieldView {
    FieldView { name, data_type, nullable, metadata: Seq::empty() }
}

impl Field {
    /// A field without metadata.
    pub fn new(name: &str, data_type: DataType, nullable: bool) -> (field: Self)
        ensures
            field.deep_view() == plain_field(name@, data_type.deep_view(), nullable),
    {
        Field { name: name.to_owned(), data_type, nullable, metadata: TextMap::new() }
    }

    /// Tests two fields for equality, metadata included.
    pub fn same(&self, other: &Field) -> (same: bool)
        ensures
            same == (self.deep_view() == other.deep_view()),
    {
        same_text(&self.name, &other.name) && self.data_type.same(&other.data_type) && self.nullable
            == other.nullable && same_metadata(&self.metadata, &other.metadata)
    }
}

/// Tests two metadata maps for equality.
pub fn same_metadata(left: &TextMap<String>, right: &TextMap<String>) -> (same: bool)
    ensures
        same == (left@ == right@),
{
    if left.len() != right.len() {
        return false;
    }
    let mut i: usize = 0;
    while i < left.len()
        invariant
            i <= left@.len(),
            left@.len() == right@.len(),
            forall|k: int| 0 <= k < i ==> left@[k] == right@[k],
        decreases left@.len() - i,
    {
        if !same_text(left.key_at(i), right.key_at(i)) || !same_text(
            left.value_at(i),
            right.value_at(i),
        ) {
            return false;
        }
        i = i + 1;
    }
    assert(left@ =~= right@);
    true
}

/// Columns in order, with file-level metadata.
#[derive(Debug)]
pub struct Schema {
    pub fields: Vec<Field>,
    pub metadata: TextMap<String>,
}

#[verifier::ext_equal]
pub struct SchemaView {
    pub fields: Seq<FieldView>,
    pub metadata: Seq<(Seq<char>, Seq<char>)>,
}

impl DeepView for Schema {
    type V = SchemaView;

    open spec fn deep_view(&self) -> SchemaView {
        SchemaView { fields: self.fields.deep_view(), metadata: self.metadata@ }
    }
}

/// Copies fields.
pub fn copy_fields(fields: &Vec<Field>) -> (copy: Vec<Field>)
    ensures
        copy.deep_view() == fields.deep_view(),
{
    let mut copy: Vec<Field> = Vec::new();
    let mut i: usize = 0;
    while i < fields.len()
        invariant
            i <= fields.len(),
            copy.deep_view() == fields.deep_view().take(i as int),
        decreases fields.len() - i,
    {
        let ghost before = copy.deep_view();
        copy.push(fields[i].clone());
        assert(copy.deep_view() =~= before.push(fields.deep_view()[i as int]));
        assert(copy.deep_view() =~= fields.deep_view().take(i + 1));
        i = i + 1;
    }
    assert(fields.deep_view().take(i as int) =~= fields.deep_view());
    copy
}

impl Clone for Schema {
    fn clone(&self) -> (copy: Self)
        ensures
            copy.deep_view() == self.deep_view(),
    {
        Schema { fields: copy_fields(&self.fields), metadata: self.metadata.clone() }
    }
}

/// Position of the first field called `name`, or the number of fields.
pub open spec fn field_index(fields: Seq<FieldView>, name: Seq<char>) -> int
    decreases fields.len(),
{
    if fields.len() == 0 || fields[0].name == name {
        0
    } else {
        1 + field_index(fields.drop_first(), name)
    }
}

/// `field_index` is the least position with that name.
pub proof fn lemma_field_index(fields: Seq<FieldView>, name: Seq<char>)
    ensures
        0 <= field_index(fields, name) <= fields.len(),
        forall|i: int| 0 <= i < field_index(fields, name) ==> (#[trigger] fields[i]).name != name,
        field_index(fields, name) < fields.len() ==> fields[field_index(fields, name)].name == name,
    decreases fields.len(),
{
    if fields.len() > 0 && fields[0].name != name {
        let rest = fields.drop_first();
        lemma_field_index(rest, name);
        assert forall|i: int| 0 <= i < field_index(fields, name) implies (
        #[trigger] fields[i]).name != name by {
            if i > 0 {
                assert(rest[i - 1].name != name);
            }
        }
        if field_index(fields, name) < fields.len() {
            assert(rest[field_index(rest, name)].name == name);
        }
    }
}

/// A position before which the name does not occur and where it does is `field_index`.
pub proof fn lemma_field_index_is(fields: Seq<FieldView>, name: Seq<char>, at: int)
    requires
        0 <= at <= fields.len(),
        forall|i: int| 0 <= i < at ==> (#[trigger] fields[i]).name != name,
        at < fields.len() ==> fields[at].name == name,
    ensures
        field_index(fields, name) == at,
{
    lemma_field_index(fields, name);
    let found = field_index(fields, name);
    if found < at {
        assert(fields[found].name == name);
    } else if at < found {
        assert(fields[at].name != name);
    }
}

impl Schema {
    /// Position of the first field called `name`.
    pub fn index_of(&self, name: &str) -> (index: Option<usize>)
        ensures
            match index {
                Some(at) => at < self.fields.len() && field_index(self.fields.deep_view(), name@)
                    == at,
                None => field_index(self.fields.deep_view(), name@) == self.fields.len(),
            },
    {
        let mut i: usize = 0;
        while i < self.fields.len()
            invariant
                i <= self.fields.len(),
                forall|k: int| 0 <= k < i ==> (#[trigger] self.fields.deep_view()[k]).name != name@,
            decreases self.fields.len() - i,
        {
            if same_text(&self.fields[i].name, name) {
                proof {
                    lemma_field_index_is(self.fields.deep_view(), name@, i as int);
                }
                return Some(i);
            }
            i = i + 1;
        }
        proof {
            lemma_field_index_is(self.fields.deep_view(), name@, i as int);
        }
        None
    }

    /// Tests two schemas for equality, metadata included.
    pub fn same(&self, other: &Schema) -> (same: bool)
        ensures
            same == (self.deep_view() == other.deep_view()),
    {
        same_fields(&self.fields, &other.fields) && same_metadata(&self.metadata, &other.metadata)
    }
}

/// Tests two field lists for equality.
pub fn same_fields(left: &Vec<Field>, right: &Vec<Field>) -> (same: bool)
    ensures
        same == (left.deep_view() == right.deep_view()),
{
    if left.len() != right.len() {
        assert(left.deep_view().len() != right.deep_view().len());
        return false;
    }
    let mut i: usize = 0;
    while i < left.len()
        invariant
            i <= left.len(),
            left.len() == right.len(),
            forall|k: int|
                0 <= k < i ==> #[trigger] left.deep_view()[k] == #[trigger] right.deep_view()[k],
        decreases left.len() - i,
    {
        if !left[i].same(&right[i]) {
            assert(left.deep_view()[i as int] != right.deep_view()[i as int]);
            return false;
        }
        i = i + 1;
    }
    assert(left.deep_view() =~= right.deep_view());
    true
}

/// Fields of the stable core and JSON fallback columns, in order.
pub open spec fn core_fields() -> Seq<FieldView> {
    seq![
        plain_field(COLUMN_SCHEMA_VERSION@, DataTypeView::UInt16, false),
        plain_field(COLUMN_TENANT_ID@, DataTypeView::Utf8, false),
        plain_field(COLUMN_WAL_SEQUENCE@, DataTypeView::UInt64, false),
        plain_field(COLUMN_RECORD_INDEX@, DataTypeView::UInt32, false),
        plain_field(COLUMN_TIME_UNIX_NANO@, DataTypeView::UInt64, true),
        plain_field(COLUMN_OBSERVED_TIME_UNIX_NANO@, DataTypeView::UInt64, true),
        plain_field(COLUMN_RECEIVED_TIME_UNIX_NANO@, DataTypeView::UInt64, false),
        plain_field(COLUMN_EVENT_TIME_UNIX_NANO@, DataTypeView::UInt64, false),
        plain_field(COLUMN_SEVERITY_NUMBER@, DataTypeView::Int32, true),
        plain_field(COLUMN_SEVERITY_TEXT@, DataTypeView::Utf8, true),
        plain_field(COLUMN_BODY@, DataTypeView::Utf8, true),
        plain_field(COLUMN_TRACE_ID@, DataTypeView::FixedSizeBinary(TRACE_ID_LEN), true),
        plain_field(COLUMN_SPAN_ID@, DataTypeView::FixedSizeBinary(SPAN_ID_LEN), true),
        plain_field(COLUMN_SERVICE_NAME@, DataTypeView::Utf8, true),
        plain_field(COLUMN_RESOURCE_ATTRIBUTES@, DataTypeView::Utf8, false),
        plain_field(COLUMN_SCOPE_ATTRIBUTES@, DataTypeView::Utf8, false),
        plain_field(COLUMN_LOG_ATTRIBUTES@, DataTypeView::Utf8, false),
    ]
}

/// A schema without file-level metadata.
pub open spec fn plain_schema(fields: Seq<FieldView>) -> SchemaView {
    SchemaView { fields, metadata: Seq::empty() }
}

/// Stable core and JSON fallback columns.
///
/// Dynamic attribute columns are appended by [`logs_batch_schema`]. A batch schema matches this
/// value only when the frame admitted no dynamic fields.
#[must_use]
pub fn logs_schema() -> (schema: Schema)
    ensures
        schema.deep_view() == plain_schema(core_fields()),
{
    let schema = Schema { fields: schema_fields(), metadata: TextMap::new() };
    assert(schema.deep_view() =~= plain_schema(core_fields()));
    schema
}

/// Stable core and JSON fallback columns, which every batch starts with.
#[must_use]
pub fn core_logs_schema() -> (schema: Schema)
    ensures
        schema.deep_view() == plain_schema(core_fields()),
{
    logs_schema()
}

/// Core columns followed by the frame's admitted dynamic fields.
#[must_use]
pub fn logs_batch_schema(dynamic: &Vec<Field>) -> (schema: Schema)
    ensures
        schema.deep_view() == plain_schema(core_fields() + dynamic.deep_view()),
{
    let mut fields = schema_fields();
    let mut extra = copy_fields(dynamic);
    let ghost core = fields.deep_view();
    let ghost added = extra.deep_view();
    fields.append(&mut extra);
    assert(fields.deep_view() =~= core + added);
    Schema { fields, metadata: TextMap::new() }
}

/// Fields of the stable core and JSON fallback columns, in order.
pub fn schema_fields() -> (fields: Vec<Field>)
    ensures
        fields.deep_view() == core_fields(),
{
    let fields: Vec<Field> = vec![
        Field::new(COLUMN_SCHEMA_VERSION, DataType::UInt16, false),
        Field::new(COLUMN_TENANT_ID, DataType::Utf8, false),
        Field::new(COLUMN_WAL_SEQUENCE, DataType::UInt64, false),
        Field::new(COLUMN_RECORD_INDEX, DataType::UInt32, false),
        Field::new(COLUMN_TIME_UNIX_NANO, DataType::UInt64, true),
        Field::new(COLUMN_OBSERVED_TIME_UNIX_NANO, DataType::UInt64, true),
        Field::new(COLUMN_RECEIVED_TIME_UNIX_NANO, DataType::UInt64, false),
        Field::new(COLUMN_EVENT_TIME_UNIX_NANO, DataType::UInt64, false),
        Field::new(COLUMN_SEVERITY_NUMBER, DataType::Int32, true),
        Field::new(COLUMN_SEVERITY_TEXT, DataType::Utf8, true),
        Field::new(COLUMN_BODY, DataType::Utf8, true),
        Field::new(COLUMN_TRACE_ID, DataType::FixedSizeBinary(TRACE_ID_LEN), true),
        Field::new(COLUMN_SPAN_ID, DataType::FixedSizeBinary(SPAN_ID_LEN), true),
        Field::new(COLUMN_SERVICE_NAME, DataType::Utf8, true),
        Field::new(COLUMN_RESOURCE_ATTRIBUTES, DataType::Utf8, false),
        Field::new(COLUMN_SCOPE_ATTRIBUTES, DataType::Utf8, false),
        Field::new(COLUMN_LOG_ATTRIBUTES, DataType::Utf8, false),
    ];
    assert(fields.deep_view() =~= core_fields());
    fields
}

} // verus!
