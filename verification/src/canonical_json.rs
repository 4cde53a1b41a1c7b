//! Canonical JSON for OTLP `AnyValue` and attribute lists.
//!
//! Objects sort keys by UTF-8 byte order and keep the last value when a key repeats.
//! Scalars, arrays, and maps stay native JSON values. Bytes become `{"$bytes":"<base64>"}`.
//! Non-finite floats become `{"$float":"NaN"}`, `{"$float":"Infinity"}`, or
//! `{"$float":"-Infinity"}`. Empty values and profiling string indexes become JSON null.
use base64::Engine;
use vstd::prelude::*;
use crate::floats;
use crate::naming;
use crate::otlp::{AnyValue, Double, KeyValue, Value};
use crate::sorted;
use crate::sorted::TextMap;
use crate::text;
use crate::text::push_signed;

verus! {

/// Maximum nested `AnyValue` depth accepted by the encoder.
pub const MAX_JSON_DEPTH: usize = 64;

/// Why an OTLP value could not be encoded as canonical JSON.
#[derive(Clone, Copy, Debug, PartialEq, Eq, Structural)]
pub enum CanonicalJsonError {
    /// Arrays or maps are nested deeper than [`MAX_JSON_DEPTH`].
    NestingTooDeep,
}

impl CanonicalJsonError {
    /// The message of this error.
    pub fn message(&self) -> (message: String)
        ensures
            message@ == "OTLP value nesting is too deep"@,
    {
        "OTLP value nesting is too deep".to_owned()
    }
}

/// What stands for a character in a JSON string: an escape for quotes, backslashes and control
/// characters, the short one where there is one, and the character itself otherwise.
pub open spec fn json_character(character: char) -> Seq<char> {
    let code = character as int;
    if character == '"' || character == '\\' {
        seq!['\\', character]
    } else if code == 8 {
        seq!['\\', 'b']
    } else if code == 9 {
        seq!['\\', 't']
    } else if code == 10 {
        seq!['\\', 'n']
    } else if code == 12 {
        seq!['\\', 'f']
    } else if code == 13 {
        seq!['\\', 'r']
    } else if code < 32 {
        seq!['\\', 'u', '0', '0', naming::hex_digit(code / 16), naming::hex_digit(code % 16)]
    } else {
        seq![character]
    }
}

pub open spec fn json_escaped(value: Seq<char>) -> Seq<char>
    decreases value.len(),
{
    if value.len() == 0 {
        Seq::empty()
    } else {
        json_escaped(value.drop_last()) + json_character(value.last())
    }
}

/// The JSON string of a text.
pub open spec fn json_string(value: Seq<char>) -> Seq<char> {
    seq!['"'] + json_escaped(value) + seq!['"']
}

/// The character of six bits in the standard Base64 alphabet.
pub open spec fn base64_digit(bits: int) -> char {
    if bits < 26 {
        (('A' as int) + bits) as char
    } else if bits < 52 {
        (('a' as int) + (bits - 26)) as char
    } else if bits < 62 {
        (('0' as int) + (bits - 52)) as char
    } else if bits == 62 {
        '+'
    } else {
        '/'
    }
}

/// The Base64 text of bytes, padded.
pub open spec fn base64_text(bytes: Seq<u8>) -> Seq<char>
    decreases bytes.len(),
{
    let (first, second, third) = (bytes[0] as int, bytes[1] as int, bytes[2] as int);
    if bytes.len() == 0 {
        Seq::empty()
    } else if bytes.len() == 1 {
        seq![base64_digit(first / 4), base64_digit((first % 4) * 16), '=', '=']
    } else if bytes.len() == 2 {
        seq![
            base64_digit(first / 4),
            base64_digit((first % 4) * 16 + second / 16),
            base64_digit((second % 16) * 4),
            '=',
        ]
    } else {
        seq![
            base64_digit(first / 4),
            base64_digit((first % 4) * 16 + second / 16),
            base64_digit((second % 16) * 4 + third / 64),
            base64_digit(third % 64),
        ] + base64_text(bytes.skip(3))
    }
}

/// `serde_json::to_string` of a string slice: a quoted, escaped JSON string.
#[verifier::external_body]
pub(crate) fn quote(value: &str) -> (json: String)
    ensures
        json@ == json_string(value@),
{
    serde_json::to_string(value).expect("text is JSON")
}

/// `base64`'s `STANDARD.encode`: the padded standard alphabet.
#[verifier::external_body]
fn encode_base64(bytes: &Vec<u8>) -> (encoded: String)
    ensures
        encoded@ == base64_text(bytes@),
{
    base64::engine::general_purpose::STANDARD.encode(bytes)
}

/// The parts with a comma between neighbours.
pub open spec fn comma_joined(parts: Seq<Seq<char>>) -> Seq<char>
    decreases parts.len(),
{
    if parts.len() == 0 {
        Seq::empty()
    } else if parts.len() == 1 {
        parts[0]
    } else {
        comma_joined(parts.drop_last()) + ","@ + parts.last()
    }
}

/// One `"key":value` member.
pub open spec fn member_text(entry: (Seq<char>, Seq<char>)) -> Seq<char> {
    json_string(entry.0) + ":"@ + entry.1
}

pub open spec fn member_texts(entries: Seq<(Seq<char>, Seq<char>)>) -> Seq<Seq<char>> {
    entries.map_values(|entry: (Seq<char>, Seq<char>)| member_text(entry))
}

/// An object of already encoded values.
pub open spec fn object_text(entries: Seq<(Seq<char>, Seq<char>)>) -> Seq<char> {
    "{"@ + comma_joined(member_texts(entries)) + "}"@
}

/// An array of already encoded values.
pub open spec fn array_text(items: Seq<Seq<char>>) -> Seq<char> {
    "["@ + comma_joined(items) + "]"@
}

/// An object whose only member is a string.
pub open spec fn tagged_text(tag: Seq<char>, value: Seq<char>) -> Seq<char> {
    object_text(seq![(tag, json_string(value))])
}

/// A float: its JSON number, or a tagged name where JSON has no number for it.
pub open spec fn double_text(number: Double) -> Seq<char> {
    if floats::float_nan(number.bits) {
        tagged_text("$float"@, "NaN"@)
    } else if !floats::float_finite(number.bits) {
        if number.bits < floats::SIGN_UNIT {
            tagged_text("$float"@, "Infinity"@)
        } else {
            tagged_text("$float"@, "-Infinity"@)
        }
    } else {
        number.json@
    }
}

/// Canonical JSON of a value at a nesting depth, unless it is nested too deep.
pub open spec fn value_text(value: AnyValue, depth: nat) -> Option<Seq<char>>
    decreases value,
{
    if depth >= MAX_JSON_DEPTH {
        None
    } else {
        match value.value {
            None => Some("null"@),
            Some(Value::StringValueStrindex(_)) => Some("null"@),
            Some(Value::StringValue(value)) => Some(json_string(value@)),
            Some(Value::BoolValue(flag)) => Some(
                if flag {
                    "true"@
                } else {
                    "false"@
                },
            ),
            Some(Value::IntValue(integer)) => Some(text::signed_text(integer as int)),
            Some(Value::DoubleValue(number)) => Some(double_text(number)),
            Some(Value::ArrayValue(array)) => match item_texts(array.values@, depth + 1) {
                None => None,
                Some(items) => Some(array_text(items)),
            },
            Some(Value::KvlistValue(list)) => match entry_texts(list.values@, depth + 1) {
                None => None,
                Some(entries) => Some(object_text(entries)),
            },
            Some(Value::BytesValue(bytes)) => Some(tagged_text("$bytes"@, base64_text(bytes@))),
        }
    }
}

/// Canonical JSON of each value, unless one is nested too deep.
pub open spec fn item_texts(values: Seq<AnyValue>, depth: nat) -> Option<Seq<Seq<char>>>
    decreases values,
{
    if values.len() == 0 {
        Some(Seq::empty())
    } else {
        match (item_texts(values.drop_last(), depth), value_text(values.last(), depth)) {
            (Some(items), Some(item)) => Some(items.push(item)),
            _ => None,
        }
    }
}

/// Canonical JSON of each attribute by key, unless one is nested too deep. The last of two equal
/// keys wins.
pub open spec fn entry_texts(attributes: Seq<KeyValue>, depth: nat) -> Option<
    Seq<(Seq<char>, Seq<char>)>,
>
    decreases attributes,
{
    if attributes.len() == 0 {
        Some(Seq::empty())
    } else {
        let attribute = attributes.last();
        let encoded = match attribute.value {
            None => Some("null"@),
            Some(value) => value_text(value, depth),
        };
        match (entry_texts(attributes.drop_last(), depth), encoded) {
            (Some(entries), Some(encoded)) => Some(
                sorted::put(entries, attribute.key@, encoded),
            ),
            _ => None,
        }
    }
}

/// Canonical JSON of an attribute list.
pub open spec fn attributes_text(attributes: Seq<KeyValue>) -> Option<Seq<char>> {
    match entry_texts(attributes, 0) {
        None => None,
        Some(entries) => Some(object_text(entries)),
    }
}

/// The outcome of an encoder agrees with the encoding.
pub open spec fn encodes(
    result: Result<String, CanonicalJsonError>,
    encoding: Option<Seq<char>>,
) -> bool {
    match result {
        Ok(json) => encoding == Some(json@),
        Err(error) => encoding is None && error is NestingTooDeep,
    }
}

/// Encode an attribute list as a compact canonical JSON object.
pub fn canonical_attributes_json(attributes: &[KeyValue]) -> (json: Result<
    String,
    CanonicalJsonError,
>)
    ensures
        encodes(json, attributes_text(attributes@)),
{
    let entries = attributes_value(attributes, 0)?;
    Ok(write_object(&entries))
}

/// Encode one `AnyValue` as compact canonical JSON.
pub fn canonical_any_value_json(value: &AnyValue) -> (json: Result<String, CanonicalJsonError>)
    ensures
        encodes(json, value_text(*value, 0)),
{
    any_value_to_json(value, 0)
}

proof fn lemma_entries_fail(attributes: Seq<KeyValue>, depth: nat, count: int)
    requires
        0 <= count <= attributes.len(),
        entry_texts(attributes.take(count), depth) is None,
    ensures
        entry_texts(attributes, depth) is None,
    decreases attributes.len() - count,
{
    if count < attributes.len() {
        assert(attributes.take(count + 1).drop_last() =~= attributes.take(count));
        lemma_entries_fail(attributes, depth, count + 1);
    } else {
        assert(attributes.take(count) =~= attributes);
    }
}

proof fn lemma_items_fail(values: Seq<AnyValue>, depth: nat, count: int)
    requires
        0 <= count <= values.len(),
        item_texts(values.take(count), depth) is None,
    ensures
        item_texts(values, depth) is None,
    decreases values.len() - count,
{
    if count < values.len() {
        assert(values.take(count + 1).drop_last() =~= values.take(count));
        lemma_items_fail(values, depth, count + 1);
    } else {
        assert(values.take(count) =~= values);
    }
}

/// Encoded attributes by key.
fn attributes_value(attributes: &[KeyValue], depth: usize) -> (entries: Result<
    TextMap<String>,
    CanonicalJsonError,
>)
    requires
        depth <= MAX_JSON_DEPTH,
    ensures
        match entries {
            Ok(entries) => entry_texts(attributes@, depth as nat) == Some(entries@),
            Err(_) => entry_texts(attributes@, depth as nat) is None,
        },
    decreases attributes@,
{
    let mut entries: TextMap<String> = TextMap::new();
    let mut i: usize = 0;
    assert(attributes@.take(0) =~= Seq::empty());
    while i < attributes.len()
        invariant
            i <= attributes.len(),
            depth <= MAX_JSON_DEPTH,
            entry_texts(attributes@.take(i as int), depth as nat) == Some(entries@),
        decreases attributes.len() - i,
    {
        let attribute = &attributes[i];
        assert(attributes@.take(i + 1).drop_last() =~= attributes@.take(i as int));
        proof {
            assert(decreases_to!(attributes@ => attributes@[i as int]));
        }
        let encoded = match &attribute.value {
            None => "null".to_owned(),
            Some(value) => match any_value_to_json(value, depth) {
                Ok(encoded) => encoded,
                Err(error) => {
                    proof {
                        lemma_entries_fail(attributes@, depth as nat, i + 1);
                    }
                    return Err(error);
                },
            },
        };
        entries.insert(attribute.key.clone(), encoded);
        i = i + 1;
    }
    assert(attributes@.take(i as int) =~= attributes@);
    Ok(entries)
}

/// Encoded items of an array.
fn array_items(values: &Vec<AnyValue>, depth: usize) -> (items: Result<
    Vec<String>,
    CanonicalJsonError,
>)
    requires
        depth <= MAX_JSON_DEPTH,
    ensures
        match items {
            Ok(items) => item_texts(values@, depth as nat) == Some(items.deep_view()),
            Err(_) => item_texts(values@, depth as nat) is None,
        },
    decreases values,
{
    let mut items: Vec<String> = Vec::new();
    let mut i: usize = 0;
    assert(values@.take(0) =~= Seq::empty());
    assert(items.deep_view() =~= Seq::empty());
    while i < values.len()
        invariant
            i <= values.len(),
            depth <= MAX_JSON_DEPTH,
            item_texts(values@.take(i as int), depth as nat) == Some(items.deep_view()),
        decreases values.len() - i,
    {
        assert(values@.take(i + 1).drop_last() =~= values@.take(i as int));
        proof {
            assert(decreases_to!(values => values@));
            assert(decreases_to!(values@ => values@[i as int]));
        }
        match any_value_to_json(&values[i], depth) {
            Ok(item) => {
                let ghost before = items.deep_view();
                items.push(item);
                assert(items.deep_view() =~= before.push(item@));
            },
            Err(error) => {
                proof {
                    lemma_items_fail(values@, depth as nat, i + 1);
                }
                return Err(error);
            },
        }
        i = i + 1;
    }
    assert(values@.take(i as int) =~= values@);
    Ok(items)
}

fn any_value_to_json(value: &AnyValue, depth: usize) -> (json: Result<String, CanonicalJsonError>)
    requires
        depth <= MAX_JSON_DEPTH,
    ensures
        encodes(json, value_text(*value, depth as nat)),
    decreases *value,
{
    if depth >= MAX_JSON_DEPTH {
        return Err(CanonicalJsonError::NestingTooDeep);
    }
    match &value.value {
        None => Ok("null".to_owned()),
        Some(Value::StringValueStrindex(_)) => Ok("null".to_owned()),
        Some(Value::StringValue(value)) => Ok(quote(value)),
        Some(Value::BoolValue(flag)) => Ok(
            if *flag {
                "true".to_owned()
            } else {
                "false".to_owned()
            },
        ),
        Some(Value::IntValue(integer)) => {
            let mut json = String::new();
            push_signed(&mut json, *integer);
            assert(json@ =~= text::signed_text(*integer as int));
            Ok(json)
        },
        Some(Value::DoubleValue(number)) => Ok(float_value(number)),
        Some(Value::ArrayValue(array)) => {
            let items = array_items(&array.values, depth + 1)?;
            Ok(write_array(&items))
        },
        Some(Value::KvlistValue(list)) => {
            let entries = attributes_value(list.values.as_slice(), depth + 1)?;
            Ok(write_object(&entries))
        },
        Some(Value::BytesValue(bytes)) => Ok(tagged_string("$bytes", &encode_base64(bytes))),
    }
}

fn float_value(number: &Double) -> (json: String)
    ensures
        json@ == double_text(*number),
{
    if floats::is_float_nan(number.bits) {
        tagged_string("$float", "NaN")
    } else if !floats::is_float_finite(number.bits) {
        if number.bits < floats::SIGN_UNIT {
            tagged_string("$float", "Infinity")
        } else {
            tagged_string("$float", "-Infinity")
        }
    } else {
        number.json.clone()
    }
}

fn tagged_string(tag: &str, value: &str) -> (json: String)
    ensures
        json@ == tagged_text(tag@, value@),
{
    let mut entries: TextMap<String> = TextMap::new();
    entries.insert(tag.to_owned(), quote(value));
    assert(entries@ =~= seq![(tag@, json_string(value@))]);
    write_object(&entries)
}

fn write_array(items: &Vec<String>) -> (json: String)
    ensures
        json@ == array_text(items.deep_view()),
{
    let ghost all = items.deep_view();
    let mut json = "[".to_owned();
    let mut i: usize = 0;
    assert(all.take(0) =~= Seq::empty());
    assert(json@ =~= "["@ + comma_joined(all.take(0)));
    while i < items.len()
        invariant
            i <= items.len(),
            all == items.deep_view(),
            json@ == "["@ + comma_joined(all.take(i as int)),
        decreases items.len() - i,
    {
        assert(all.take(i + 1).drop_last() =~= all.take(i as int));
        if i > 0 {
            json.append(",");
        }
        json.append(&items[i]);
        assert(json@ =~= "["@ + comma_joined(all.take(i + 1)));
        i = i + 1;
    }
    assert(all.take(i as int) =~= all);
    json.append("]");
    json
}

fn write_object(entries: &TextMap<String>) -> (json: String)
    ensures
        json@ == object_text(entries@),
{
    let ghost all = member_texts(entries@);
    let mut json = "{".to_owned();
    let mut i: usize = 0;
    assert(all.take(0) =~= Seq::empty());
    assert(json@ =~= "{"@ + comma_joined(all.take(0)));
    while i < entries.len()
        invariant
            i <= entries@.len(),
            all == member_texts(entries@),
            json@ == "{"@ + comma_joined(all.take(i as int)),
        decreases entries@.len() - i,
    {
        assert(all.take(i + 1).drop_last() =~= all.take(i as int));
        assert(all[i as int] == member_text(entries@[i as int]));
        if i > 0 {
            json.append(",");
        }
        json.append(&quote(entries.key_at(i)));
        json.append(":");
        json.append(entries.value_at(i));
        assert(json@ =~= "{"@ + comma_joined(all.take(i + 1)));
        i = i + 1;
    }
    assert(all.take(i as int) =~= all);
    json.append("}");
    json
}

/// Members of a canonical object ascend by key, so that equal attribute sets have one encoding.
pub proof fn objects_sort_their_keys(attributes: Seq<KeyValue>, depth: nat)
    requires
        entry_texts(attributes, depth) is Some,
    ensures
        sorted::keys_sorted(entry_texts(attributes, depth)->0),
    decreases attributes.len(),
{
    if attributes.len() > 0 {
        let front = attributes.drop_last();
        objects_sort_their_keys(front, depth);
        let attribute = attributes.last();
        let encoded = match attribute.value {
            None => "null"@,
            Some(value) => value_text(value, depth)->0,
        };
        sorted::lemma_put_sorted(entry_texts(front, depth)->0, attribute.key@, encoded);
    }
}

/// A key of a canonical object holds the encoding of its last occurrence.
pub proof fn the_last_value_of_a_key_wins(attributes: Seq<KeyValue>, depth: nat, at: int)
    requires
        entry_texts(attributes, depth) is Some,
        0 <= at < attributes.len(),
        forall|later: int|
            at < later < attributes.len() ==> (#[trigger] attributes[later]).key@
                != attributes[at].key@,
    ensures
        sorted::lookup(entry_texts(attributes, depth)->0, attributes[at].key@)
            == match attributes[at].value {
            None => Some("null"@),
            Some(value) => value_text(value, depth),
        },
    decreases attributes.len(),
{
    let front = attributes.drop_last();
    let attribute = attributes.last();
    let encoded = match attribute.value {
        None => "null"@,
        Some(value) => value_text(value, depth)->0,
    };
    let entries = entry_texts(front, depth)->0;
    sorted::lemma_lookup_put(entries, attribute.key@, encoded, attributes[at].key@);
    if at < attributes.len() - 1 {
        assert(front[at] == attributes[at]);
        the_last_value_of_a_key_wins(front, depth, at);
    }
}

/// Whether a value is nested in fewer than `levels` arrays and maps, counting itself.
pub open spec fn nested_below(value: AnyValue, levels: nat) -> bool
    decreases value,
{
    &&& levels > 0
    &&& match value.value {
        Some(Value::ArrayValue(array)) => forall|i: int|
            0 <= i < array.values@.len() ==> nested_below(
                #[trigger] array.values@[i],
                (levels - 1) as nat,
            ),
        Some(Value::KvlistValue(list)) => forall|i: int|
            0 <= i < list.values@.len() && (#[trigger] list.values@[i]).value is Some
                ==> nested_below(list.values@[i].value->0, (levels - 1) as nat),
        _ => true,
    }
}

/// A value is encoded unless it is nested too deep: sixty-four levels, counting the value itself, are
/// the most.
pub proof fn only_deep_values_are_refused(value: AnyValue, depth: nat)
    ensures
        value_text(value, depth) is Some <==> depth < 64 && nested_below(
            value,
            (64 - depth) as nat,
        ),
    decreases value, 0int,
{
    if depth < 64 {
        match value.value {
            Some(Value::ArrayValue(array)) => {
                lemma_items_refused(array.values@, depth + 1);
            },
            Some(Value::KvlistValue(list)) => {
                only_deep_attributes_are_refused(list.values@, depth + 1);
            },
            _ => {},
        }
    }
}

proof fn lemma_items_refused(values: Seq<AnyValue>, depth: nat)
    requires
        depth <= 64,
    ensures
        item_texts(values, depth) is Some <==> forall|i: int|
            0 <= i < values.len() ==> nested_below(#[trigger] values[i], (64 - depth) as nat),
    decreases values, 1int,
{
    if values.len() > 0 {
        let front = values.drop_last();
        let last = values[values.len() - 1];
        assert(decreases_to!(values => front));
        assert(decreases_to!(values => values[values.len() - 1]));
        lemma_items_refused(front, depth);
        only_deep_values_are_refused(last, depth);
        if item_texts(values, depth) is Some {
            assert forall|i: int| 0 <= i < values.len() implies nested_below(
                #[trigger] values[i],
                (64 - depth) as nat,
            ) by {
                if i < front.len() {
                    assert(front[i] == values[i]);
                }
            }
        }
        if forall|i: int|
            0 <= i < values.len() ==> nested_below(#[trigger] values[i], (64 - depth) as nat) {
            assert forall|i: int| 0 <= i < front.len() implies nested_below(
                #[trigger] front[i],
                (64 - depth) as nat,
            ) by {
                assert(front[i] == values[i]);
            }
            assert(nested_below(values[values.len() - 1], (64 - depth) as nat));
        }
    }
}

/// An attribute list is encoded unless one of its values is nested too deep.
pub proof fn only_deep_attributes_are_refused(attributes: Seq<KeyValue>, depth: nat)
    requires
        depth <= 64,
    ensures
        entry_texts(attributes, depth) is Some <==> forall|i: int|
            0 <= i < attributes.len() && (#[trigger] attributes[i]).value is Some ==> nested_below(
                attributes[i].value->0,
                (64 - depth) as nat,
            ),
    decreases attributes, 1int,
{
    if attributes.len() > 0 {
        let front = attributes.drop_last();
        let end = attributes.len() - 1;
        assert(decreases_to!(attributes => front));
        assert(decreases_to!(attributes => attributes[end]));
        only_deep_attributes_are_refused(front, depth);
        if attributes[end].value is Some {
            only_deep_values_are_refused(attributes[end].value->0, depth);
        }
        if entry_texts(attributes, depth) is Some {
            assert forall|i: int|
                0 <= i < attributes.len() && (
                #[trigger] attributes[i]).value is Some implies nested_below(
                attributes[i].value->0,
                (64 - depth) as nat,
            ) by {
                if i < front.len() {
                    assert(front[i] == attributes[i]);
                }
            }
        }
        if forall|i: int|
            0 <= i < attributes.len() && (#[trigger] attributes[i]).value is Some ==> nested_below(
                attributes[i].value->0,
                (64 - depth) as nat,
            ) {
            assert forall|i: int|
                0 <= i < front.len() && (#[trigger] front[i]).value is Some implies nested_below(
                front[i].value->0,
                (64 - depth) as nat,
            ) by {
                assert(front[i] == attributes[i]);
            }
            assert(attributes[end] == attributes.last());
        }
    }
}

/// What is nested in few levels is nested in more.
pub proof fn lemma_nested_monotone(value: AnyValue, few: nat, more: nat)
    requires
        nested_below(value, few),
        few <= more,
    ensures
        nested_below(value, more),
    decreases value,
{
    match value.value {
        Some(Value::ArrayValue(array)) => {
            assert forall|i: int| 0 <= i < array.values@.len() implies nested_below(
                #[trigger] array.values@[i],
                (more - 1) as nat,
            ) by {
                assert(decreases_to!(array.values@ => array.values@[i]));
                lemma_nested_monotone(array.values@[i], (few - 1) as nat, (more - 1) as nat);
            }
        },
        Some(Value::KvlistValue(list)) => {
            assert forall|i: int|
                0 <= i < list.values@.len() && (
                #[trigger] list.values@[i]).value is Some implies nested_below(
                list.values@[i].value->0,
                (more - 1) as nat,
            ) by {
                assert(decreases_to!(list.values@ => list.values@[i]));
                lemma_nested_monotone(
                    list.values@[i].value->0,
                    (few - 1) as nat,
                    (more - 1) as nat,
                );
            }
        },
        _ => {},
    }
}

} // verus!
