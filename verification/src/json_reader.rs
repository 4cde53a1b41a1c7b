//! What canonical JSON says: a reader of JSON text, as a specification, and the law that it reads back
//! what the encoder wrote.
use vstd::prelude::*;
use crate::canonical_json;
use crate::dynamic;
use crate::floats;
use crate::naming;
use crate::otlp::{AnyValue, KeyValue, Value};
use crate::sorted;
use crate::text;

verus! {

/// A JSON value. A number is held by its text.
pub enum Json {
    Null,
    Bool(bool),
    Number(Seq<char>),
    Text(Seq<char>),
    List(Seq<Json>),
    Object(Seq<(Seq<char>, Json)>),
}

// Reading.

/// The number that a hex digit stands for.
pub open spec fn hex_value(digit: char) -> int {
    if '0' as int <= digit as int <= '9' as int {
        digit as int - '0' as int
    } else {
        digit as int - 'a' as int + 10
    }
}

/// The character behind a backslash and one character.
pub open spec fn escape_of(escape: char) -> Option<char> {
    if escape == '"' || escape == '\\' || escape == '/' {
        Some(escape)
    } else if escape == 'b' {
        Some(8u8 as char)
    } else if escape == 't' {
        Some(9u8 as char)
    } else if escape == 'n' {
        Some(10u8 as char)
    } else if escape == 'f' {
        Some(12u8 as char)
    } else if escape == 'r' {
        Some(13u8 as char)
    } else {
        None
    }
}

/// One character before what was read.
pub open spec fn prepended(character: char, read: Option<(Seq<char>, Seq<char>)>) -> Option<
    (Seq<char>, Seq<char>),
> {
    match read {
        None => None,
        Some((value, rest)) => Some((seq![character] + value, rest)),
    }
}

/// The characters up to the closing quote, and what follows it.
pub open spec fn read_chars(input: Seq<char>) -> Option<(Seq<char>, Seq<char>)>
    decreases input.len(),
{
    if input.len() == 0 {
        None
    } else if input[0] == '"' {
        Some((Seq::empty(), input.skip(1)))
    } else if input[0] == '\\' {
        if input.len() < 2 {
            None
        } else if input[1] == 'u' {
            if input.len() < 6 {
                None
            } else {
                let code = hex_value(input[2]) * 4096 + hex_value(input[3]) * 256 + hex_value(
                    input[4],
                ) * 16 + hex_value(input[5]);
                prepended(code as char, read_chars(input.skip(6)))
            }
        } else {
            match escape_of(input[1]) {
                None => None,
                Some(character) => prepended(character, read_chars(input.skip(2))),
            }
        }
    } else {
        prepended(input[0], read_chars(input.skip(1)))
    }
}

/// Whether a character can stand in a number.
pub open spec fn in_number(character: char) -> bool {
    '0' as int <= character as int <= '9' as int || character == '-' || character == '+'
        || character == '.' || character == 'e' || character == 'E'
}

/// Where the number that starts before `at` ends.
pub open spec fn number_end(input: Seq<char>, at: int) -> int
    decreases input.len() - at,
{
    if 0 <= at < input.len() && in_number(input[at]) {
        number_end(input, at + 1)
    } else {
        at
    }
}

/// Whether text starts with other text.
pub open spec fn starts_with(input: Seq<char>, start: Seq<char>) -> bool {
    start.len() <= input.len() && input.take(start.len() as int) == start
}

/// The value at the start of a text, and what follows it.
pub open spec fn read(input: Seq<char>, fuel: nat) -> Option<(Json, Seq<char>)>
    decreases fuel, 0int,
{
    if input.len() == 0 {
        None
    } else if input[0] == '"' {
        match read_chars(input.skip(1)) {
            None => None,
            Some((value, rest)) => Some((Json::Text(value), rest)),
        }
    } else if input[0] == '[' {
        if fuel == 0 {
            None
        } else if input.len() > 1 && input[1] == ']' {
            Some((Json::List(Seq::empty()), input.skip(2)))
        } else {
            match read_items(input.skip(1), (fuel - 1) as nat) {
                None => None,
                Some((items, rest)) => Some((Json::List(items), rest)),
            }
        }
    } else if input[0] == '{' {
        if fuel == 0 {
            None
        } else if input.len() > 1 && input[1] == '}' {
            Some((Json::Object(Seq::empty()), input.skip(2)))
        } else {
            match read_members(input.skip(1), (fuel - 1) as nat) {
                None => None,
                Some((members, rest)) => Some((Json::Object(members), rest)),
            }
        }
    } else if starts_with(input, seq!['n', 'u', 'l', 'l']) {
        Some((Json::Null, input.skip(4)))
    } else if starts_with(input, seq!['t', 'r', 'u', 'e']) {
        Some((Json::Bool(true), input.skip(4)))
    } else if starts_with(input, seq!['f', 'a', 'l', 's', 'e']) {
        Some((Json::Bool(false), input.skip(5)))
    } else if in_number(input[0]) {
        let end = number_end(input, 0);
        Some((Json::Number(input.take(end)), input.skip(end)))
    } else {
        None
    }
}

/// The items up to the closing bracket, and what follows it.
pub open spec fn read_items(input: Seq<char>, fuel: nat) -> Option<(Seq<Json>, Seq<char>)>
    decreases fuel, 1int,
{
    match read(input, fuel) {
        None => None,
        Some((item, rest)) => if rest.len() > 0 && rest[0] == ']' {
            Some((seq![item], rest.skip(1)))
        } else if rest.len() > 0 && rest[0] == ',' && fuel > 0 {
            match read_items(rest.skip(1), (fuel - 1) as nat) {
                None => None,
                Some((more, rest)) => Some((seq![item] + more, rest)),
            }
        } else {
            None
        },
    }
}

/// The members up to the closing brace, and what follows it.
pub open spec fn read_members(input: Seq<char>, fuel: nat) -> Option<
    (Seq<(Seq<char>, Json)>, Seq<char>),
>
    decreases fuel, 1int,
{
    if input.len() == 0 || input[0] != '"' {
        None
    } else {
        match read_chars(input.skip(1)) {
            None => None,
            Some((key, after)) => if after.len() == 0 || after[0] != ':' {
                None
            } else {
                match read(after.skip(1), fuel) {
                    None => None,
                    Some((value, rest)) => if rest.len() > 0 && rest[0] == '}' {
                        Some((seq![(key, value)], rest.skip(1)))
                    } else if rest.len() > 0 && rest[0] == ',' && fuel > 0 {
                        match read_members(rest.skip(1), (fuel - 1) as nat) {
                            None => None,
                            Some((more, rest)) => Some((seq![(key, value)] + more, rest)),
                        }
                    } else {
                        None
                    },
                }
            },
        }
    }
}

/// The number that decimal digits stand for.
pub open spec fn digits_value(digits: Seq<char>) -> int
    decreases digits.len(),
{
    if digits.len() == 0 {
        0
    } else {
        digits_value(digits.drop_last()) * 10 + (digits.last() as int - '0' as int)
    }
}

/// The number that a JSON number without fraction and exponent stands for.
pub open spec fn integer_value(number: Seq<char>) -> int {
    if number.len() > 0 && number[0] == '-' {
        -digits_value(number.skip(1))
    } else {
        digits_value(number)
    }
}

// Values.

/// Whether the text that a value gives for each of its finite floats is that of a number.
pub open spec fn numbers_plain(value: AnyValue) -> bool
    decreases value,
{
    match value.value {
        Some(Value::DoubleValue(number)) => floats::float_finite(number.bits) ==> number.json@.len()
            > 0 && forall|i: int|
            0 <= i < number.json@.len() ==> in_number(#[trigger] number.json@[i]),
        Some(Value::ArrayValue(array)) => forall|i: int|
            0 <= i < array.values@.len() ==> numbers_plain(#[trigger] array.values@[i]),
        Some(Value::KvlistValue(list)) => forall|i: int|
            0 <= i < list.values@.len() && (#[trigger] list.values@[i]).value is Some
                ==> numbers_plain(list.values@[i].value->0),
        _ => true,
    }
}

/// Whether a JSON value says what an OTLP value says.
pub open spec fn says(json: Json, value: AnyValue) -> bool
    decreases value,
{
    match value.value {
        None => json is Null,
        Some(Value::StringValueStrindex(_)) => json is Null,
        Some(Value::StringValue(content)) => json == Json::Text(content@),
        Some(Value::BoolValue(flag)) => json == Json::Bool(flag),
        Some(Value::IntValue(integer)) => json is Number && integer_value(json->Number_0)
            == integer,
        Some(Value::DoubleValue(number)) => if floats::float_nan(number.bits) {
            json == Json::Object(seq![("$float"@, Json::Text("NaN"@))])
        } else if !floats::float_finite(number.bits) {
            json == Json::Object(
                seq![
                    (
                        "$float"@,
                        Json::Text(
                            if number.bits < floats::SIGN_UNIT {
                                "Infinity"@
                            } else {
                                "-Infinity"@
                            },
                        ),
                    ),
                ],
            )
        } else {
            json == Json::Number(number.json@)
        },
        Some(Value::BytesValue(bytes)) => json == Json::Object(
            seq![("$bytes"@, Json::Text(canonical_json::base64_text(bytes@)))],
        ),
        Some(Value::ArrayValue(array)) => {
            &&& json is List
            &&& json->List_0.len() == array.values@.len()
            &&& forall|i: int|
                0 <= i < array.values@.len() ==> says(
                    json->List_0[i],
                    #[trigger] array.values@[i],
                )
        },
        Some(Value::KvlistValue(list)) => {
            &&& json is Object
            &&& members_ascend(json->Object_0)
            &&& forall|at: int|
                0 <= at < list.values@.len() ==> has_member(
                    json->Object_0,
                    (#[trigger] list.values@[at]).key@,
                )
            &&& forall|i: int|
                0 <= i < json->Object_0.len() ==> exists|at: int|
                    0 <= at < list.values@.len() && dynamic::is_last_of_key(list.values@, at)
                        && list.values@[at].key@ == (#[trigger] json->Object_0[i]).0 && match (
                    #[trigger] list.values@[at]).value {
                        None => json->Object_0[i].1 is Null,
                        Some(value) => says(json->Object_0[i].1, value),
                    }
        },
    }
}

/// Whether members stand in the order of their keys, none of which repeats.
pub open spec fn members_ascend(members: Seq<(Seq<char>, Json)>) -> bool {
    forall|i: int, j: int|
        0 <= i < j < members.len() ==> text::text_lt(
            (#[trigger] members[i]).0,
            (#[trigger] members[j]).0,
        )
}

/// Whether an object has a member of this key.
pub open spec fn has_member(members: Seq<(Seq<char>, Json)>, key: Seq<char>) -> bool {
    exists|i: int| 0 <= i < members.len() && (#[trigger] members[i]).0 == key
}

/// Whether a member is that of the last attribute of its key.
pub open spec fn member_says(
    member: (Seq<char>, Json),
    attributes: Seq<KeyValue>,
    at: int,
) -> bool {
    &&& 0 <= at < attributes.len()
    &&& dynamic::is_last_of_key(attributes, at)
    &&& attributes[at].key@ == member.0
    &&& match attributes[at].value {
        None => member.1 is Null,
        Some(value) => says(member.1, value),
    }
}

/// Whether a member is that of some attribute.
pub open spec fn is_said(member: (Seq<char>, Json), attributes: Seq<KeyValue>) -> bool {
    exists|at: int| #[trigger] member_says(member, attributes, at)
}

/// Whether members are those of an attribute list: one for each key, with the last value of that key,
/// in the order of the keys.
pub open spec fn says_attributes(members: Seq<(Seq<char>, Json)>, attributes: Seq<KeyValue>) -> bool {
    &&& members_ascend(members)
    &&& forall|at: int|
        0 <= at < attributes.len() ==> has_member(members, (#[trigger] attributes[at]).key@)
    &&& forall|i: int|
        0 <= i < members.len() ==> is_said(#[trigger] members[i], attributes)
}

// The laws.

proof fn lemma_char_reads(character: char, tail: Seq<char>)
    ensures
        read_chars(canonical_json::json_character(character) + tail) == prepended(
            character,
            read_chars(tail),
        ),
{
    let escaped = canonical_json::json_character(character);
    let input = escaped + tail;
    let code = character as int;
    assert(input.skip(escaped.len() as int) =~= tail);
    if character == '"' || character == '\\' {
        assert(input[0] == '\\' && input[1] == character);
    } else if code == 8 || code == 9 || code == 10 || code == 12 || code == 13 {
        assert(input[0] == '\\');
        assert(escape_of(input[1]) == Some(character));
    } else if code < 32 {
        let high = naming::hex_digit(code / 16);
        let low = naming::hex_digit(code % 16);
        assert(input[0] == '\\' && input[1] == 'u' && input[2] == '0' && input[3] == '0');
        assert(input[4] == high && input[5] == low);
        assert(hex_value(high) == code / 16);
        assert(hex_value(low) == code % 16);
        assert(hex_value('0') == 0);
    } else {
        assert(input[0] == character);
    }
}

proof fn lemma_escaped_first(value: Seq<char>)
    requires
        value.len() > 0,
    ensures
        canonical_json::json_escaped(value) == canonical_json::json_character(value[0])
            + canonical_json::json_escaped(value.drop_first()),
    decreases value.len(),
{
    if value.len() == 1 {
        assert(value.drop_last() =~= Seq::empty());
        assert(value.drop_first() =~= Seq::empty());
        assert(canonical_json::json_escaped(value) =~= canonical_json::json_character(value[0])
            + canonical_json::json_escaped(value.drop_first()));
    } else {
        let front = value.drop_last();
        lemma_escaped_first(front);
        assert(front.drop_first() =~= value.drop_first().drop_last());
        assert(value.drop_first().last() == value.last());
        assert(canonical_json::json_escaped(value) =~= canonical_json::json_character(value[0])
            + canonical_json::json_escaped(value.drop_first()));
    }
}

proof fn lemma_chars_read(value: Seq<char>, rest: Seq<char>)
    ensures
        read_chars(canonical_json::json_escaped(value) + seq!['"'] + rest) == Some((value, rest)),
    decreases value.len(),
{
    let input = canonical_json::json_escaped(value) + seq!['"'] + rest;
    if value.len() == 0 {
        assert(input.skip(1) =~= rest);
        assert(value =~= Seq::empty());
    } else {
        let after = value.drop_first();
        let tail = canonical_json::json_escaped(after) + seq!['"'] + rest;
        lemma_escaped_first(value);
        lemma_chars_read(after, rest);
        lemma_char_reads(value[0], tail);
        assert(input =~= canonical_json::json_character(value[0]) + tail);
        assert(seq![value[0]] + after =~= value);
    }
}

/// A JSON string reads back as its text.
proof fn lemma_string_reads(value: Seq<char>, rest: Seq<char>, fuel: nat)
    ensures
        read(canonical_json::json_string(value) + rest, fuel) == Some((Json::Text(value), rest)),
        (canonical_json::json_string(value) + rest)[0] == '"',
        read_chars((canonical_json::json_string(value) + rest).skip(1)) == Some((value, rest)),
{
    let input = canonical_json::json_string(value) + rest;
    lemma_chars_read(value, rest);
    assert(input.skip(1) =~= canonical_json::json_escaped(value) + seq!['"'] + rest);
}

proof fn lemma_number_end(number: Seq<char>, rest: Seq<char>, at: int)
    requires
        0 <= at <= number.len(),
        forall|i: int| 0 <= i < number.len() ==> in_number(#[trigger] number[i]),
        rest.len() == 0 || !in_number(rest[0]),
    ensures
        number_end(number + rest, at) == number.len(),
    decreases number.len() - at,
{
    let input = number + rest;
    if at < number.len() {
        assert(input[at] == number[at]);
        lemma_number_end(number, rest, at + 1);
    } else if rest.len() > 0 {
        assert(input[at] == rest[0]);
    }
}

/// A number reads back as its text.
proof fn lemma_number_reads(number: Seq<char>, rest: Seq<char>, fuel: nat)
    requires
        number.len() > 0,
        forall|i: int| 0 <= i < number.len() ==> in_number(#[trigger] number[i]),
        rest.len() == 0 || !in_number(rest[0]),
    ensures
        read(number + rest, fuel) == Some((Json::Number(number), rest)),
{
    let input = number + rest;
    lemma_number_end(number, rest, 0);
    assert(input[0] == number[0]);
    assert(input.take(number.len() as int) =~= number);
    assert(input.skip(number.len() as int) =~= rest);
    assert(!starts_with(input, seq!['n', 'u', 'l', 'l'])) by {
        if starts_with(input, seq!['n', 'u', 'l', 'l']) {
            assert(input.take(4)[0] == 'n');
        }
    }
    assert(!starts_with(input, seq!['t', 'r', 'u', 'e'])) by {
        if starts_with(input, seq!['t', 'r', 'u', 'e']) {
            assert(input.take(4)[0] == 't');
        }
    }
    assert(!starts_with(input, seq!['f', 'a', 'l', 's', 'e'])) by {
        if starts_with(input, seq!['f', 'a', 'l', 's', 'e']) {
            assert(input.take(5)[0] == 'f');
        }
    }
}

proof fn lemma_decimal_value(value: nat)
    ensures
        text::decimal_text(value).len() > 0,
        forall|i: int|
            0 <= i < text::decimal_text(value).len() ==> '0' as int
                <= #[trigger] text::decimal_text(value)[i] as int <= '9' as int,
        digits_value(text::decimal_text(value)) == value,
    decreases value,
{
    let digits = text::decimal_text(value);
    if value < 10 {
        assert(digits.drop_last() =~= Seq::empty());
        assert(digits_value(digits.drop_last()) == 0);
        assert(digits.last() as int == '0' as int + value);
    } else {
        lemma_decimal_value(value / 10);
        assert(digits.drop_last() =~= text::decimal_text(value / 10));
        assert(digits.last() as int == '0' as int + value % 10);
    }
}

proof fn lemma_integer_value(value: int)
    ensures
        text::signed_text(value).len() > 0,
        forall|i: int|
            0 <= i < text::signed_text(value).len() ==> in_number(
                #[trigger] text::signed_text(value)[i],
            ),
        integer_value(text::signed_text(value)) == value,
{
    let number = text::signed_text(value);
    if value < 0 {
        lemma_decimal_value((-value) as nat);
        assert(number.skip(1) =~= text::decimal_text((-value) as nat));
        assert forall|i: int| 0 <= i < number.len() implies in_number(#[trigger] number[i]) by {
            if i > 0 {
                assert(number[i] == text::decimal_text((-value) as nat)[i - 1]);
            }
        }
    } else {
        lemma_decimal_value(value as nat);
    }
}

proof fn lemma_literal_reads(rest: Seq<char>, fuel: nat)
    ensures
        read("null"@ + rest, fuel) == Some((Json::Null, rest)),
        read("true"@ + rest, fuel) == Some((Json::Bool(true), rest)),
        read("false"@ + rest, fuel) == Some((Json::Bool(false), rest)),
{
    reveal_strlit("null");
    reveal_strlit("true");
    reveal_strlit("false");
    let none = "null"@ + rest;
    let yes = "true"@ + rest;
    let no = "false"@ + rest;
    assert(none.take(4) =~= seq!['n', 'u', 'l', 'l']);
    assert(none.skip(4) =~= rest);
    assert(yes.take(4) =~= seq!['t', 'r', 'u', 'e']);
    assert(yes.skip(4) =~= rest);
    assert(no.take(5) =~= seq!['f', 'a', 'l', 's', 'e']);
    assert(no.skip(5) =~= rest);
    assert(yes[0] == 't' && no[0] == 'f');
    assert(!starts_with(yes, seq!['n', 'u', 'l', 'l'])) by {
        if starts_with(yes, seq!['n', 'u', 'l', 'l']) {
            assert(yes.take(4)[0] == 'n');
        }
    }
    assert(!starts_with(no, seq!['n', 'u', 'l', 'l'])) by {
        if starts_with(no, seq!['n', 'u', 'l', 'l']) {
            assert(no.take(4)[0] == 'n');
        }
    }
    assert(!starts_with(no, seq!['t', 'r', 'u', 'e'])) by {
        if starts_with(no, seq!['t', 'r', 'u', 'e']) {
            assert(no.take(4)[0] == 't');
        }
    }
}

/// The parts with commas, from the first on.
proof fn lemma_joined_first(parts: Seq<Seq<char>>)
    requires
        parts.len() > 0,
    ensures
        canonical_json::comma_joined(parts) == if parts.len() == 1 {
            parts[0]
        } else {
            parts[0] + ","@ + canonical_json::comma_joined(parts.drop_first())
        },
    decreases parts.len(),
{
    if parts.len() > 1 {
        let front = parts.drop_last();
        let rest = parts.drop_first();
        lemma_joined_first(front);
        assert(rest.last() == parts.last());
        if parts.len() == 2 {
            assert(canonical_json::comma_joined(front) == parts[0]);
            assert(canonical_json::comma_joined(rest) == parts[1]);
        } else {
            assert(front.drop_first() =~= rest.drop_last());
            assert(canonical_json::comma_joined(parts) =~= parts[0] + ","@
                + canonical_json::comma_joined(rest));
        }
    }
}

proof fn lemma_item_text(values: Seq<AnyValue>, depth: nat, i: int)
    requires
        canonical_json::item_texts(values, depth) is Some,
        0 <= i < values.len(),
    ensures
        canonical_json::item_texts(values, depth)->0.len() == values.len(),
        canonical_json::value_text(values[i], depth) == Some(
            canonical_json::item_texts(values, depth)->0[i],
        ),
    decreases values.len(),
{
    let front = values.drop_last();
    if i < front.len() {
        lemma_item_text(front, depth, i);
    } else if front.len() > 0 {
        lemma_item_text(front, depth, 0);
    }
}

proof fn lemma_item_count(values: Seq<AnyValue>, depth: nat)
    requires
        canonical_json::item_texts(values, depth) is Some,
    ensures
        canonical_json::item_texts(values, depth)->0.len() == values.len(),
    decreases values.len(),
{
    if values.len() > 0 {
        lemma_item_count(values.drop_last(), depth);
    }
}

/// The encoding of an attribute's value.
spec fn attribute_text(attribute: KeyValue, depth: nat) -> Option<Seq<char>> {
    match attribute.value {
        None => Some("null"@),
        Some(value) => canonical_json::value_text(value, depth),
    }
}

proof fn lemma_put_keys<V>(entries: Seq<(Seq<char>, V)>, key: Seq<char>, value: V, i: int) -> (from:
    int)
    requires
        0 <= i < sorted::put(entries, key, value).len(),
    ensures
        from == -1 ==> sorted::put(entries, key, value)[i].0 == key,
        from != -1 ==> 0 <= from < entries.len() && entries[from].0 == sorted::put(
            entries,
            key,
            value,
        )[i].0,
    decreases entries.len(),
{
    let after = sorted::put(entries, key, value);
    if entries.len() == 0 {
        -1
    } else if key == entries[0].0 {
        if i == 0 {
            -1
        } else {
            assert(after[i] == entries.drop_first()[i - 1]);
            i
        }
    } else if text::text_lt(key, entries[0].0) {
        if i == 0 {
            -1
        } else {
            assert(after[i] == entries[i - 1]);
            i - 1
        }
    } else {
        if i == 0 {
            0
        } else {
            let rest = entries.drop_first();
            assert(after[i] == sorted::put(rest, key, value)[i - 1]);
            let inner = lemma_put_keys(rest, key, value, i - 1);
            if inner == -1 {
                -1
            } else {
                assert(rest[inner] == entries[inner + 1]);
                inner + 1
            }
        }
    }
}

/// Every member of an encoded object has the key of an attribute.
proof fn lemma_entry_key(attributes: Seq<KeyValue>, depth: nat, i: int) -> (at: int)
    requires
        canonical_json::entry_texts(attributes, depth) is Some,
        0 <= i < canonical_json::entry_texts(attributes, depth)->0.len(),
    ensures
        0 <= at < attributes.len(),
        dynamic::is_last_of_key(attributes, at),
        attributes[at].key@ == canonical_json::entry_texts(attributes, depth)->0[i].0,
    decreases attributes.len(),
{
    let front = attributes.drop_last();
    let end = attributes.len() - 1;
    let entries = canonical_json::entry_texts(front, depth)->0;
    let key = attributes[end].key@;
    let encoded = attribute_text(attributes[end], depth)->0;
    let from = lemma_put_keys(entries, key, encoded, i);
    let wanted = canonical_json::entry_texts(attributes, depth)->0[i].0;
    assert(dynamic::is_last_of_key(attributes, end));
    if from == -1 || wanted == key {
        end
    } else {
        let at = lemma_entry_key(front, depth, from);
        assert(front[at] == attributes[at]);
        assert forall|later: int| at < later < attributes.len() implies (
        #[trigger] attributes[later]).key@ != attributes[at].key@ by {
            if later < front.len() {
                assert(front[later] == attributes[later]);
            }
        }
        at
    }
}

/// The encoding of a value from a depth on ends.
proof fn lemma_value_reads(value: AnyValue, depth: nat, rest: Seq<char>, fuel: nat) -> (json: Json)
    requires
        canonical_json::value_text(value, depth) is Some,
        numbers_plain(value),
        rest.len() == 0 || !in_number(rest[0]),
        fuel >= canonical_json::value_text(value, depth)->0.len() + rest.len(),
    ensures
        read(canonical_json::value_text(value, depth)->0 + rest, fuel) == Some((json, rest)),
        says(json, value),
    decreases value, 0int,
{
    let content = canonical_json::value_text(value, depth)->0;
    let input = content + rest;
    match value.value {
        None => {
            lemma_literal_reads(rest, fuel);
            Json::Null
        },
        Some(Value::StringValueStrindex(_)) => {
            lemma_literal_reads(rest, fuel);
            Json::Null
        },
        Some(Value::StringValue(held)) => {
            lemma_string_reads(held@, rest, fuel);
            Json::Text(held@)
        },
        Some(Value::BoolValue(flag)) => {
            lemma_literal_reads(rest, fuel);
            Json::Bool(flag)
        },
        Some(Value::IntValue(integer)) => {
            lemma_integer_value(integer as int);
            lemma_number_reads(content, rest, fuel);
            Json::Number(content)
        },
        Some(Value::DoubleValue(number)) => {
            if floats::float_nan(number.bits) {
                lemma_tagged_reads("$float"@, "NaN"@, rest, fuel)
            } else if !floats::float_finite(number.bits) {
                if number.bits < floats::SIGN_UNIT {
                    lemma_tagged_reads("$float"@, "Infinity"@, rest, fuel)
                } else {
                    lemma_tagged_reads("$float"@, "-Infinity"@, rest, fuel)
                }
            } else {
                lemma_number_reads(number.json@, rest, fuel);
                Json::Number(number.json@)
            }
        },
        Some(Value::BytesValue(bytes)) => lemma_tagged_reads(
            "$bytes"@,
            canonical_json::base64_text(bytes@),
            rest,
            fuel,
        ),
        Some(Value::ArrayValue(array)) => {
            let items = lemma_array_reads(array.values@, depth + 1, rest, fuel);
            Json::List(items)
        },
        Some(Value::KvlistValue(list)) => {
            let members = lemma_object_reads(list.values@, depth + 1, rest, fuel);
            Json::Object(members)
        },
    }
}

/// An array reads back.
proof fn lemma_array_reads(values: Seq<AnyValue>, depth: nat, rest: Seq<char>, fuel: nat) -> (found:
    Seq<Json>)
    requires
        canonical_json::item_texts(values, depth) is Some,
        forall|k: int| 0 <= k < values.len() ==> numbers_plain(#[trigger] values[k]),
        fuel >= canonical_json::array_text(canonical_json::item_texts(values, depth)->0).len()
            + rest.len(),
    ensures
        read(
            canonical_json::array_text(canonical_json::item_texts(values, depth)->0) + rest,
            fuel,
        ) == Some((Json::List(found), rest)),
        found.len() == values.len(),
        forall|k: int| 0 <= k < values.len() ==> says(found[k], #[trigger] values[k]),
    decreases values, values.len() + 1,
{
    reveal_strlit("[");
    reveal_strlit("]");
    let items = canonical_json::item_texts(values, depth)->0;
    let content = canonical_json::array_text(items);
    let input = content + rest;
    lemma_item_count(values, depth);
    if values.len() == 0 {
        assert(content =~= seq!['[', ']']);
        assert(input.skip(2) =~= rest);
        Seq::empty()
    } else {
        assert(items.skip(0) =~= items);
        assert(content.len() == canonical_json::comma_joined(items).len() + 2);
        let found = lemma_items_read(values, depth, 0, rest, (fuel - 1) as nat);
        assert(input.skip(1) =~= canonical_json::comma_joined(items) + seq![']'] + rest);
        lemma_starts_no_bracket(values, depth, rest);
        assert(input[1] == input.skip(1)[0]);
        assert forall|k: int| 0 <= k < values.len() implies says(found[k], #[trigger] values[k]) by {
            assert(says(found[k - 0], values[k]));
        }
        found
    }
}

/// An object reads back.
proof fn lemma_object_reads(
    attributes: Seq<KeyValue>,
    depth: nat,
    rest: Seq<char>,
    fuel: nat,
) -> (found: Seq<(Seq<char>, Json)>)
    requires
        canonical_json::entry_texts(attributes, depth) is Some,
        forall|k: int|
            0 <= k < attributes.len() && (#[trigger] attributes[k]).value is Some
                ==> numbers_plain(attributes[k].value->0),
        fuel >= canonical_json::object_text(canonical_json::entry_texts(attributes, depth)->0).len()
            + rest.len(),
    ensures
        read(
            canonical_json::object_text(canonical_json::entry_texts(attributes, depth)->0) + rest,
            fuel,
        ) == Some((Json::Object(found), rest)),
        says_attributes(found, attributes),
    decreases attributes, canonical_json::entry_texts(attributes, depth)->0.len() + 1,
{
    reveal_strlit("{");
    reveal_strlit("}");
    let entries = canonical_json::entry_texts(attributes, depth)->0;
    let parts = canonical_json::member_texts(entries);
    let content = canonical_json::object_text(entries);
    let input = content + rest;
    if entries.len() == 0 {
        assert(parts =~= Seq::empty());
        assert(content =~= seq!['{', '}']);
        assert(input.skip(2) =~= rest);
        if attributes.len() > 0 {
            let last = lemma_last_of_key(attributes, 0);
            canonical_json::the_last_value_of_a_key_wins(attributes, depth, last);
            lemma_attribute_encoded(attributes, depth, last);
        }
        Seq::empty()
    } else {
        assert(parts.skip(0) =~= parts);
        assert(content.len() == canonical_json::comma_joined(parts).len() + 2);
        let found = lemma_members_read(attributes, depth, 0, rest, (fuel - 1) as nat);
        assert(input.skip(1) =~= canonical_json::comma_joined(parts) + seq!['}'] + rest);
        lemma_joined_first(parts);
        assert(parts[0] == canonical_json::member_text(entries[0]));
        assert(input[1] == '"') by {
            assert(input[1] == input.skip(1)[0]);
            assert(parts[0][0] == '"');
        }
        lemma_members_say(attributes, depth, found);
        found
    }
}

/// A last attribute of the key of another.
proof fn lemma_last_of_key(attributes: Seq<KeyValue>, at: int) -> (last: int)
    requires
        0 <= at < attributes.len(),
    ensures
        dynamic::is_last_of_key(attributes, last),
        attributes[last].key@ == attributes[at].key@,
    decreases attributes.len() - at,
{
    if forall|later: int|
        at < later < attributes.len() ==> (#[trigger] attributes[later]).key@
            != attributes[at].key@ {
        at
    } else {
        let later = choose|later: int|
            at < later < attributes.len() && (#[trigger] attributes[later]).key@
                == attributes[at].key@;
        lemma_last_of_key(attributes, later)
    }
}

/// An object whose only member is a string reads back.
proof fn lemma_tagged_reads(tag: Seq<char>, value: Seq<char>, rest: Seq<char>, fuel: nat) -> (json:
    Json)
    requires
        fuel >= canonical_json::tagged_text(tag, value).len(),
    ensures
        read(canonical_json::tagged_text(tag, value) + rest, fuel) == Some((json, rest)),
        json == Json::Object(seq![(tag, Json::Text(value))]),
{
    reveal_strlit("{");
    reveal_strlit("}");
    reveal_strlit(":");
    let entries = seq![(tag, canonical_json::json_string(value))];
    let parts = canonical_json::member_texts(entries);
    let input = canonical_json::tagged_text(tag, value) + rest;
    let last = seq!['}'] + rest;
    let after = seq![':'] + canonical_json::json_string(value) + last;
    assert(parts =~= seq![canonical_json::member_text(entries[0])]);
    assert(input.skip(1) =~= canonical_json::json_string(tag) + after);
    lemma_string_reads(tag, after, fuel);
    assert(input[1] == input.skip(1)[0]);
    assert(after.skip(1) =~= canonical_json::json_string(value) + last);
    lemma_string_reads(value, last, (fuel - 1) as nat);
    assert(last.skip(1) =~= rest);
    let members = seq![(tag, Json::Text(value))];
    assert(read_members(input.skip(1), (fuel - 1) as nat) == Some((members, rest)));
    Json::Object(members)
}

/// No item starts with a closing bracket.
proof fn lemma_starts_no_bracket(values: Seq<AnyValue>, depth: nat, rest: Seq<char>)
    requires
        canonical_json::item_texts(values, depth) is Some,
        values.len() > 0,
        forall|i: int| 0 <= i < values.len() ==> numbers_plain(#[trigger] values[i]),
    ensures
        ({
            let input = canonical_json::comma_joined(canonical_json::item_texts(values, depth)->0)
                + seq![']'] + rest;
            input[0] != ']'
        }),
{
    let items = canonical_json::item_texts(values, depth)->0;
    lemma_item_text(values, depth, 0);
    lemma_joined_first(items);
    lemma_value_start(values[0], depth);
    let input = canonical_json::comma_joined(items) + seq![']'] + rest;
    assert(input[0] == items[0][0]);
}

proof fn lemma_value_start(value: AnyValue, depth: nat)
    requires
        canonical_json::value_text(value, depth) is Some,
        numbers_plain(value),
    ensures
        canonical_json::value_text(value, depth)->0.len() > 0,
        canonical_json::value_text(value, depth)->0[0] != ']',
{
    reveal_strlit("null");
    reveal_strlit("true");
    reveal_strlit("false");
    reveal_strlit("[");
    reveal_strlit("{");
    match value.value {
        Some(Value::IntValue(integer)) => {
            lemma_integer_value(integer as int);
            assert(in_number(text::signed_text(integer as int)[0]));
        },
        Some(Value::DoubleValue(number)) => {
            if floats::float_finite(number.bits) {
                assert(in_number(number.json@[0]));
            }
        },
        _ => {},
    }
}

/// The items of an array read back, from one on.
#[verifier::rlimit(60)]
proof fn lemma_items_read(
    values: Seq<AnyValue>,
    depth: nat,
    i: int,
    rest: Seq<char>,
    fuel: nat,
) -> (found: Seq<Json>)
    requires
        canonical_json::item_texts(values, depth) is Some,
        0 <= i < values.len(),
        forall|k: int| 0 <= k < values.len() ==> numbers_plain(#[trigger] values[k]),
        fuel >= canonical_json::comma_joined(canonical_json::item_texts(values, depth)->0.skip(i)).len()
            + 1 + rest.len(),
    ensures
        read_items(
            canonical_json::comma_joined(canonical_json::item_texts(values, depth)->0.skip(i))
                + seq![']'] + rest,
            fuel,
        ) == Some((found, rest)),
        found.len() == values.len() - i,
        forall|k: int| i <= k < values.len() ==> says(found[k - i], #[trigger] values[k]),
    decreases values, values.len() - i,
{
    reveal_strlit(",");
    let items = canonical_json::item_texts(values, depth)->0;
    lemma_item_count(values, depth);
    let parts = items.skip(i);
    lemma_item_text(values, depth, i);
    lemma_joined_first(parts);
    assert(parts[0] == items[i]);
    assert(numbers_plain(values[i]));
    let input = canonical_json::comma_joined(parts) + seq![']'] + rest;
    assert(decreases_to!(values => values[i]));
    if i == values.len() - 1 {
        let tail = seq![']'] + rest;
        let json = lemma_value_reads(values[i], depth, tail, fuel);
        assert(input =~= items[i] + tail);
        assert(tail.skip(1) =~= rest);
        let found = seq![json];
        assert forall|k: int| i <= k < values.len() implies says(
            found[k - i],
            #[trigger] values[k],
        ) by {}
        found
    } else {
        let more = canonical_json::comma_joined(items.skip(i + 1)) + seq![']'] + rest;
        let tail = seq![','] + more;
        assert(parts.drop_first() =~= items.skip(i + 1));
        let json = lemma_value_reads(values[i], depth, tail, fuel);
        assert(input =~= items[i] + tail);
        assert(tail.skip(1) =~= more);
        let others = lemma_items_read(values, depth, i + 1, rest, (fuel - 1) as nat);
        let found = seq![json] + others;
        assert forall|k: int| i <= k < values.len() implies says(
            found[k - i],
            #[trigger] values[k],
        ) by {
            if k > i {
                assert(found[k - i] == others[k - i - 1]);
            }
        }
        found
    }
}

/// Whether members are those of encoded entries, from one on.
spec fn members_match(
    members: Seq<(Seq<char>, Json)>,
    attributes: Seq<KeyValue>,
    depth: nat,
    i: int,
) -> bool {
    let entries = canonical_json::entry_texts(attributes, depth)->0;
    &&& members.len() == entries.len() - i
    &&& forall|k: int|
        0 <= k < members.len() ==> (#[trigger] members[k]).0 == entries[k + i].0 && is_said(
            members[k],
            attributes,
        )
}

/// The members of an object read back, from one on.
#[verifier::rlimit(60)]
proof fn lemma_members_read(
    attributes: Seq<KeyValue>,
    depth: nat,
    i: int,
    rest: Seq<char>,
    fuel: nat,
) -> (found: Seq<(Seq<char>, Json)>)
    requires
        canonical_json::entry_texts(attributes, depth) is Some,
        0 <= i < canonical_json::entry_texts(attributes, depth)->0.len(),
        forall|k: int|
            0 <= k < attributes.len() && (#[trigger] attributes[k]).value is Some
                ==> numbers_plain(attributes[k].value->0),
        fuel >= canonical_json::comma_joined(
            canonical_json::member_texts(canonical_json::entry_texts(attributes, depth)->0).skip(i),
        ).len() + 1 + rest.len(),
    ensures
        read_members(
            canonical_json::comma_joined(
                canonical_json::member_texts(
                    canonical_json::entry_texts(attributes, depth)->0,
                ).skip(i),
            ) + seq!['}'] + rest,
            fuel,
        ) == Some((found, rest)),
        members_match(found, attributes, depth, i),
    decreases attributes, canonical_json::entry_texts(attributes, depth)->0.len() - i,
{
    reveal_strlit(",");
    let entries = canonical_json::entry_texts(attributes, depth)->0;
    let texts = canonical_json::member_texts(entries);
    let parts = texts.skip(i);
    let key = entries[i].0;
    let encoded = entries[i].1;
    lemma_joined_first(parts);
    assert(parts[0] == canonical_json::member_text(entries[i]));
    let at = lemma_entry_key(attributes, depth, i);
    lemma_entry_value(attributes, depth, i, at);
    let input = canonical_json::comma_joined(parts) + seq!['}'] + rest;
    let alone = i == entries.len() - 1;
    let more = canonical_json::comma_joined(texts.skip(i + 1)) + seq!['}'] + rest;
    let tail = if alone {
        seq!['}'] + rest
    } else {
        seq![','] + more
    };
    assert(parts.drop_first() =~= texts.skip(i + 1));
    assert(input =~= parts[0] + tail);
    lemma_member_len(key, encoded);
    assert(decreases_to!(attributes => attributes[at]));
    let json = match attributes[at].value {
        None => {
            lemma_literal_reads(tail, fuel);
            Json::Null
        },
        Some(value) => {
            assert(numbers_plain(attributes[at].value->0));
            lemma_value_reads(value, depth, tail, fuel)
        },
    };
    assert(member_says((key, json), attributes, at));
    assert(is_said((key, json), attributes));
    lemma_member_reads(key, encoded, json, tail, fuel);
    if alone {
        assert(tail.skip(1) =~= rest);
        seq![(key, json)]
    } else {
        assert(tail.skip(1) =~= more);
        let others = lemma_members_read(attributes, depth, i + 1, rest, (fuel - 1) as nat);
        let found = seq![(key, json)] + others;
        assert forall|k: int| 0 <= k < found.len() implies (#[trigger] found[k]).0 == entries[k
            + i].0 && is_said(found[k], attributes) by {
            if k > 0 {
                assert(found[k] == others[k - 1]);
            }
        }
        found
    }
}

/// A member is no shorter than its value.
proof fn lemma_member_len(key: Seq<char>, encoded: Seq<char>)
    ensures
        canonical_json::member_text((key, encoded)).len() >= encoded.len() + 2,
{
}

/// One member reads as its key and its value.
proof fn lemma_member_reads(
    key: Seq<char>,
    encoded: Seq<char>,
    json: Json,
    tail: Seq<char>,
    fuel: nat,
)
    requires
        read(encoded + tail, fuel) == Some((json, tail)),
        tail.len() > 0,
    ensures
        ({
            let input = canonical_json::member_text((key, encoded)) + tail;
            &&& tail[0] == '}' ==> read_members(input, fuel) == Some(
                (seq![(key, json)], tail.skip(1)),
            )
            &&& tail[0] == ',' && fuel > 0 ==> read_members(input, fuel) == match read_members(
                tail.skip(1),
                (fuel - 1) as nat,
            ) {
                None => None,
                Some((more, rest)) => Some((seq![(key, json)] + more, rest)),
            }
        }),
{
    reveal_strlit(":");
    let after = seq![':'] + encoded + tail;
    let input = canonical_json::member_text((key, encoded)) + tail;
    assert(input =~= canonical_json::json_string(key) + after);
    lemma_string_reads(key, after, fuel);
    assert(after.skip(1) =~= encoded + tail);
}

/// The value of a member is that of the last attribute of its key.
proof fn lemma_entry_value(attributes: Seq<KeyValue>, depth: nat, i: int, at: int)
    requires
        canonical_json::entry_texts(attributes, depth) is Some,
        0 <= i < canonical_json::entry_texts(attributes, depth)->0.len(),
        dynamic::is_last_of_key(attributes, at),
        attributes[at].key@ == canonical_json::entry_texts(attributes, depth)->0[i].0,
    ensures
        attribute_text(attributes[at], depth) == Some(
            canonical_json::entry_texts(attributes, depth)->0[i].1,
        ),
{
    canonical_json::objects_sort_their_keys(attributes, depth);
    canonical_json::the_last_value_of_a_key_wins(attributes, depth, at);
    lemma_lookup_at(canonical_json::entry_texts(attributes, depth)->0, i);
}

/// In ascending entries, the value under the key of an entry is its own.
proof fn lemma_lookup_at<V>(entries: Seq<(Seq<char>, V)>, i: int)
    requires
        sorted::keys_sorted(entries),
        0 <= i < entries.len(),
    ensures
        sorted::lookup(entries, entries[i].0) == Some(entries[i].1),
    decreases entries.len(),
{
    if i > 0 {
        let rest = entries.drop_first();
        assert(text::text_lt(entries[0].0, entries[i].0));
        text::lemma_text_lt_irreflexive(entries[i].0);
        assert forall|a: int, b: int| 0 <= a < b < rest.len() implies text::text_lt(
            rest[a].0,
            rest[b].0,
        ) by {
            assert(text::text_lt(entries[a + 1].0, entries[b + 1].0));
        }
        assert(rest[i - 1] == entries[i]);
        lemma_lookup_at(rest, i - 1);
    }
}

/// Members that match the encoded entries are those of the attribute list.
proof fn lemma_members_say(
    attributes: Seq<KeyValue>,
    depth: nat,
    members: Seq<(Seq<char>, Json)>,
)
    requires
        canonical_json::entry_texts(attributes, depth) is Some,
        members_match(members, attributes, depth, 0),
    ensures
        says_attributes(members, attributes),
{
    let entries = canonical_json::entry_texts(attributes, depth)->0;
    canonical_json::objects_sort_their_keys(attributes, depth);
    assert forall|i: int, j: int| 0 <= i < j < members.len() implies text::text_lt(
        (#[trigger] members[i]).0,
        (#[trigger] members[j]).0,
    ) by {
        assert(members[i].0 == entries[i].0 && members[j].0 == entries[j].0);
    }
    assert forall|i: int| 0 <= i < members.len() implies is_said(
        #[trigger] members[i],
        attributes,
    ) by {
        assert(members[i].0 == entries[i + 0].0);
    }
    assert(members_ascend(members));
    assert forall|at: int| 0 <= at < attributes.len() implies has_member(
        members,
        (#[trigger] attributes[at]).key@,
    ) by {
        let last = lemma_last_of_key(attributes, at);
        canonical_json::the_last_value_of_a_key_wins(attributes, depth, last);
        lemma_attribute_encoded(attributes, depth, last);
        let key = attributes[at].key@;
        sorted::lemma_lookup_absent(entries, key);
        let i = choose|i: int| 0 <= i < entries.len() && #[trigger] entries[i].0 == key;
        assert(members[i].0 == key);
    }
}

/// Where an attribute list is encoded, each of its values is.
proof fn lemma_attribute_encoded(attributes: Seq<KeyValue>, depth: nat, at: int)
    requires
        canonical_json::entry_texts(attributes, depth) is Some,
        0 <= at < attributes.len(),
    ensures
        attribute_text(attributes[at], depth) is Some,
    decreases attributes.len(),
{
    if at < attributes.len() - 1 {
        lemma_attribute_encoded(attributes.drop_last(), depth, at);
    }
}

/// Canonical JSON reads back: a JSON reader finds in the encoding of a value exactly what the value
/// says, and nothing behind it.
pub proof fn canonical_json_reads_back(value: AnyValue) -> (json: Json)
    requires
        canonical_json::value_text(value, 0) is Some,
        numbers_plain(value),
    ensures
        ({
            let encoded = canonical_json::value_text(value, 0)->0;
            read(encoded, encoded.len()) == Some((json, Seq::<char>::empty()))
        }),
        says(json, value),
{
    let encoded = canonical_json::value_text(value, 0)->0;
    let none = Seq::<char>::empty();
    assert(encoded + none =~= encoded);
    lemma_value_reads(value, 0, none, encoded.len())
}

/// The canonical JSON of an attribute list reads back as an object with one member for each key: the
/// last value of that key.
pub proof fn attribute_json_reads_back(attributes: Seq<KeyValue>) -> (members: Seq<
    (Seq<char>, Json),
>)
    requires
        canonical_json::attributes_text(attributes) is Some,
        forall|i: int|
            0 <= i < attributes.len() && (#[trigger] attributes[i]).value is Some ==> numbers_plain(
                attributes[i].value->0,
            ),
    ensures
        ({
            let encoded = canonical_json::attributes_text(attributes)->0;
            read(encoded, encoded.len()) == Some((Json::Object(members), Seq::<char>::empty()))
        }),
        says_attributes(members, attributes),
{
    let encoded = canonical_json::attributes_text(attributes)->0;
    let none = Seq::<char>::empty();
    assert(encoded + none =~= encoded);
    lemma_object_reads(attributes, 0, none, encoded.len())
}

/// Whether a value is absent, a bool, an integer or a string.
pub open spec fn is_simple(value: AnyValue) -> bool {
    match value.value {
        None => true,
        Some(Value::StringValueStrindex(_)) => true,
        Some(Value::StringValue(_)) => true,
        Some(Value::BoolValue(_)) => true,
        Some(Value::IntValue(_)) => true,
        _ => false,
    }
}

/// Whether two values are both absent, or equal bools, integers or strings.
pub open spec fn same_simple(left: AnyValue, right: AnyValue) -> bool {
    match (left.value, right.value) {
        (Some(Value::StringValue(a)), Some(Value::StringValue(b))) => a@ == b@,
        (Some(Value::BoolValue(a)), Some(Value::BoolValue(b))) => a == b,
        (Some(Value::IntValue(a)), Some(Value::IntValue(b))) => a == b,
        (None | Some(Value::StringValueStrindex(_)), None | Some(Value::StringValueStrindex(_))) =>
            true,
        _ => false,
    }
}

/// The encoding tells simple values apart: two of them have one encoding only where they are both
/// absent or equal in kind and value.
pub proof fn encodings_tell_values_apart(left: AnyValue, right: AnyValue)
    requires
        is_simple(left),
        is_simple(right),
    ensures
        canonical_json::value_text(left, 0) is Some,
        canonical_json::value_text(right, 0) is Some,
        canonical_json::value_text(left, 0) == canonical_json::value_text(right, 0)
            ==> same_simple(left, right),
{
    let a = canonical_json_reads_back(left);
    let b = canonical_json_reads_back(right);
}

} // verus!
