//! Little-endian, length-prefixed encoding shared by the descriptors.
use vstd::prelude::*;
use vstd::utf8;
use crate::sorted;
use crate::sorted::TextMap;
use crate::text;

verus! {

/// What remains of the input behind a parsed value, or why the value cannot be parsed.
pub type Parsed<T> = Result<(T, Seq<u8>), Seq<char>>;

/// The `width` low bytes of `value`, least significant first.
pub open spec fn le_bytes(value: nat, width: nat) -> Seq<u8>
    decreases width,
{
    if width == 0 {
        Seq::empty()
    } else {
        seq![(value % 256) as u8] + le_bytes(value / 256, (width - 1) as nat)
    }
}

/// The number whose little-endian bytes are `bytes`.
pub open spec fn le_value(bytes: Seq<u8>) -> nat
    decreases bytes.len(),
{
    if bytes.len() == 0 {
        0
    } else {
        bytes[0] as nat + 256 * le_value(bytes.drop_first())
    }
}

/// 256 to the power of `width`.
pub open spec fn byte_range(width: nat) -> nat
    decreases width,
{
    if width == 0 {
        1
    } else {
        256 * byte_range((width - 1) as nat)
    }
}

pub proof fn lemma_byte_ranges()
    ensures
        byte_range(1) == 0x100,
        byte_range(2) == 0x1_0000,
        byte_range(4) == 0x1_0000_0000,
        byte_range(8) == 0x1_0000_0000_0000_0000,
{
    reveal_with_fuel(byte_range, 9);
}

/// Reading the little-endian bytes of a number gives the number back.
pub proof fn lemma_le_round_trip(value: nat, width: nat)
    requires
        value < byte_range(width),
    ensures
        le_value(le_bytes(value, width)) == value,
        le_bytes(value, width).len() == width,
    decreases width,
{
    if width > 0 {
        lemma_le_round_trip(value / 256, (width - 1) as nat);
        assert(le_bytes(value, width).drop_first() =~= le_bytes(value / 256, (width - 1) as nat));
    }
}

pub proof fn lemma_le_value_bound(bytes: Seq<u8>)
    ensures
        le_value(bytes) < byte_range(bytes.len()),
    decreases bytes.len(),
{
    if bytes.len() > 0 {
        lemma_le_value_bound(bytes.drop_first());
    }
}

/// The first `length` bytes.
pub open spec fn parse_take(data: Seq<u8>, length: nat) -> Parsed<Seq<u8>> {
    if length > data.len() {
        Err("descriptor is truncated"@)
    } else {
        Ok((data.take(length as int), data.skip(length as int)))
    }
}

/// An unsigned integer of `width` bytes.
pub open spec fn parse_uint(data: Seq<u8>, width: nat) -> Parsed<nat> {
    match parse_take(data, width) {
        Err(detail) => Err(detail),
        Ok((bytes, rest)) => Ok((le_value(bytes), rest)),
    }
}

pub open spec fn parse_u8(data: Seq<u8>) -> Parsed<u8> {
    match parse_uint(data, 1) {
        Err(detail) => Err(detail),
        Ok((value, rest)) => Ok((value as u8, rest)),
    }
}

pub open spec fn parse_u16(data: Seq<u8>) -> Parsed<u16> {
    match parse_uint(data, 2) {
        Err(detail) => Err(detail),
        Ok((value, rest)) => Ok((value as u16, rest)),
    }
}

pub open spec fn parse_u32(data: Seq<u8>) -> Parsed<u32> {
    match parse_uint(data, 4) {
        Err(detail) => Err(detail),
        Ok((value, rest)) => Ok((value as u32, rest)),
    }
}

pub open spec fn parse_u64(data: Seq<u8>) -> Parsed<u64> {
    match parse_uint(data, 8) {
        Err(detail) => Err(detail),
        Ok((value, rest)) => Ok((value as u64, rest)),
    }
}

/// A signed integer in two's complement.
pub open spec fn parse_i32(data: Seq<u8>) -> Parsed<i32> {
    match parse_u32(data) {
        Err(detail) => Err(detail),
        Ok((value, rest)) => Ok((value as i32, rest)),
    }
}

/// A signed integer in two's complement.
pub open spec fn parse_i64(data: Seq<u8>) -> Parsed<i64> {
    match parse_u64(data) {
        Err(detail) => Err(detail),
        Ok((value, rest)) => Ok((value as i64, rest)),
    }
}

/// UTF-8 text behind its byte length.
pub open spec fn parse_string(data: Seq<u8>) -> Parsed<Seq<char>> {
    match parse_u32(data) {
        Err(detail) => Err(detail),
        Ok((length, rest)) => match parse_take(rest, length as nat) {
            Err(detail) => Err(detail),
            Ok((bytes, rest)) => if utf8::valid_utf8(bytes) {
                Ok((utf8::decode_utf8(bytes), rest))
            } else {
                Err("string is not utf-8"@)
            },
        },
    }
}

/// A presence byte, then the integer if it is present.
pub open spec fn parse_option_u64(data: Seq<u8>) -> Parsed<Option<u64>> {
    match parse_u8(data) {
        Err(detail) => Err(detail),
        Ok((tag, rest)) => if tag == 0 {
            Ok((None, rest))
        } else if tag == 1 {
            match parse_u64(rest) {
                Err(detail) => Err(detail),
                Ok((value, rest)) => Ok((Some(value), rest)),
            }
        } else {
            Err("optional integer tag is invalid"@)
        },
    }
}

/// `count` values, each parsed by `item`.
pub open spec fn parse_list<T>(
    item: spec_fn(Seq<u8>) -> Parsed<T>,
    count: nat,
    data: Seq<u8>,
) -> Parsed<Seq<T>>
    decreases count,
{
    if count == 0 {
        Ok((Seq::empty(), data))
    } else {
        match parse_list(item, (count - 1) as nat, data) {
            Err(detail) => Err(detail),
            Ok((values, rest)) => match item(rest) {
                Err(detail) => Err(detail),
                Ok((value, rest)) => Ok((values.push(value), rest)),
            },
        }
    }
}

/// A list that fails within its first values fails as a whole.
pub proof fn lemma_parse_list_fails<T>(
    item: spec_fn(Seq<u8>) -> Parsed<T>,
    early: nat,
    count: nat,
    data: Seq<u8>,
)
    requires
        early <= count,
        parse_list(item, early, data) is Err,
    ensures
        parse_list(item, count, data) == parse_list(item, early, data),
    decreases count,
{
    if early < count {
        lemma_parse_list_fails(item, early, (count - 1) as nat, data);
    }
}

/// The encodings of `values`, one behind the other.
pub open spec fn concat<T>(encode: spec_fn(T) -> Seq<u8>, values: Seq<T>) -> Seq<u8>
    decreases values.len(),
{
    if values.len() == 0 {
        Seq::empty()
    } else {
        concat(encode, values.drop_last()) + encode(values.last())
    }
}

pub proof fn lemma_concat_push<T>(encode: spec_fn(T) -> Seq<u8>, values: Seq<T>, value: T)
    ensures
        concat(encode, values.push(value)) == concat(encode, values) + encode(value),
{
    assert(values.push(value).drop_last() =~= values);
}

/// If every value parses back, so does the list of them.
pub proof fn lemma_parse_list_round_trip<T>(
    item: spec_fn(Seq<u8>) -> Parsed<T>,
    encode: spec_fn(T) -> Seq<u8>,
    values: Seq<T>,
    rest: Seq<u8>,
)
    requires
        forall|i: int, tail: Seq<u8>|
            0 <= i < values.len() ==> #[trigger] item(encode(values[i]) + tail) == Ok::<
                (T, Seq<u8>),
                Seq<char>,
            >((values[i], tail)),
    ensures
        parse_list(item, values.len(), concat(encode, values) + rest) == Ok::<
            (Seq<T>, Seq<u8>),
            Seq<char>,
        >((values, rest)),
    decreases values.len(),
{
    if values.len() == 0 {
        assert(concat(encode, values) + rest =~= rest);
        assert(values =~= Seq::empty());
    } else {
        let front = values.drop_last();
        let tail = encode(values.last()) + rest;
        assert forall|i: int, tail: Seq<u8>| 0 <= i < front.len() implies #[trigger] item(
            encode(front[i]) + tail,
        ) == Ok::<(T, Seq<u8>), Seq<char>>((front[i], tail)) by {
            assert(front[i] == values[i]);
        }
        lemma_parse_list_round_trip(item, encode, front, tail);
        assert(concat(encode, values) + rest =~= concat(encode, front) + tail);
        let last = values.len() - 1;
        assert(item(encode(values[last]) + rest) == Ok::<(T, Seq<u8>), Seq<char>>(
            (values[last], rest),
        ));
        assert(front.push(values.last()) =~= values);
    }
}

/// UTF-8 text behind its byte length.
pub open spec fn string_bytes(value: Seq<char>) -> Seq<u8> {
    le_bytes(utf8::encode_utf8(value).len(), 4) + utf8::encode_utf8(value)
}

/// A presence byte, then the integer if it is present.
pub open spec fn option_u64_bytes(value: Option<u64>) -> Seq<u8> {
    match value {
        None => seq![0u8],
        Some(value) => seq![1u8] + le_bytes(value as nat, 8),
    }
}

/// Whether the byte length of `value` fits the length prefix.
pub open spec fn string_fits(value: Seq<char>) -> bool {
    utf8::encode_utf8(value).len() <= u32::MAX
}

/// Bytes one behind the other, grouped either way.
pub proof fn lemma_assoc(first: Seq<u8>, second: Seq<u8>, third: Seq<u8>)
    ensures
        (first + second) + third == first + (second + third),
{
    assert((first + second) + third =~= first + (second + third));
}

pub proof fn lemma_parse_take(bytes: Seq<u8>, rest: Seq<u8>)
    ensures
        parse_take(bytes + rest, bytes.len()) == Ok::<(Seq<u8>, Seq<u8>), Seq<char>>((bytes, rest)),
{
    assert((bytes + rest).take(bytes.len() as int) =~= bytes);
    assert((bytes + rest).skip(bytes.len() as int) =~= rest);
}

pub proof fn lemma_parse_uint(value: nat, width: nat, rest: Seq<u8>)
    requires
        value < byte_range(width),
    ensures
        parse_uint(le_bytes(value, width) + rest, width) == Ok::<(nat, Seq<u8>), Seq<char>>(
            (value, rest),
        ),
{
    lemma_le_round_trip(value, width);
    lemma_parse_take(le_bytes(value, width), rest);
}

pub proof fn lemma_parse_u8(value: u8, rest: Seq<u8>)
    ensures
        parse_u8(seq![value] + rest) == Ok::<(u8, Seq<u8>), Seq<char>>((value, rest)),
{
    lemma_byte_ranges();
    lemma_parse_uint(value as nat, 1, rest);
    reveal_with_fuel(le_bytes, 2);
    assert(le_bytes(value as nat, 1) =~= seq![value]);
}

pub proof fn lemma_parse_u16(value: u16, rest: Seq<u8>)
    ensures
        parse_u16(le_bytes(value as nat, 2) + rest) == Ok::<(u16, Seq<u8>), Seq<char>>(
            (value, rest),
        ),
{
    lemma_byte_ranges();
    lemma_parse_uint(value as nat, 2, rest);
}

pub proof fn lemma_parse_u32(value: u32, rest: Seq<u8>)
    ensures
        parse_u32(le_bytes(value as nat, 4) + rest) == Ok::<(u32, Seq<u8>), Seq<char>>(
            (value, rest),
        ),
{
    lemma_byte_ranges();
    lemma_parse_uint(value as nat, 4, rest);
}

pub proof fn lemma_parse_u64(value: u64, rest: Seq<u8>)
    ensures
        parse_u64(le_bytes(value as nat, 8) + rest) == Ok::<(u64, Seq<u8>), Seq<char>>(
            (value, rest),
        ),
{
    lemma_byte_ranges();
    lemma_parse_uint(value as nat, 8, rest);
}

pub proof fn lemma_parse_i32(value: i32, rest: Seq<u8>)
    ensures
        parse_i32(le_bytes(value as u32 as nat, 4) + rest) == Ok::<(i32, Seq<u8>), Seq<char>>(
            (value, rest),
        ),
{
    lemma_parse_u32(value as u32, rest);
    assert((value as u32) as i32 == value) by (bit_vector);
}

pub proof fn lemma_parse_i64(value: i64, rest: Seq<u8>)
    ensures
        parse_i64(le_bytes(value as u64 as nat, 8) + rest) == Ok::<(i64, Seq<u8>), Seq<char>>(
            (value, rest),
        ),
{
    lemma_parse_u64(value as u64, rest);
    assert((value as u64) as i64 == value) by (bit_vector);
}

pub proof fn lemma_parse_string(value: Seq<char>, rest: Seq<u8>)
    requires
        string_fits(value),
    ensures
        parse_string(string_bytes(value) + rest) == Ok::<(Seq<char>, Seq<u8>), Seq<char>>(
            (value, rest),
        ),
{
    let bytes = utf8::encode_utf8(value);
    utf8::encode_utf8_valid_utf8(value);
    utf8::encode_utf8_decode_utf8(value);
    lemma_parse_u32(bytes.len() as u32, bytes + rest);
    assert(string_bytes(value) + rest =~= le_bytes(bytes.len(), 4) + (bytes + rest));
    lemma_parse_take(bytes, rest);
}

pub proof fn lemma_parse_option_u64(value: Option<u64>, rest: Seq<u8>)
    ensures
        parse_option_u64(option_u64_bytes(value) + rest) == Ok::<
            (Option<u64>, Seq<u8>),
            Seq<char>,
        >((value, rest)),
{
    match value {
        None => {
            lemma_parse_u8(0, rest);
        },
        Some(number) => {
            let tail = le_bytes(number as nat, 8) + rest;
            lemma_parse_u8(1, tail);
            lemma_parse_u64(number, rest);
            assert(option_u64_bytes(value) + rest =~= seq![1u8] + tail);
        },
    }
}

/// `String::from_utf8` accepts exactly the valid UTF-8 sequences and decodes them.
#[verifier::external_body]
pub(crate) fn string_from_utf8(bytes: Vec<u8>) -> (text: Option<String>)
    ensures
        text is Some <==> utf8::valid_utf8(bytes@),
        text is Some ==> text->0@ == utf8::decode_utf8(bytes@),
{
    String::from_utf8(bytes).ok()
}

/// Appends the `width` low bytes of `value`, least significant first.
fn write_le(body: &mut Vec<u8>, value: u64, width: usize)
    ensures
        final(body)@ == old(body)@ + le_bytes(value as nat, width as nat),
    decreases width,
{
    if width > 0 {
        let ghost before = body@;
        body.push((value % 256) as u8);
        write_le(body, value / 256, width - 1);
        assert(body@ =~= before + le_bytes(value as nat, width as nat));
    }
}

pub fn write_u16(body: &mut Vec<u8>, value: u16)
    ensures
        final(body)@ == old(body)@ + le_bytes(value as nat, 2),
{
    write_le(body, value as u64, 2);
}

pub fn write_u32(body: &mut Vec<u8>, value: u32)
    ensures
        final(body)@ == old(body)@ + le_bytes(value as nat, 4),
{
    write_le(body, value as u64, 4);
}

pub fn write_u64(body: &mut Vec<u8>, value: u64)
    ensures
        final(body)@ == old(body)@ + le_bytes(value as nat, 8),
{
    write_le(body, value, 8);
}

/// Appends bytes.
pub fn write_bytes(body: &mut Vec<u8>, bytes: &[u8])
    ensures
        final(body)@ == old(body)@ + bytes@,
{
    let mut i: usize = 0;
    let ghost before = body@;
    while i < bytes.len()
        invariant
            i <= bytes.len(),
            body@ == before + bytes@.take(i as int),
        decreases bytes.len() - i,
    {
        body.push(bytes[i]);
        assert(bytes@.take(i + 1) =~= bytes@.take(i as int).push(bytes@[i as int]));
        i = i + 1;
    }
    assert(bytes@.take(i as int) =~= bytes@);
}

pub fn write_option_u64(body: &mut Vec<u8>, value: Option<u64>)
    ensures
        final(body)@ == old(body)@ + option_u64_bytes(value),
{
    let ghost before = body@;
    match value {
        None => body.push(0),
        Some(value) => {
            body.push(1);
            write_u64(body, value);
        },
    }
    assert(body@ =~= before + option_u64_bytes(value));
}

/// Appends UTF-8 text behind its byte length.
pub fn write_str(body: &mut Vec<u8>, value: &str)
    requires
        string_fits(value@),
    ensures
        final(body)@ == old(body)@ + string_bytes(value@),
{
    let ghost before = body@;
    let bytes = value.as_bytes();
    write_u32(body, bytes.len() as u32);
    write_bytes(body, bytes);
    assert(body@ =~= before + string_bytes(value@));
}

/// Whether the byte length of `value` fits the length prefix.
pub fn text_fits(value: &str) -> (fits: bool)
    ensures
        fits == string_fits(value@),
{
    value.as_bytes().len() <= u32::MAX as usize
}

/// A position in a byte sequence that is being parsed.
pub struct Reader<'a> {
    pub data: &'a [u8],
    pub pos: usize,
}

/// The outcome of reading a value agrees with the outcome of parsing it.
pub open spec fn reads<T: DeepView>(
    result: Result<T, String>,
    parsed: Parsed<T::V>,
    rest: Seq<u8>,
) -> bool {
    match result {
        Ok(value) => parsed == Ok::<(T::V, Seq<u8>), Seq<char>>((value.deep_view(), rest)),
        Err(detail) => parsed == Err::<(T::V, Seq<u8>), Seq<char>>(detail@),
    }
}

impl<'a> Reader<'a> {
    pub open spec fn wf(&self) -> bool {
        self.pos <= self.data@.len()
    }

    /// The bytes that have not been read.
    pub open spec fn rest(&self) -> Seq<u8> {
        self.data@.skip(self.pos as int)
    }

    /// A reader at the first byte of `data`.
    pub fn new(data: &'a [u8]) -> (reader: Self)
        ensures
            reader.wf(),
            reader.rest() == data@,
    {
        let reader = Reader { data, pos: 0 };
        assert(reader.rest() =~= data@);
        reader
    }

    pub fn is_done(&self) -> (done: bool)
        requires
            self.wf(),
        ensures
            done == (self.rest().len() == 0),
    {
        self.pos == self.data.len()
    }

    pub fn take(&mut self, length: usize) -> (bytes: Result<Vec<u8>, String>)
        requires
            old(self).wf(),
        ensures
            final(self).wf(),
            reads(bytes, parse_take(old(self).rest(), length as nat), final(self).rest()),
    {
        if length > self.data.len() - self.pos {
            return Err("descriptor is truncated".to_owned());
        }
        let start = self.pos;
        let end: usize = self.pos + length;
        let mut bytes: Vec<u8> = Vec::new();
        write_bytes(&mut bytes, vstd::slice::slice_subrange(self.data, start, end));
        self.pos = end;
        assert(bytes@ =~= old(self).rest().take(length as int));
        assert(bytes.deep_view() =~= bytes@);
        assert(self.rest() =~= old(self).rest().skip(length as int));
        Ok(bytes)
    }

    /// An unsigned integer of `width` bytes.
    fn uint(&mut self, width: usize) -> (value: Result<u64, String>)
        requires
            old(self).wf(),
            width <= 8,
        ensures
            final(self).wf(),
            match value {
                Ok(value) => parse_uint(old(self).rest(), width as nat) == Ok::<
                    (nat, Seq<u8>),
                    Seq<char>,
                >((value as nat, final(self).rest())),
                Err(detail) => parse_uint(old(self).rest(), width as nat) == Err::<
                    (nat, Seq<u8>),
                    Seq<char>,
                >(detail@),
            },
    {
        let bytes = self.take(width)?;
        assert(bytes.deep_view() =~= bytes@);
        proof {
            lemma_byte_ranges();
        }
        let mut value: u64 = 0;
        let mut left: usize = width;
        assert(bytes@.skip(left as int) =~= Seq::empty());
        while left > 0
            invariant
                left <= width <= 8,
                bytes@.len() == width,
                value as nat == le_value(bytes@.skip(left as int)),
            decreases left,
        {
            let ghost tail = bytes@.skip(left as int);
            left = left - 1;
            proof {
                lemma_le_value_bound(tail);
                reveal_with_fuel(byte_range, 9);
                assert(bytes@.skip(left as int).drop_first() =~= tail);
                assert(value < 0x100_0000_0000_0000);
            }
            value = (bytes[left] as u64) + 256 * value;
        }
        assert(bytes@.skip(0) =~= bytes@);
        Ok(value)
    }

    pub fn u8(&mut self) -> (value: Result<u8, String>)
        requires
            old(self).wf(),
        ensures
            final(self).wf(),
            reads(value, parse_u8(old(self).rest()), final(self).rest()),
    {
        let value = self.uint(1)?;
        Ok(value as u8)
    }

    pub fn u16(&mut self) -> (value: Result<u16, String>)
        requires
            old(self).wf(),
        ensures
            final(self).wf(),
            reads(value, parse_u16(old(self).rest()), final(self).rest()),
    {
        let value = self.uint(2)?;
        Ok(value as u16)
    }

    pub fn u32(&mut self) -> (value: Result<u32, String>)
        requires
            old(self).wf(),
        ensures
            final(self).wf(),
            reads(value, parse_u32(old(self).rest()), final(self).rest()),
    {
        let value = self.uint(4)?;
        Ok(value as u32)
    }

    pub fn u64(&mut self) -> (value: Result<u64, String>)
        requires
            old(self).wf(),
        ensures
            final(self).wf(),
            reads(value, parse_u64(old(self).rest()), final(self).rest()),
    {
        self.uint(8)
    }

    pub fn i32(&mut self) -> (value: Result<i32, String>)
        requires
            old(self).wf(),
        ensures
            final(self).wf(),
            reads(value, parse_i32(old(self).rest()), final(self).rest()),
    {
        let value = self.u32()?;
        Ok(value as i32)
    }

    pub fn i64(&mut self) -> (value: Result<i64, String>)
        requires
            old(self).wf(),
        ensures
            final(self).wf(),
            reads(value, parse_i64(old(self).rest()), final(self).rest()),
    {
        let value = self.u64()?;
        Ok(value as i64)
    }

    pub fn string(&mut self) -> (value: Result<String, String>)
        requires
            old(self).wf(),
        ensures
            final(self).wf(),
            reads(value, parse_string(old(self).rest()), final(self).rest()),
    {
        let length = self.u32()?;
        let bytes = self.take(length as usize)?;
        assert(bytes.deep_view() =~= bytes@);
        match string_from_utf8(bytes) {
            Some(text) => Ok(text),
            None => Err("string is not utf-8".to_owned()),
        }
    }

    pub fn option_u64(&mut self) -> (value: Result<Option<u64>, String>)
        requires
            old(self).wf(),
        ensures
            final(self).wf(),
            reads(value, parse_option_u64(old(self).rest()), final(self).rest()),
    {
        let tag = self.u8()?;
        if tag == 0 {
            Ok(None)
        } else if tag == 1 {
            let value = self.u64()?;
            Ok(Some(value))
        } else {
            Err("optional integer tag is invalid".to_owned())
        }
    }

    pub fn metadata(&mut self) -> (value: Result<TextMap<String>, String>)
        requires
            old(self).wf(),
        ensures
            final(self).wf(),
            reads(value, parse_metadata(old(self).rest()), final(self).rest()),
    {
        let count = self.u32()?;
        let ghost data = self.rest();
        let ghost mut pairs: Seq<(Seq<char>, Seq<char>)> = Seq::empty();
        let mut metadata: TextMap<String> = TextMap::new();
        let mut i: u32 = 0;
        while i < count
            invariant
                i <= count,
                self.wf(),
                parse_list(pair_item(), i as nat, data) == Ok::<
                    (Seq<(Seq<char>, Seq<char>)>, Seq<u8>),
                    Seq<char>,
                >((pairs, self.rest())),
                metadata@ == put_all(pairs),
                parse_u32(old(self).rest()) == Ok::<(u32, Seq<u8>), Seq<char>>((count, data)),
            decreases count - i,
        {
            let ghost start = self.rest();
            let key = match self.string() {
                Ok(key) => key,
                Err(detail) => {
                    proof {
                        lemma_parse_list_fails(pair_item(), (i + 1) as nat, count as nat, data);
                    }
                    return Err(detail);
                },
            };
            let value = match self.string() {
                Ok(value) => value,
                Err(detail) => {
                    proof {
                        lemma_parse_list_fails(pair_item(), (i + 1) as nat, count as nat, data);
                    }
                    return Err(detail);
                },
            };
            proof {
                let pair = (key@, value@);
                assert(parse_pair(start) == Ok::<_, Seq<char>>((pair, self.rest())));
                assert(pairs.push(pair).drop_last() =~= pairs);
                pairs = pairs.push(pair);
            }
            metadata.insert(key, value);
            i = i + 1;
        }
        Ok(metadata)
    }
}

/// A key and its value.
pub open spec fn parse_pair(data: Seq<u8>) -> Parsed<(Seq<char>, Seq<char>)> {
    match parse_string(data) {
        Err(detail) => Err(detail),
        Ok((key, rest)) => match parse_string(rest) {
            Err(detail) => Err(detail),
            Ok((value, rest)) => Ok(((key, value), rest)),
        },
    }
}

pub open spec fn pair_item() -> spec_fn(Seq<u8>) -> Parsed<(Seq<char>, Seq<char>)> {
    |data: Seq<u8>| parse_pair(data)
}

/// The pairs bound one after the other: the last of two equal keys wins.
pub open spec fn put_all(pairs: Seq<(Seq<char>, Seq<char>)>) -> Seq<(Seq<char>, Seq<char>)>
    decreases pairs.len(),
{
    if pairs.len() == 0 {
        Seq::empty()
    } else {
        sorted::put(put_all(pairs.drop_last()), pairs.last().0, pairs.last().1)
    }
}

/// Pairs that already ascend are kept as they are.
pub proof fn lemma_put_all_sorted(pairs: Seq<(Seq<char>, Seq<char>)>)
    requires
        sorted::keys_sorted(pairs),
    ensures
        put_all(pairs) == pairs,
    decreases pairs.len(),
{
    if pairs.len() > 0 {
        let front = pairs.drop_last();
        lemma_put_all_sorted(front);
        sorted::lemma_put_last(front, pairs.last().0, pairs.last().1);
        assert(front.push(pairs.last()) =~= pairs);
    } else {
        assert(put_all(pairs) =~= pairs);
    }
}

/// A counted list of metadata pairs.
pub open spec fn parse_metadata(data: Seq<u8>) -> Parsed<Seq<(Seq<char>, Seq<char>)>> {
    match parse_u32(data) {
        Err(detail) => Err(detail),
        Ok((count, rest)) => match parse_list(pair_item(), count as nat, rest) {
            Err(detail) => Err(detail),
            Ok((pairs, rest)) => Ok((put_all(pairs), rest)),
        },
    }
}

pub open spec fn pair_bytes(pair: (Seq<char>, Seq<char>)) -> Seq<u8> {
    string_bytes(pair.0) + string_bytes(pair.1)
}

pub open spec fn pair_encoding() -> spec_fn((Seq<char>, Seq<char>)) -> Seq<u8> {
    |pair: (Seq<char>, Seq<char>)| pair_bytes(pair)
}

/// A counted list of metadata pairs.
pub open spec fn metadata_bytes(metadata: Seq<(Seq<char>, Seq<char>)>) -> Seq<u8> {
    le_bytes(metadata.len(), 4) + concat(pair_encoding(), metadata)
}

/// Whether every key and value fits its length prefix.
pub open spec fn metadata_fits(metadata: Seq<(Seq<char>, Seq<char>)>) -> bool {
    forall|i: int|
        0 <= i < metadata.len() ==> string_fits((#[trigger] metadata[i]).0) && string_fits(
            metadata[i].1,
        )
}

pub proof fn lemma_parse_metadata(metadata: Seq<(Seq<char>, Seq<char>)>, rest: Seq<u8>)
    requires
        sorted::keys_sorted(metadata),
        metadata_fits(metadata),
        metadata.len() <= u32::MAX,
    ensures
        parse_metadata(metadata_bytes(metadata) + rest) == Ok::<
            (Seq<(Seq<char>, Seq<char>)>, Seq<u8>),
            Seq<char>,
        >((metadata, rest)),
{
    let list = concat(pair_encoding(), metadata);
    lemma_parse_u32(metadata.len() as u32, list + rest);
    assert(metadata_bytes(metadata) + rest =~= le_bytes(metadata.len(), 4) + (list + rest));
    let item = pair_item();
    let encode = pair_encoding();
    assert forall|i: int, tail: Seq<u8>| 0 <= i < metadata.len() implies #[trigger] item(
        encode(metadata[i]) + tail,
    ) == Ok::<((Seq<char>, Seq<char>), Seq<u8>), Seq<char>>((metadata[i], tail)) by {
        let pair = metadata[i];
        lemma_parse_string(pair.0, string_bytes(pair.1) + tail);
        lemma_parse_string(pair.1, tail);
        assert(pair_bytes(pair) + tail =~= string_bytes(pair.0) + (string_bytes(pair.1) + tail));
    }
    lemma_parse_list_round_trip(item, encode, metadata, rest);
    lemma_put_all_sorted(metadata);
}

/// Why descriptor bytes are refused.
#[derive(Debug)]
pub enum DescriptorError {
    /// The bytes are not a supported descriptor.
    Invalid(String),
    /// The CRC32C trailer does not match the body.
    Checksum,
}

#[verifier::ext_equal]
pub enum DescriptorErrorView {
    Invalid(Seq<char>),
    Checksum,
}

impl DeepView for DescriptorError {
    type V = DescriptorErrorView;

    open spec fn deep_view(&self) -> DescriptorErrorView {
        match self {
            DescriptorError::Invalid(detail) => DescriptorErrorView::Invalid(detail@),
            DescriptorError::Checksum => DescriptorErrorView::Checksum,
        }
    }
}

/// One bit of a CRC32C: the division by the Castagnoli polynomial, lowest bit first.
pub open spec fn crc_bit(state: u32) -> u32 {
    (state >> 1) ^ (if state & 1 == 1 {
        0x82f6_3b78u32
    } else {
        0u32
    })
}

/// Eight bits of a CRC32C.
pub open spec fn crc_byte(state: u32, byte: u8) -> u32 {
    let mixed = state ^ (byte as u32);
    crc_bit(crc_bit(crc_bit(crc_bit(crc_bit(crc_bit(crc_bit(crc_bit(mixed))))))))
}

/// The remainder after all bytes, from all ones.
pub open spec fn crc_state(bytes: Seq<u8>) -> u32
    decreases bytes.len(),
{
    if bytes.len() == 0 {
        0xffff_ffff
    } else {
        crc_byte(crc_state(bytes.drop_last()), bytes.last())
    }
}

/// The CRC32C of a byte sequence: the complement of the remainder.
pub open spec fn crc32c_value(bytes: Seq<u8>) -> u32 {
    !crc_state(bytes)
}

/// `crc32c::crc32c`: the CRC-32 of a byte sequence by the Castagnoli polynomial, started from all
/// ones and complemented at the end.
#[verifier::external_body]
fn checksum(bytes: &[u8]) -> (crc: u32)
    ensures
        crc == crc32c_value(bytes@),
{
    crc32c::crc32c(bytes)
}

proof fn lemma_crc_bit(left: u32, right: u32)
    requires
        left != right,
    ensures
        crc_bit(left) != crc_bit(right),
{
    assert(left != right ==> ((left >> 1) ^ (if left & 1 == 1 {
        0x82f6_3b78u32
    } else {
        0u32
    })) != ((right >> 1) ^ (if right & 1 == 1 {
        0x82f6_3b78u32
    } else {
        0u32
    }))) by (bit_vector);
}

proof fn lemma_crc_eight(left: u32, right: u32)
    requires
        left != right,
    ensures
        crc_bit(crc_bit(crc_bit(crc_bit(crc_bit(crc_bit(crc_bit(crc_bit(left)))))))) != crc_bit(
            crc_bit(crc_bit(crc_bit(crc_bit(crc_bit(crc_bit(crc_bit(right))))))),
        ),
{
    let (l1, r1) = (crc_bit(left), crc_bit(right));
    lemma_crc_bit(left, right);
    let (l2, r2) = (crc_bit(l1), crc_bit(r1));
    lemma_crc_bit(l1, r1);
    let (l3, r3) = (crc_bit(l2), crc_bit(r2));
    lemma_crc_bit(l2, r2);
    let (l4, r4) = (crc_bit(l3), crc_bit(r3));
    lemma_crc_bit(l3, r3);
    let (l5, r5) = (crc_bit(l4), crc_bit(r4));
    lemma_crc_bit(l4, r4);
    let (l6, r6) = (crc_bit(l5), crc_bit(r5));
    lemma_crc_bit(l5, r5);
    let (l7, r7) = (crc_bit(l6), crc_bit(r6));
    lemma_crc_bit(l6, r6);
    lemma_crc_bit(l7, r7);
}

/// Different states stay different, and different bytes make states different.
proof fn lemma_crc_byte(left: u32, right: u32, first: u8, second: u8)
    ensures
        left != right ==> crc_byte(left, first) != crc_byte(right, first),
        first != second ==> crc_byte(left, first) != crc_byte(left, second),
{
    if left != right {
        assert(left != right ==> left ^ (first as u32) != right ^ (first as u32)) by (bit_vector);
        lemma_crc_eight(left ^ (first as u32), right ^ (first as u32));
    }
    if first != second {
        assert(first != second ==> left ^ (first as u32) != left ^ (second as u32)) by (bit_vector);
        lemma_crc_eight(left ^ (first as u32), left ^ (second as u32));
    }
}

/// One changed byte changes the CRC32C.
pub proof fn one_changed_byte_changes_the_checksum(bytes: Seq<u8>, at: int, value: u8)
    requires
        0 <= at < bytes.len(),
        value != bytes[at],
    ensures
        crc32c_value(bytes.update(at, value)) != crc32c_value(bytes),
{
    lemma_crc_state(bytes, at, value);
    let (left, right) = (crc_state(bytes.update(at, value)), crc_state(bytes));
    assert(left != right ==> !left != !right) by (bit_vector);
}

proof fn lemma_crc_state(bytes: Seq<u8>, at: int, value: u8)
    requires
        0 <= at < bytes.len(),
        value != bytes[at],
    ensures
        crc_state(bytes.update(at, value)) != crc_state(bytes),
    decreases bytes.len(),
{
    let changed = bytes.update(at, value);
    let front = bytes.drop_last();
    if at == bytes.len() - 1 {
        assert(changed.drop_last() =~= front);
        lemma_crc_byte(crc_state(front), crc_state(front), value, bytes.last());
    } else {
        lemma_crc_state(front, at, value);
        assert(changed.drop_last() =~= front.update(at, value));
        lemma_crc_byte(
            crc_state(changed.drop_last()),
            crc_state(front),
            bytes.last(),
            bytes.last(),
        );
    }
}

/// Different bytes are different numbers.
proof fn lemma_le_value_differs(left: Seq<u8>, right: Seq<u8>)
    requires
        left.len() == right.len(),
        left != right,
    ensures
        le_value(left) != le_value(right),
    decreases left.len(),
{
    if left.len() == 0 {
        assert(left =~= right);
    } else if le_value(left) == le_value(right) {
        let (l, r) = (left.drop_first(), right.drop_first());
        assert(left[0] == right[0] && le_value(l) == le_value(r));
        if l == r {
            assert(left =~= seq![left[0]] + l);
            assert(right =~= seq![right[0]] + r);
        } else {
            lemma_le_value_differs(l, r);
        }
    }
}

/// Magic, version and body.
pub open spec fn framed(magic: Seq<u8>, version: u16, body: Seq<u8>) -> Seq<u8> {
    magic + le_bytes(version as nat, 2) + body
}

/// A framed body behind which its CRC32C stands.
pub open spec fn sealed(magic: Seq<u8>, version: u16, body: Seq<u8>) -> Seq<u8> {
    framed(magic, version, body) + le_bytes(crc32c_value(framed(magic, version, body)) as nat, 4)
}

/// The body of a sealed descriptor, or why the bytes are refused.
pub open spec fn unsealed(
    bytes: Seq<u8>,
    magic: Seq<u8>,
    version: u16,
    unsupported: Seq<char>,
) -> Result<Seq<u8>, DescriptorErrorView> {
    if bytes.len() < magic.len() + 2 + 4 {
        Err(DescriptorErrorView::Invalid("descriptor is truncated"@))
    } else {
        let covered = bytes.take(bytes.len() - 4);
        let found = le_value(covered.subrange(magic.len() as int, magic.len() as int + 2));
        if le_value(bytes.skip(bytes.len() - 4)) != crc32c_value(covered) {
            Err(DescriptorErrorView::Checksum)
        } else if covered.take(magic.len() as int) != magic {
            Err(DescriptorErrorView::Invalid("unrecognized magic"@))
        } else if found != version {
            Err(DescriptorErrorView::Invalid(unsupported + text::decimal_text(found)))
        } else {
            Ok(covered.skip(magic.len() as int + 2))
        }
    }
}

/// A sealed body is read back.
pub proof fn lemma_unsealed(
    magic: Seq<u8>,
    version: u16,
    body: Seq<u8>,
    unsupported: Seq<char>,
)
    ensures
        unsealed(sealed(magic, version, body), magic, version, unsupported) == Ok::<
            Seq<u8>,
            DescriptorErrorView,
        >(body),
{
    let covered = framed(magic, version, body);
    let crc = crc32c_value(covered);
    let bytes = sealed(magic, version, body);
    lemma_byte_ranges();
    lemma_le_round_trip(crc as nat, 4);
    lemma_le_round_trip(version as nat, 2);
    assert(bytes.take(bytes.len() - 4) =~= covered);
    assert(bytes.skip(bytes.len() - 4) =~= le_bytes(crc as nat, 4));
    assert(covered.take(magic.len() as int) =~= magic);
    assert(covered.subrange(magic.len() as int, magic.len() as int + 2) =~= le_bytes(version as nat, 2));
    assert(covered.skip(magic.len() as int + 2) =~= body);
}

/// A sealed body in which one byte changed is refused for its checksum, whichever byte it is.
pub proof fn one_changed_byte_is_refused(
    magic: Seq<u8>,
    version: u16,
    body: Seq<u8>,
    unsupported: Seq<char>,
    at: int,
    value: u8,
)
    requires
        0 <= at < sealed(magic, version, body).len(),
        value != sealed(magic, version, body)[at],
    ensures
        unsealed(
            sealed(magic, version, body).update(at, value),
            magic,
            version,
            unsupported,
        ) == Err::<Seq<u8>, DescriptorErrorView>(DescriptorErrorView::Checksum),
{
    let covered = framed(magic, version, body);
    let crc = crc32c_value(covered);
    let trailer = le_bytes(crc as nat, 4);
    let bytes = sealed(magic, version, body);
    let changed = bytes.update(at, value);
    lemma_byte_ranges();
    lemma_le_round_trip(crc as nat, 4);
    lemma_le_round_trip(version as nat, 2);
    if at < covered.len() {
        assert(changed.take(changed.len() - 4) =~= covered.update(at, value));
        assert(changed.skip(changed.len() - 4) =~= trailer);
        one_changed_byte_changes_the_checksum(covered, at, value);
    } else {
        let k = at - covered.len();
        assert(changed.take(changed.len() - 4) =~= covered);
        assert(changed.skip(changed.len() - 4) =~= trailer.update(k, value));
        assert(trailer.update(k, value)[k] != trailer[k]);
        lemma_le_value_differs(trailer.update(k, value), trailer);
    }
}

/// Seals a body.
pub fn seal(magic: &[u8], version: u16, body: &Vec<u8>) -> (bytes: Vec<u8>)
    ensures
        bytes@ == sealed(magic@, version, body@),
{
    let mut bytes: Vec<u8> = Vec::new();
    write_bytes(&mut bytes, magic);
    write_u16(&mut bytes, version);
    write_bytes(&mut bytes, body.as_slice());
    assert(bytes@ =~= framed(magic@, version, body@));
    let crc = checksum(bytes.as_slice());
    write_u32(&mut bytes, crc);
    bytes
}

/// The little-endian value of a few bytes.
fn small_value(bytes: &[u8]) -> (value: u64)
    requires
        bytes@.len() <= 4,
    ensures
        value == le_value(bytes@),
{
    let mut reader = Reader::new(bytes);
    proof {
        lemma_le_value_bound(bytes@);
        reveal_with_fuel(byte_range, 5);
        assert(bytes@.take(bytes@.len() as int) =~= bytes@);
    }
    match reader.uint(bytes.len()) {
        Ok(value) => value,
        Err(_) => 0,
    }
}

/// The body of a sealed descriptor.
pub fn unseal(bytes: &[u8], magic: &[u8], version: u16, unsupported: &str) -> (body: Result<
    Vec<u8>,
    DescriptorError,
>)
    requires
        magic@.len() <= 1024,
    ensures
        match body {
            Ok(body) => unsealed(bytes@, magic@, version, unsupported@) == Ok::<
                Seq<u8>,
                DescriptorErrorView,
            >(body@),
            Err(error) => unsealed(bytes@, magic@, version, unsupported@) == Err::<
                Seq<u8>,
                DescriptorErrorView,
            >(error.deep_view()),
        },
{
    if bytes.len() < magic.len() + 2 + 4 {
        return Err(DescriptorError::Invalid("descriptor is truncated".to_owned()));
    }
    let split: usize = bytes.len() - 4;
    let covered = vstd::slice::slice_subrange(bytes, 0, split);
    let trailer = vstd::slice::slice_subrange(bytes, split, bytes.len());
    assert(covered@ =~= bytes@.take(bytes@.len() - 4));
    assert(trailer@ =~= bytes@.skip(bytes@.len() - 4));
    if small_value(trailer) != checksum(covered) as u64 {
        return Err(DescriptorError::Checksum);
    }
    let mut i: usize = 0;
    while i < magic.len()
        invariant
            i <= magic.len(),
            magic@.len() + 2 <= covered@.len(),
            forall|k: int| 0 <= k < i ==> covered@[k] == magic@[k],
            covered@ == bytes@.take(bytes@.len() - 4),
            bytes@.len() >= magic@.len() + 2 + 4,
            le_value(bytes@.skip(bytes@.len() - 4)) == crc32c_value(covered@),
        decreases magic.len() - i,
    {
        if covered[i] != magic[i] {
            assert(covered@.take(magic@.len() as int)[i as int] != magic@[i as int]);
            return Err(DescriptorError::Invalid("unrecognized magic".to_owned()));
        }
        i = i + 1;
    }
    assert(covered@.take(magic@.len() as int) =~= magic@);
    let found = small_value(
        vstd::slice::slice_subrange(covered, magic.len(), magic.len() + 2),
    );
    if found != version as u64 {
        let mut detail = unsupported.to_owned();
        text::push_decimal(&mut detail, found);
        return Err(DescriptorError::Invalid(detail));
    }
    let mut body: Vec<u8> = Vec::new();
    write_bytes(
        &mut body,
        vstd::slice::slice_subrange(covered, magic.len() + 2, covered.len()),
    );
    assert(body@ =~= covered@.skip(magic@.len() as int + 2));
    Ok(body)
}

/// Appends a counted list of metadata pairs, or says that there are too many.
pub fn write_metadata(body: &mut Vec<u8>, metadata: &TextMap<String>) -> (written: bool)
    requires
        metadata_fits(metadata@),
    ensures
        written == (metadata@.len() <= u32::MAX),
        written ==> final(body)@ == old(body)@ + metadata_bytes(metadata@),
{
    if metadata.len() > u32::MAX as usize {
        return false;
    }
    let ghost before = body@;
    write_u32(body, metadata.len() as u32);
    let mut i: usize = 0;
    assert(metadata@.take(0) =~= Seq::empty());
    assert(body@ =~= before + le_bytes(metadata@.len(), 4) + concat(pair_encoding(), metadata@.take(0)));
    while i < metadata.len()
        invariant
            i <= metadata@.len(),
            metadata_fits(metadata@),
            body@ == before + le_bytes(metadata@.len(), 4) + concat(
                pair_encoding(),
                metadata@.take(i as int),
            ),
        decreases metadata@.len() - i,
    {
        let ghost start = body@;
        assert(string_fits(metadata@[i as int].0));
        write_str(body, metadata.key_at(i));
        write_str(body, metadata.value_at(i));
        proof {
            lemma_concat_push(pair_encoding(), metadata@.take(i as int), metadata@[i as int]);
            assert(metadata@.take(i + 1) =~= metadata@.take(i as int).push(metadata@[i as int]));
            assert(body@ =~= start + pair_bytes(metadata@[i as int]));
        }
        i = i + 1;
    }
    assert(metadata@.take(i as int) =~= metadata@);
    assert(body@ =~= before + metadata_bytes(metadata@));
    true
}

// What encodings tell apart.

/// Whether encodings tell values apart, whatever stands behind them.
pub open spec fn tells_apart<T>(encode: spec_fn(T) -> Seq<u8>, fits: spec_fn(T) -> bool) -> bool {
    forall|a: T, b: T, x: Seq<u8>, y: Seq<u8>|
        fits(a) && fits(b) && #[trigger] (encode(a) + x) == #[trigger] (encode(b) + y) ==> a == b
            && x == y
}

/// Lists of one length are told apart where their values are.
pub proof fn lemma_lists_told_apart<T>(
    encode: spec_fn(T) -> Seq<u8>,
    fits: spec_fn(T) -> bool,
    left: Seq<T>,
    right: Seq<T>,
    x: Seq<u8>,
    y: Seq<u8>,
)
    requires
        tells_apart(encode, fits),
        left.len() == right.len(),
        forall|i: int| 0 <= i < left.len() ==> fits(#[trigger] left[i]),
        forall|i: int| 0 <= i < right.len() ==> fits(#[trigger] right[i]),
        concat(encode, left) + x == concat(encode, right) + y,
    ensures
        left == right,
        x == y,
    decreases left.len(),
{
    if left.len() > 0 {
        let (l, r) = (left.drop_last(), right.drop_last());
        let end = left.len() - 1;
        assert(concat(encode, left) + x =~= concat(encode, l) + (encode(left[end]) + x));
        assert(concat(encode, right) + y =~= concat(encode, r) + (encode(right[end]) + y));
        assert forall|i: int| 0 <= i < l.len() implies fits(#[trigger] l[i]) by {
            assert(l[i] == left[i]);
        }
        assert forall|i: int| 0 <= i < r.len() implies fits(#[trigger] r[i]) by {
            assert(r[i] == right[i]);
        }
        lemma_lists_told_apart(
            encode,
            fits,
            l,
            r,
            encode(left[end]) + x,
            encode(right[end]) + y,
        );
        assert(fits(left[end]) && fits(right[end]));
        assert(left =~= l.push(left[end]));
        assert(right =~= r.push(right[end]));
    } else {
        assert(concat(encode, left) + x =~= x);
        assert(concat(encode, right) + y =~= y);
        assert(left =~= right);
    }
}

proof fn lemma_le_inverse(bytes: Seq<u8>)
    ensures
        le_bytes(le_value(bytes), bytes.len()) == bytes,
    decreases bytes.len(),
{
    if bytes.len() > 0 {
        lemma_le_inverse(bytes.drop_first());
        let value = le_value(bytes);
        assert(value % 256 == bytes[0]);
        assert(value / 256 == le_value(bytes.drop_first()));
        assert(bytes =~= seq![bytes[0]] + bytes.drop_first());
    }
}

/// Only sealed bodies are read: bytes that are accepted are the body behind the magic and the version, with
/// the checksum of all three behind it.
pub proof fn only_sealed_bodies_are_read(
    bytes: Seq<u8>,
    magic: Seq<u8>,
    version: u16,
    unsupported: Seq<char>,
)
    requires
        unsealed(bytes, magic, version, unsupported) is Ok,
    ensures
        bytes == sealed(magic, version, unsealed(bytes, magic, version, unsupported)->Ok_0),
{
    let body = unsealed(bytes, magic, version, unsupported)->Ok_0;
    let covered = bytes.take(bytes.len() - 4);
    let sum = bytes.skip(bytes.len() - 4);
    let number = covered.subrange(magic.len() as int, magic.len() as int + 2);
    lemma_le_inverse(sum);
    lemma_le_inverse(number);
    assert(covered =~= magic + number + body);
    assert(bytes =~= covered + sum);
}

} // verus!
