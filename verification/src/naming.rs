//! Physical names of dynamic columns.
//!
//! A name is `{source}_{normalized_path}_{type}`. When different exact paths share a name, every
//! member of that group gains a `__` suffix and a BLAKE3 prefix of its exact identity. The prefix
//! grows until the names differ.
use vstd::prelude::*;
use vstd::utf8;
use crate::canonical_json::CanonicalJsonError;
use crate::codec;
use crate::codec::write_bytes;
use crate::identity;
use crate::identity::{DynamicField, DynamicFieldView, DynamicIdentity, IdentityView};
use crate::schema;
use crate::text;
use crate::text::{chars_of, order_text, same_text, string_of, TextOrder};

verus! {

/// Hex digits by which a digest suffix starts and grows.
pub const DIGEST_PREFIX: usize = 8;

/// Why a dynamic projection could not be built.
#[derive(Clone, Copy, Debug, PartialEq, Eq, Structural)]
pub enum DynamicError {
    /// A JSON leaf was nested deeper than the canonical JSON encoder allows.
    CanonicalJson(CanonicalJsonError),
    /// Two different paths produced the same full digest.
    DigestCollision,
}

impl DynamicError {
    pub open spec fn text(self) -> Seq<char> {
        match self {
            DynamicError::CanonicalJson(_) => "OTLP value nesting is too deep"@,
            DynamicError::DigestCollision => "dynamic field digest collision"@,
        }
    }

    /// The message of this error.
    pub fn message(&self) -> (message: String)
        ensures
            message@ == self.text(),
    {
        match self {
            DynamicError::CanonicalJson(error) => error.message(),
            DynamicError::DigestCollision => "dynamic field digest collision".to_owned(),
        }
    }
}

/// The lowercase form of a character, as `char::to_lowercase` gives it.
pub uninterp spec fn lowercase(character: char) -> Seq<char>;

/// Whether a character is a letter, as `char::is_alphabetic` has it.
pub uninterp spec fn alphabetic(character: char) -> bool;

/// The BLAKE3 hash of a byte sequence.
pub uninterp spec fn blake3_hash(bytes: Seq<u8>) -> Seq<u8>;

/// `char::to_lowercase`: the characters of the lowercase form.
#[verifier::external_body]
fn to_lower(character: char) -> (lower: Vec<char>)
    ensures
        lower@ == lowercase(character),
{
    character.to_lowercase().collect()
}

/// `char::is_alphabetic`: whether a character has the `Alphabetic` property.
#[verifier::external_body]
fn is_letter(character: char) -> (letter: bool)
    ensures
        letter == alphabetic(character),
{
    character.is_alphabetic()
}

/// `blake3::hash`: the 32 bytes of the default-length output.
#[verifier::external_body]
pub(crate) fn hash_bytes(bytes: &Vec<u8>) -> (hash: Vec<u8>)
    ensures
        hash@ == blake3_hash(bytes@),
        hash@.len() == 32,
{
    blake3::hash(bytes).as_bytes().to_vec()
}

/// What stands for a character in a name: the lowercase form of a letter, `_` for anything else.
pub open spec fn normalized_character(character: char) -> Seq<char> {
    if alphabetic(character) {
        lowercase(character)
    } else {
        seq!['_']
    }
}

/// A key segment in lower case, with `_` for every character that is no letter.
pub open spec fn normalized(segment: Seq<char>) -> Seq<char>
    decreases segment.len(),
{
    if segment.len() == 0 {
        Seq::empty()
    } else {
        normalized(segment.drop_last()) + normalized_character(segment.last())
    }
}

/// The normalized segments, each behind a `_`.
pub open spec fn joined_path(path: Seq<Seq<char>>) -> Seq<char>
    decreases path.len(),
{
    if path.len() == 0 {
        Seq::empty()
    } else {
        joined_path(path.drop_last()) + "_"@ + normalized(path.last())
    }
}

/// `{source}_{normalized_path}_{type}`.
pub open spec fn base_text(identity: IdentityView) -> Seq<char> {
    identity.source.text() + joined_path(identity.path) + "_"@ + identity.kind.text()
}

/// A key segment in lower case, with `_` for every character that is no letter.
pub fn normalize_segment(segment: &str) -> (name: String)
    ensures
        name@ == normalized(segment@),
{
    let chars = chars_of(segment);
    let mut name = String::new();
    let mut i: usize = 0;
    assert(segment@.take(0) =~= Seq::empty());
    while i < chars.len()
        invariant
            i <= chars.len(),
            chars@ == segment@,
            name@ == normalized(segment@.take(i as int)),
        decreases chars.len() - i,
    {
        assert(segment@.take(i + 1).drop_last() =~= segment@.take(i as int));
        let ghost before = name@;
        if is_letter(chars[i]) {
            let lower = to_lower(chars[i]);
            let mut k: usize = 0;
            assert(lower@.take(0) =~= Seq::empty());
            while k < lower.len()
                invariant
                    k <= lower.len(),
                    name@ == before + lower@.take(k as int),
                decreases lower.len() - k,
            {
                name.push(lower[k]);
                assert(lower@.take(k + 1) =~= lower@.take(k as int).push(lower@[k as int]));
                k = k + 1;
            }
            assert(lower@.take(k as int) =~= lower@);
        } else {
            name.push('_');
            assert(name@ =~= before + seq!['_']);
        }
        i = i + 1;
    }
    assert(segment@.take(i as int) =~= segment@);
    name
}

/// `{source}_{normalized_path}_{type}`.
pub fn base_name(identity: &DynamicIdentity) -> (name: String)
    ensures
        name@ == base_text(identity.deep_view()),
{
    let ghost path = identity.path.deep_view();
    let ghost start = identity.source.text();
    let mut name = identity.source.as_str().to_owned();
    let mut i: usize = 0;
    assert(path.take(0) =~= Seq::empty());
    assert(name@ =~= start + joined_path(path.take(0)));
    while i < identity.path.len()
        invariant
            i <= identity.path.len(),
            path == identity.path.deep_view(),
            name@ == start + joined_path(path.take(i as int)),
        decreases identity.path.len() - i,
    {
        assert(path.take(i + 1).drop_last() =~= path.take(i as int));
        name.append("_");
        name.append(&normalize_segment(&identity.path[i]));
        assert(name@ =~= start + joined_path(path.take(i + 1)));
        i = i + 1;
    }
    assert(path.take(i as int) =~= path);
    name.append("_");
    name.append(identity.kind.as_str());
    name
}

/// The `width` low bytes of `value`, most significant first.
pub open spec fn be_bytes(value: nat, width: nat) -> Seq<u8>
    decreases width,
{
    if width == 0 {
        Seq::empty()
    } else {
        be_bytes(value / 256, (width - 1) as nat).push((value % 256) as u8)
    }
}

pub(crate) fn write_be(bytes: &mut Vec<u8>, value: u64, width: usize)
    ensures
        final(bytes)@ == old(bytes)@ + be_bytes(value as nat, width as nat),
    decreases width,
{
    let ghost before = bytes@;
    if width > 0 {
        write_be(bytes, value / 256, width - 1);
        bytes.push((value % 256) as u8);
    }
    assert(bytes@ =~= before + be_bytes(value as nat, width as nat));
}

/// A key segment behind its byte length.
pub open spec fn segment_bytes(segment: Seq<char>) -> Seq<u8> {
    be_bytes(utf8::encode_utf8(segment).len(), 8) + utf8::encode_utf8(segment)
}

pub open spec fn segment_encoding() -> spec_fn(Seq<char>) -> Seq<u8> {
    |segment: Seq<char>| segment_bytes(segment)
}

/// The bytes of an identity that its digest covers.
pub open spec fn identity_bytes(identity: IdentityView) -> Seq<u8> {
    seq![identity.source.number()] + be_bytes(identity.path.len(), 8) + codec::concat(
        segment_encoding(),
        identity.path,
    ) + seq![identity.kind.number()]
}

pub open spec fn hex_digit(value: int) -> char {
    if value < 10 {
        (('0' as int) + value) as char
    } else {
        (('a' as int) + (value - 10)) as char
    }
}

/// Two lowercase hex digits per byte.
pub open spec fn hex_text(bytes: Seq<u8>) -> Seq<char>
    decreases bytes.len(),
{
    if bytes.len() == 0 {
        Seq::empty()
    } else {
        hex_text(bytes.drop_last()) + seq![
            hex_digit(bytes.last() as int / 16),
            hex_digit(bytes.last() as int % 16),
        ]
    }
}

/// The digest that tells identities with one base name apart.
pub open spec fn digest_text(identity: IdentityView) -> Seq<char> {
    hex_text(blake3_hash(identity_bytes(identity)))
}

fn hex_char(value: u8) -> (digit: char)
    requires
        value < 16,
    ensures
        digit == hex_digit(value as int),
{
    if value < 10 {
        (48u8 + value) as char
    } else {
        (97u8 + (value - 10)) as char
    }
}

/// Two lowercase hex digits per byte.
pub fn hex_encode(bytes: &Vec<u8>) -> (encoded: String)
    ensures
        encoded@ == hex_text(bytes@),
{
    let mut encoded = String::new();
    let mut i: usize = 0;
    assert(bytes@.take(0) =~= Seq::empty());
    while i < bytes.len()
        invariant
            i <= bytes.len(),
            encoded@ == hex_text(bytes@.take(i as int)),
        decreases bytes.len() - i,
    {
        assert(bytes@.take(i + 1).drop_last() =~= bytes@.take(i as int));
        encoded.push(hex_char(bytes[i] / 16));
        encoded.push(hex_char(bytes[i] % 16));
        assert(encoded@ =~= hex_text(bytes@.take(i + 1)));
        i = i + 1;
    }
    assert(bytes@.take(i as int) =~= bytes@);
    encoded
}

pub open spec fn is_hex(character: char) -> bool {
    '0' <= character <= '9' || 'a' <= character <= 'f'
}

pub open spec fn all_hex(chars: Seq<char>) -> bool {
    forall|i: int| 0 <= i < chars.len() ==> is_hex(#[trigger] chars[i])
}

proof fn lemma_hex_text(bytes: Seq<u8>)
    ensures
        hex_text(bytes).len() == 2 * bytes.len(),
        all_hex(hex_text(bytes)),
    decreases bytes.len(),
{
    if bytes.len() > 0 {
        lemma_hex_text(bytes.drop_last());
    }
}

/// The digest that tells identities with one base name apart.
fn identity_digest(identity: &DynamicIdentity) -> (digest: String)
    ensures
        digest@ == digest_text(identity.deep_view()),
        digest@.len() == 64,
        all_hex(digest@),
{
    let ghost path = identity.path.deep_view();
    let mut bytes: Vec<u8> = Vec::new();
    bytes.push(identity.source.tag());
    write_be(&mut bytes, identity.path.len() as u64, 8);
    let ghost head = bytes@;
    let mut i: usize = 0;
    assert(path.take(0) =~= Seq::empty());
    assert(bytes@ =~= head + codec::concat(segment_encoding(), path.take(0)));
    while i < identity.path.len()
        invariant
            i <= identity.path.len(),
            path == identity.path.deep_view(),
            bytes@ == head + codec::concat(segment_encoding(), path.take(i as int)),
        decreases identity.path.len() - i,
    {
        let ghost before = bytes@;
        let segment = identity.path[i].as_str().as_bytes();
        write_be(&mut bytes, segment.len() as u64, 8);
        write_bytes(&mut bytes, segment);
        proof {
            codec::lemma_concat_push(segment_encoding(), path.take(i as int), path[i as int]);
            assert(path.take(i + 1) =~= path.take(i as int).push(path[i as int]));
            assert(bytes@ =~= before + segment_bytes(path[i as int]));
            assert(bytes@ =~= head + codec::concat(segment_encoding(), path.take(i + 1)));
        }
        i = i + 1;
    }
    assert(path.take(i as int) =~= path);
    bytes.push(identity.kind.tag());
    assert(bytes@ =~= identity_bytes(identity.deep_view()));
    let hash = hash_bytes(&bytes);
    proof {
        lemma_hex_text(hash@);
    }
    hex_encode(&hash)
}

/// Length of the shortest digest, 0 when there is none.
pub open spec fn shortest(digests: Seq<Seq<char>>) -> nat
    decreases digests.len(),
{
    if digests.len() == 0 {
        0
    } else if digests.len() == 1 {
        digests[0].len()
    } else if digests.last().len() < shortest(digests.drop_last()) {
        digests.last().len()
    } else {
        shortest(digests.drop_last())
    }
}

/// Whether the prefixes of that width exist and differ.
pub open spec fn prefixes_differ(digests: Seq<Seq<char>>, width: nat) -> bool {
    &&& forall|i: int| 0 <= i < digests.len() ==> (#[trigger] digests[i]).len() >= width
    &&& forall|i: int, j: int|
        0 <= i < j < digests.len() ==> (#[trigger] digests[i]).take(width as int) != (
        #[trigger] digests[j]).take(width as int)
}

/// The first width, from `width` in steps of [`DIGEST_PREFIX`] up to `full`, at which the prefixes
/// differ.
pub open spec fn width_from(digests: Seq<Seq<char>>, width: nat, full: nat) -> Option<nat>
    decreases full - width,
{
    if prefixes_differ(digests, width) {
        Some(width)
    } else if width >= full {
        None
    } else if width + DIGEST_PREFIX >= full {
        width_from(digests, full, full)
    } else {
        width_from(digests, width + DIGEST_PREFIX as nat, full)
    }
}

/// The suffix width that tells digests apart, if the full digests differ.
pub open spec fn unique_width(digests: Seq<Seq<char>>) -> Option<nat> {
    let full = shortest(digests);
    if full == 0 {
        None
    } else if full < DIGEST_PREFIX {
        width_from(digests, full, full)
    } else {
        width_from(digests, DIGEST_PREFIX as nat, full)
    }
}

proof fn lemma_width_from(digests: Seq<Seq<char>>, width: nat, full: nat)
    requires
        width <= full,
        width_from(digests, width, full) is Some,
    ensures
        width <= width_from(digests, width, full)->0 <= full,
        prefixes_differ(digests, width_from(digests, width, full)->0),
    decreases full - width,
{
    if !prefixes_differ(digests, width) {
        if width + DIGEST_PREFIX >= full {
            lemma_width_from(digests, full, full);
        } else {
            lemma_width_from(digests, width + DIGEST_PREFIX as nat, full);
        }
    }
}

proof fn lemma_shortest(digests: Seq<Seq<char>>, len: nat)
    requires
        digests.len() > 0,
        forall|i: int| 0 <= i < digests.len() ==> (#[trigger] digests[i]).len() == len,
    ensures
        shortest(digests) == len,
    decreases digests.len(),
{
    if digests.len() > 1 {
        lemma_shortest(digests.drop_last(), len);
    }
}

fn prefixes_unique(digests: &Vec<Vec<char>>, width: usize) -> (unique: bool)
    ensures
        unique == prefixes_differ(digests.deep_view(), width as nat),
{
    let ghost all = digests.deep_view();
    let mut i: usize = 0;
    while i < digests.len()
        invariant
            i <= digests.len(),
            all == digests.deep_view(),
            forall|k: int| 0 <= k < i ==> (#[trigger] all[k]).len() >= width,
            forall|k: int, j: int|
                0 <= k < j < i ==> (#[trigger] all[k]).take(width as int) != (
                #[trigger] all[j]).take(width as int),
        decreases digests.len() - i,
    {
        assert(all[i as int] =~= digests@[i as int]@);
        if digests[i].len() < width {
            assert(all[i as int].len() < width);
            return false;
        }
        let mut k: usize = 0;
        while k < i
            invariant
                k <= i < digests.len(),
                all == digests.deep_view(),
                all[i as int] == digests@[i as int]@,
                digests@[i as int]@.len() >= width,
                forall|j: int| 0 <= j < i ==> (#[trigger] all[j]).len() >= width,
                forall|j: int|
                    0 <= j < k ==> (#[trigger] all[j]).take(width as int) != all[i as int].take(
                        width as int,
                    ),
            decreases i - k,
        {
            assert(all[k as int] =~= digests@[k as int]@);
            if same_prefix(&digests[k], &digests[i], width) {
                assert(all[k as int].take(width as int) == all[i as int].take(width as int));
                return false;
            }
            k = k + 1;
        }
        i = i + 1;
    }
    true
}

fn same_prefix(left: &Vec<char>, right: &Vec<char>, width: usize) -> (same: bool)
    requires
        width <= left@.len(),
        width <= right@.len(),
    ensures
        same == (left@.take(width as int) == right@.take(width as int)),
{
    let mut i: usize = 0;
    while i < width
        invariant
            i <= width,
            width <= left@.len(),
            width <= right@.len(),
            forall|k: int| 0 <= k < i ==> left@[k] == right@[k],
        decreases width - i,
    {
        if left[i] != right[i] {
            assert(left@.take(width as int)[i as int] != right@.take(width as int)[i as int]);
            return false;
        }
        i = i + 1;
    }
    assert(left@.take(width as int) =~= right@.take(width as int));
    true
}

/// The suffix width that tells hex digests apart.
///
/// # Errors
///
/// Returns [`DynamicError::DigestCollision`] when a full digest does not separate two members.
pub fn unique_hex_width(digests: &Vec<String>) -> (width: Result<usize, DynamicError>)
    ensures
        match width {
            Ok(width) => unique_width(digests.deep_view()) == Some(width as nat),
            Err(error) => unique_width(digests.deep_view()) is None && error is DigestCollision,
        },
{
    let ghost all = digests.deep_view();
    let mut chars: Vec<Vec<char>> = Vec::new();
    let mut full: usize = 0;
    let mut i: usize = 0;
    assert(all.take(0) =~= Seq::empty());
    assert(chars.deep_view() =~= Seq::empty());
    while i < digests.len()
        invariant
            i <= digests.len(),
            all == digests.deep_view(),
            chars.deep_view() == all.take(i as int),
            full == shortest(all.take(i as int)),
        decreases digests.len() - i,
    {
        assert(all.take(i + 1).drop_last() =~= all.take(i as int));
        let digest = chars_of(&digests[i]);
        if i == 0 || digest.len() < full {
            full = digest.len();
        }
        let ghost before = chars.deep_view();
        chars.push(digest);
        assert(digest.deep_view() =~= digest@);
        assert(chars.deep_view() =~= before.push(all[i as int]));
        assert(chars.deep_view() =~= all.take(i + 1));
        i = i + 1;
    }
    assert(all.take(i as int) =~= all);
    let mut width: usize = if full < DIGEST_PREFIX {
        full
    } else {
        DIGEST_PREFIX
    };
    if width == 0 {
        return Err(DynamicError::DigestCollision);
    }
    while !prefixes_unique(&chars, width)
        invariant
            0 < width <= full,
            all == digests.deep_view(),
            chars.deep_view() == all,
            unique_width(all) == width_from(all, width as nat, full as nat),
        ensures
            unique_width(all) == Some(width as nat),
        decreases full - width,
    {
        if width == full {
            return Err(DynamicError::DigestCollision);
        }
        width = if full - width <= DIGEST_PREFIX {
            full
        } else {
            width + DIGEST_PREFIX
        };
    }
    Ok(width)
}

/// Order of fields: by name, then identity.
pub open spec fn field_lt(left: DynamicFieldView, right: DynamicFieldView) -> bool {
    text::text_lt(left.physical_name, right.physical_name) || (left.physical_name
        == right.physical_name && identity::identity_lt(left.identity, right.identity))
}

proof fn lemma_field_lt_transitive(a: DynamicFieldView, b: DynamicFieldView, c: DynamicFieldView)
    requires
        field_lt(a, b),
        field_lt(b, c),
    ensures
        field_lt(a, c),
{
    if text::text_lt(a.physical_name, b.physical_name) && text::text_lt(
        b.physical_name,
        c.physical_name,
    ) {
        text::lemma_text_lt_transitive(a.physical_name, b.physical_name, c.physical_name);
    } else if a.physical_name == b.physical_name && b.physical_name == c.physical_name {
        text::lemma_text_lt_irreflexive(a.physical_name);
        identity::lemma_identity_lt_transitive(a.identity, b.identity, c.identity);
    }
}

proof fn lemma_field_lt_total(a: DynamicFieldView, b: DynamicFieldView)
    ensures
        field_lt(a, b) || field_lt(b, a) || a == b,
        field_lt(a, b) ==> !field_lt(b, a) && a != b,
{
    text::lemma_text_lt_total(a.physical_name, b.physical_name);
    text::lemma_text_lt_irreflexive(a.physical_name);
    identity::lemma_identity_lt_total(a.identity, b.identity);
    identity::lemma_identity_lt_irreflexive(a.identity);
}

/// Fields in strictly ascending order.
pub open spec fn fields_ascend(fields: Seq<DynamicFieldView>) -> bool {
    forall|i: int, j: int|
        0 <= i < j < fields.len() ==> field_lt(#[trigger] fields[i], #[trigger] fields[j])
}

/// `fields` with `field` at its place; a field that is already there is not repeated.
pub open spec fn insert_field(fields: Seq<DynamicFieldView>, field: DynamicFieldView) -> Seq<
    DynamicFieldView,
>
    decreases fields.len(),
{
    if fields.len() == 0 {
        seq![field]
    } else if fields.last() == field {
        fields
    } else if field_lt(fields.last(), field) {
        fields.push(field)
    } else {
        insert_field(fields.drop_last(), field).push(fields.last())
    }
}

/// The fields in ascending order, without repeats.
pub open spec fn sort_fields(fields: Seq<DynamicFieldView>) -> Seq<DynamicFieldView>
    decreases fields.len(),
{
    if fields.len() == 0 {
        Seq::empty()
    } else {
        insert_field(sort_fields(fields.drop_last()), fields.last())
    }
}

proof fn lemma_insert_members(
    fields: Seq<DynamicFieldView>,
    field: DynamicFieldView,
    other: DynamicFieldView,
)
    ensures
        insert_field(fields, field).contains(other) <==> fields.contains(other) || other == field,
    decreases fields.len(),
{
    let result = insert_field(fields, field);
    if fields.len() == 0 {
        assert(result[0] == field);
    } else if fields.last() == field {
        assert(fields[fields.len() - 1] == field);
    } else if field_lt(fields.last(), field) {
        if fields.contains(other) {
            let i = choose|i: int| 0 <= i < fields.len() && fields[i] == other;
            assert(result[i] == other);
        }
        assert(result[fields.len() as int] == field);
        if result.contains(other) {
            let i = choose|i: int| 0 <= i < result.len() && result[i] == other;
            if i < fields.len() {
                assert(fields[i] == other);
            }
        }
    } else {
        let front = fields.drop_last();
        let inner = insert_field(front, field);
        lemma_insert_members(front, field, other);
        if fields.contains(other) || other == field {
            if other == fields.last() {
                assert(result[inner.len() as int] == other);
            } else {
                if fields.contains(other) {
                    let i = choose|i: int| 0 <= i < fields.len() && fields[i] == other;
                    assert(front[i] == other);
                }
                let i = choose|i: int| 0 <= i < inner.len() && inner[i] == other;
                assert(result[i] == other);
            }
        }
        if result.contains(other) {
            let i = choose|i: int| 0 <= i < result.len() && result[i] == other;
            if i < inner.len() {
                assert(inner[i] == other);
                if front.contains(other) {
                    let k = choose|k: int| 0 <= k < front.len() && front[k] == other;
                    assert(fields[k] == other);
                }
            } else {
                assert(fields[fields.len() - 1] == other);
            }
        }
    }
}

/// Sorting neither loses nor invents a field.
pub proof fn lemma_sort_members(fields: Seq<DynamicFieldView>, other: DynamicFieldView)
    ensures
        sort_fields(fields).contains(other) <==> fields.contains(other),
    decreases fields.len(),
{
    if fields.len() > 0 {
        let front = fields.drop_last();
        lemma_sort_members(front, other);
        lemma_insert_members(sort_fields(front), fields.last(), other);
        if fields.contains(other) {
            let i = choose|i: int| 0 <= i < fields.len() && fields[i] == other;
            if i < front.len() {
                assert(front[i] == other);
            }
        }
        if front.contains(other) {
            let i = choose|i: int| 0 <= i < front.len() && front[i] == other;
            assert(fields[i] == other);
        }
        assert(fields[fields.len() - 1] == fields.last());
    }
}

proof fn lemma_insert_ascends(fields: Seq<DynamicFieldView>, field: DynamicFieldView)
    requires
        fields_ascend(fields),
    ensures
        fields_ascend(insert_field(fields, field)),
    decreases fields.len(),
{
    let result = insert_field(fields, field);
    if fields.len() > 0 && fields.last() != field {
        lemma_field_lt_total(fields.last(), field);
        if field_lt(fields.last(), field) {
            assert forall|i: int, j: int| 0 <= i < j < result.len() implies field_lt(
                #[trigger] result[i],
                #[trigger] result[j],
            ) by {
                if j < fields.len() {
                    assert(field_lt(fields[i], fields[j]));
                } else if i < fields.len() - 1 {
                    lemma_field_lt_transitive(fields[i], fields.last(), field);
                }
            }
        } else {
            let front = fields.drop_last();
            let inner = insert_field(front, field);
            lemma_insert_ascends(front, field);
            assert forall|i: int, j: int| 0 <= i < j < result.len() implies field_lt(
                #[trigger] result[i],
                #[trigger] result[j],
            ) by {
                if j < inner.len() {
                    assert(field_lt(inner[i], inner[j]));
                } else {
                    lemma_insert_members(front, field, inner[i]);
                    assert(inner.contains(inner[i]));
                    if inner[i] != field {
                        let k = choose|k: int| 0 <= k < front.len() && front[k] == inner[i];
                        assert(field_lt(fields[k], fields[fields.len() - 1]));
                    }
                }
            }
        }
    }
}

/// Sorting puts the fields in strictly ascending order.
pub proof fn lemma_sort_ascends(fields: Seq<DynamicFieldView>)
    ensures
        fields_ascend(sort_fields(fields)),
    decreases fields.len(),
{
    if fields.len() > 0 {
        lemma_sort_ascends(fields.drop_last());
        lemma_insert_ascends(sort_fields(fields.drop_last()), fields.last());
    }
}

/// Inserting into ascending fields at a known position.
proof fn lemma_insert_at(fields: Seq<DynamicFieldView>, field: DynamicFieldView, at: int)
    requires
        fields_ascend(fields),
        0 <= at <= fields.len(),
        at > 0 ==> field_lt(fields[at - 1], field),
        forall|i: int|
            at <= i < fields.len() ==> !field_lt(#[trigger] fields[i], field) && fields[i] != field,
    ensures
        insert_field(fields, field) == fields.insert(at, field),
    decreases fields.len(),
{
    if at == fields.len() {
        if fields.len() > 0 {
            lemma_field_lt_total(fields.last(), field);
        }
        assert(fields.insert(at, field) =~= insert_field(fields, field));
    } else {
        let front = fields.drop_last();
        assert(!field_lt(fields[fields.len() - 1], field));
        assert forall|i: int| at <= i < front.len() implies !field_lt(#[trigger] front[i], field)
            && front[i] != field by {
            assert(front[i] == fields[i]);
        }
        lemma_insert_at(front, field, at);
        assert(fields.insert(at, field) =~= front.insert(at, field).push(fields.last()));
    }
}

proof fn lemma_insert_present(fields: Seq<DynamicFieldView>, field: DynamicFieldView, at: int)
    requires
        fields_ascend(fields),
        0 <= at < fields.len(),
        fields[at] == field,
    ensures
        insert_field(fields, field) == fields,
    decreases fields.len(),
{
    if at < fields.len() - 1 {
        let front = fields.drop_last();
        assert(field_lt(fields[at], fields[fields.len() - 1]));
        lemma_field_lt_total(field, fields.last());
        lemma_insert_present(front, field, at);
        assert(front.push(fields.last()) =~= fields);
    }
}

fn order_fields(left: &DynamicField, right: &DynamicField) -> (order: TextOrder)
    ensures
        order == if left.deep_view() == right.deep_view() {
            TextOrder::Same
        } else if field_lt(left.deep_view(), right.deep_view()) {
            TextOrder::Before
        } else {
            TextOrder::After
        },
{
    proof {
        text::lemma_text_lt_irreflexive(left.physical_name@);
        identity::lemma_identity_lt_irreflexive(left.identity.deep_view());
    }
    match order_text(&left.physical_name, &right.physical_name) {
        TextOrder::Before => TextOrder::Before,
        TextOrder::After => TextOrder::After,
        TextOrder::Same => left.identity.order(&right.identity),
    }
}

/// Puts `field` at its place.
fn place_field(fields: &mut Vec<DynamicField>, field: DynamicField)
    requires
        fields_ascend(old(fields).deep_view()),
    ensures
        final(fields).deep_view() == insert_field(old(fields).deep_view(), field.deep_view()),
        fields_ascend(final(fields).deep_view()),
{
    let ghost all = fields.deep_view();
    let ghost new = field.deep_view();
    proof {
        lemma_insert_ascends(all, new);
    }
    let mut at: usize = fields.len();
    while at > 0
        invariant
            at <= fields.len(),
            all == fields.deep_view(),
            new == field.deep_view(),
            fields_ascend(all),
            forall|i: int|
                at <= i < all.len() ==> !field_lt(#[trigger] all[i], new) && all[i] != new,
        ensures
            at <= fields.len(),
            at > 0 ==> field_lt(all[at - 1], new),
            forall|i: int|
                at <= i < all.len() ==> !field_lt(#[trigger] all[i], new) && all[i] != new,
        decreases at,
    {
        assert(all[at - 1] == fields@[at - 1].deep_view());
        match order_fields(&fields[at - 1], &field) {
            TextOrder::Before => {
                break;
            },
            TextOrder::Same => {
                proof {
                    lemma_insert_present(all, new, at - 1);
                }
                return;
            },
            TextOrder::After => {
                at = at - 1;
            },
        }
    }
    proof {
        lemma_insert_at(all, new, at as int);
    }
    fields.insert(at, field);
    assert(fields.deep_view() =~= all.insert(at as int, new));
}

/// The fields whose name is their base name.
pub open spec fn base_fields(identities: Seq<IdentityView>) -> Seq<DynamicFieldView> {
    identities.map_values(
        |identity: IdentityView|
            DynamicFieldView { identity, physical_name: base_text(identity) },
    )
}

/// Digests of the fields called `name`.
pub open spec fn group_digests(fields: Seq<DynamicFieldView>, name: Seq<char>) -> Seq<Seq<char>>
    decreases fields.len(),
{
    if fields.len() == 0 {
        Seq::empty()
    } else if fields.last().physical_name == name {
        group_digests(fields.drop_last(), name).push(digest_text(fields.last().identity))
    } else {
        group_digests(fields.drop_last(), name)
    }
}

/// The name of a field among `fields`: the base name where no other field shares it, else the base
/// name with a digest suffix.
pub open spec fn final_name(fields: Seq<DynamicFieldView>, field: DynamicFieldView) -> Option<
    Seq<char>,
> {
    let digests = group_digests(fields, field.physical_name);
    if digests.len() == 1 {
        Some(field.physical_name)
    } else {
        match unique_width(digests) {
            None => None,
            Some(width) => Some(
                field.physical_name + "__"@ + digest_text(field.identity).take(width as int),
            ),
        }
    }
}

/// The fields with their final names, unless digests collide.
pub open spec fn named_fields(fields: Seq<DynamicFieldView>) -> Option<Seq<DynamicFieldView>> {
    if exists|i: int| 0 <= i < fields.len() && final_name(fields, #[trigger] fields[i]) is None {
        None
    } else {
        Some(
            Seq::new(
                fields.len(),
                |i: int|
                    DynamicFieldView {
                        identity: fields[i].identity,
                        physical_name: final_name(fields, fields[i])->0,
                    },
            ),
        )
    }
}

/// The base fields that a column cap admits, in ascending order.
pub open spec fn admitted_fields(identities: Seq<IdentityView>, max_columns: nat) -> Seq<
    DynamicFieldView,
> {
    let sorted = sort_fields(base_fields(identities));
    if sorted.len() > max_columns {
        sorted.take(max_columns as int)
    } else {
        sorted
    }
}

/// The identities that a column cap leaves out, in ascending order of their base fields.
pub open spec fn overflow_identities(identities: Seq<IdentityView>, max_columns: nat) -> Seq<
    IdentityView,
> {
    let sorted = sort_fields(base_fields(identities));
    if sorted.len() > max_columns {
        sorted.skip(max_columns as int).map_values(|field: DynamicFieldView| field.identity)
    } else {
        Seq::empty()
    }
}

/// The columns that a set of identities gets under a column cap, unless digests collide.
pub open spec fn discovered(identities: Seq<IdentityView>, max_columns: nat) -> Option<
    Seq<DynamicFieldView>,
> {
    match named_fields(admitted_fields(identities, max_columns)) {
        None => None,
        Some(fields) => Some(sort_fields(fields)),
    }
}

proof fn lemma_group_append(
    left: Seq<DynamicFieldView>,
    right: Seq<DynamicFieldView>,
    name: Seq<char>,
)
    ensures
        group_digests(left + right, name) == group_digests(left, name) + group_digests(right, name),
    decreases right.len(),
{
    if right.len() == 0 {
        assert(left + right =~= left);
        assert(group_digests(left, name) + group_digests(right, name) =~= group_digests(left, name));
    } else {
        lemma_group_append(left, right.drop_last(), name);
        assert((left + right).drop_last() =~= left + right.drop_last());
        if right.last().physical_name == name {
            let digest = digest_text(right.last().identity);
            assert(group_digests(left, name) + group_digests(right.drop_last(), name).push(digest)
                =~= (group_digests(left, name) + group_digests(right.drop_last(), name)).push(
                digest,
            ));
        }
    }
}

proof fn lemma_group_none(fields: Seq<DynamicFieldView>, name: Seq<char>)
    requires
        forall|i: int| 0 <= i < fields.len() ==> (#[trigger] fields[i]).physical_name != name,
    ensures
        group_digests(fields, name) =~= Seq::empty(),
    decreases fields.len(),
{
    if fields.len() > 0 {
        lemma_group_none(fields.drop_last(), name);
    }
}

proof fn lemma_group_all(fields: Seq<DynamicFieldView>, name: Seq<char>)
    requires
        forall|i: int| 0 <= i < fields.len() ==> (#[trigger] fields[i]).physical_name == name,
    ensures
        group_digests(fields, name).len() == fields.len(),
        forall|i: int|
            0 <= i < fields.len() ==> #[trigger] group_digests(fields, name)[i] == digest_text(
                fields[i].identity,
            ),
    decreases fields.len(),
{
    if fields.len() > 0 {
        lemma_group_all(fields.drop_last(), name);
    }
}

/// The fields called `name` stand next to each other in ascending order.
proof fn lemma_group_run(fields: Seq<DynamicFieldView>, start: int, end: int)
    requires
        fields_ascend(fields),
        0 <= start < end <= fields.len(),
        forall|i: int|
            start <= i < end ==> (#[trigger] fields[i]).physical_name == fields[start].physical_name,
        start > 0 ==> fields[start - 1].physical_name != fields[start].physical_name,
        end < fields.len() ==> fields[end].physical_name != fields[start].physical_name,
    ensures
        ({
            let name = fields[start].physical_name;
            let digests = group_digests(fields, name);
            &&& digests.len() == end - start
            &&& forall|i: int|
                0 <= i < digests.len() ==> #[trigger] digests[i] == digest_text(
                    fields[start + i].identity,
                )
        }),
{
    let name = fields[start].physical_name;
    let pre = fields.take(start);
    let run = fields.subrange(start, end);
    let post = fields.skip(end);
    assert(fields =~= pre + run + post);
    lemma_group_append(pre + run, post, name);
    lemma_group_append(pre, run, name);
    assert forall|i: int| 0 <= i < pre.len() implies (#[trigger] pre[i]).physical_name != name by {
        if pre[i].physical_name == name {
            text::lemma_text_lt_irreflexive(name);
            if i < start - 1 {
                assert(field_lt(fields[i], fields[start - 1]));
                assert(field_lt(fields[start - 1], fields[start]));
                text::lemma_text_lt_total(fields[start - 1].physical_name, name);
            }
        }
    }
    assert forall|i: int| 0 <= i < post.len() implies (#[trigger] post[i]).physical_name != name by {
        if post[i].physical_name == name {
            assert(post[i] == fields[end + i]);
            text::lemma_text_lt_irreflexive(name);
            if i > 0 {
                assert(field_lt(fields[start], fields[end]));
                assert(field_lt(fields[end], fields[end + i]));
                text::lemma_text_lt_total(fields[end].physical_name, name);
            }
        }
    }
    lemma_group_none(pre, name);
    lemma_group_none(post, name);
    lemma_group_all(run, name);
    assert(group_digests(fields, name) =~= group_digests(run, name));
    assert forall|i: int| 0 <= i < end - start implies #[trigger] group_digests(fields, name)[i]
        == digest_text(fields[start + i].identity) by {
        assert(group_digests(run, name)[i] == digest_text(run[i].identity));
    }
}

/// Whether a name is a base name, or a base name with a digest suffix.
pub open spec fn name_shaped(field: DynamicFieldView) -> bool {
    ||| field.physical_name == base_text(field.identity)
    ||| exists|suffix: Seq<char>|
        suffix.len() >= DIGEST_PREFIX && all_hex(suffix) && field.physical_name == base_text(
            field.identity,
        ) + "__"@ + suffix
}

/// A field that carries its final name, and what is known of the name.
pub open spec fn named_in(fields: Seq<DynamicFieldView>, at: int, named: DynamicFieldView) -> bool {
    let digests = group_digests(fields, fields[at].physical_name);
    &&& final_name(fields, fields[at]) == Some(named.physical_name)
    &&& named.identity == fields[at].identity
    &&& digests.len() > 1 ==> digest_text(named.identity).len() == 64 && DIGEST_PREFIX
        <= unique_width(digests)->0 <= 64
}

/// Gives every field of an ascending list its final name.
fn assign_physical_names(fields: &Vec<DynamicField>) -> (named: Result<
    Vec<DynamicField>,
    DynamicError,
>)
    requires
        fields_ascend(fields.deep_view()),
    ensures
        match named {
            Ok(named) => named_fields(fields.deep_view()) == Some(named.deep_view()) && forall|
                i: int,
            |
                0 <= i < fields.deep_view().len() ==> named_in(
                    fields.deep_view(),
                    i,
                    #[trigger] named.deep_view()[i],
                ),
            Err(error) => named_fields(fields.deep_view()) is None && error is DigestCollision,
        },
{
    let ghost all = fields.deep_view();
    let mut named: Vec<DynamicField> = Vec::new();
    let mut index: usize = 0;
    while index < fields.len()
        invariant
            index <= fields.len(),
            all == fields.deep_view(),
            fields_ascend(all),
            named@.len() == index,
            0 < index < all.len() ==> all[index - 1].physical_name != all[index as int].physical_name,
            forall|i: int| 0 <= i < index ==> named_in(all, i, #[trigger] named.deep_view()[i]),
        decreases fields.len() - index,
    {
        assert(all[index as int] == fields@[index as int].deep_view());
        let base = fields[index].physical_name.clone();
        let mut end: usize = index + 1;
        while end < fields.len() && same_text(&fields[end].physical_name, &base)
            invariant
                index < end <= fields.len(),
                all == fields.deep_view(),
                base@ == all[index as int].physical_name,
                forall|i: int| index <= i < end ==> (#[trigger] all[i]).physical_name == base@,
            decreases fields.len() - end,
        {
            assert(all[end as int] == fields@[end as int].deep_view());
            end = end + 1;
        }
        assert(end < fields.len() ==> all[end as int] == fields@[end as int].deep_view());
        proof {
            lemma_group_run(all, index as int, end as int);
        }
        let ghost group = group_digests(all, base@);
        if end == index + 1 {
            let ghost before = named.deep_view();
            named.push(
                DynamicField { identity: fields[index].identity.clone(), physical_name: base },
            );
            assert(named.deep_view() =~= before.push(all[index as int]));
            assert forall|i: int| 0 <= i < end implies named_in(
                all,
                i,
                #[trigger] named.deep_view()[i],
            ) by {
                if i < index {
                    assert(before[i] == named.deep_view()[i]);
                }
            }
        } else {
            let mut digests: Vec<String> = Vec::new();
            let mut k: usize = index;
            while k < end
                invariant
                    index <= k <= end <= fields.len(),
                    all == fields.deep_view(),
                    digests@.len() == k - index,
                    forall|i: int|
                        0 <= i < k - index ==> (#[trigger] digests.deep_view()[i]) == digest_text(
                            all[index + i].identity,
                        ) && digests.deep_view()[i].len() == 64,
                    forall|i: int|
                        index <= i < k ==> digest_text((#[trigger] all[i]).identity).len() == 64,
                decreases end - k,
            {
                let digest = identity_digest(&fields[k].identity);
                assert(all[k as int] == fields@[k as int].deep_view());
                let ghost before = digests.deep_view();
                digests.push(digest);
                assert(digests.deep_view() =~= before.push(digest@));
                assert forall|i: int| 0 <= i < k + 1 - index implies (
                #[trigger] digests.deep_view()[i]) == digest_text(all[index + i].identity)
                    && digests.deep_view()[i].len() == 64 by {
                    if i < k - index {
                        assert(before[i] == digests.deep_view()[i]);
                    }
                }
                k = k + 1;
            }
            assert(digests.deep_view() =~= group);
            let width = match unique_hex_width(&digests) {
                Ok(width) => width,
                Err(error) => {
                    proof {
                        assert(final_name(all, all[index as int]) is None);
                    }
                    return Err(error);
                },
            };
            proof {
                lemma_shortest(group, 64);
                lemma_width_from(group, DIGEST_PREFIX as nat, 64);
            }
            let mut m: usize = index;
            while m < end
                invariant
                    index <= m <= end <= fields.len(),
                    index + 1 < end,
                    all == fields.deep_view(),
                    group == group_digests(all, base@),
                    group.len() > 1,
                    unique_width(group) == Some(width as nat),
                    DIGEST_PREFIX <= width <= 64,
                    digests@.len() == end - index,
                    digests.deep_view() == group,
                    named@.len() == m,
                    forall|i: int| index <= i < end ==> (#[trigger] all[i]).physical_name == base@,
                    forall|i: int|
                        0 <= i < end - index ==> #[trigger] group[i] == digest_text(
                            all[index + i].identity,
                        ),
                    forall|i: int|
                        index <= i < end ==> digest_text((#[trigger] all[i]).identity).len() == 64,
                    forall|i: int|
                        0 <= i < m ==> named_in(all, i, #[trigger] named.deep_view()[i]),
                decreases end - m,
            {
                let digest = chars_of(&digests[m - index]);
                assert(digest@ == group[m - index]);
                assert(all[m as int] == fields@[m as int].deep_view());
                let mut name = base.clone();
                name.append("__");
                let prefix = string_of(vstd::slice::slice_subrange(digest.as_slice(), 0, width));
                name.append(&prefix);
                let ghost before = named.deep_view();
                let field = DynamicField {
                    identity: fields[m].identity.clone(),
                    physical_name: name,
                };
                proof {
                    assert(digest@.subrange(0, width as int) =~= digest_text(
                        all[m as int].identity,
                    ).take(width as int));
                    assert(final_name(all, all[m as int]) == Some(name@));
                }
                let ghost added = field.deep_view();
                named.push(field);
                assert(named.deep_view() =~= before.push(added));
                assert forall|i: int| 0 <= i < m + 1 implies named_in(
                    all,
                    i,
                    #[trigger] named.deep_view()[i],
                ) by {
                    if i < m {
                        assert(before[i] == named.deep_view()[i]);
                    }
                }
                m = m + 1;
            }
        }
        index = end;
    }
    proof {
        assert forall|i: int| 0 <= i < all.len() implies final_name(all, #[trigger] all[i]) is Some by {
            assert(named_in(all, i, named.deep_view()[i]));
        }
        assert(named.deep_view() =~= named_fields(all)->0) by {
            assert forall|i: int| 0 <= i < all.len() implies #[trigger] named.deep_view()[i]
                == named_fields(all)->0[i] by {
                assert(named_in(all, i, named.deep_view()[i]));
            }
        }
    }
    Ok(named)
}

/// The last characters of a base name hold a `_`, which no digest suffix does.
proof fn lemma_base_tail(identity: IdentityView) -> (back: int)
    ensures
        1 <= back <= 7,
        back <= base_text(identity).len(),
        base_text(identity)[base_text(identity).len() - back] == '_',
{
    let base = base_text(identity);
    let kind = identity.kind.text();
    reveal_strlit("_");
    reveal_strlit("bool");
    reveal_strlit("i64");
    reveal_strlit("f64");
    reveal_strlit("string");
    reveal_strlit("bytes");
    reveal_strlit("json");
    let head = identity.source.text() + joined_path(identity.path);
    assert(base =~= head + "_"@ + kind);
    let back = kind.len() as int + 1;
    assert(base[base.len() - back] == '_');
    back
}

/// Final names of an ascending list of base fields differ.
proof fn lemma_names_differ(
    fields: Seq<DynamicFieldView>,
    named: Seq<DynamicFieldView>,
    first: int,
    second: int,
)
    requires
        fields_ascend(fields),
        forall|i: int|
            0 <= i < fields.len() ==> (#[trigger] fields[i]).physical_name == base_text(
                fields[i].identity,
            ),
        named.len() == fields.len(),
        forall|i: int| 0 <= i < fields.len() ==> named_in(fields, i, #[trigger] named[i]),
        0 <= first < second < fields.len(),
    ensures
        named[first].physical_name != named[second].physical_name,
{
    reveal_strlit("__");
    assert(named_in(fields, first, named[first]));
    assert(named_in(fields, second, named[second]));
    let a = fields[first];
    let b = fields[second];
    let da = group_digests(fields, a.physical_name);
    let db = group_digests(fields, b.physical_name);
    lemma_group_position(fields, first);
    lemma_group_position(fields, second);
    lemma_hex_text(blake3_hash(identity_bytes(a.identity)));
    lemma_hex_text(blake3_hash(identity_bytes(b.identity)));
    if named[first].physical_name == named[second].physical_name {
        let name = named[first].physical_name;
        if da.len() == 1 && db.len() == 1 {
            if a.physical_name == b.physical_name {
                lemma_group_pair(fields, first, second);
            }
        } else if da.len() == 1 {
            let back = lemma_base_tail(a.identity);
            let width = unique_width(db)->0;
            let suffix = digest_text(b.identity).take(width as int);
            assert(name == b.physical_name + "__"@ + suffix);
            assert(name[name.len() - back] == suffix[suffix.len() - back]);
            assert(is_hex(digest_text(b.identity)[suffix.len() - back]));
        } else if db.len() == 1 {
            let back = lemma_base_tail(b.identity);
            let width = unique_width(da)->0;
            let suffix = digest_text(a.identity).take(width as int);
            assert(name == a.physical_name + "__"@ + suffix);
            assert(name[name.len() - back] == suffix[suffix.len() - back]);
            assert(is_hex(digest_text(a.identity)[suffix.len() - back]));
        } else {
            let wa = unique_width(da)->0;
            let wb = unique_width(db)->0;
            let sa = digest_text(a.identity).take(wa as int);
            let sb = digest_text(b.identity).take(wb as int);
            assert(name == a.physical_name + "__"@ + sa);
            assert(name == b.physical_name + "__"@ + sb);
            if wa == wb {
                assert(a.physical_name =~= name.take(name.len() - wa - 2));
                assert(b.physical_name =~= name.take(name.len() - wb - 2));
                assert(sa =~= name.skip(name.len() - wa));
                assert(sb =~= name.skip(name.len() - wb));
                lemma_group_pair(fields, first, second);
                let (i, j) = choose|i: int, j: int|
                    0 <= i < j < da.len() && #[trigger] da[i] == digest_text(a.identity)
                        && #[trigger] da[j] == digest_text(b.identity);
                if shortest(da) < DIGEST_PREFIX {
                    lemma_width_from(da, shortest(da), shortest(da));
                } else {
                    lemma_width_from(da, DIGEST_PREFIX as nat, shortest(da));
                }
                assert(da[i].take(wa as int) != da[j].take(wa as int));
            } else if wa < wb {
                let at = name.len() - wa - 1;
                assert(name[at] == '_');
                assert(name[at] == sb[sb.len() - wa - 1]);
                assert(is_hex(digest_text(b.identity)[sb.len() - wa - 1]));
            } else {
                let at = name.len() - wb - 1;
                assert(name[at] == '_');
                assert(name[at] == sa[sa.len() - wb - 1]);
                assert(is_hex(digest_text(a.identity)[sa.len() - wb - 1]));
            }
        }
    }
}

/// A field's digest is in its group.
proof fn lemma_group_position(fields: Seq<DynamicFieldView>, at: int)
    requires
        0 <= at < fields.len(),
    ensures
        group_digests(fields, fields[at].physical_name).len() >= 1,
    decreases fields.len(),
{
    if at < fields.len() - 1 {
        lemma_group_position(fields.drop_last(), at);
    }
}

/// The digests of two fields with one name stand in their group, in order.
proof fn lemma_group_pair(fields: Seq<DynamicFieldView>, first: int, second: int)
    requires
        0 <= first < second < fields.len(),
        fields[first].physical_name == fields[second].physical_name,
    ensures
        ({
            let group = group_digests(fields, fields[first].physical_name);
            &&& group.len() >= 2
            &&& exists|i: int, j: int|
                0 <= i < j < group.len() && #[trigger] group[i] == digest_text(
                    fields[first].identity,
                ) && #[trigger] group[j] == digest_text(fields[second].identity)
        }),
    decreases fields.len(),
{
    let name = fields[first].physical_name;
    let front = fields.drop_last();
    let group = group_digests(fields, name);
    let inner = group_digests(front, name);
    if second < fields.len() - 1 {
        lemma_group_pair(front, first, second);
        let (i, j) = choose|i: int, j: int|
            0 <= i < j < inner.len() && #[trigger] inner[i] == digest_text(front[first].identity)
                && #[trigger] inner[j] == digest_text(front[second].identity);
        assert(group[i] == inner[i] && group[j] == inner[j]);
    } else {
        lemma_group_member(front, first);
        let i = choose|i: int|
            0 <= i < inner.len() && #[trigger] inner[i] == digest_text(front[first].identity);
        assert(group[i] == inner[i]);
        assert(group[inner.len() as int] == digest_text(fields[second].identity));
    }
}

proof fn lemma_group_member(fields: Seq<DynamicFieldView>, at: int)
    requires
        0 <= at < fields.len(),
    ensures
        ({
            let group = group_digests(fields, fields[at].physical_name);
            exists|i: int|
                0 <= i < group.len() && #[trigger] group[i] == digest_text(fields[at].identity)
        }),
    decreases fields.len(),
{
    let name = fields[at].physical_name;
    let group = group_digests(fields, name);
    if at < fields.len() - 1 {
        let front = fields.drop_last();
        lemma_group_member(front, at);
        let inner = group_digests(front, name);
        let i = choose|i: int|
            0 <= i < inner.len() && #[trigger] inner[i] == digest_text(front[at].identity);
        assert(group[i] == inner[i]);
    } else {
        assert(group[group.len() - 1] == digest_text(fields[at].identity));
    }
}

/// Admitted columns plus the identities that stayed in JSON because of the column cap.
#[derive(Debug)]
pub struct DynamicSchema {
    /// Columns ordered by physical name, then exact identity.
    pub fields: Vec<DynamicField>,
    /// Identities excluded by the column cap, ordered by base name, then identity.
    pub overflow: Vec<DynamicIdentity>,
}

/// No two fields share a physical name.
pub open spec fn names_distinct(fields: Seq<DynamicFieldView>) -> bool {
    forall|i: int, j: int|
        0 <= i < j < fields.len() ==> (#[trigger] fields[i]).physical_name != (
        #[trigger] fields[j]).physical_name
}

/// No two fields share an identity.
pub open spec fn identities_distinct(fields: Seq<DynamicFieldView>) -> bool {
    forall|i: int, j: int|
        0 <= i < j < fields.len() ==> (#[trigger] fields[i]).identity != (
        #[trigger] fields[j]).identity
}

/// Names every identity, admitting the first `max_columns` in order of base name.
///
/// No two admitted columns share a physical name.
///
/// # Errors
///
/// Returns [`DynamicError::DigestCollision`] when a full digest does not separate a collision
/// group.
pub fn discover_dynamic_schema(identities: &Vec<DynamicIdentity>, max_columns: usize) -> (schema:
    Result<DynamicSchema, DynamicError>)
    ensures
        match schema {
            Ok(schema) => {
                &&& discovered(identities.deep_view(), max_columns as nat) == Some(
                    schema.fields.deep_view(),
                )
                &&& schema.overflow.deep_view() == overflow_identities(
                    identities.deep_view(),
                    max_columns as nat,
                )
                &&& fields_ascend(schema.fields.deep_view())
                &&& names_distinct(schema.fields.deep_view())
                &&& identities_distinct(schema.fields.deep_view())
                &&& schema.fields.deep_view().len() <= max_columns
                &&& forall|i: int|
                    0 <= i < schema.fields.deep_view().len() ==> name_shaped(
                        #[trigger] schema.fields.deep_view()[i],
                    )
            },
            Err(error) => discovered(identities.deep_view(), max_columns as nat) is None
                && error is DigestCollision,
        },
{
    let ghost ids = identities.deep_view();
    let ghost base = base_fields(ids);
    let mut pending: Vec<DynamicField> = Vec::new();
    let mut i: usize = 0;
    assert(base.take(0) =~= Seq::empty());
    assert(pending.deep_view() =~= Seq::empty());
    while i < identities.len()
        invariant
            i <= identities.len(),
            ids == identities.deep_view(),
            base == base_fields(ids),
            fields_ascend(pending.deep_view()),
            pending.deep_view() == sort_fields(base.take(i as int)),
        decreases identities.len() - i,
    {
        assert(base.take(i + 1).drop_last() =~= base.take(i as int));
        assert(base[i as int] == (DynamicFieldView {
            identity: ids[i as int],
            physical_name: base_text(ids[i as int]),
        }));
        place_field(
            &mut pending,
            DynamicField {
                identity: identities[i].clone(),
                physical_name: base_name(&identities[i]),
            },
        );
        i = i + 1;
    }
    assert(base.take(i as int) =~= base);
    let ghost sorted = sort_fields(base);
    let mut overflow: Vec<DynamicIdentity> = Vec::new();
    if pending.len() > max_columns {
        let mut k: usize = max_columns;
        while k < pending.len()
            invariant
                max_columns <= k <= pending.len(),
                sorted == pending.deep_view(),
                overflow@.len() == k - max_columns,
                forall|m: int|
                    0 <= m < k - max_columns ==> (#[trigger] overflow.deep_view()[m])
                        == sorted[max_columns + m].identity,
            decreases pending.len() - k,
        {
            let ghost before = overflow.deep_view();
            overflow.push(pending[k].identity.clone());
            assert(overflow.deep_view() =~= before.push(sorted[k as int].identity));
            assert forall|m: int| 0 <= m < k + 1 - max_columns implies (
            #[trigger] overflow.deep_view()[m]) == sorted[max_columns + m].identity by {
                if m < k - max_columns {
                    assert(before[m] == overflow.deep_view()[m]);
                }
            }
            k = k + 1;
        }
        assert(overflow.deep_view() =~= overflow_identities(ids, max_columns as nat));
        pending.truncate(max_columns);
        assert(pending.deep_view() =~= sorted.take(max_columns as int));
    } else {
        assert(overflow.deep_view() =~= Seq::empty());
    }
    let ghost admitted = pending.deep_view();
    assert(admitted == admitted_fields(ids, max_columns as nat));
    assert(fields_ascend(admitted));
    let named = assign_physical_names(&pending)?;
    let ghost assigned = named.deep_view();
    proof {
        assert forall|k: int| 0 <= k < admitted.len() implies (#[trigger] admitted[k]).physical_name
            == base_text(admitted[k].identity) by {
            assert(sorted[k] == admitted[k]);
            lemma_sort_members(base, admitted[k]);
            assert(sorted.contains(admitted[k]));
            let m = choose|m: int| 0 <= m < base.len() && base[m] == admitted[k];
        }
        lemma_sort_ascends(assigned);
        lemma_sorted_names(admitted, assigned);
    }
    let fields = sort_dynamic_fields(named);
    Ok(DynamicSchema { fields, overflow })
}

/// Every column stands for one of the identities, and an identity without a column was left out by
/// the column cap.
pub proof fn columns_stand_for_identities(
    identities: Seq<IdentityView>,
    max_columns: nat,
    fields: Seq<DynamicFieldView>,
)
    requires
        discovered(identities, max_columns) == Some(fields),
    ensures
        forall|i: int|
            0 <= i < fields.len() ==> identities.contains((#[trigger] fields[i]).identity),
        forall|k: int|
            0 <= k < identities.len() ==> has_column(fields, #[trigger] identities[k])
                || overflow_identities(identities, max_columns).contains(identities[k]),
        identities.len() <= max_columns ==> overflow_identities(identities, max_columns).len() == 0,
{
    let base = base_fields(identities);
    let sorted = sort_fields(base);
    let admitted = admitted_fields(identities, max_columns);
    let assigned = named_fields(admitted)->0;
    lemma_sort_len(base);
    assert forall|i: int| 0 <= i < fields.len() implies identities.contains(
        (#[trigger] fields[i]).identity,
    ) by {
        lemma_sort_members(assigned, fields[i]);
        assert(fields.contains(fields[i]));
        let k = choose|k: int| 0 <= k < assigned.len() && assigned[k] == fields[i];
        assert(admitted[k] == sorted[k]);
        lemma_sort_members(base, sorted[k]);
        assert(sorted.contains(sorted[k]));
        let m = choose|m: int| 0 <= m < base.len() && base[m] == sorted[k];
        assert(identities[m] == fields[i].identity);
    }
    assert forall|k: int| 0 <= k < identities.len() implies has_column(
        fields,
        #[trigger] identities[k],
    ) || overflow_identities(identities, max_columns).contains(identities[k]) by {
        lemma_sort_members(base, base[k]);
        assert(base.contains(base[k]));
        let m = choose|m: int| 0 <= m < sorted.len() && sorted[m] == base[k];
        if m < admitted.len() {
            assert(admitted[m] == sorted[m]);
            lemma_sort_members(assigned, assigned[m]);
            assert(assigned.contains(assigned[m]));
            let i = choose|i: int| 0 <= i < fields.len() && fields[i] == assigned[m];
            assert(fields[i].identity == identities[k]);
        } else {
            let overflow = overflow_identities(identities, max_columns);
            assert(overflow[m - max_columns] == identities[k]);
        }
    }
}

proof fn lemma_insert_new_len(fields: Seq<DynamicFieldView>, field: DynamicFieldView)
    requires
        !fields.contains(field),
    ensures
        insert_field(fields, field).len() == fields.len() + 1,
    decreases fields.len(),
{
    if fields.len() > 0 {
        let front = fields.drop_last();
        assert(fields[fields.len() - 1] == fields.last());
        assert(!front.contains(field)) by {
            if front.contains(field) {
                let k = choose|k: int| 0 <= k < front.len() && front[k] == field;
                assert(fields[k] == field);
            }
        }
        lemma_insert_new_len(front, field);
    }
}

proof fn lemma_sort_keeps_len(fields: Seq<DynamicFieldView>)
    requires
        fields.no_duplicates(),
    ensures
        sort_fields(fields).len() == fields.len(),
    decreases fields.len(),
{
    if fields.len() > 0 {
        let front = fields.drop_last();
        lemma_sort_keeps_len(front);
        lemma_sort_members(front, fields.last());
        assert(!front.contains(fields.last())) by {
            if front.contains(fields.last()) {
                let k = choose|k: int| 0 <= k < front.len() && front[k] == fields.last();
                assert(fields[k] == fields[fields.len() - 1]);
            }
        }
        lemma_insert_new_len(sort_fields(front), fields.last());
    }
}

/// The column cap is used up before anything is left out, and it keeps the first identities in the
/// order of their base names: where an identity has no column, there are `max_columns` columns, and
/// the base name of each is not behind that of the identity.
pub proof fn the_cap_keeps_the_first_names(
    identities: Seq<IdentityView>,
    max_columns: nat,
    fields: Seq<DynamicFieldView>,
    k: int,
)
    requires
        discovered(identities, max_columns) == Some(fields),
        0 <= k < identities.len(),
        !has_column(fields, identities[k]),
    ensures
        fields.len() == max_columns,
        forall|i: int|
            0 <= i < fields.len() ==> !text::text_lt(
                base_text(identities[k]),
                base_text((#[trigger] fields[i]).identity),
            ),
{
    let base = base_fields(identities);
    let sorted = sort_fields(base);
    let admitted = admitted_fields(identities, max_columns);
    let assigned = named_fields(admitted)->0;
    lemma_sort_ascends(base);
    lemma_sort_members(base, base[k]);
    assert(base.contains(base[k]));
    let m = choose|m: int| 0 <= m < sorted.len() && sorted[m] == base[k];
    if m < admitted.len() {
        lemma_sort_members(assigned, assigned[m]);
        assert(assigned.contains(assigned[m]));
        let i = choose|i: int| 0 <= i < fields.len() && fields[i] == assigned[m];
        assert(fields[i].identity == identities[k]);
    }
    assert forall|i: int, j: int| 0 <= i < j < assigned.len() implies assigned[i]
        != assigned[j] by {
        assert(admitted[i] == sorted[i] && admitted[j] == sorted[j]);
        assert(field_lt(sorted[i], sorted[j]));
        lemma_field_lt_total(sorted[i], sorted[j]);
        lemma_base_name(identities, sorted[i]);
        lemma_base_name(identities, sorted[j]);
        assert(sorted.contains(sorted[i]) && sorted.contains(sorted[j]));
    }
    lemma_sort_keeps_len(assigned);
    assert forall|i: int| 0 <= i < fields.len() implies !text::text_lt(
        base_text(identities[k]),
        base_text((#[trigger] fields[i]).identity),
    ) by {
        lemma_sort_members(assigned, fields[i]);
        assert(fields.contains(fields[i]));
        let a = choose|a: int| 0 <= a < assigned.len() && assigned[a] == fields[i];
        assert(admitted[a] == sorted[a]);
        assert(sorted.contains(sorted[a]));
        lemma_base_name(identities, sorted[a]);
        assert(field_lt(sorted[a], sorted[m]));
        text::lemma_text_lt_total(sorted[a].physical_name, sorted[m].physical_name);
        text::lemma_text_lt_irreflexive(sorted[m].physical_name);
    }
}

/// There are no more columns than the cap admits.
pub proof fn columns_fit_the_cap(
    identities: Seq<IdentityView>,
    max_columns: nat,
    fields: Seq<DynamicFieldView>,
)
    requires
        discovered(identities, max_columns) == Some(fields),
    ensures
        fields.len() <= max_columns,
{
    lemma_sort_len(named_fields(admitted_fields(identities, max_columns))->0);
}

/// A sorted base field carries the base name of its identity.
proof fn lemma_base_name(identities: Seq<IdentityView>, field: DynamicFieldView)
    ensures
        sort_fields(base_fields(identities)).contains(field) ==> field.physical_name == base_text(
            field.identity,
        ),
{
    let base = base_fields(identities);
    lemma_sort_members(base, field);
    if base.contains(field) {
        let k = choose|k: int| 0 <= k < base.len() && base[k] == field;
        assert(base[k].physical_name == base_text(identities[k]));
    }
}

/// Whether a column stands for the identity.
pub open spec fn has_column(fields: Seq<DynamicFieldView>, identity: IdentityView) -> bool {
    exists|i: int| 0 <= i < fields.len() && (#[trigger] fields[i]).identity == identity
}

/// No column takes the name of a core column.
pub proof fn columns_avoid_core_names(field: DynamicFieldView, at: int)
    requires
        name_shaped(field),
        0 <= at < schema::core_fields().len(),
    ensures
        field.physical_name != schema::core_fields()[at].name,
{
    let name = field.physical_name;
    let core = schema::core_fields()[at].name;
    let base = base_text(field.identity);
    let source = field.identity.source.text();
    let path = joined_path(field.identity.path);
    let kind = field.identity.kind.text();
    reveal_strlit("_");
    reveal_strlit("__");
    reveal_strlit("resource");
    reveal_strlit("scope");
    reveal_strlit("log");
    reveal_strlit("bool");
    reveal_strlit("i64");
    reveal_strlit("f64");
    reveal_strlit("string");
    reveal_strlit("bytes");
    reveal_strlit("json");
    assert(base == source + path + "_"@ + kind);
    assert(base.len() > source.len() && base.len() > kind.len() && base.len() > 5);
    assert(forall|i: int| 0 <= i < source.len() ==> base[i] == source[i]);
    assert(forall|i: int|
        0 <= i < kind.len() ==> base[base.len() - kind.len() + i] == #[trigger] kind[i]);
    assert(forall|i: int| 0 <= i < base.len() ==> name[i] == #[trigger] base[i]);
    assert(base[base.len() - 1] == kind[kind.len() - 1]);
    assert(name[0] == source[0] && name[1] == source[1] && name[2] == source[2]);
    if name == core {
        reveal_strlit("schema_version");
        reveal_strlit("tenant_id");
        reveal_strlit("wal_sequence");
        reveal_strlit("record_index");
        reveal_strlit("time_unix_nano");
        reveal_strlit("observed_time_unix_nano");
        reveal_strlit("received_time_unix_nano");
        reveal_strlit("event_time_unix_nano");
        reveal_strlit("severity_number");
        reveal_strlit("severity_text");
        reveal_strlit("body");
        reveal_strlit("trace_id");
        reveal_strlit("span_id");
        reveal_strlit("service_name");
        reveal_strlit("resource_attributes");
        reveal_strlit("scope_attributes");
        reveal_strlit("log_attributes");
        assert(at >= 14);
        let last = name[name.len() - 1];
        assert(last == 's');
        if name != base {
            let suffix = choose|suffix: Seq<char>|
                suffix.len() >= DIGEST_PREFIX && all_hex(suffix) && name == base + "__"@ + suffix;
            assert(last == suffix[suffix.len() - 1]);
            assert(is_hex(suffix[suffix.len() - 1]));
        } else {
            assert(last == kind[kind.len() - 1]);
            assert(kind == "bytes"@);
            assert(name[name.len() - 4] == kind[1]);
            assert(name[name.len() - 4] == 'u');
        }
    }
}

/// The fields in ascending order, without repeats.
fn sort_dynamic_fields(fields: Vec<DynamicField>) -> (sorted: Vec<DynamicField>)
    ensures
        sorted.deep_view() == sort_fields(fields.deep_view()),
{
    let ghost all = fields.deep_view();
    let mut sorted: Vec<DynamicField> = Vec::new();
    let mut i: usize = 0;
    assert(all.take(0) =~= Seq::empty());
    assert(sorted.deep_view() =~= Seq::empty());
    while i < fields.len()
        invariant
            i <= fields.len(),
            all == fields.deep_view(),
            fields_ascend(sorted.deep_view()),
            sorted.deep_view() == sort_fields(all.take(i as int)),
        decreases fields.len() - i,
    {
        assert(all.take(i + 1).drop_last() =~= all.take(i as int));
        place_field(&mut sorted, fields[i].clone());
        i = i + 1;
    }
    assert(all.take(i as int) =~= all);
    sorted
}

/// What the final order keeps of the assigned names.
proof fn lemma_sorted_names(admitted: Seq<DynamicFieldView>, assigned: Seq<DynamicFieldView>)
    requires
        fields_ascend(admitted),
        forall|i: int|
            0 <= i < admitted.len() ==> (#[trigger] admitted[i]).physical_name == base_text(
                admitted[i].identity,
            ),
        assigned.len() == admitted.len(),
        forall|i: int| 0 <= i < admitted.len() ==> named_in(admitted, i, #[trigger] assigned[i]),
    ensures
        ({
            let sorted = sort_fields(assigned);
            &&& names_distinct(sorted)
            &&& identities_distinct(sorted)
            &&& sorted.len() <= assigned.len()
            &&& forall|i: int| 0 <= i < sorted.len() ==> name_shaped(#[trigger] sorted[i])
        }),
{
    let sorted = sort_fields(assigned);
    lemma_sort_ascends(assigned);
    lemma_sort_len(assigned);
    assert forall|i: int| 0 <= i < sorted.len() implies name_shaped(#[trigger] sorted[i]) by {
        lemma_sort_members(assigned, sorted[i]);
        assert(sorted.contains(sorted[i]));
        let k = choose|k: int| 0 <= k < assigned.len() && assigned[k] == sorted[i];
        assert(named_in(admitted, k, assigned[k]));
        let digests = group_digests(admitted, admitted[k].physical_name);
        lemma_group_position(admitted, k);
        if digests.len() > 1 {
            let width = unique_width(digests)->0;
            let suffix = digest_text(admitted[k].identity).take(width as int);
            lemma_hex_text(blake3_hash(identity_bytes(admitted[k].identity)));
            assert(all_hex(suffix));
            assert(suffix.len() >= DIGEST_PREFIX);
        }
    }
    assert forall|i: int, j: int| 0 <= i < j < sorted.len() implies (
    #[trigger] sorted[i]).physical_name != (#[trigger] sorted[j]).physical_name
        && sorted[i].identity != sorted[j].identity by {
        lemma_sort_members(assigned, sorted[i]);
        lemma_sort_members(assigned, sorted[j]);
        assert(sorted.contains(sorted[i]) && sorted.contains(sorted[j]));
        let k = choose|k: int| 0 <= k < assigned.len() && assigned[k] == sorted[i];
        let m = choose|m: int| 0 <= m < assigned.len() && assigned[m] == sorted[j];
        lemma_field_lt_total(sorted[i], sorted[j]);
        assert(k != m);
        assert(named_in(admitted, k, assigned[k]));
        assert(named_in(admitted, m, assigned[m]));
        if k < m {
            lemma_names_differ(admitted, assigned, k, m);
            assert(field_lt(admitted[k], admitted[m]));
            lemma_field_lt_total(admitted[k], admitted[m]);
        } else {
            lemma_names_differ(admitted, assigned, m, k);
            assert(field_lt(admitted[m], admitted[k]));
            lemma_field_lt_total(admitted[m], admitted[k]);
        }
    }
}

proof fn lemma_sort_len(fields: Seq<DynamicFieldView>)
    ensures
        sort_fields(fields).len() <= fields.len(),
    decreases fields.len(),
{
    if fields.len() > 0 {
        lemma_sort_len(fields.drop_last());
        lemma_insert_len(sort_fields(fields.drop_last()), fields.last());
    }
}

proof fn lemma_insert_len(fields: Seq<DynamicFieldView>, field: DynamicFieldView)
    ensures
        insert_field(fields, field).len() <= fields.len() + 1,
    decreases fields.len(),
{
    if fields.len() > 0 {
        lemma_insert_len(fields.drop_last(), field);
    }
}

proof fn lemma_group_lone(fields: Seq<DynamicFieldView>, at: int)
    requires
        0 <= at < fields.len(),
        forall|j: int|
            0 <= j < fields.len() && j != at ==> (#[trigger] fields[j]).physical_name
                != fields[at].physical_name,
    ensures
        group_digests(fields, fields[at].physical_name).len() == 1,
    decreases fields.len(),
{
    let front = fields.drop_last();
    let name = fields[at].physical_name;
    if at == fields.len() - 1 {
        assert forall|i: int| 0 <= i < front.len() implies (#[trigger] front[i]).physical_name
            != name by {
            assert(front[i] == fields[i]);
        }
        lemma_group_none(front, name);
    } else {
        assert forall|j: int| 0 <= j < front.len() && j != at implies (
        #[trigger] front[j]).physical_name != front[at].physical_name by {
            assert(front[j] == fields[j]);
        }
        lemma_group_lone(front, at);
        assert(fields[fields.len() - 1].physical_name != name);
    }
}

/// A column whose base name no other column shares is called by it. Columns that share one are called by
/// it with a suffix, which is a prefix of the digest of the attribute.
pub proof fn lone_columns_have_their_base_name(
    identities: Seq<IdentityView>,
    max_columns: nat,
    fields: Seq<DynamicFieldView>,
    i: int,
)
    requires
        discovered(identities, max_columns) == Some(fields),
        0 <= i < fields.len(),
    ensures
        (forall|j: int|
            0 <= j < fields.len() && j != i ==> base_text((#[trigger] fields[j]).identity)
                != base_text(fields[i].identity)) ==> fields[i].physical_name == base_text(
            fields[i].identity,
        ),
        (exists|j: int|
            0 <= j < fields.len() && (#[trigger] fields[j]).identity != fields[i].identity
                && base_text(fields[j].identity) == base_text(fields[i].identity))
            ==> exists|width: int| #[trigger]
            suffixed(fields[i].identity, width) == fields[i].physical_name,
{
    let base = base_fields(identities);
    let sorted = sort_fields(base);
    let admitted = admitted_fields(identities, max_columns);
    let assigned = named_fields(admitted)->0;
    lemma_sort_ascends(base);
    lemma_sort_members(assigned, fields[i]);
    assert(fields.contains(fields[i]));
    let k = choose|k: int| 0 <= k < assigned.len() && assigned[k] == fields[i];
    assert(admitted[k] == sorted[k]);
    assert(sorted.contains(sorted[k]));
    lemma_base_name(identities, sorted[k]);
    let name = base_text(fields[i].identity);
    assert(admitted[k].physical_name == name);
    if forall|j: int|
        0 <= j < fields.len() && j != i ==> base_text((#[trigger] fields[j]).identity) != name {
        assert forall|m: int| 0 <= m < admitted.len() && m != k implies (
        #[trigger] admitted[m]).physical_name != admitted[k].physical_name by {
            assert(admitted[m] == sorted[m]);
            assert(sorted.contains(sorted[m]));
            lemma_base_name(identities, sorted[m]);
            lemma_sort_members(assigned, assigned[m]);
            assert(assigned.contains(assigned[m]));
            let j = choose|j: int| 0 <= j < fields.len() && fields[j] == assigned[m];
            assert(fields[j].identity == admitted[m].identity);
            if j == i {
                assert(admitted[m] == admitted[k]);
                lemma_field_lt_total(sorted[m], sorted[k]);
                if m < k {
                    assert(field_lt(sorted[m], sorted[k]));
                } else {
                    assert(field_lt(sorted[k], sorted[m]));
                }
            }
        }
        lemma_group_lone(admitted, k);
    }
    if exists|j: int|
        0 <= j < fields.len() && (#[trigger] fields[j]).identity != fields[i].identity
            && base_text(fields[j].identity) == name {
        let j = choose|j: int|
            0 <= j < fields.len() && (#[trigger] fields[j]).identity != fields[i].identity
                && base_text(fields[j].identity) == name;
        lemma_sort_members(assigned, fields[j]);
        assert(fields.contains(fields[j]));
        let m = choose|m: int| 0 <= m < assigned.len() && assigned[m] == fields[j];
        assert(admitted[m] == sorted[m]);
        assert(sorted.contains(sorted[m]));
        lemma_base_name(identities, sorted[m]);
        assert(m != k);
        if m < k {
            lemma_group_pair(admitted, m, k);
        } else {
            lemma_group_pair(admitted, k, m);
        }
        let digests = group_digests(admitted, name);
        assert(final_name(admitted, admitted[k]) is Some);
        let width = unique_width(digests)->0;
        assert(suffixed(fields[i].identity, width as int) == fields[i].physical_name);
    }
}

/// A base name with a suffix of this width.
pub open spec fn suffixed(identity: IdentityView, width: int) -> Seq<char> {
    base_text(identity) + "__"@ + digest_text(identity).take(width)
}

/// Columns can be named unless two different attributes share a base name and have one digest.
pub proof fn naming_fails_only_for_equal_digests(
    identities: Seq<IdentityView>,
    max_columns: nat,
)
    requires
        forall|k: int|
            0 <= k < identities.len() ==> digest_text(#[trigger] identities[k]).len() == 64,
        discovered(identities, max_columns) is None,
    ensures
        exists|k: int, m: int|
            0 <= k < identities.len() && 0 <= m < identities.len() && #[trigger] identities[k]
                != #[trigger] identities[m] && base_text(identities[k]) == base_text(identities[m])
                && digest_text(identities[k]) == digest_text(identities[m]),
{
    let base = base_fields(identities);
    let sorted = sort_fields(base);
    let admitted = admitted_fields(identities, max_columns);
    lemma_sort_ascends(base);
    let i = choose|i: int|
        0 <= i < admitted.len() && final_name(admitted, #[trigger] admitted[i]) is None;
    let name = admitted[i].physical_name;
    let digests = group_digests(admitted, name);
    lemma_group_position(admitted, i);
    assert forall|g: int| 0 <= g < digests.len() implies (#[trigger] digests[g]).len() == 64 by {
        let m = lemma_digest_source(admitted, name, g);
        let k = lemma_admitted_source(identities, max_columns, m);
        assert(digest_text(identities[k]).len() == 64);
    }
    lemma_shortest_is(digests, 64);
    assert(shortest(digests) == 64);
    assert(!prefixes_differ(digests, 64)) by {
        lemma_width_reaches(digests, if 64 < DIGEST_PREFIX { 64 } else { DIGEST_PREFIX as nat }, 64);
    }
    let (g, h) = choose|g: int, h: int|
        0 <= g < h < digests.len() && (#[trigger] digests[g]).take(64) == (
        #[trigger] digests[h]).take(64);
    assert(digests[g].take(64) =~= digests[g]);
    assert(digests[h].take(64) =~= digests[h]);
    let (m, n) = lemma_digest_sources(admitted, name, g, h);
    let k = lemma_admitted_source(identities, max_columns, m);
    let l = lemma_admitted_source(identities, max_columns, n);
    assert(admitted[m] == sorted[m] && admitted[n] == sorted[n]);
    assert(field_lt(sorted[m], sorted[n]));
    lemma_field_lt_total(sorted[m], sorted[n]);
    assert(identities[k] != identities[l]);
}

proof fn lemma_width_reaches(digests: Seq<Seq<char>>, width: nat, full: nat)
    requires
        width <= full,
        width_from(digests, width, full) is None,
    ensures
        !prefixes_differ(digests, full),
    decreases full - width,
{
    if width < full {
        if width + DIGEST_PREFIX >= full {
            lemma_width_reaches(digests, full, full);
        } else {
            lemma_width_reaches(digests, width + DIGEST_PREFIX as nat, full);
        }
    }
}

proof fn lemma_shortest_is(digests: Seq<Seq<char>>, len: nat)
    requires
        digests.len() > 0,
        forall|g: int| 0 <= g < digests.len() ==> (#[trigger] digests[g]).len() == len,
    ensures
        shortest(digests) == len,
    decreases digests.len(),
{
    if digests.len() > 1 {
        let front = digests.drop_last();
        assert forall|g: int| 0 <= g < front.len() implies (#[trigger] front[g]).len() == len by {
            assert(front[g] == digests[g]);
        }
        lemma_shortest_is(front, len);
        assert(digests[digests.len() - 1].len() == len);
    } else {
        assert(digests[0].len() == len);
    }
}

proof fn lemma_digest_source(fields: Seq<DynamicFieldView>, name: Seq<char>, g: int) -> (at: int)
    requires
        0 <= g < group_digests(fields, name).len(),
    ensures
        0 <= at < fields.len(),
        fields[at].physical_name == name,
        group_digests(fields, name)[g] == digest_text(fields[at].identity),
    decreases fields.len(),
{
    let front = fields.drop_last();
    if g < group_digests(front, name).len() {
        lemma_digest_source(front, name, g)
    } else {
        fields.len() - 1
    }
}

proof fn lemma_digest_sources(
    fields: Seq<DynamicFieldView>,
    name: Seq<char>,
    g: int,
    h: int,
) -> (at: (int, int))
    requires
        0 <= g < h < group_digests(fields, name).len(),
    ensures
        0 <= at.0 < at.1 < fields.len(),
        fields[at.0].physical_name == name,
        fields[at.1].physical_name == name,
        group_digests(fields, name)[g] == digest_text(fields[at.0].identity),
        group_digests(fields, name)[h] == digest_text(fields[at.1].identity),
    decreases fields.len(),
{
    let front = fields.drop_last();
    if h < group_digests(front, name).len() {
        lemma_digest_sources(front, name, g, h)
    } else {
        (lemma_digest_source(front, name, g), fields.len() - 1)
    }
}

proof fn lemma_admitted_source(
    identities: Seq<IdentityView>,
    max_columns: nat,
    m: int,
) -> (k: int)
    requires
        0 <= m < admitted_fields(identities, max_columns).len(),
    ensures
        0 <= k < identities.len(),
        identities[k] == admitted_fields(identities, max_columns)[m].identity,
        base_text(identities[k]) == admitted_fields(identities, max_columns)[m].physical_name,
{
    let base = base_fields(identities);
    let sorted = sort_fields(base);
    let field = admitted_fields(identities, max_columns)[m];
    assert(field == sorted[m]);
    assert(sorted.contains(sorted[m]));
    lemma_sort_members(base, field);
    let k = choose|k: int| 0 <= k < base.len() && base[k] == field;
    k
}

// What digests cover.

/// The number whose bytes these are, the most significant first.
pub open spec fn be_value(bytes: Seq<u8>) -> nat
    decreases bytes.len(),
{
    if bytes.len() == 0 {
        0
    } else {
        256 * be_value(bytes.drop_last()) + bytes.last() as nat
    }
}

/// Bytes with the most significant first read back as the number.
pub proof fn lemma_be_round_trip(value: nat, width: nat)
    requires
        value < codec::byte_range(width),
    ensures
        be_value(be_bytes(value, width)) == value,
        be_bytes(value, width).len() == width,
    decreases width,
{
    if width > 0 {
        lemma_be_round_trip(value / 256, (width - 1) as nat);
        assert(be_bytes(value, width).drop_last() =~= be_bytes(value / 256, (width - 1) as nat));
    }
}

/// Text behind a length of `width` bytes is told apart from other text, whatever stands behind it.
pub proof fn lemma_prefixed_text(
    left: Seq<char>,
    right: Seq<char>,
    width: nat,
    x: Seq<u8>,
    y: Seq<u8>,
)
    requires
        utf8::encode_utf8(left).len() < codec::byte_range(width),
        utf8::encode_utf8(right).len() < codec::byte_range(width),
        be_bytes(utf8::encode_utf8(left).len(), width) + utf8::encode_utf8(left) + x == be_bytes(
            utf8::encode_utf8(right).len(),
            width,
        ) + utf8::encode_utf8(right) + y,
    ensures
        left == right,
        x == y,
{
    let l = utf8::encode_utf8(left);
    let r = utf8::encode_utf8(right);
    let a = be_bytes(l.len(), width) + l + x;
    let b = be_bytes(r.len(), width) + r + y;
    lemma_be_round_trip(l.len(), width);
    lemma_be_round_trip(r.len(), width);
    assert(be_bytes(l.len(), width) =~= a.take(width as int));
    assert(be_bytes(r.len(), width) =~= b.take(width as int));
    assert(l.len() == r.len());
    assert(l =~= a.subrange(width as int, (width + l.len()) as int));
    assert(r =~= b.subrange(width as int, (width + r.len()) as int));
    utf8::encode_utf8_decode_utf8(left);
    utf8::encode_utf8_decode_utf8(right);
    assert(x =~= a.skip((width + l.len()) as int));
    assert(y =~= b.skip((width + r.len()) as int));
}

/// Whether the lengths of an identity can be written.
pub open spec fn identity_fits(identity: IdentityView) -> bool {
    &&& identity.path.len() < codec::byte_range(8)
    &&& forall|i: int|
        0 <= i < identity.path.len() ==> utf8::encode_utf8(#[trigger] identity.path[i]).len()
            < codec::byte_range(8)
}

/// The bytes that a digest covers tell identities apart: two attributes of different lists, paths or types
/// have different ones.
pub proof fn digests_cover_the_identity(left: IdentityView, right: IdentityView)
    requires
        identity_fits(left),
        identity_fits(right),
        identity_bytes(left) == identity_bytes(right),
    ensures
        left == right,
{
    let fits = |segment: Seq<char>| utf8::encode_utf8(segment).len() < codec::byte_range(8);
    let a = identity_bytes(left);
    let b = identity_bytes(right);
    let kind_a = seq![left.kind.number()];
    let kind_b = seq![right.kind.number()];
    let list_a = codec::concat(segment_encoding(), left.path);
    let list_b = codec::concat(segment_encoding(), right.path);
    lemma_be_round_trip(left.path.len(), 8);
    lemma_be_round_trip(right.path.len(), 8);
    assert(a[0] == left.source.number());
    assert(b[0] == right.source.number());
    assert(be_bytes(left.path.len(), 8) =~= a.subrange(1, 9));
    assert(be_bytes(right.path.len(), 8) =~= b.subrange(1, 9));
    assert(left.path.len() == right.path.len());
    assert(list_a + kind_a =~= a.skip(9));
    assert(list_b + kind_b =~= b.skip(9));
    assert(codec::tells_apart(segment_encoding(), fits)) by {
        assert forall|p: Seq<char>, q: Seq<char>, x: Seq<u8>, y: Seq<u8>|
            fits(p) && fits(q) && #[trigger] (segment_encoding()(p) + x) == #[trigger] (
            segment_encoding()(q) + y) implies p == q && x == y by {
            lemma_prefixed_text(p, q, 8, x, y);
        }
    }
    codec::lemma_lists_told_apart(
        segment_encoding(),
        fits,
        left.path,
        right.path,
        kind_a,
        kind_b,
    );
    assert(kind_a[0] == kind_b[0]);
}

/// Hex text tells bytes apart, with two characters for each.
pub proof fn hex_text_tells_bytes_apart(left: Seq<u8>, right: Seq<u8>)
    requires
        hex_text(left) == hex_text(right),
    ensures
        left == right,
    decreases left.len(),
{
    lemma_hex_text(left);
    lemma_hex_text(right);
    if left.len() > 0 {
        let text = hex_text(left);
        let (l, r) = (left.drop_last(), right.drop_last());
        assert(hex_text(l) =~= text.take(text.len() - 2));
        assert(hex_text(r) =~= text.take(text.len() - 2)) by {
            lemma_hex_text(r);
        }
        lemma_hex_text(l);
        hex_text_tells_bytes_apart(l, r);
        assert(text[text.len() - 2] == hex_digit(left.last() as int / 16));
        assert(text[text.len() - 1] == hex_digit(left.last() as int % 16));
        assert(hex_text(right)[text.len() - 2] == hex_digit(right.last() as int / 16));
        assert(hex_text(right)[text.len() - 1] == hex_digit(right.last() as int % 16));
        assert(left.last() == right.last());
        assert(left =~= l.push(left.last()));
        assert(right =~= r.push(right.last()));
    } else {
        assert(left =~= right);
    }
}

} // verus!
