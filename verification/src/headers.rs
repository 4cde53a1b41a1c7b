//! Reading header values: white space, ASCII case and separators.
use vstd::prelude::*;
use crate::text::code_point;

verus! {

/// Whether a character has the Unicode property White_Space: the controls from tab to carriage
/// return, the spaces, the next line, and the line and paragraph separators.
pub open spec fn whitespace(character: char) -> bool {
    let code = character as u32;
    ||| 0x9 <= code <= 0xd
    ||| code == 0x20 || code == 0x85 || code == 0xa0 || code == 0x1680
    ||| 0x2000 <= code <= 0x200a
    ||| code == 0x2028 || code == 0x2029 || code == 0x202f || code == 0x205f || code == 0x3000
}

/// Whether a character is white space.
pub fn is_whitespace(character: char) -> (is: bool)
    ensures
        is == whitespace(character),
{
    let code = code_point(character);
    (0x9 <= code && code <= 0xd) || code == 0x20 || code == 0x85 || code == 0xa0 || code == 0x1680
        || (0x2000 <= code && code <= 0x200a) || code == 0x2028 || code == 0x2029 || code == 0x202f
        || code == 0x205f || code == 0x3000
}

/// A text without the white space at its start.
pub open spec fn trimmed_start(text: Seq<char>) -> Seq<char>
    decreases text.len(),
{
    if text.len() > 0 && whitespace(text[0]) {
        trimmed_start(text.skip(1))
    } else {
        text
    }
}

/// A text without the white space at its end.
pub open spec fn trimmed_end(text: Seq<char>) -> Seq<char>
    decreases text.len(),
{
    if text.len() > 0 && whitespace(text.last()) {
        trimmed_end(text.drop_last())
    } else {
        text
    }
}

/// A text without the white space around it.
pub open spec fn trimmed(text: Seq<char>) -> Seq<char> {
    trimmed_end(trimmed_start(text))
}

/// The characters from `from` up to `to`.
pub fn part(chars: &Vec<char>, from: usize, to: usize) -> (result: Vec<char>)
    requires
        from <= to <= chars.len(),
    ensures
        result@ == chars@.subrange(from as int, to as int),
{
    let mut result: Vec<char> = Vec::new();
    let mut i: usize = from;
    while i < to
        invariant
            from <= i <= to <= chars.len(),
            result@ =~= chars@.subrange(from as int, i as int),
        decreases to - i,
    {
        result.push(chars[i]);
        i = i + 1;
    }
    result
}

/// The characters without the white space around them.
pub fn trim(chars: &Vec<char>) -> (result: Vec<char>)
    ensures
        result@ == trimmed(chars@),
{
    let mut from: usize = 0;
    assert(chars@.skip(0) =~= chars@);
    while from < chars.len() && is_whitespace(chars[from])
        invariant
            from <= chars.len(),
            trimmed_start(chars@.skip(from as int)) == trimmed_start(chars@),
        decreases chars.len() - from,
    {
        assert(chars@.skip(from as int).skip(1) =~= chars@.skip(from + 1));
        from = from + 1;
    }
    let ghost start = chars@.skip(from as int);
    assert(start == trimmed_start(chars@));
    let mut to: usize = chars.len();
    assert(chars@.subrange(from as int, to as int) =~= start);
    while to > from && is_whitespace(chars[to - 1])
        invariant
            from <= to <= chars.len(),
            trimmed_end(chars@.subrange(from as int, to as int)) == trimmed_end(start),
        decreases to,
    {
        assert(chars@.subrange(from as int, to as int).drop_last() =~= chars@.subrange(
            from as int,
            to - 1,
        ));
        assert(chars@.subrange(from as int, to as int).last() == chars@[to - 1]);
        to = to - 1;
    }
    if to > from {
        assert(chars@.subrange(from as int, to as int).last() == chars@[to - 1]);
    }
    part(chars, from, to)
}

/// Whether a text holds white space.
pub open spec fn holds_whitespace(text: Seq<char>) -> bool {
    exists|i: int| 0 <= i < text.len() && whitespace(#[trigger] text[i])
}

/// Whether the characters hold white space.
pub fn has_whitespace(chars: &Vec<char>) -> (has: bool)
    ensures
        has == holds_whitespace(chars@),
{
    let mut i: usize = 0;
    while i < chars.len()
        invariant
            i <= chars.len(),
            forall|k: int| 0 <= k < i ==> !whitespace(#[trigger] chars@[k]),
        decreases chars.len() - i,
    {
        if is_whitespace(chars[i]) {
            return true;
        }
        i = i + 1;
    }
    false
}

/// Where a character stands first, or the length of the text.
pub open spec fn first_index(text: Seq<char>, character: char) -> int
    decreases text.len(),
{
    if text.len() == 0 || text[0] == character {
        0
    } else {
        1 + first_index(text.skip(1), character)
    }
}

/// Where a character stands first, or the length of the text.
pub fn find(chars: &Vec<char>, character: char) -> (at: usize)
    ensures
        at == first_index(chars@, character),
        at <= chars.len(),
{
    let mut at: usize = 0;
    assert(chars@.skip(0) =~= chars@);
    while at < chars.len() && chars[at] != character
        invariant
            at <= chars.len(),
            first_index(chars@, character) == at + first_index(
                chars@.skip(at as int),
                character,
            ),
        decreases chars.len() - at,
    {
        assert(chars@.skip(at as int).skip(1) =~= chars@.skip(at + 1));
        at = at + 1;
    }
    at
}

/// The code point of a character, an ASCII capital as its small letter.
pub open spec fn folded(character: char) -> int {
    if 65 <= character as int <= 90 {
        character as int + 32
    } else {
        character as int
    }
}

/// Whether two texts are equal but for ASCII case.
pub open spec fn same_but_case(left: Seq<char>, right: Seq<char>) -> bool {
    &&& left.len() == right.len()
    &&& forall|i: int| 0 <= i < left.len() ==> folded(#[trigger] left[i]) == folded(right[i])
}

fn fold(character: char) -> (code: u32)
    ensures
        code == folded(character),
{
    let code = code_point(character);
    if 65 <= code && code <= 90 {
        code + 32
    } else {
        code
    }
}

/// Whether two texts are equal but for ASCII case.
pub fn equal_but_case(left: &Vec<char>, right: &Vec<char>) -> (same: bool)
    ensures
        same == same_but_case(left@, right@),
{
    if left.len() != right.len() {
        return false;
    }
    let mut i: usize = 0;
    while i < left.len()
        invariant
            i <= left.len(),
            left.len() == right.len(),
            forall|k: int| 0 <= k < i ==> folded(#[trigger] left@[k]) == folded(right@[k]),
        decreases left.len() - i,
    {
        if fold(left[i]) != fold(right[i]) {
            assert(folded(left@[i as int]) != folded(right@[i as int]));
            return false;
        }
        i = i + 1;
    }
    true
}

// Laws.

/// Whether every character of a text is white space.
pub open spec fn all_whitespace(text: Seq<char>) -> bool {
    forall|i: int| 0 <= i < text.len() ==> whitespace(#[trigger] text[i])
}

/// Whether a text neither starts nor ends with white space.
pub open spec fn is_trim(text: Seq<char>) -> bool {
    text.len() > 0 ==> !whitespace(text[0]) && !whitespace(text[text.len() - 1])
}

proof fn lemma_trimmed_start(left: Seq<char>, text: Seq<char>)
    requires
        all_whitespace(left),
        text.len() > 0 ==> !whitespace(text[0]),
    ensures
        trimmed_start(left + text) == text,
    decreases left.len(),
{
    let all = left + text;
    if left.len() == 0 {
        assert(all =~= text);
    } else {
        let rest = left.skip(1);
        assert(whitespace(left[0]));
        assert forall|i: int| 0 <= i < rest.len() implies whitespace(#[trigger] rest[i]) by {
            assert(rest[i] == left[i + 1]);
        }
        assert(all.skip(1) =~= rest + text);
        lemma_trimmed_start(rest, text);
    }
}

proof fn lemma_trimmed_end(text: Seq<char>, right: Seq<char>)
    requires
        all_whitespace(right),
        text.len() > 0 ==> !whitespace(text[text.len() - 1]),
    ensures
        trimmed_end(text + right) == text,
    decreases right.len(),
{
    let all = text + right;
    if right.len() == 0 {
        assert(all =~= text);
    } else {
        let rest = right.drop_last();
        assert(whitespace(right[right.len() - 1]));
        assert forall|i: int| 0 <= i < rest.len() implies whitespace(#[trigger] rest[i]) by {
            assert(rest[i] == right[i]);
        }
        assert(all.drop_last() =~= text + rest);
        assert(all.last() == right[right.len() - 1]);
        lemma_trimmed_end(text, rest);
    }
}

/// Trimming takes the white space around a text away, and nothing else.
pub proof fn trimming_leaves_the_text(left: Seq<char>, text: Seq<char>, right: Seq<char>)
    requires
        all_whitespace(left),
        all_whitespace(right),
        is_trim(text),
    ensures
        trimmed(left + text + right) == text,
{
    if text.len() == 0 {
        let all = left + right;
        assert(left + text + right =~= all + text);
        assert forall|i: int| 0 <= i < all.len() implies whitespace(#[trigger] all[i]) by {
            if i < left.len() {
                assert(all[i] == left[i]);
            } else {
                assert(all[i] == right[i - left.len()]);
            }
        }
        lemma_trimmed_start(all, text);
    } else {
        assert(left + text + right =~= left + (text + right));
        assert((text + right)[0] == text[0]);
        lemma_trimmed_start(left, text + right);
        lemma_trimmed_end(text, right);
    }
}

proof fn lemma_start_parts(text: Seq<char>) -> (left: Seq<char>)
    ensures
        all_whitespace(left),
        text == left + trimmed_start(text),
        trimmed_start(text).len() > 0 ==> !whitespace(trimmed_start(text)[0]),
    decreases text.len(),
{
    if text.len() > 0 && whitespace(text[0]) {
        let more = lemma_start_parts(text.skip(1));
        let left = seq![text[0]] + more;
        assert(trimmed_start(text) == trimmed_start(text.skip(1)));
        assert(text =~= seq![text[0]] + text.skip(1));
        assert(text =~= left + trimmed_start(text));
        assert forall|i: int| 0 <= i < left.len() implies whitespace(#[trigger] left[i]) by {
            if i > 0 {
                assert(left[i] == more[i - 1]);
            }
        }
        left
    } else {
        assert(text =~= Seq::<char>::empty() + text);
        Seq::empty()
    }
}

proof fn lemma_end_parts(text: Seq<char>) -> (right: Seq<char>)
    ensures
        all_whitespace(right),
        text == trimmed_end(text) + right,
        trimmed_end(text).len() > 0 ==> !whitespace(
            trimmed_end(text)[trimmed_end(text).len() - 1],
        ),
    decreases text.len(),
{
    if text.len() > 0 && whitespace(text.last()) {
        let more = lemma_end_parts(text.drop_last());
        let right = more.push(text.last());
        assert(trimmed_end(text) == trimmed_end(text.drop_last()));
        assert(text =~= text.drop_last().push(text.last()));
        assert(text =~= trimmed_end(text) + right);
        assert forall|i: int| 0 <= i < right.len() implies whitespace(#[trigger] right[i]) by {
            if i < more.len() {
                assert(right[i] == more[i]);
            }
        }
        right
    } else {
        assert(text =~= text + Seq::<char>::empty());
        Seq::empty()
    }
}

/// A text is its trimmed form with white space around it.
pub proof fn texts_have_a_trimmed_form(text: Seq<char>) -> (around: (Seq<char>, Seq<char>))
    ensures
        all_whitespace(around.0),
        all_whitespace(around.1),
        is_trim(trimmed(text)),
        text == around.0 + trimmed(text) + around.1,
{
    let left = lemma_start_parts(text);
    let start = trimmed_start(text);
    let right = lemma_end_parts(start);
    assert(text =~= left + trimmed(text) + right);
    if trimmed(text).len() > 0 {
        assert(trimmed(text)[0] == start[0]);
    }
    (left, right)
}

/// A character is found where it first stands.
pub proof fn characters_are_found_first(text: Seq<char>, character: char)
    ensures
        0 <= first_index(text, character) <= text.len(),
        forall|i: int| 0 <= i < first_index(text, character) ==> text[i] != character,
        first_index(text, character) < text.len() ==> text[first_index(text, character)]
            == character,
    decreases text.len(),
{
    if text.len() > 0 && text[0] != character {
        let rest = text.skip(1);
        characters_are_found_first(rest, character);
        assert forall|i: int| 0 <= i < first_index(text, character) implies text[i]
            != character by {
            if i > 0 {
                assert(rest[i - 1] == text[i]);
            }
        }
    }
}

/// Whether two characters are equal, or one ASCII letter in two cases.
pub open spec fn same_letter(left: char, right: char) -> bool {
    ||| left == right
    ||| 'A' as int <= left as int <= 'Z' as int && right as int - left as int == 'a' as int
        - 'A' as int
    ||| 'A' as int <= right as int <= 'Z' as int && left as int - right as int == 'a' as int
        - 'A' as int
}

/// Case is ignored for ASCII letters, and for nothing else.
pub proof fn only_ascii_case_is_ignored(left: Seq<char>, right: Seq<char>)
    ensures
        same_but_case(left, right) <==> left.len() == right.len() && forall|i: int|
            0 <= i < left.len() ==> same_letter(#[trigger] left[i], right[i]),
{
    if same_but_case(left, right) {
        assert forall|i: int| 0 <= i < left.len() implies same_letter(
            #[trigger] left[i],
            right[i],
        ) by {
            assert(folded(left[i]) == folded(right[i]));
        }
    }
    if left.len() == right.len() && forall|i: int|
        0 <= i < left.len() ==> same_letter(#[trigger] left[i], right[i]) {
        assert forall|i: int| 0 <= i < left.len() implies folded(#[trigger] left[i]) == folded(
            right[i],
        ) by {
            assert(same_letter(left[i], right[i]));
        }
    }
}

/// White space is the space, the tab and the line ends among the ASCII characters, and no letter,
/// digit or mark of them.
pub proof fn ascii_white_space(character: char)
    requires
        (character as int) < 128,
    ensures
        whitespace(character) <==> character == ' ' || character == '\t' || character == '\n'
            || character == '\r' || character as int == 11 || character as int == 12,
{
}

} // verus!
