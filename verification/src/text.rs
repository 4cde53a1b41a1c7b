//! Text helpers: construction, comparison and decimal rendering of strings.
use vstd::prelude::*;

verus! {

/// `String::push` appends one character.
pub assume_specification[ std::string::String::push ](s: &mut std::string::String, c: char)
    ensures
        final(s)@ == old(s)@.push(c),
;

/// The characters of a string slice, in order.
pub fn chars_of(text: &str) -> (chars: Vec<char>)
    ensures
        chars@ == text@,
{
    let mut chars: Vec<char> = Vec::new();
    for character in iter: text.chars()
        invariant
            chars@ == iter.seq().take(iter.index() as int),
            iter.seq() == text@,
    {
        chars.push(character);
    }
    chars
}

/// The string that holds `chars`.
pub fn string_of(chars: &[char]) -> (text: String)
    ensures
        text@ == chars@,
{
    let mut text = String::new();
    let mut i: usize = 0;
    while i < chars.len()
        invariant
            i <= chars.len(),
            text@ == chars@.take(i as int),
        decreases chars.len() - i,
    {
        text.push(chars[i]);
        i = i + 1;
    }
    text
}

/// Lexicographic order by Unicode scalar value, which is also the byte order of the UTF-8 forms.
pub open spec fn text_lt(left: Seq<char>, right: Seq<char>) -> bool
    decreases left.len(),
{
    if right.len() == 0 {
        false
    } else if left.len() == 0 {
        true
    } else if left[0] != right[0] {
        (left[0] as int) < (right[0] as int)
    } else {
        text_lt(left.drop_first(), right.drop_first())
    }
}

pub proof fn lemma_text_lt_irreflexive(text: Seq<char>)
    ensures
        !text_lt(text, text),
    decreases text.len(),
{
    if text.len() > 0 {
        lemma_text_lt_irreflexive(text.drop_first());
    }
}

pub proof fn lemma_text_lt_transitive(a: Seq<char>, b: Seq<char>, c: Seq<char>)
    requires
        text_lt(a, b),
        text_lt(b, c),
    ensures
        text_lt(a, c),
    decreases a.len(),
{
    if a.len() > 0 && a[0] == b[0] && b[0] == c[0] {
        lemma_text_lt_transitive(a.drop_first(), b.drop_first(), c.drop_first());
    }
}

pub proof fn lemma_text_lt_total(a: Seq<char>, b: Seq<char>)
    ensures
        text_lt(a, b) || text_lt(b, a) || a == b,
        text_lt(a, b) ==> !text_lt(b, a),
    decreases a.len(),
{
    if a.len() > 0 && b.len() > 0 && a[0] == b[0] {
        lemma_text_lt_total(a.drop_first(), b.drop_first());
        if a.drop_first() == b.drop_first() {
            assert(a =~= seq![a[0]] + a.drop_first());
            assert(b =~= seq![b[0]] + b.drop_first());
        }
    } else if a.len() == 0 && b.len() == 0 {
        assert(a =~= b);
    }
}

/// The outcome of comparing two texts.
#[derive(Clone, Copy, Debug, PartialEq, Eq, Structural)]
pub enum TextOrder {
    Before,
    Same,
    After,
}

pub open spec fn text_order(left: Seq<char>, right: Seq<char>) -> TextOrder {
    if left == right {
        TextOrder::Same
    } else if text_lt(left, right) {
        TextOrder::Before
    } else {
        TextOrder::After
    }
}

/// The Unicode scalar value of a character.
pub fn code_point(character: char) -> (code: u32)
    ensures
        code as int == character as int,
{
    character as u32
}

/// Compares two texts.
pub fn order_text(left: &str, right: &str) -> (order: TextOrder)
    ensures
        order == text_order(left@, right@),
{
    let a = chars_of(left);
    let b = chars_of(right);
    let mut i: usize = 0;
    assert(a@.skip(0) =~= left@);
    assert(b@.skip(0) =~= right@);
    proof {
        lemma_text_lt_total(left@, right@);
    }
    while i < a.len() && i < b.len()
        invariant
            a@ == left@,
            b@ == right@,
            i <= a.len(),
            i <= b.len(),
            left@.take(i as int) == right@.take(i as int),
            text_lt(left@, right@) == text_lt(a@.skip(i as int), b@.skip(i as int)),
            text_lt(right@, left@) == text_lt(b@.skip(i as int), a@.skip(i as int)),
            text_lt(left@, right@) || text_lt(right@, left@) || left@ == right@,
        decreases a.len() - i,
    {
        assert(a@.skip(i as int).drop_first() =~= a@.skip(i + 1));
        assert(b@.skip(i as int).drop_first() =~= b@.skip(i + 1));
        if a[i] != b[i] {
            assert(left@ != right@) by {
                assert(left@[i as int] != right@[i as int]);
            }
            if code_point(a[i]) < code_point(b[i]) {
                return TextOrder::Before;
            } else {
                assert(a@.skip(i as int)[0] != b@.skip(i as int)[0]);
                return TextOrder::After;
            }
        }
        assert(left@.take(i + 1) =~= left@.take(i as int).push(left@[i as int]));
        assert(right@.take(i + 1) =~= right@.take(i as int).push(right@[i as int]));
        i = i + 1;
    }
    if a.len() == b.len() {
        assert(left@.take(i as int) =~= left@);
        assert(right@.take(i as int) =~= right@);
        TextOrder::Same
    } else if a.len() < b.len() {
        TextOrder::Before
    } else {
        TextOrder::After
    }
}

/// Tests two string slices for equality.
pub fn same_text(left: &str, right: &str) -> (same: bool)
    ensures
        same == (left@ == right@),
{
    matches!(order_text(left, right), TextOrder::Same)
}

/// The digit of a number below ten.
pub open spec fn digit_char(digit: int) -> char {
    (('0' as int) + digit) as char
}

/// The decimal digits of `value`, without leading zeros.
pub open spec fn decimal_text(value: nat) -> Seq<char>
    decreases value,
{
    if value < 10 {
        seq![digit_char(value as int)]
    } else {
        decimal_text(value / 10).push(digit_char((value % 10) as int))
    }
}

fn digit(value: u8) -> (character: char)
    requires
        value < 10,
    ensures
        character == digit_char(value as int),
{
    (48u8 + value) as char
}

/// Appends the decimal digits of `value`.
pub fn push_decimal(text: &mut String, value: u64)
    ensures
        final(text)@ == old(text)@ + decimal_text(value as nat),
    decreases value,
{
    if value >= 10 {
        push_decimal(text, value / 10);
    }
    text.push(digit((value % 10) as u8));
}

/// The decimal digits of `value`, without leading zeros.
pub fn decimal(value: u64) -> (text: String)
    ensures
        text@ == decimal_text(value as nat),
{
    let mut text = String::new();
    push_decimal(&mut text, value);
    text
}

/// The decimal form of an integer, with a minus sign before a negative one.
pub open spec fn signed_text(value: int) -> Seq<char> {
    if value < 0 {
        seq!['-'] + decimal_text((-value) as nat)
    } else {
        decimal_text(value as nat)
    }
}

/// Appends the decimal form of `value`.
pub fn push_signed(text: &mut String, value: i64)
    ensures
        final(text)@ == old(text)@ + signed_text(value as int),
{
    let ghost before = text@;
    if value < 0 {
        text.push('-');
        let magnitude: u64 = if value == i64::MIN {
            0x8000_0000_0000_0000
        } else {
            (-value) as u64
        };
        push_decimal(text, magnitude);
    } else {
        push_decimal(text, value as u64);
    }
    assert(text@ =~= before + signed_text(value as int));
}

/// The decimal form of `value` behind as many zeros as `width` digits need.
pub open spec fn padded_text(value: nat, width: nat) -> Seq<char> {
    if decimal_text(value).len() >= width {
        decimal_text(value)
    } else {
        Seq::new((width - decimal_text(value).len()) as nat, |i: int| '0') + decimal_text(value)
    }
}

fn count_digits(value: u64) -> (count: usize)
    ensures
        count == decimal_text(value as nat).len(),
        count <= 20,
{
    let mut rest: u64 = value;
    let mut count: usize = 1;
    let ghost mut bound: nat = 1;
    while rest >= 10
        invariant
            1 <= count,
            decimal_text(value as nat).len() == decimal_text(rest as nat).len() + count - 1,
            rest * bound <= value,
            bound >= 1,
            count <= 20,
            count == 1 ==> bound == 1,
            count == 2 ==> bound == 10,
            count == 3 ==> bound == 100,
            count == 4 ==> bound == 1_000,
            count == 5 ==> bound == 10_000,
            count == 6 ==> bound == 100_000,
            count == 7 ==> bound == 1_000_000,
            count == 8 ==> bound == 10_000_000,
            count == 9 ==> bound == 100_000_000,
            count == 10 ==> bound == 1_000_000_000,
            count == 11 ==> bound == 10_000_000_000,
            count == 12 ==> bound == 100_000_000_000,
            count == 13 ==> bound == 1_000_000_000_000,
            count == 14 ==> bound == 10_000_000_000_000,
            count == 15 ==> bound == 100_000_000_000_000,
            count == 16 ==> bound == 1_000_000_000_000_000,
            count == 17 ==> bound == 10_000_000_000_000_000,
            count == 18 ==> bound == 100_000_000_000_000_000,
            count == 19 ==> bound == 1_000_000_000_000_000_000,
            count == 20 ==> bound == 10_000_000_000_000_000_000,
        decreases rest,
    {
        proof {
            let tenth = (rest / 10) as int;
            let b = bound as int;
            assert(tenth * (10 * b) <= rest * b) by (nonlinear_arith)
                requires
                    tenth * 10 <= rest,
                    b >= 1,
            ;
            assert(10 * b <= rest * b) by (nonlinear_arith)
                requires
                    rest >= 10,
                    b >= 1,
            ;
            bound = (10 * bound) as nat;
        }
        rest = rest / 10;
        count = count + 1;
    }
    count
}

/// Appends the decimal form of `value` behind as many zeros as `width` digits need.
pub fn push_padded(text: &mut String, value: u64, width: usize)
    requires
        width <= 20,
    ensures
        final(text)@ == old(text)@ + padded_text(value as nat, width as nat),
{
    let ghost before = text@;
    let mut count = count_digits(value);
    let ghost digits = decimal_text(value as nat);
    let mut padding: usize = 0;
    while count < width
        invariant
            width <= 20,
            count == digits.len() + padding,
            padding == 0 || count <= width,
            text@ == before + Seq::new(padding as nat, |i: int| '0'),
        decreases width - count,
    {
        text.push('0');
        padding = padding + 1;
        count = count + 1;
        assert(text@ =~= before + Seq::new(padding as nat, |i: int| '0'));
    }
    push_decimal(text, value);
    assert(text@ =~= before + padded_text(value as nat, width as nat));
}

/// The number that decimal digits stand for.
pub open spec fn digits_value(digits: Seq<char>) -> int
    decreases digits.len(),
{
    if digits.len() == 0 {
        0
    } else {
        10 * digits_value(digits.drop_last()) + (digits.last() as int - '0' as int)
    }
}

/// Whether every character is a decimal digit.
pub open spec fn all_digits(text: Seq<char>) -> bool {
    forall|i: int| 0 <= i < text.len() ==> '0' as int <= #[trigger] text[i] as int <= '9' as int
}

/// Decimal text reads back as the number that was written, and is no longer than it needs to be.
pub proof fn decimal_text_reads_back(value: nat)
    ensures
        digits_value(decimal_text(value)) == value,
        all_digits(decimal_text(value)),
        decimal_text(value).len() > 0,
        value > 0 ==> decimal_text(value)[0] != '0',
        value == 0 ==> decimal_text(value).len() == 1,
    decreases value,
{
    let text = decimal_text(value);
    if value >= 10 {
        decimal_text_reads_back(value / 10);
        assert(text.drop_last() =~= decimal_text(value / 10));
        assert(text[0] == decimal_text(value / 10)[0]);
    } else {
        assert(text.drop_last() =~= Seq::empty());
        assert(digits_value(text.drop_last()) == 0);
    }
}

/// Padded text reads back as the number that was written, and has the width, or more where the number
/// needs more.
pub proof fn padded_text_reads_back(value: nat, width: nat)
    ensures
        digits_value(padded_text(value, width)) == value,
        all_digits(padded_text(value, width)),
        padded_text(value, width).len() >= width,
        padded_text(value, width).len() > width ==> padded_text(value, width) == decimal_text(
            value,
        ),
{
    decimal_text_reads_back(value);
    let digits = decimal_text(value);
    if digits.len() < width {
        let zeros = Seq::new((width - digits.len()) as nat, |i: int| '0');
        lemma_leading_zeros(zeros, digits);
    }
}

proof fn lemma_leading_zeros(zeros: Seq<char>, digits: Seq<char>)
    requires
        forall|i: int| 0 <= i < zeros.len() ==> #[trigger] zeros[i] == '0',
    ensures
        digits_value(zeros + digits) == digits_value(digits),
    decreases zeros.len() + digits.len(),
{
    let all = zeros + digits;
    if digits.len() > 0 {
        assert(all.drop_last() =~= zeros + digits.drop_last());
        lemma_leading_zeros(zeros, digits.drop_last());
    } else if zeros.len() > 0 {
        assert(all.drop_last() =~= zeros.drop_last() + digits);
        lemma_leading_zeros(zeros.drop_last(), digits);
    }
}

/// Signed text is the digits of the magnitude, behind a minus for a negative number and for no other.
pub proof fn signed_text_reads_back(value: int)
    ensures
        value < 0 <==> signed_text(value)[0] == '-',
        value >= 0 ==> digits_value(signed_text(value)) == value,
        value < 0 ==> digits_value(signed_text(value).skip(1)) == -value,
{
    decimal_text_reads_back(if value < 0 { (-value) as nat } else { value as nat });
    if value < 0 {
        assert(signed_text(value).skip(1) =~= decimal_text((-value) as nat));
    }
}

/// Texts are ordered as the first character in which they differ is, and a text stands before those that
/// continue it.
pub proof fn texts_are_ordered_by_the_first_difference(
    common: Seq<char>,
    left: Seq<char>,
    right: Seq<char>,
)
    requires
        left.len() == 0 || right.len() == 0 || left[0] != right[0],
    ensures
        text_lt(common + left, common + right) <==> right.len() > 0 && (left.len() == 0 || (
        left[0] as int) < (right[0] as int)),
    decreases common.len(),
{
    if common.len() == 0 {
        assert(common + left =~= left);
        assert(common + right =~= right);
    } else {
        assert((common + left).drop_first() =~= common.drop_first() + left);
        assert((common + right).drop_first() =~= common.drop_first() + right);
        texts_are_ordered_by_the_first_difference(common.drop_first(), left, right);
    }
}

} // verus!
