//! 64-bit floats by their IEEE 754 bits.
use vstd::prelude::*;

verus! {

/// 2 to the power of 52: the weight of the lowest exponent bit of a 64-bit float.
pub const EXPONENT_UNIT: u64 = 0x10_0000_0000_0000;

/// 2 to the power of 63: the weight of the sign bit of a 64-bit float.
pub const SIGN_UNIT: u64 = 0x8000_0000_0000_0000;

/// Whether the IEEE 754 bits hold neither an infinity nor a NaN.
pub open spec fn float_finite(bits: u64) -> bool {
    (bits / EXPONENT_UNIT) % 2048 != 2047
}

/// Whether the IEEE 754 bits hold a NaN.
pub open spec fn float_nan(bits: u64) -> bool {
    !float_finite(bits) && bits % EXPONENT_UNIT != 0
}

/// A number that orders the floats which are no NaN: the sign applied to the magnitude bits, so
/// that both zeros are one.
pub open spec fn float_rank(bits: u64) -> int {
    if bits >= SIGN_UNIT {
        -(bits - SIGN_UNIT)
    } else {
        bits as int
    }
}

pub open spec fn float_less(left: u64, right: u64) -> bool {
    !float_nan(left) && !float_nan(right) && float_rank(left) < float_rank(right)
}

pub open spec fn float_equal(left: u64, right: u64) -> bool {
    !float_nan(left) && !float_nan(right) && float_rank(left) == float_rank(right)
}

pub fn is_float_finite(bits: u64) -> (finite: bool)
    ensures
        finite == float_finite(bits),
{
    (bits / EXPONENT_UNIT) % 2048 != 2047
}

pub fn is_float_nan(bits: u64) -> (nan: bool)
    ensures
        nan == float_nan(bits),
{
    !is_float_finite(bits) && bits % EXPONENT_UNIT != 0
}

pub fn rank_of_float(bits: u64) -> (rank: i128)
    ensures
        rank == float_rank(bits),
{
    if bits >= SIGN_UNIT {
        -((bits - SIGN_UNIT) as i128)
    } else {
        bits as i128
    }
}

/// The bits of a float: the exponent and the fraction, below the sign.
pub open spec fn float_bits(negative: bool, exponent: int, fraction: int) -> int {
    (if negative {
        0x8000_0000_0000_0000int
    } else {
        0
    }) + exponent * 0x10_0000_0000_0000 + fraction
}

/// Floats are ordered by their value. Of two of one sign the one with the higher exponent lies further from
/// zero, and of one exponent the one with the higher fraction; a negative one lies below a positive one,
/// unless both are zero, which are equal. The highest exponent holds the infinities, and the values that
/// are no number, which neither precede nor equal anything.
pub proof fn floats_are_ordered_by_value(
    left: u64,
    right: u64,
    a: (bool, int, int),
    b: (bool, int, int),
)
    requires
        left == float_bits(a.0, a.1, a.2),
        right == float_bits(b.0, b.1, b.2),
        0 <= a.1 < 2048,
        0 <= b.1 < 2048,
        0 <= a.2 < 0x10_0000_0000_0000,
        0 <= b.2 < 0x10_0000_0000_0000,
    ensures
        float_finite(left) <==> a.1 < 2047,
        float_nan(left) <==> a.1 == 2047 && a.2 > 0,
        float_nan(left) || float_nan(right) ==> !float_less(left, right) && !float_equal(
            left,
            right,
        ),
        !float_nan(left) && !float_nan(right) ==> {
            let further = a.1 > b.1 || (a.1 == b.1 && a.2 > b.2);
            let nearer = a.1 < b.1 || (a.1 == b.1 && a.2 < b.2);
            let zeros = a.1 == 0 && a.2 == 0 && b.1 == 0 && b.2 == 0;
            &&& !a.0 && !b.0 ==> float_less(left, right) == nearer
            &&& a.0 && b.0 ==> float_less(left, right) == further
            &&& a.0 && !b.0 ==> float_less(left, right) == !zeros
            &&& !a.0 && b.0 ==> !float_less(left, right)
            &&& float_equal(left, right) <==> zeros || (a.0 == b.0 && a.1 == b.1 && a.2 == b.2)
        },
{
    assert(left as int / 0x10_0000_0000_0000 == a.1 + if a.0 {
        2048int
    } else {
        0
    });
    assert(left as int % 0x10_0000_0000_0000 == a.2);
    assert(right as int / 0x10_0000_0000_0000 == b.1 + if b.0 {
        2048int
    } else {
        0
    });
    assert(right as int % 0x10_0000_0000_0000 == b.2);
}

} // verus!
