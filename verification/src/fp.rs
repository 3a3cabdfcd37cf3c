use rustc_apfloat::Float;
use vstd::prelude::*;

verus! {

/// Mask of the sign bit of an IEEE-754 binary64 bit pattern.
pub const SIGN_MASK: u64 = 0x8000_0000_0000_0000;

/// Mask of the exponent and significand bits of an IEEE-754 binary64
/// bit pattern; what remains after the sign bit is cleared.
pub const ABS_MASK: u64 = 0x7fff_ffff_ffff_ffff;

/// Mask of the exponent bits of an IEEE-754 binary64 bit pattern.
pub const EXP_MASK: u64 = 0x7ff0_0000_0000_0000;

/// The bit pattern of the negated double. Negation is exact: it only
/// flips the sign bit.
pub open spec fn neg_bits(b: u64) -> u64 {
    b ^ SIGN_MASK
}

/// The bit pattern of the magnitude of the encoded double. For finite
/// doubles, comparing these masked patterns as unsigned integers orders
/// the doubles by absolute value.
pub open spec fn abs_bits(b: u64) -> u64 {
    b & ABS_MASK
}

/// Whether the bit pattern encodes a zero (either `+0.0` or `-0.0`),
/// exactly when the encoded double compares equal to `0.0`.
pub open spec fn is_zero_bits(b: u64) -> bool {
    abs_bits(b) == 0
}

/// Whether the bit pattern encodes a finite double: the exponent field
/// is not all ones, which would mean an infinity or a NaN.
pub open spec fn is_finite_bits(b: u64) -> bool {
    (b & EXP_MASK) != EXP_MASK
}

/// The bit pattern of the round-to-nearest, ties-to-even IEEE-754
/// binary64 sum of the two encoded doubles. The sum is a pure function
/// of the two bit patterns.
pub uninterp spec fn add_bits(a: u64, b: u64) -> u64;

/// Negation only flips the sign bit, so it is an involution and keeps
/// the magnitude, the zero test and the finiteness of the pattern.
pub proof fn lemma_neg_bits_props(b: u64)
    ensures
        neg_bits(neg_bits(b)) == b,
        abs_bits(neg_bits(b)) == abs_bits(b),
        is_finite_bits(neg_bits(b)) == is_finite_bits(b),
{
    assert((b ^ 0x8000_0000_0000_0000) ^ 0x8000_0000_0000_0000 == b) by (bit_vector);
    assert((b ^ 0x8000_0000_0000_0000) & 0x7fff_ffff_ffff_ffff == b & 0x7fff_ffff_ffff_ffff)
        by (bit_vector);
    assert((b ^ 0x8000_0000_0000_0000) & 0x7ff0_0000_0000_0000 == b & 0x7ff0_0000_0000_0000)
        by (bit_vector);
}

/// The bit pattern of the IEEE-754 binary64 difference of the two
/// encoded doubles; by the standard, subtraction is addition of the
/// exactly negated second operand.
pub open spec fn sub_bits(a: u64, b: u64) -> u64 {
    add_bits(a, neg_bits(b))
}

/// Negation of a double, as an operation on its bit pattern.
pub fn negate_bits(b: u64) -> (r: u64)
    ensures
        r == neg_bits(b),
{
    b ^ SIGN_MASK
}

/// Magnitude of a double, as an operation on its bit pattern.
pub fn magnitude_bits(b: u64) -> (r: u64)
    ensures
        r == abs_bits(b),
{
    b & ABS_MASK
}

/// Whether the bit pattern encodes a nonzero double.
pub fn nonzero_bits(b: u64) -> (r: bool)
    ensures
        r == !is_zero_bits(b),
{
    (b & ABS_MASK) != 0
}

/// The two zero patterns, `+0.0` and `-0.0`, are each other's
/// negations, are finite, and are the only patterns whose magnitude
/// bits vanish.
pub proof fn lemma_zero_patterns(b: u64)
    ensures
        is_zero_bits(0u64),
        is_zero_bits(neg_bits(0u64)),
        is_finite_bits(0u64),
        is_finite_bits(neg_bits(0u64)),
        neg_bits(0u64) != 0u64,
        is_zero_bits(b) ==> b == 0u64 || b == neg_bits(0u64),
{
    assert(0u64 & 0x7fff_ffff_ffff_ffff == 0) by (bit_vector);
    assert((0u64 ^ 0x8000_0000_0000_0000) & 0x7fff_ffff_ffff_ffff == 0) by (bit_vector);
    assert(0u64 & 0x7ff0_0000_0000_0000 != 0x7ff0_0000_0000_0000) by (bit_vector);
    assert((0u64 ^ 0x8000_0000_0000_0000) & 0x7ff0_0000_0000_0000 != 0x7ff0_0000_0000_0000)
        by (bit_vector);
    assert(0u64 ^ 0x8000_0000_0000_0000 != 0u64) by (bit_vector);
    assert(b & 0x7fff_ffff_ffff_ffff == 0 ==> b == 0u64 || b == (0u64 ^ 0x8000_0000_0000_0000))
        by (bit_vector);
}

/// Relies on rustc_apfloat's `Float::add_r` on `ieee::Double`: software
/// IEEE-754 binary64 addition in round-to-nearest, ties-to-even, whose
/// result depends on the two bit patterns alone. The conditional
/// clauses state the standard's documented special cases, which the
/// crate's `add_r` implements directly: a sum of two finite operands of
/// equal magnitude and opposite sign is `+0.0`; adding a zero to a
/// finite nonzero value returns that value; the sum of two zeros is the
/// first when their signs agree and `+0.0` otherwise.
#[verifier::external_body]
pub(crate) fn fl_add(a: u64, b: u64) -> (r: u64)
    ensures
        r == add_bits(a, b),
        is_finite_bits(a) && b == neg_bits(a) ==> r == 0u64,
        is_finite_bits(a) && !is_zero_bits(a) && is_zero_bits(b) ==> r == a,
        is_finite_bits(b) && !is_zero_bits(b) && is_zero_bits(a) ==> r == b,
        is_zero_bits(a) && is_zero_bits(b) ==> r == (if a == b {
            a
        } else {
            0u64
        }),
{
    let x = rustc_apfloat::ieee::Double::from_bits(a as u128);
    let y = rustc_apfloat::ieee::Double::from_bits(b as u128);
    let s = x.add_r(y, rustc_apfloat::Round::NearestTiesToEven);
    s.value.to_bits() as u64
}

/// IEEE-754 binary64 subtraction, computed as addition of the exact
/// negation of the second operand; the special cases restate the
/// adder's for the negated operand.
pub(crate) fn fl_sub(a: u64, b: u64) -> (r: u64)
    ensures
        r == sub_bits(a, b),
        is_finite_bits(a) && b == a ==> r == 0u64,
        is_finite_bits(a) && !is_zero_bits(a) && is_zero_bits(b) ==> r == a,
        is_finite_bits(b) && !is_zero_bits(b) && is_zero_bits(a) ==> r == neg_bits(b),
        is_zero_bits(a) && is_zero_bits(b) ==> r == (if a == neg_bits(b) {
            a
        } else {
            0u64
        }),
{
    proof {
        lemma_neg_bits_props(b);
    }
    fl_add(a, negate_bits(b))
}

} // verus!
