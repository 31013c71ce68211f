//! Scalar IEEE 754 single-precision arithmetic on `u32` bit patterns.
//!
//! Every arithmetic result is named by an uninterpreted spec function of the
//! operand bit patterns; the executable side calls a software
//! floating-point implementation, so the same operands give the same bits
//! on every machine.  On top of the opaque arithmetic this module defines
//! a concrete, fully verified total order on bit patterns, used to rank
//! similarity scores deterministically.

use vstd::prelude::*;

verus! {

/// Bit pattern of the value 1.0, the norm assumed when no cache is present.
pub const ONE_BITS: u32 = 0x3F80_0000;

/// Bit pattern of the value 0.5, used by the square-root iteration.
pub const HALF_BITS: u32 = 0x3F00_0000;

/// Bit pattern of the value 0.0, the unit of summation.
pub const ZERO_BITS: u32 = 0;

pub uninterp spec fn add_of(a: u32, b: u32) -> u32;

pub uninterp spec fn sub_of(a: u32, b: u32) -> u32;

pub uninterp spec fn mul_of(a: u32, b: u32) -> u32;

pub uninterp spec fn div_of(a: u32, b: u32) -> u32;

pub uninterp spec fn float_of(n: u32) -> u32;

/// Relies on `rustc_apfloat`'s `Add` for `ieee::Single` (IEEE 754 addition,
/// round to nearest even): the result depends on the operand bits alone.
#[verifier::external_body]
pub(crate) fn bits_add(a: u32, b: u32) -> (r: u32)
    ensures
        r == add_of(a, b),
{
    let x = <rustc_apfloat::ieee::Single as rustc_apfloat::Float>::from_bits(a as u128);
    let y = <rustc_apfloat::ieee::Single as rustc_apfloat::Float>::from_bits(b as u128);
    rustc_apfloat::Float::to_bits((x + y).value) as u32
}

/// Relies on `rustc_apfloat`'s `Sub` for `ieee::Single` (IEEE 754
/// subtraction, round to nearest even): the result depends on the operand
/// bits alone.
#[verifier::external_body]
pub(crate) fn bits_sub(a: u32, b: u32) -> (r: u32)
    ensures
        r == sub_of(a, b),
{
    let x = <rustc_apfloat::ieee::Single as rustc_apfloat::Float>::from_bits(a as u128);
    let y = <rustc_apfloat::ieee::Single as rustc_apfloat::Float>::from_bits(b as u128);
    rustc_apfloat::Float::to_bits((x - y).value) as u32
}

/// Relies on `rustc_apfloat`'s `Mul` for `ieee::Single` (IEEE 754
/// multiplication, round to nearest even): the result depends on the
/// operand bits alone.
#[verifier::external_body]
pub(crate) fn bits_mul(a: u32, b: u32) -> (r: u32)
    ensures
        r == mul_of(a, b),
{
    let x = <rustc_apfloat::ieee::Single as rustc_apfloat::Float>::from_bits(a as u128);
    let y = <rustc_apfloat::ieee::Single as rustc_apfloat::Float>::from_bits(b as u128);
    rustc_apfloat::Float::to_bits((x * y).value) as u32
}

/// Relies on `rustc_apfloat`'s `Div` for `ieee::Single` (IEEE 754 division,
/// round to nearest even): the result depends on the operand bits alone.
#[verifier::external_body]
pub(crate) fn bits_div(a: u32, b: u32) -> (r: u32)
    ensures
        r == div_of(a, b),
{
    let x = <rustc_apfloat::ieee::Single as rustc_apfloat::Float>::from_bits(a as u128);
    let y = <rustc_apfloat::ieee::Single as rustc_apfloat::Float>::from_bits(b as u128);
    rustc_apfloat::Float::to_bits((x / y).value) as u32
}

/// Relies on `rustc_apfloat::Float::from_u128` for `ieee::Single` (IEEE 754
/// conversion from an unsigned integer, round to nearest even): the result
/// depends on the argument alone.
#[verifier::external_body]
pub(crate) fn bits_from_count(n: u32) -> (r: u32)
    ensures
        r == float_of(n),
{
    let z = <rustc_apfloat::ieee::Single as rustc_apfloat::Float>::from_u128(n as u128);
    rustc_apfloat::Float::to_bits(z.value) as u32
}

/// Maps a bit pattern to a rank so that the usual order on ranks agrees
/// with the IEEE order on the values the patterns encode (negative values
/// below positive ones, larger magnitudes of negative values lower).  The
/// map is injective, so it also fixes a deterministic total order on the
/// patterns that ordinary comparison leaves unordered.
pub open spec fn rank_of(x: u32) -> u32 {
    if x < 0x8000_0000 {
        (x + 0x8000_0000) as u32
    } else {
        (0xFFFF_FFFF - x) as u32
    }
}

/// The ranking order on score bit patterns, ties broken by row index:
/// `(s1, i1)` beats `(s2, i2)` when its score ranks strictly higher, or the
/// scores are equal and its row index is smaller.
pub open spec fn beats(s1: u32, i1: int, s2: u32, i2: int) -> bool {
    rank_of(s1) > rank_of(s2) || (s1 == s2 && i1 < i2)
}

/// The rank map is injective: equal ranks mean equal bit patterns.
pub proof fn lemma_rank_injective(x: u32, y: u32)
    ensures
        rank_of(x) == rank_of(y) ==> x == y,
{
}

/// On any two candidates with distinct indices, the ranking order goes one
/// way or the other, never both: it is a strict total order.
pub proof fn lemma_beats_total(s1: u32, i1: int, s2: u32, i2: int)
    requires
        i1 != i2,
    ensures
        beats(s1, i1, s2, i2) || beats(s2, i2, s1, i1),
        !(beats(s1, i1, s2, i2) && beats(s2, i2, s1, i1)),
{
}

/// The ranking order is transitive.
pub proof fn lemma_beats_transitive(s1: u32, i1: int, s2: u32, i2: int, s3: u32, i3: int)
    ensures
        beats(s1, i1, s2, i2) && beats(s2, i2, s3, i3) ==> beats(s1, i1, s3, i3),
{
}

/// A beating entry never ranks below the one it beats: down a list
/// sorted by the ranking order, scores are monotonically non-increasing.
pub proof fn lemma_beats_nonincreasing(s1: u32, i1: int, s2: u32, i2: int)
    ensures
        beats(s1, i1, s2, i2) ==> rank_of(s1) >= rank_of(s2),
{
}

/// Compares two scored rows for ranking purposes.
pub fn score_beats(s1: u32, i1: usize, s2: u32, i2: usize) -> (r: bool)
    ensures
        r == beats(s1, i1 as int, s2, i2 as int),
{
    let r1 = if s1 < 0x8000_0000 { s1 + 0x8000_0000 } else { 0xFFFF_FFFF - s1 };
    let r2 = if s2 < 0x8000_0000 { s2 + 0x8000_0000 } else { 0xFFFF_FFFF - s2 };
    r1 > r2 || (s1 == s2 && i1 < i2)
}

} // verus!
