//! IEEE-754 binary32 scalars, carried as `u32` bit patterns.
//!
//! The library never computes with floating point itself: every scalar is a
//! bit pattern, and the few arithmetic steps the mesh pipeline needs are
//! delegated to the `rustc_apfloat` software implementation of IEEE-754
//! behind the trusted wrappers below.

use vstd::prelude::*;

verus! {

/// Bit pattern of the IEEE-754 binary32 sum of the two operand bit patterns,
/// rounded to nearest, ties to even.
pub uninterp spec fn sum_bits(a: u32, b: u32) -> u32;

/// Bit pattern of the IEEE-754 binary32 quotient `c / 255`, the normalized
/// form of an 8-bit color channel.
pub uninterp spec fn channel_bits(c: u8) -> u32;

/// Bit pattern of the IEEE-754 binary32 value denoted by a numeric text
/// token, rounded to nearest, or `None` when the token denotes no number.
pub uninterp spec fn float_bits_of(t: Seq<u8>) -> Option<u32>;

/// The bit pattern of 1.0, the alpha component given to every fused color.
pub const UNIT_ALPHA_BITS: u32 = 0x3f80_0000;

/// Relies on `rustc_apfloat::ieee::Single`'s `Add` impl (`add_r` with
/// round-to-nearest-even): the sum depends on the operand bit patterns alone.
#[verifier::external_body]
pub fn add_scalars(a: u32, b: u32) -> (r: u32)
    ensures
        r == sum_bits(a, b),
{
    let x = <rustc_apfloat::ieee::Single as rustc_apfloat::Float>::from_bits(a as u128);
    let y = <rustc_apfloat::ieee::Single as rustc_apfloat::Float>::from_bits(b as u128);
    rustc_apfloat::Float::to_bits((x + y).value) as u32
}

/// Relies on `rustc_apfloat::ieee::Single`'s `Div` impl and `from_u128`:
/// the normalized channel depends on the channel byte alone.
#[verifier::external_body]
pub fn normalize_channel(c: u8) -> (r: u32)
    ensures
        r == channel_bits(c),
{
    let n = <rustc_apfloat::ieee::Single as rustc_apfloat::Float>::from_u128(c as u128).value;
    let d = <rustc_apfloat::ieee::Single as rustc_apfloat::Float>::from_u128(255).value;
    rustc_apfloat::Float::to_bits((n / d).value) as u32
}

/// Relies on `rustc_apfloat::ieee::Single::from_str` (round-to-nearest-even):
/// the parsed value depends on the token bytes alone, and a token that is not
/// a number is rejected.
#[verifier::external_body]
pub fn parse_float_token(t: &Vec<u8>) -> (r: Option<u32>)
    ensures
        r == float_bits_of(t@),
{
    match core::str::from_utf8(t) {
        Ok(s) => match <rustc_apfloat::ieee::Single as core::str::FromStr>::from_str(s) {
            Ok(v) => Some(rustc_apfloat::Float::to_bits(v) as u32),
            Err(_) => None,
        },
        Err(_) => None,
    }
}

} // verus!
