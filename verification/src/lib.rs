//! The operations on IEEE 754 binary32 and binary64 values that the
//! standard defines exactly, carried out on the bit patterns of the values
//! with integer arithmetic alone: the roundings to an integral value, the
//! fractional part, the conversion of a whole number, the product, the sum,
//! the two-step multiply-add and the square root.
//!
//! A value is handed over as its bits (`u32` or `u64`) and the result comes
//! back the same way.  Every contract is stated over the magnitude of a
//! value counted in units of the smallest positive subnormal, in which each
//! finite value is a whole number.
//!
//! * [`rounding`] and [`precision`] hold the arithmetic of rounding whole
//!   numbers, to a multiple of a step and to a number of digits, which both
//!   widths share.
//! * [`float_32`] and [`float_64`] describe the two formats and hold the
//!   operations on them.
use vstd::prelude::*;

pub mod float_32;
pub mod float_64;
pub mod precision;
pub mod rounding;

verus! {

} // verus!
