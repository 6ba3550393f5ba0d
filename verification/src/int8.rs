//! Signed bytes that stand for numbers.
//!
//! A byte stands for itself times a scale. Sums of products of bytes take 32 bits,
//! and are brought back to bytes with a scale of their own.

use vstd::prelude::*;
use crate::ieee::{
    byte_of, div32, from_int, mul32, product32, quotient32, single_of_int, to_byte, ONE,
};
use crate::qdq::quantized;

verus! {

/// How an integer inference compares with one in single precision. Fractions are
/// bits of singles.
#[derive(Debug, Clone)]
pub struct Int8InferenceStats {
    /// Largest distance from the reference.
    pub max_abs_error: u32,
    /// Root of the mean square of the distances.
    pub rmse: u32,
    /// Largest distance over the largest value.
    pub relative_error: u32,
    /// Time of the reference in microseconds.
    pub f32_time_us: u64,
    /// Time of the integer inference in microseconds.
    pub i8_time_us: u64,
    /// The first time over the second.
    pub speedup: u32,
    /// Memory of the reference in bytes.
    pub f32_memory_bytes: usize,
    /// Memory of the integer inference in bytes.
    pub i8_memory_bytes: usize,
    /// The first size over the second.
    pub memory_reduction: u32,
}

// ---------------------------------------------------------------------------
// Element by element
// ---------------------------------------------------------------------------

/// Singles as bytes.
pub open spec fn all_quantized(x: Seq<u32>, scale: u32) -> Seq<i8> {
    x.map_values(|v: u32| quantized(v, scale))
}

/// Bring singles to bytes.
pub fn quantize_f32_to_i8(x: &Vec<u32>, scale: u32) -> (r: Vec<i8>)
    ensures
        r@ == all_quantized(x@, scale),
{
    let ghost all = all_quantized(x@, scale);
    let inverse: u32 = div32(ONE, scale);
    let mut r: Vec<i8> = Vec::new();
    let mut i: usize = 0;
    while i < x.len()
        invariant
            i <= x@.len(),
            all == all_quantized(x@, scale),
            inverse == quotient32(ONE, scale),
            r@ == all.take(i as int),
        decreases x@.len() - i,
    {
        r.push(to_byte(mul32(x[i], inverse)));
        i = i + 1;
        assert(r@ =~= all.take(i as int));
    }
    assert(r@ =~= all);
    r
}

/// Bytes as singles.
pub open spec fn all_dequantized(x: Seq<i8>, scale: u32) -> Seq<u32> {
    x.map_values(|v: i8| product32(single_of_int(v as int), scale))
}

/// Bring bytes back to singles.
pub fn dequantize_i8_to_f32(x: &Vec<i8>, scale: u32) -> (r: Vec<u32>)
    ensures
        r@ == all_dequantized(x@, scale),
{
    let ghost all = all_dequantized(x@, scale);
    let mut r: Vec<u32> = Vec::new();
    let mut i: usize = 0;
    while i < x.len()
        invariant
            i <= x@.len(),
            all == all_dequantized(x@, scale),
            r@ == all.take(i as int),
        decreases x@.len() - i,
    {
        r.push(mul32(from_int(x[i] as i64), scale));
        i = i + 1;
        assert(r@ =~= all.take(i as int));
    }
    assert(r@ =~= all);
    r
}

/// Sums of 32 bits as bytes.
pub open spec fn all_requantized(x: Seq<i32>, scale: u32) -> Seq<i8> {
    x.map_values(|v: i32| byte_of(product32(single_of_int(v as int), scale)))
}

/// Bring sums of 32 bits to bytes.
pub fn requantize_i32_to_i8(x: &Vec<i32>, scale: u32) -> (r: Vec<i8>)
    ensures
        r@ == all_requantized(x@, scale),
{
    let ghost all = all_requantized(x@, scale);
    let mut r: Vec<i8> = Vec::new();
    let mut i: usize = 0;
    while i < x.len()
        invariant
            i <= x@.len(),
            all == all_requantized(x@, scale),
            r@ == all.take(i as int),
        decreases x@.len() - i,
    {
        r.push(to_byte(mul32(from_int(x[i] as i64), scale)));
        i = i + 1;
        assert(r@ =~= all.take(i as int));
    }
    assert(r@ =~= all);
    r
}

} // verus!
