//! Reading bit-aligned fields out of byte buffers.
//!
//! A byte buffer is read as one big-endian bitstream: bit 0 is the most
//! significant bit of byte 0, bit 7 its least significant bit, bit 8 the most
//! significant bit of byte 1, and so on. A range of bits is returned as an
//! unsigned integer whose most significant bit is the first bit of the range.
use std::ops::Range;
use vstd::arithmetic::power2::{
    lemma2_to64, lemma_pow2_adds, lemma_pow2_strictly_increases, lemma_pow2_unfold, pow2,
};
use vstd::bits::{lemma_u32_shl_is_mul, lemma_u8_shr_is_div};
use vstd::prelude::*;

verus! {

/// Bit `i` of the bitstream formed by `bytes`, counted from the most
/// significant bit of the first byte.
pub open spec fn bit_of(bytes: Seq<u8>, i: int) -> bool {
    (bytes[i / 8] >> ((7 - i % 8) as u8)) & 1u8 == 1u8
}

/// Bit `i` is the binary digit of byte `i / 8` at place `7 - i % 8`.
pub proof fn lemma_bit_of_digit(bytes: Seq<u8>, i: int)
    requires
        0 <= i < 8 * bytes.len(),
    ensures
        bit_of(bytes, i) == ((bytes[i / 8] as nat / pow2((7 - i % 8) as nat)) % 2 == 1),
{
    let byte = bytes[i / 8];
    let shift = (7 - i % 8) as u8;
    lemma_u8_shr_is_div(byte, shift);
    assert((byte >> shift) & 1u8 == (byte >> shift) % 2) by (bit_vector);
}

/// Bit `i` of `bytes` as the number 0 or 1.
pub open spec fn bit_value(bytes: Seq<u8>, i: int) -> nat {
    if bit_of(bytes, i) {
        1
    } else {
        0
    }
}

/// The bits `start, start + 1, ..., end - 1` of `bytes` read as a binary
/// number, the bit at `start` being the most significant one. An empty range
/// reads as zero.
pub open spec fn range_value(bytes: Seq<u8>, start: int, end: int) -> nat
    decreases end - start,
{
    if end <= start {
        0
    } else {
        2 * range_value(bytes, start, end - 1) + bit_value(bytes, end - 1)
    }
}

/// A range of `n` bits reads as a number below `2^n`.
pub proof fn lemma_range_value_bound(bytes: Seq<u8>, start: int, end: int)
    requires
        start <= end,
    ensures
        range_value(bytes, start, end) < pow2((end - start) as nat),
    decreases end - start,
{
    if end == start {
        lemma2_to64();
    } else {
        lemma_range_value_bound(bytes, start, end - 1);
        lemma_pow2_unfold((end - start) as nat);
    }
}

/// Splitting a range `[start, end)` at any `mid` between its ends and
/// recombining the two parts, the upper one shifted left by the length of the
/// lower one, gives back the value of the whole range.
pub proof fn lemma_range_split(bytes: Seq<u8>, start: int, mid: int, end: int)
    requires
        start <= mid <= end,
    ensures
        range_value(bytes, start, end) == range_value(bytes, start, mid) * pow2((end - mid) as nat)
            + range_value(bytes, mid, end),
    decreases end - mid,
{
    if end == mid {
        lemma2_to64();
    } else {
        lemma_range_split(bytes, start, mid, end - 1);
        lemma_pow2_unfold((end - mid) as nat);
        let hi = range_value(bytes, start, mid);
        let p = pow2((end - 1 - mid) as nat);
        assert(2 * (hi * p) == hi * (2 * p)) by (nonlinear_arith);
    }
}

/// The same law on the `u32` values of a range shorter than 32 bits: the
/// upper part shifted left by the lower part's length, or-ed with the lower
/// part, is the value of the whole range.
pub proof fn lemma_range_split_shift_or(bytes: Seq<u8>, start: int, mid: int, end: int)
    requires
        start <= mid <= end,
        end - start < 32,
    ensures
        range_value(bytes, start, end) == ((range_value(bytes, start, mid) as u32) << ((end
            - mid) as u32)) | (range_value(bytes, mid, end) as u32),
{
    let hi = range_value(bytes, start, mid);
    let lo = range_value(bytes, mid, end);
    let k = (end - mid) as nat;
    lemma_range_split(bytes, start, mid, end);
    lemma_range_value_bound(bytes, start, mid);
    lemma_range_value_bound(bytes, mid, end);
    lemma_range_value_bound(bytes, start, end);
    lemma_pow2_adds((mid - start) as nat, k);
    if end - start < 31 {
        lemma_pow2_strictly_increases((end - start) as nat, 31);
    }
    lemma2_to64();
    assert(hi * pow2(k) < pow2(k) * pow2((mid - start) as nat)) by (nonlinear_arith)
        requires
            hi < pow2((mid - start) as nat),
            pow2(k) > 0,
    ;
    let x = hi as u32;
    let y = lo as u32;
    let ku = k as u32;
    lemma_u32_shl_is_mul(x, ku);
    lemma_u32_shl_is_mul(1u32, ku);
    assert((x << ku) | y == (x << ku) + y) by (bit_vector)
        requires
            ku < 32,
            y < (1u32 << ku),
    ;
}

/// Bit-addressed reads over a container of bytes.
pub trait BitRange {
    /// The bytes that the container holds, in order.
    spec fn byte_seq(&self) -> Seq<u8>;

    /// Takes a range and converts the bits in that range into a `u32`, the
    /// first bit of the range becoming the most significant bit of the result.
    fn get_bit_range(&self, range: Range<u32>) -> (r: u32)
        requires
            range.start <= range.end,
            range.end / 8 <= self.byte_seq().len(),
            range.start < range.end ==> range.end <= 8 * self.byte_seq().len(),
            range.end - range.start < 32,
        ensures
            r == range_value(self.byte_seq(), range.start as int, range.end as int),
            range.start == range.end ==> r == 0,
    ;

    /// Takes an index and gets the bit at that index.
    fn get_bit(&self, bit: u32) -> (r: bool)
        requires
            bit / 8 < self.byte_seq().len(),
        ensures
            r == bit_of(self.byte_seq(), bit as int),
    ;
}

/// Reads the bits `range.start .. range.end` of `bytes` as a number, the first
/// bit of the range becoming the most significant bit of the result.
pub fn get_bit_range(bytes: &[u8], range: Range<u32>) -> (r: u32)
    requires
        range.start <= range.end,
        range.end / 8 <= bytes@.len(),
        range.start < range.end ==> range.end <= 8 * bytes@.len(),
        range.end - range.start < 32,
    ensures
        r == range_value(bytes@, range.start as int, range.end as int),
        range.start == range.end ==> r == 0,
{
    let start_bit: u32 = range.start;
    let end_bit: u32 = range.end;
    let mut result: u32 = 0;
    let mut i: u32 = start_bit;
    while i < end_bit
        invariant
            start_bit <= i <= end_bit,
            end_bit - start_bit < 32,
            start_bit < end_bit ==> end_bit <= 8 * bytes@.len(),
            result == range_value(bytes@, start_bit as int, i as int),
        decreases end_bit - i,
    {
        let bit: bool = get_bit(bytes, i);
        proof {
            lemma_range_value_bound(bytes@, start_bit as int, i as int);
            if i - start_bit < 31 {
                lemma_pow2_strictly_increases((i - start_bit) as nat, 31);
            }
            lemma2_to64();
        }
        result = 2 * result + if bit {
            1
        } else {
            0
        };
        i = i + 1;
    }
    result
}

/// Reads bit `bit` of `bytes`, counted from the most significant bit of the
/// first byte.
pub fn get_bit(bytes: &[u8], bit: u32) -> (r: bool)
    requires
        bit / 8 < bytes@.len(),
    ensures
        r == bit_of(bytes@, bit as int),
{
    let byte: u8 = bytes[(bit / 8) as usize];
    let shift: u8 = (7 - bit % 8) as u8;
    (byte >> shift) & 1u8 == 1u8
}

impl BitRange for [u8] {
    open spec fn byte_seq(&self) -> Seq<u8> {
        self@
    }

    fn get_bit_range(&self, range: Range<u32>) -> (r: u32) {
        get_bit_range(self, range)
    }

    fn get_bit(&self, bit: u32) -> (r: bool) {
        get_bit(self, bit)
    }
}

} // verus!
