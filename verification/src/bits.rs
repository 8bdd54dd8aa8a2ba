//! Bridges between the masks and shifts of the executable code and the
//! arithmetic of the wire-format model.

use crate::format::{continues, lemma_pow128_values, payload, pow128};
use vstd::prelude::*;

verus! {

/// The two masks of a byte read the payload and the continuation bit.
pub proof fn lemma_byte_parts(byte: u8)
    ensures
        byte & 0x7f == payload(byte),
        (byte & !0x7fu8 == 0) == !continues(byte),
{
    assert(byte & 0x7f == byte % 128) by (bit_vector);
    assert((byte & !0x7fu8 == 0) == (byte < 128)) by (bit_vector);
}

/// OR-ing the payload of the byte at index `n` into a 32-bit accumulator, at
/// its place, adds the payload at its weight and drops what passes bit 31.
pub proof fn lemma_accumulate_u32(acc: u32, byte: u8, shift: usize, n: nat)
    requires
        n < 5,
        shift == 7 * n,
        acc < pow128(n),
    ensures
        acc | (((byte & 0x7f) as u32) << shift) == (acc + payload(byte) * pow128(n))
            % 0x1_0000_0000,
{
    lemma_byte_parts(byte);
    lemma_pow128_values();
    let group = (byte & 0x7f) as u32;
    let weight = 1u32 << shift;
    assert(weight == if shift == 0 {
        0x1u32
    } else if shift == 7 {
        0x80u32
    } else if shift == 14 {
        0x4000u32
    } else if shift == 21 {
        0x20_0000u32
    } else {
        0x1000_0000u32
    }) by (bit_vector)
        requires
            weight == 1u32 << shift,
            shift == 0 || shift == 7 || shift == 14 || shift == 21 || shift == 28,
    ;
    assert(weight == pow128(n));
    assert(acc | (group << shift) == (acc + group * weight) % 0x1_0000_0000) by (bit_vector)
        requires
            shift <= 28,
            weight == 1u32 << shift,
            acc < weight,
            group < 128,
    ;
}

/// One shifted left by seven times `len` is `128^len`, while that fits 64 bits.
pub proof fn lemma_shifted_one(len: usize)
    requires
        len <= 9,
    ensures
        1u64 << (7 * len) as usize == pow128(len as nat),
{
    lemma_pow128_values();
    let shift = (7 * len) as usize;
    let weight = 1u64 << shift;
    assert(weight == if shift == 0 {
        0x1u64
    } else if shift == 7 {
        0x80u64
    } else if shift == 14 {
        0x4000u64
    } else if shift == 21 {
        0x20_0000u64
    } else if shift == 28 {
        0x1000_0000u64
    } else if shift == 35 {
        0x8_0000_0000u64
    } else if shift == 42 {
        0x400_0000_0000u64
    } else if shift == 49 {
        0x2_0000_0000_0000u64
    } else if shift == 56 {
        0x100_0000_0000_0000u64
    } else {
        0x8000_0000_0000_0000u64
    }) by (bit_vector)
        requires
            weight == 1u64 << shift,
            shift == 0 || shift == 7 || shift == 14 || shift == 21 || shift == 28 || shift == 35
                || shift == 42 || shift == 49 || shift == 56 || shift == 63,
    ;
}

/// OR-ing the payload of the byte at index `n` into a 64-bit accumulator, at
/// its place, adds the payload at its weight and drops what passes bit 63.
pub proof fn lemma_accumulate_u64(acc: u64, byte: u8, shift: usize, n: nat)
    requires
        n < 10,
        shift == 7 * n,
        acc < pow128(n),
    ensures
        acc | (((byte & 0x7f) as u64) << shift) == (acc + payload(byte) * pow128(n))
            % 0x1_0000_0000_0000_0000,
{
    lemma_byte_parts(byte);
    lemma_shifted_one(n as usize);
    let group = (byte & 0x7f) as u64;
    let weight = 1u64 << shift;
    assert(acc | (group << shift) == (acc + group * weight) % 0x1_0000_0000_0000_0000)
        by (bit_vector)
        requires
            shift <= 63,
            weight == 1u64 << shift,
            acc < weight,
            group < 128,
    ;
}

/// Masking a 32-bit value with seven ones and shifting it right by seven
/// split off its lowest base-128 digit; setting bit 7 of a digit adds 128.
pub proof fn lemma_split_u32(value: u32)
    ensures
        value & 0x7f == value % 128,
        value >> 7usize == value / 128,
        (value & 0x7f) | (!0x7fu8) as u32 == 128 + value % 128,
{
    assert(value & 0x7f == value % 128) by (bit_vector);
    assert(value >> 7usize == value / 128) by (bit_vector);
    assert((value & 0x7f) | (!0x7fu8) as u32 == 128 + value % 128) by (bit_vector);
}

/// Masking a 64-bit value with seven ones and shifting it right by seven
/// split off its lowest base-128 digit; setting bit 7 of a digit adds 128.
pub proof fn lemma_split_u64(value: u64)
    ensures
        value & 0x7f == value % 128,
        value >> 7usize == value / 128,
        (value & 0x7f) | (!0x7fu8) as u64 == 128 + value % 128,
{
    assert(value & 0x7f == value % 128) by (bit_vector);
    assert(value >> 7usize == value / 128) by (bit_vector);
    assert((value & 0x7f) | (!0x7fu8) as u64 == 128 + value % 128) by (bit_vector);
}

} // verus!
