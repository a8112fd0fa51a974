//! Little-endian integers and byte buffers.

use vstd::arithmetic::div_mod::{lemma_hoist_over_denominator, lemma_mod_multiples_vanish};
use vstd::prelude::*;

verus! {

/// The low byte of `value`, two's complement for a negative one.
pub open spec fn low_byte(value: int) -> u8 {
    (value % 256) as u8
}

/// The two little-endian bytes of `value` modulo 2^16.
pub open spec fn le16(value: int) -> Seq<u8> {
    seq![low_byte(value), low_byte(value / 256)]
}

/// The four little-endian bytes of `value` modulo 2^32.
pub open spec fn le32(value: int) -> Seq<u8> {
    seq![
        low_byte(value),
        low_byte(value / 0x100),
        low_byte(value / 0x1_0000),
        low_byte(value / 0x100_0000),
    ]
}

/// The eight little-endian bytes of `value` modulo 2^64.
pub open spec fn le64(value: int) -> Seq<u8> {
    le32(value) + le32(value / 0x1_0000_0000)
}

/// `count` zero bytes.
pub open spec fn zeros(count: nat) -> Seq<u8> {
    Seq::new(count, |i: int| 0u8)
}

/// The unsigned value of the two little-endian bytes of `bytes` at `at`.
pub open spec fn read_le16(bytes: Seq<u8>, at: int) -> int {
    bytes[at] + 0x100 * bytes[at + 1]
}

/// The unsigned value of the four little-endian bytes of `bytes` at `at`.
pub open spec fn read_le32(bytes: Seq<u8>, at: int) -> int {
    bytes[at] + 0x100 * bytes[at + 1] + 0x1_0000 * bytes[at + 2] + 0x100_0000 * bytes[at + 3]
}

/// Reading back a 16-bit little-endian field gives what was written.
pub proof fn law_le16_reads_back(value: int)
    requires
        0 <= value < 0x1_0000,
    ensures
        read_le16(le16(value), 0) == value,
{
}

/// Reading back a 32-bit little-endian field gives what was written.
pub proof fn law_le32_reads_back(value: int)
    requires
        0 <= value < 0x1_0000_0000,
    ensures
        read_le32(le32(value), 0) == value,
{
}

/// Two values with the same four little-endian bytes agree modulo 2^32, so a
/// signed displacement in range is recovered from its field.
pub proof fn law_le32_signed_reads_back(value: int)
    requires
        -0x8000_0000 <= value < 0x8000_0000,
    ensures
        read_le32(le32(value), 0) == if value < 0 {
            value + 0x1_0000_0000
        } else {
            value
        },
{
}

proof fn lemma_low_byte_periodic(value: int, turns: int)
    ensures
        low_byte(value + turns * 256) == low_byte(value),
{
    lemma_mod_multiples_vanish(turns, value, 256);
}

/// Only the residue modulo 2^32 decides the four bytes.
pub proof fn lemma_le32_periodic(value: int, turns: int)
    ensures
        le32(value + turns * 0x1_0000_0000) == le32(value),
{
    lemma_low_byte_periodic(value, turns * 0x100_0000);
    lemma_hoist_over_denominator(value, turns * 0x100_0000, 0x100);
    lemma_low_byte_periodic(value / 0x100, turns * 0x1_0000);
    lemma_hoist_over_denominator(value, turns * 0x1_0000, 0x1_0000);
    lemma_low_byte_periodic(value / 0x1_0000, turns * 0x100);
    lemma_hoist_over_denominator(value, turns * 0x100, 0x100_0000);
    lemma_low_byte_periodic(value / 0x100_0000, turns);
}

/// Appends the byte that holds `value` modulo 2^8.
pub fn push_i8(bytes: &mut Vec<u8>, value: i8)
    ensures
        final(bytes)@ == old(bytes)@.push(low_byte(value as int)),
{
    let byte: u8 = if value >= 0 {
        value as u8
    } else {
        (value as i16 + 256) as u8
    };
    bytes.push(byte);
}

/// Appends `value` as two little-endian bytes.
pub fn push_u16(bytes: &mut Vec<u8>, value: u16)
    ensures
        final(bytes)@ == old(bytes)@ + le16(value as int),
{
    bytes.push((value % 256) as u8);
    bytes.push((value / 256) as u8);
}

/// Appends `value` as four little-endian bytes.
pub fn push_u32(bytes: &mut Vec<u8>, value: u32)
    ensures
        final(bytes)@ == old(bytes)@ + le32(value as int),
{
    bytes.push((value % 256) as u8);
    bytes.push(((value / 0x100) % 256) as u8);
    bytes.push(((value / 0x1_0000) % 256) as u8);
    bytes.push((value / 0x100_0000) as u8);
}

/// Appends `value` as four little-endian bytes, two's complement.
pub fn push_i32(bytes: &mut Vec<u8>, value: i32)
    ensures
        final(bytes)@ == old(bytes)@ + le32(value as int),
{
    let word: u32 = if value >= 0 {
        value as u32
    } else {
        (value as i64 + 0x1_0000_0000) as u32
    };
    proof {
        lemma_le32_periodic(value as int, 1);
        lemma_le32_periodic(value as int, 0);
    }
    push_u32(bytes, word);
}

/// Appends `value` as eight little-endian bytes, two's complement.
pub fn push_i64(bytes: &mut Vec<u8>, value: i64)
    ensures
        final(bytes)@ == old(bytes)@ + le64(value as int),
{
    let word: u64 = if value >= 0 {
        value as u64
    } else {
        (value as i128 + 0x1_0000_0000_0000_0000) as u64
    };
    let low: u32 = (word % 0x1_0000_0000) as u32;
    let high: u32 = (word / 0x1_0000_0000) as u32;
    proof {
        let turn: int = if value >= 0 {
            0
        } else {
            1
        };
        lemma_le32_periodic(low as int, high as int - turn * 0x1_0000_0000);
        assert(value as int / 0x1_0000_0000 == high as int - turn * 0x1_0000_0000);
        lemma_le32_periodic(high as int, -turn);
    }
    let ghost before = bytes@;
    push_u32(bytes, low);
    push_u32(bytes, high);
    proof {
        assert(bytes@ =~= before + (le32(value as int) + le32(value as int / 0x1_0000_0000)));
    }
}

/// Appends `count` zero bytes.
pub fn push_zeros(bytes: &mut Vec<u8>, count: usize)
    ensures
        final(bytes)@ == old(bytes)@ + zeros(count as nat),
{
    let mut done: usize = 0;
    while done < count
        invariant
            done <= count,
            bytes@ == old(bytes)@ + zeros(done as nat),
        decreases count - done,
    {
        bytes.push(0);
        done += 1;
    }
}

/// Appends every byte of `more`.
pub fn push_all(bytes: &mut Vec<u8>, more: &Vec<u8>)
    ensures
        final(bytes)@ == old(bytes)@ + more@,
{
    bytes.extend_from_slice(more.as_slice());
}

} // verus!
