//! Characters: finding them in the bytes of a string, and reading them.

use crate::behavior::guards::law_comparisons_order;
use crate::behavior::heap::{came_back, returns_with, volatile};
use crate::behavior::instructions::{
    lemma_alu, lemma_and_d, lemma_and_imm_b, lemma_begin, lemma_compare_imm32_d,
    lemma_compare_imm_b, lemma_inc, lemma_jcc, lemma_jmp, lemma_lea, lemma_load, lemma_load_b,
    lemma_mov, lemma_movzx_load, lemma_or_d, lemma_powers, lemma_shl_d, lemma_ud2, lemma_zero,
    operated, Run,
};
use crate::behavior::routines::{among, lemma_restore, lemma_save, restoring, saving};
use crate::behavior::search::{
    bytes_at, chars_in, continues, lemma_chars_bounded, lemma_text_kept, text_apart,
};
use crate::behavior::strings::{holds_string, law_chars_add_up};
use crate::machine::{
    comes_to, flags_of_difference, kept, part_of, word_span, Machine, Outcome, World,
};
use crate::mnemonics::{at_b, index, index_b};
use crate::runtime::search::{char_to_byte_walk_program, str_char_at_program};
use crate::x86::{Alu, Hop, Reg, Width};
use crate::x86::Cond::{Ae, B, Ge, Ne};
use crate::x86::Reg::{R10, R11, R15, R8, R9, Rax, Rcx, Rdx, Rsi, Rsp};
use vstd::prelude::*;

verus! {

// Offsets

/// Whether a text starts with the first byte of a character.
pub open spec fn starts_clean(text: Seq<u8>) -> bool {
    text.len() > 0 ==> !continues(text[0])
}

/// The first byte from `j` on that starts a character, or the end.
pub open spec fn skip(text: Seq<u8>, j: int) -> int
    decreases text.len() - j,
{
    if j < 0 || j >= text.len() || !continues(text[j]) {
        j
    } else {
        skip(text, j + 1)
    }
}

/// The byte at which the `k`-th character starts.
pub open spec fn char_offset(text: Seq<u8>, k: int) -> int
    decreases k,
{
    if k <= 0 {
        0
    } else {
        skip(text, char_offset(text, k - 1) + 1)
    }
}

proof fn lemma_skip(text: Seq<u8>, j: int)
    requires
        0 <= j <= text.len(),
    ensures
        ({
            let end = skip(text, j);
            &&& j <= end <= text.len()
            &&& end < text.len() ==> !continues(text[end])
            &&& chars_in(text.take(end)) == chars_in(text.take(j))
        }),
    decreases text.len() - j,
{
    if j < text.len() && continues(text[j]) {
        lemma_skip(text, j + 1);
        let longer = text.take(j + 1);
        assert(longer.drop_last() =~= text.take(j));
        assert(longer.last() == text[j]);
    }
}

/// The characters before the `k`-th are `k`, and where it starts no character is cut.
pub proof fn law_offsets_count_characters(text: Seq<u8>, k: int)
    requires
        starts_clean(text),
        0 <= k <= chars_in(text),
    ensures
        0 <= char_offset(text, k) <= text.len(),
        char_offset(text, k) < text.len() ==> !continues(text[char_offset(text, k)]),
        chars_in(text.take(char_offset(text, k))) == k,
        k < chars_in(text) ==> char_offset(text, k) < text.len(),
    decreases k,
{
    if k == 0 {
        assert(text.take(0) =~= Seq::empty());
        if chars_in(text) > 0 {
            assert(text.len() > 0);
        }
    } else {
        law_offsets_count_characters(text, k - 1);
        let o = char_offset(text, k - 1);
        let longer = text.take(o + 1);
        assert(longer.drop_last() =~= text.take(o));
        assert(longer.last() == text[o]);
        lemma_skip(text, o + 1);
        let end = skip(text, o + 1);
        if end == text.len() {
            assert(text.take(end) =~= text);
        }
    }
}

/// Later characters start later.
pub proof fn law_offsets_grow(text: Seq<u8>, j: int, k: int)
    requires
        starts_clean(text),
        0 <= j <= k <= chars_in(text),
    ensures
        char_offset(text, j) <= char_offset(text, k),
    decreases k - j,
{
    if j < k {
        law_offsets_grow(text, j, k - 1);
        law_offsets_count_characters(text, k - 1);
        lemma_skip(text, char_offset(text, k - 1) + 1);
    }
}

/// The text between two characters.
pub open spec fn slice_of(text: Seq<u8>, start: int, end: int) -> Seq<u8> {
    text.subrange(char_offset(text, start), char_offset(text, end))
}

/// A slice has as many characters as its bounds say.
pub proof fn law_slices_count_characters(text: Seq<u8>, start: int, end: int)
    requires
        starts_clean(text),
        0 <= start <= end <= chars_in(text),
    ensures
        0 <= char_offset(text, start) <= char_offset(text, end) <= text.len(),
        chars_in(slice_of(text, start, end)) == end - start,
{
    law_offsets_grow(text, start, end);
    law_offsets_count_characters(text, start);
    law_offsets_count_characters(text, end);
    let a = char_offset(text, start);
    let b = char_offset(text, end);
    assert(text.take(b) =~= text.take(a) + text.subrange(a, b));
    law_chars_add_up(text.take(a), text.subrange(a, b));
}

// The walk

/// The registers that the walk changes.
pub open spec fn walked(reg: Reg) -> bool {
    reg == Rax || reg == Rcx || reg == Rdx || reg == R9
}

/// Whether the walk finds a text where it looks for one.
pub open spec fn walks_on(m: Machine, text: Seq<u8>) -> bool {
    &&& m.regs[R15] == text.len()
    &&& text.len() <= i64::MAX
    &&& m.regs[Rsi] + text.len() < word_span()
    &&& bytes_at(m.mem, m.regs[Rsi] as int, text.len() as int) == text
}

/// Over the bytes that continue a character.
proof fn lemma_skip_from(run: Run, pc: int, m0: Machine, m: Machine, text: Seq<u8>,
    j: int) -> (after:
    Machine)
    requires
        part_of(char_to_byte_walk_program(), run.program, pc),
        run.at(pc + 6, m),
        walks_on(m0, text),
        m.mem == m0.mem,
        m.regs[Rax] == j,
        0 <= j <= text.len(),
        forall|reg: Reg|
            reg != Rax && reg != Rdx ==> #[trigger] m.regs[reg] == m0.regs[reg],
    ensures
        run.at(pc + 14, after),
        after.mem == m0.mem,
        after.regs[Rax] == skip(text, j),
        forall|reg: Reg|
            reg != Rax && reg != Rdx ==> #[trigger] after.regs[reg] == m0.regs[reg],
    decreases text.len() - j,
{
    let part = char_to_byte_walk_program();
    let data = m0.regs[Rsi];
    let n = m0.regs[R15];
    assert(part.len() == 16);
    assert(run.program[pc + 6] == part[6]);
    assert(run.program[pc + 7] == part[7]);
    assert(m.regs[R15] == n && m.regs[Rsi] == data);
    lemma_alu(run, pc + 6, m, Alu::Cmp, Rax, R15);
    let m1 = operated(m, Alu::Cmp, Rax, n);
    law_comparisons_order(j as u64, n);
    lemma_jcc(run, pc + 7, m1, Ge, false, Hop::Forward(7));
    if j >= n {
        m1
    } else {
        assert(run.program[pc + 8] == part[8]);
        assert(run.program[pc + 9] == part[9]);
        assert(run.program[pc + 10] == part[10]);
        assert(run.program[pc + 11] == part[11]);
        assert(m1.address(run.world, index(Rsi, Rax)) == data + j);
        let byte = (m0.mem)(data + j);
        assert(bytes_at(m0.mem, data as int, text.len() as int)[j] == byte);
        let m2 = lemma_load_b(run, pc + 8, m1, Rdx, index(Rsi, Rax));
        let m3 = lemma_and_imm_b(run, pc + 9, m2, Rdx, 0xC0);
        let masked = byte & 0xC0;
        lemma_compare_imm_b(run, pc + 10, m3, Rdx, 0x80);
        let m4 = m3.flagged(flags_of_difference(Width::Byte, masked as int, 0x80));
        assert(m4.flags.zero == continues(byte));
        lemma_jcc(run, pc + 11, m4, Ne, false, Hop::Forward(3));
        if continues(byte) {
            assert(run.program[pc + 12] == part[12]);
            assert(run.program[pc + 13] == part[13]);
            let m5 = lemma_inc(run, pc + 12, m4, Rax);
            lemma_jmp(run, pc + 13, m5, false, Hop::Back(7));
            lemma_skip_from(run, pc, m0, m5, text, j + 1)
        } else {
            m4
        }
    }
}

/// Over whole characters, after `c` of them.
proof fn lemma_walk_from(
    run: Run,
    pc: int,
    m0: Machine,
    m: Machine,
    text: Seq<u8>,
    k: int,
    c: int,
) -> (after: Machine)
    requires
        part_of(char_to_byte_walk_program(), run.program, pc),
        run.at(pc + 3, m),
        walks_on(m0, text),
        starts_clean(text),
        0 <= c <= k <= chars_in(text),
        m.mem == m0.mem,
        m.regs[Rax] == char_offset(text, c),
        m.regs[Rcx] == c,
        m.regs[R9] == k,
        forall|reg: Reg| !walked(reg) ==> #[trigger] m.regs[reg] == m0.regs[reg],
    ensures
        run.at(pc + 16, after),
        after.mem == m0.mem,
        after.regs[Rax] == char_offset(text, k),
        forall|reg: Reg| !walked(reg) ==> #[trigger] after.regs[reg] == m0.regs[reg],
    decreases k - c,
{
    let part = char_to_byte_walk_program();
    assert(part.len() == 16);
    assert(run.program[pc + 3] == part[3]);
    assert(run.program[pc + 4] == part[4]);
    lemma_chars_bounded(text);
    lemma_alu(run, pc + 3, m, Alu::Cmp, Rcx, R9);
    let m1 = operated(m, Alu::Cmp, Rcx, k as u64);
    law_comparisons_order(c as u64, k as u64);
    lemma_jcc(run, pc + 4, m1, Ge, false, Hop::Forward(12));
    if c == k {
        m1
    } else {
        assert(run.program[pc + 5] == part[5]);
        assert(run.program[pc + 14] == part[14]);
        assert(run.program[pc + 15] == part[15]);
        law_offsets_count_characters(text, c);
        let o = char_offset(text, c);
        let m2 = lemma_inc(run, pc + 5, m1, Rax);
        assert(m2.regs[Rsi] == m0.regs[Rsi] && m2.regs[R15] == m0.regs[R15]);
        let m3 = lemma_skip_from(run, pc, m2, m2, text, o + 1);
        let m4 = lemma_inc(run, pc + 14, m3, Rcx);
        lemma_jmp(run, pc + 15, m4, false, Hop::Back(12));
        lemma_walk_from(run, pc, m0, m4, text, k, c + 1)
    }
}

/// The walk leaves the byte at which a character starts.
pub proof fn lemma_walk(run: Run, pc: int, m: Machine, text: Seq<u8>, k: int) -> (after: Machine)
    requires
        part_of(char_to_byte_walk_program(), run.program, pc),
        run.at(pc, m),
        walks_on(m, text),
        starts_clean(text),
        0 <= k <= chars_in(text),
        m.regs[Rax] == k,
    ensures
        run.at(pc + 16, after),
        after.mem == m.mem,
        after.regs[Rax] == char_offset(text, k),
        forall|reg: Reg| !walked(reg) ==> #[trigger] after.regs[reg] == m.regs[reg],
{
    let part = char_to_byte_walk_program();
    assert(part.len() == 16);
    assert(run.program[pc] == part[0]);
    assert(run.program[pc + 1] == part[1]);
    assert(run.program[pc + 2] == part[2]);
    lemma_mov(run, pc, m, R9, Rax);
    let m1 = m.set(R9, k as u64);
    let m2 = lemma_zero(run, pc + 1, m1, Rax);
    let m3 = lemma_zero(run, pc + 2, m2, Rcx);
    lemma_walk_from(run, pc, m, m3, text, k, 0)
}

// Reading a character

/// How many bytes a character has, by its first.
pub open spec fn width_of_lead(lead: u8) -> int {
    if lead < 0x80 {
        1
    } else if lead < 0xE0 {
        2
    } else if lead < 0xF0 {
        3
    } else {
        4
    }
}

/// The code point of the character that starts at byte `o`: the low bits of its first byte,
/// and six bits of each that continues it.
pub open spec fn code_point(text: Seq<u8>, o: int) -> int {
    let lead = text[o] as int;
    if lead < 0x80 {
        lead
    } else if lead < 0xE0 {
        lead % 32 * 64 + text[o + 1] % 64
    } else if lead < 0xF0 {
        lead % 16 * 4096 + text[o + 1] % 64 * 64 + text[o + 2] % 64
    } else {
        lead % 8 * 262144 + text[o + 1] % 64 * 4096 + text[o + 2] % 64 * 64 + text[o + 3] % 64
    }
}

/// The low bits of a number.
pub proof fn lemma_low_bits(x: u64)
    ensures
        x & 7 == x % 8,
        x & 15 == x % 16,
        x & 31 == x % 32,
        x & 63 == x % 64,
{
    assert(x & 7 == x % 8 && x & 15 == x % 16 && x & 31 == x % 32 && x & 63 == x % 64)
        by (bit_vector);
}

proof fn lemma_bits_of_two(a: u64, b: u64)
    requires
        a < 256,
        b < 256,
    ensures
        a & 31 == a % 32,
        b & 63 == b % 64,
        ((a % 32 * 64) as u64) | (b % 64) == a % 32 * 64 + b % 64,
{
    lemma_low_bits(a);
    lemma_low_bits(b);
    let x = (a % 32) as u64;
    let y = (b % 64) as u64;
    assert(((x * 64) as u64) | y == x * 64 + y) by (bit_vector)
        requires
            x < 32,
            y < 64,
    ;
}

proof fn lemma_bits_of_three(a: u64, b: u64, c: u64)
    requires
        a < 256,
        b < 256,
        c < 256,
    ensures
        a & 15 == a % 16,
        b & 63 == b % 64,
        c & 63 == c % 64,
        (((a % 16 * 4096) as u64) | ((b % 64 * 64) as u64)) | (c % 64) == a % 16 * 4096 + b % 64
            * 64 + c % 64,
        ((a % 16 * 4096) as u64) | ((b % 64 * 64) as u64) < 0x1_0000,
{
    lemma_low_bits(a);
    lemma_low_bits(b);
    lemma_low_bits(c);
    let x = (a % 16) as u64;
    let y = (b % 64) as u64;
    let z = (c % 64) as u64;
    assert((((x * 4096) as u64) | ((y * 64) as u64)) | z == x * 4096 + y * 64 + z && ((x
        * 4096) as u64) | ((y * 64) as u64) < 0x1_0000) by (bit_vector)
        requires
            x < 16,
            y < 64,
            z < 64,
    ;
}

proof fn lemma_bits_of_four(a: u64, b: u64, c: u64, d: u64)
    requires
        a < 256,
        b < 256,
        c < 256,
        d < 256,
    ensures
        a & 7 == a % 8,
        b & 63 == b % 64,
        c & 63 == c % 64,
        d & 63 == d % 64,
        ({
            let two = ((a % 8 * 262144) as u64) | ((b % 64 * 4096) as u64);
            let three = two | ((c % 64 * 64) as u64);
            &&& two < 0x20_0000
            &&& three < 0x20_0000
            &&& three | (d % 64) == a % 8 * 262144 + b % 64 * 4096 + c % 64 * 64 + d % 64
        }),
{
    lemma_low_bits(a);
    lemma_low_bits(b);
    lemma_low_bits(c);
    lemma_low_bits(d);
    let x = (a % 8) as u64;
    let y = (b % 64) as u64;
    let z = (c % 64) as u64;
    let w = (d % 64) as u64;
    assert(((x * 262144) as u64) | ((y * 4096) as u64) < 0x20_0000 && (((x * 262144) as u64) | ((y
        * 4096) as u64)) | ((z * 64) as u64) < 0x20_0000 && ((((x * 262144) as u64) | ((y
        * 4096) as u64)) | ((z * 64) as u64)) | w == x * 262144 + y * 4096 + z * 64 + w)
        by (bit_vector)
        requires
            x < 8,
            y < 64,
            z < 64,
            w < 64,
    ;
}

/// Whether a comparison of small numbers finds one below the other.
proof fn lemma_small_comparison(a: int, b: int)
    requires
        0 <= a < 0x1_0000_0000,
        0 <= b < 0x1_0000_0000,
    ensures
        flags_of_difference(Width::Long, a, b).holds(B) == (a < b),
        flags_of_difference(Width::Long, a, b).holds(Ae) == (a >= b),
{
}

/// The reading of a character leaves its code point in `r8`.
#[verifier::rlimit(60)]
proof fn lemma_decode(run: Run, m: Machine, text: Seq<u8>, o: int) -> (after: Machine)
    requires
        run.program == str_char_at_program(),
        run.at(25, m),
        m.regs[Rax] == o,
        0 <= o,
        o + width_of_lead(text[o]) <= text.len(),
        m.regs[Rsi] + text.len() < word_span(),
        bytes_at(m.mem, m.regs[Rsi] as int, text.len() as int) == text,
    ensures
        run.at(55, after),
        after.mem == m.mem,
        after.regs[R8] == code_point(text, o),
        forall|reg: Reg|
            reg != R8 && reg != R9 && reg != R10 && reg != R11 ==> #[trigger] after.regs[reg]
                == m.regs[reg],
{
    let data = m.regs[Rsi];
    let lead = text[o];
    let n = text.len() as int;
    assert(run.program.len() == 59);
    assert forall|i: int| 0 <= i < n implies (m.mem)(data + i) == #[trigger] text[i] by {
        assert(bytes_at(m.mem, data as int, n)[i] == (m.mem)(data + i));
    }
    lemma_powers();
    assert(m.address(run.world, index(Rsi, Rax)) == data + o);
    lemma_movzx_load(run, 25, m, R8, index(Rsi, Rax));
    let m1 = m.set(R8, lead as u64);
    lemma_compare_imm32_d(run, 26, m1, R8, 128);
    let m2 = m1.flagged(flags_of_difference(Width::Long, lead as int, 128));
    lemma_small_comparison(lead as int, 128);
    lemma_jcc(run, 27, m2, B, false, Hop::Forward(28));
    if lead < 0x80 {
        m2
    } else {
        let b1 = text[o + 1];
        assert(m2.address(run.world, index_b(Rsi, Rax, 1)) == data + (o + 1));
        lemma_movzx_load(run, 28, m2, R9, index_b(Rsi, Rax, 1));
        let m3 = m2.set(R9, b1 as u64);
        let m4 = lemma_and_d(run, 29, m3, R9, 63);
        lemma_compare_imm32_d(run, 30, m4, R8, 224);
        let m5 = m4.flagged(flags_of_difference(Width::Long, lead as int, 224));
        lemma_small_comparison(lead as int, 224);
        lemma_jcc(run, 31, m5, Ae, false, Hop::Forward(5));
        lemma_bits_of_two(lead as u64, b1 as u64);
        if lead < 0xE0 {
            let m6 = lemma_and_d(run, 32, m5, R8, 31);
            let m7 = lemma_shl_d(run, 33, m6, R8, 6, 64);
            let m8 = lemma_or_d(run, 34, m7, R8, R9);
            lemma_jmp(run, 35, m8, false, Hop::Forward(20));
            m8
        } else {
            let b2 = text[o + 2];
            assert(m5.address(run.world, index_b(Rsi, Rax, 2)) == data + (o + 2));
            lemma_movzx_load(run, 36, m5, R10, index_b(Rsi, Rax, 2));
            let m6 = m5.set(R10, b2 as u64);
            let m7 = lemma_and_d(run, 37, m6, R10, 63);
            lemma_compare_imm32_d(run, 38, m7, R8, 240);
            let m8 = m7.flagged(flags_of_difference(Width::Long, lead as int, 240));
            lemma_small_comparison(lead as int, 240);
            lemma_jcc(run, 39, m8, Ae, false, Hop::Forward(7));
            if lead < 0xF0 {
                lemma_bits_of_three(lead as u64, b1 as u64, b2 as u64);
                let m9 = lemma_and_d(run, 40, m8, R8, 15);
                let m10 = lemma_shl_d(run, 41, m9, R8, 12, 4096);
                let m11 = lemma_shl_d(run, 42, m10, R9, 6, 64);
                let m12 = lemma_or_d(run, 43, m11, R8, R9);
                let m13 = lemma_or_d(run, 44, m12, R8, R10);
                lemma_jmp(run, 45, m13, false, Hop::Forward(10));
                m13
            } else {
                let b3 = text[o + 3];
                lemma_bits_of_four(lead as u64, b1 as u64, b2 as u64, b3 as u64);
                assert(m8.address(run.world, index_b(Rsi, Rax, 3)) == data + (o + 3));
                lemma_movzx_load(run, 46, m8, R11, index_b(Rsi, Rax, 3));
                let m9 = m8.set(R11, b3 as u64);
                let m10 = lemma_and_d(run, 47, m9, R11, 63);
                let m11 = lemma_and_d(run, 48, m10, R8, 7);
                let m12 = lemma_shl_d(run, 49, m11, R8, 18, 262144);
                let m13 = lemma_shl_d(run, 50, m12, R9, 12, 4096);
                let m14 = lemma_shl_d(run, 51, m13, R10, 6, 64);
                let m15 = lemma_or_d(run, 52, m14, R8, R9);
                let m16 = lemma_or_d(run, 53, m15, R8, R10);
                lemma_or_d(run, 54, m16, R8, R11)
            }
        }
    }
}

/// The registers that `char_at` saves.
pub open spec fn char_at_saves() -> Seq<Reg> {
    seq![Rsi, R15]
}

/// `char_at` returns the code point of the character with this index, and traps when there is
/// none, an index below zero among them; either way only the stack's memory changes.
#[verifier::rlimit(40)]
pub proof fn law_str_char_at(world: World, m: Machine, text: Seq<u8>) -> (after: Machine)
    requires
        16 <= m.regs[Rsp],
        text_apart(m.mem, m.regs[Rcx], m.regs[Rsp] - 16, m.regs[Rsp] as int),
        holds_string(m.mem, m.regs[Rcx], text),
        starts_clean(text),
        ({
            let i = m.regs[Rdx] as int;
            let o = char_offset(text, i);
            i < chars_in(text) ==> o + width_of_lead(text[o]) <= text.len()
        }),
    ensures
        ({
            let i = m.regs[Rdx] as int;
            let top = m.regs[Rsp] as int;
            &&& kept(m.mem, after.mem, top - 16, top)
            &&& i < chars_in(text) ==> {
                &&& returns_with(world, str_char_at_program(), m, after)
                &&& came_back(m, after)
                &&& after.regs[Rax] == code_point(text, char_offset(text, i))
            }
            &&& i >= chars_in(text) ==> comes_to(
                world,
                str_char_at_program(),
                0,
                m,
                Outcome::Trapped(after),
            )
        }),
{
    let program = str_char_at_program();
    let run = Run { world, program, start: 0, before: m };
    let regs = char_at_saves();
    let top = m.regs[Rsp] as int;
    let record = m.regs[Rcx];
    let i = m.regs[Rdx];
    let chars = chars_in(text) as u64;
    let n = text.len() as int;
    assert(program.len() == 59);
    assert(part_of(saving(regs), program, 0));
    assert(regs[0] == Rsi && regs[1] == R15);
    lemma_begin(run);
    let m1 = lemma_save(run, 0, m, regs);
    lemma_text_kept(m.mem, m1.mem, top - 16, top, record);
    assert(m1.address(world, at_b(Rcx, 0)) == record);
    lemma_load(run, 2, m1, Rax, at_b(Rcx, 0));
    let m2 = m1.set(Rax, chars);
    lemma_alu(run, 3, m2, Alu::Cmp, Rdx, Rax);
    let m3 = operated(m2, Alu::Cmp, Rdx, chars);
    law_comparisons_order(i, chars);
    lemma_jcc(run, 4, m3, B, true, Hop::Forward(2));
    if i >= chars {
        lemma_ud2(run, 5, m3);
        m3
    } else {
        assert(m3.address(world, at_b(Rcx, 8)) == record + 8);
        lemma_load(run, 6, m3, R15, at_b(Rcx, 8));
        let m4 = m3.set(R15, n as u64);
        assert(m4.address(world, at_b(Rcx, 16)) == record + 16);
        lemma_lea(run, 7, m4, Rsi, at_b(Rcx, 16));
        let m5 = m4.set(Rsi, (record + 16) as u64);
        lemma_mov(run, 8, m5, Rax, Rdx);
        let m6 = m5.set(Rax, i);
        assert(part_of(char_to_byte_walk_program(), program, 9));
        let m7 = lemma_walk(run, 9, m6, text, i as int);
        law_offsets_count_characters(text, i as int);
        let m8 = lemma_decode(run, m7, text, char_offset(text, i as int));
        lemma_mov(run, 55, m8, Rax, R8);
        let m9 = m8.set(Rax, m8.regs[R8]);
        assert(part_of(restoring(regs), program, 56));
        assert forall|reg: Reg|
            !volatile(reg) && reg != Rsp && !among(reg, regs) implies #[trigger] m9.regs[reg]
            == m.regs[reg] by {
            assert(m8.regs[reg] == m7.regs[reg]);
            assert(m7.regs[reg] == m6.regs[reg]);
        }
        let after = lemma_restore(run, 56, m, m9, regs);
        assert(!among(Rax, regs));
        after
    }
}

} // verus!
