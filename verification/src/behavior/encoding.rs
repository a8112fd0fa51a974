//! Strings of one character.

use crate::behavior::allocation::{has_room, lemma_alloc_call};
use crate::behavior::building::{
    can_build, filled, lemma_at_the_call, lemma_built, lemma_span_stays,
};
use crate::behavior::characters::{code_point, starts_clean, width_of_lead};
use crate::behavior::guards::law_comparisons_order;
use crate::behavior::heap::volatile;
use crate::behavior::instructions::{
    lemma_alu_imm32, lemma_alu_imm8, lemma_and_imm_b, lemma_begin, lemma_call, lemma_jcc, lemma_jmp,
    lemma_lea, lemma_mov, lemma_or_imm_b, lemma_pop, lemma_powers, lemma_push, lemma_set_d,
    lemma_shr, lemma_store, lemma_store_b, lemma_store_imm, operated, Run,
};
use crate::behavior::routines::{
    among, frame_head, frame_tail, lemma_frame_head, lemma_frame_tail, lemma_saved_stays, saved,
};
use crate::behavior::search::{bytes_at, chars_in, continues, text_at};
use crate::behavior::strings::{builds_string, lemma_lengths, with_lengths};
use crate::linking::{ends_in, law_call, law_call_traps, law_ends_alone};
use crate::machine::{
    comes_to, kept, law_kept_bytes_keep_words, law_word_keeps_bytes, law_word_of_bytes,
    law_word_reads_back, part_of, power2, with_byte, word_at, word_span, Machine, Outcome, World,
};
use crate::mnemonics::{alu_imm8_b, at, at_b, at_d, mov, shift, store_b};
use crate::runtime::format::str_from_char_program;
use crate::symbols::Symbol;
use crate::x86::{Alu, Hop, Reg, Shift, Width};
use crate::x86::Cond::{L, Ne};
use crate::x86::Reg::{Rax, Rbx, Rcx, Rdi, Rsi, Rsp};
use vstd::arithmetic::div_mod::{lemma_div_denominator, lemma_fundamental_div_mod};
use vstd::prelude::*;

verus! {

/// The UTF-8 bytes of a code point.
pub open spec fn utf8(cp: int) -> Seq<u8> {
    if cp < 0x80 {
        seq![cp as u8]
    } else if cp < 0x800 {
        seq![(0xC0 + cp / 64) as u8, (0x80 + cp % 64) as u8]
    } else if cp < 0x1_0000 {
        seq![(0xE0 + cp / 4096) as u8, (0x80 + cp / 64 % 64) as u8, (0x80 + cp % 64) as u8]
    } else {
        seq![
            (0xF0 + cp / 262144) as u8,
            (0x80 + cp / 4096 % 64) as u8,
            (0x80 + cp / 64 % 64) as u8,
            (0x80 + cp % 64) as u8,
        ]
    }
}

/// Marking the bits of a byte.
proof fn lemma_marks(x: u8)
    ensures
        x < 32 ==> x | 0xC0 == x + 0xC0,
        x < 16 ==> x | 0xE0 == x + 0xE0,
        x < 8 ==> x | 0xF0 == x + 0xF0,
        x & 0x3F == x % 64,
        x < 64 ==> x | 0x80 == x + 0x80,
        (x & 0xC0 == 0x80) == (0x80 <= x < 0xC0),
{
    assert((x < 32 ==> x | 0xC0 == x + 0xC0) && (x < 16 ==> x | 0xE0 == x + 0xE0) && (x < 8 ==> x
        | 0xF0 == x + 0xF0) && x & 0x3F == x % 64 && (x < 64 ==> x | 0x80 == x + 0x80) && ((x
        & 0xC0 == 0x80) == (0x80 <= x && x < 0xC0))) by (bit_vector);
}

/// A number is put together from its parts of six bits.
proof fn lemma_six_bit_parts(cp: int)
    requires
        0 <= cp,
    ensures
        cp == cp / 64 * 64 + cp % 64,
        cp == cp / 4096 * 4096 + cp / 64 % 64 * 64 + cp % 64,
        cp == cp / 262144 * 262144 + cp / 4096 % 64 * 4096 + cp / 64 % 64 * 64 + cp % 64,
{
    lemma_div_denominator(cp, 64, 64);
    lemma_div_denominator(cp, 4096, 64);
    let high = cp / 64;
    let higher = cp / 4096;
    assert(high / 64 == higher && higher / 64 == cp / 262144);
    lemma_fundamental_div_mod(cp, 64);
    lemma_fundamental_div_mod(high, 64);
    lemma_fundamental_div_mod(higher, 64);
}

/// Characters whose bytes are one leading byte and continuations count once.
proof fn lemma_one_character(text: Seq<u8>)
    requires
        0 < text.len(),
        !continues(text[0]),
        forall|i: int| 0 < i < text.len() ==> continues(#[trigger] text[i]),
    ensures
        chars_in(text) == 1,
    decreases text.len(),
{
    let rest = text.drop_last();
    if text.len() == 1 {
        assert(rest =~= Seq::empty());
        assert(chars_in(rest) == 0);
    } else {
        assert forall|i: int| 0 < i < rest.len() implies continues(#[trigger] rest[i]) by {
            assert(rest[i] == text[i]);
        }
        lemma_one_character(rest);
        assert(continues(text.last()));
    }
}

/// The bytes of a character are one character, and reading it gives its code point back.
pub proof fn law_utf8_reads_back(cp: int)
    requires
        0 <= cp <= 0x10_FFFF,
    ensures
        chars_in(utf8(cp)) == 1,
        starts_clean(utf8(cp)),
        width_of_lead(utf8(cp)[0]) == utf8(cp).len(),
        code_point(utf8(cp), 0) == cp,
{
    let text = utf8(cp);
    lemma_six_bit_parts(cp);
    lemma_marks(text[0]);
    assert forall|i: int| 0 < i < text.len() implies continues(#[trigger] text[i]) by {
        lemma_marks(text[i]);
        assert(0x80 <= text[i] < 0xC0);
    }
    lemma_one_character(text);
}

/// The registers that `str_from_char` saves.
pub open spec fn char_saves() -> Seq<Reg> {
    seq![Rbx, Rsi, Rdi]
}

/// The first byte of a character: the high bits behind a mark.
proof fn lemma_put_lead(
    run: Run,
    pc: int,
    m: Machine,
    amount: u8,
    factor: int,
    mark: u8,
) -> (after: Machine)
    requires
        0 <= pc,
        pc + 4 <= run.program.len(),
        run.program[pc] == mov(Rcx, Rbx),
        run.program[pc + 1] == shift(Shift::Shr, Rcx, amount),
        run.program[pc + 2] == alu_imm8_b(Alu::Or, Rcx, mark),
        run.program[pc + 3] == store_b(at(Rdi), Rcx),
        amount < 64,
        power2(amount as nat) == factor,
        0 < factor,
        ({
            let high = m.regs[Rbx] as int / factor;
            ||| mark == 0xC0 && high < 32
            ||| mark == 0xE0 && high < 16
            ||| mark == 0xF0 && high < 8
        }),
        run.at(pc, m),
    ensures
        run.at(pc + 4, after),
        after.mem == with_byte(
            m.mem,
            m.regs[Rdi] as int,
            (mark + m.regs[Rbx] as int / factor) as u8,
        ),
        forall|reg: Reg| reg != Rcx ==> #[trigger] after.regs[reg] == m.regs[reg],
{
    let cp = m.regs[Rbx];
    let high = cp as int / factor;
    assert(0 <= high) by (nonlinear_arith)
        requires
            high == cp as int / factor,
            0 < factor,
            0 <= cp,
    ;
    lemma_mov(run, pc, m, Rcx, Rbx);
    let m1 = m.set(Rcx, cp);
    let m2 = lemma_shr(run, pc + 1, m1, Rcx, amount, factor);
    assert(m2.regs[Rcx] == high);
    let m3 = lemma_or_imm_b(run, pc + 2, m2, Rcx, mark);
    lemma_marks(high as u8);
    assert(m3.regs[Rcx] % 256 == mark + high);
    assert(m3.address(run.world, at(Rdi)) == m.regs[Rdi]);
    lemma_store_b(run, pc + 3, m3, at(Rdi), Rcx);
    Machine { mem: with_byte(m3.mem, m.regs[Rdi] as int, (mark + high) as u8), ..m3 }
}

/// The last byte of a character: its low six bits.
proof fn lemma_put_last(run: Run, pc: int, m: Machine, j: i8) -> (after: Machine)
    requires
        0 <= pc,
        pc + 4 <= run.program.len(),
        run.program[pc] == mov(Rcx, Rbx),
        run.program[pc + 1] == alu_imm8_b(Alu::And, Rcx, 0x3F),
        run.program[pc + 2] == alu_imm8_b(Alu::Or, Rcx, 0x80),
        run.program[pc + 3] == store_b(at_b(Rdi, j), Rcx),
        0 <= j,
        m.regs[Rdi] + j < word_span(),
        run.at(pc, m),
    ensures
        run.at(pc + 4, after),
        after.mem == with_byte(
            m.mem,
            m.regs[Rdi] + j,
            (0x80 + m.regs[Rbx] as int % 64) as u8,
        ),
        forall|reg: Reg| reg != Rcx ==> #[trigger] after.regs[reg] == m.regs[reg],
{
    let cp = m.regs[Rbx];
    lemma_mov(run, pc, m, Rcx, Rbx);
    let m1 = m.set(Rcx, cp);
    lemma_put_low(run, pc + 1, m1, j)
}

/// A byte in the middle of a character: six bits.
proof fn lemma_put_middle(run: Run, pc: int, m: Machine, amount: u8, factor: int, j: i8) -> (after:
    Machine)
    requires
        0 <= pc,
        pc + 5 <= run.program.len(),
        run.program[pc] == mov(Rcx, Rbx),
        run.program[pc + 1] == shift(Shift::Shr, Rcx, amount),
        run.program[pc + 2] == alu_imm8_b(Alu::And, Rcx, 0x3F),
        run.program[pc + 3] == alu_imm8_b(Alu::Or, Rcx, 0x80),
        run.program[pc + 4] == store_b(at_b(Rdi, j), Rcx),
        amount < 64,
        power2(amount as nat) == factor,
        factor == 64 || factor == 4096,
        0 <= j,
        m.regs[Rdi] + j < word_span(),
        run.at(pc, m),
    ensures
        run.at(pc + 5, after),
        after.mem == with_byte(
            m.mem,
            m.regs[Rdi] + j,
            (0x80 + m.regs[Rbx] as int / factor % 64) as u8,
        ),
        forall|reg: Reg| reg != Rcx ==> #[trigger] after.regs[reg] == m.regs[reg],
{
    let cp = m.regs[Rbx];
    lemma_mov(run, pc, m, Rcx, Rbx);
    let m1 = m.set(Rcx, cp);
    let m2 = lemma_shr(run, pc + 1, m1, Rcx, amount, factor);
    assert(m2.regs[Rcx] == cp as int / factor);
    lemma_put_low(run, pc + 2, m2, j)
}

proof fn lemma_put_low(run: Run, pc: int, m: Machine, j: i8) -> (after: Machine)
    requires
        0 <= pc,
        pc + 3 <= run.program.len(),
        run.program[pc] == alu_imm8_b(Alu::And, Rcx, 0x3F),
        run.program[pc + 1] == alu_imm8_b(Alu::Or, Rcx, 0x80),
        run.program[pc + 2] == store_b(at_b(Rdi, j), Rcx),
        0 <= j,
        m.regs[Rdi] + j < word_span(),
        run.at(pc, m),
    ensures
        run.at(pc + 3, after),
        after.mem == with_byte(
            m.mem,
            m.regs[Rdi] + j,
            (0x80 + m.regs[Rcx] as int % 64) as u8,
        ),
        forall|reg: Reg| reg != Rcx ==> #[trigger] after.regs[reg] == m.regs[reg],
{
    let v = m.regs[Rcx];
    let byte = (v % 256) as u8;
    let m1 = lemma_and_imm_b(run, pc, m, Rcx, 0x3F);
    lemma_marks(byte);
    assert(byte % 64 == v as int % 64);
    let low = (byte % 64) as u8;
    assert(m1.regs[Rcx] % 256 == low);
    let m2 = lemma_or_imm_b(run, pc + 1, m1, Rcx, 0x80);
    lemma_marks(low);
    assert(m2.regs[Rcx] % 256 == low + 0x80);
    assert(m2.address(run.world, at_b(Rdi, j)) == m.regs[Rdi] + j);
    lemma_store_b(run, pc + 2, m2, at_b(Rdi, j), Rcx);
    Machine { mem: with_byte(m2.mem, m.regs[Rdi] + j, (low + 0x80) as u8), ..m2 }
}

/// Whether the bytes behind `a` are a text and no other byte changed.
pub open spec fn wrote(before: spec_fn(int) -> u8, after: spec_fn(int) -> u8, a: int,
    text: Seq<u8>) -> bool {
    &&& bytes_at(after, a, text.len() as int) == text
    &&& kept(before, after, a, a + text.len())
}

/// Encoding the code point in `rbx` behind `rdi`.
#[verifier::rlimit(40)]
proof fn lemma_encode(run: Run, m: Machine) -> (after: Machine)
    requires
        run.program == str_from_char_program(),
        run.at(21, m),
        m.regs[Rbx] <= 0x10_FFFF,
        m.regs[Rsi] == utf8(m.regs[Rbx] as int).len(),
        m.regs[Rdi] + 4 < word_span(),
    ensures
        run.at(70, after),
        wrote(m.mem, after.mem, m.regs[Rdi] as int, utf8(m.regs[Rbx] as int)),
        forall|reg: Reg| reg != Rcx ==> #[trigger] after.regs[reg] == m.regs[reg],
{
    let cp = m.regs[Rbx] as int;
    let a = m.regs[Rdi] as int;
    let text = utf8(cp);
    let n = text.len() as u64;
    assert(run.program.len() == 76);
    lemma_powers();
    lemma_alu_imm8(run, 21, m, Alu::Cmp, Rsi, 1);
    let m1 = operated(m, Alu::Cmp, Rsi, 1);
    law_comparisons_order(n, 1);
    lemma_jcc(run, 22, m1, Ne, false, Hop::Forward(3));
    let after = if n == 1 {
        assert(m1.address(run.world, at(Rdi)) == a);
        lemma_store_b(run, 23, m1, at(Rdi), Rbx);
        let m2 = Machine { mem: with_byte(m1.mem, a, cp as u8), ..m1 };
        lemma_jmp(run, 24, m2, false, Hop::Forward(46));
        m2
    } else {
        lemma_alu_imm8(run, 25, m1, Alu::Cmp, Rsi, 2);
        let m2 = operated(m1, Alu::Cmp, Rsi, 2);
        law_comparisons_order(n, 2);
        lemma_jcc(run, 26, m2, Ne, false, Hop::Forward(10));
        if n == 2 {
            let m3 = lemma_put_lead(run, 27, m2, 6, 64, 0xC0);
            let m4 = lemma_put_last(run, 31, m3, 1);
            lemma_jmp(run, 35, m4, false, Hop::Forward(35));
            m4
        } else {
            lemma_alu_imm8(run, 36, m2, Alu::Cmp, Rsi, 3);
            let m3 = operated(m2, Alu::Cmp, Rsi, 3);
            law_comparisons_order(n, 3);
            lemma_jcc(run, 37, m3, Ne, false, Hop::Forward(15));
            if n == 3 {
                let m4 = lemma_put_lead(run, 38, m3, 12, 4096, 0xE0);
                let m5 = lemma_put_middle(run, 42, m4, 6, 64, 1);
                let m6 = lemma_put_last(run, 47, m5, 2);
                lemma_jmp(run, 51, m6, false, Hop::Forward(19));
                m6
            } else {
                let m4 = lemma_put_lead(run, 52, m3, 18, 262144, 0xF0);
                let m5 = lemma_put_middle(run, 56, m4, 12, 4096, 1);
                let m6 = lemma_put_middle(run, 61, m5, 6, 64, 2);
                lemma_put_last(run, 66, m6, 3)
            }
        }
    };
    assert(bytes_at(after.mem, a, n as int) =~= text);
    after
}

/// The number of bytes: up to the call.
proof fn lemma_char_call(world: World, m: Machine, blocks: Seq<u64>) -> (calling: Machine)
    requires
        can_build(world, m, blocks, 40),
        m.regs[Rcx] <= 0x10_FFFF,
    ensures
        comes_to(
            world,
            str_from_char_program(),
            0,
            m,
            Outcome::Called(Symbol::HeapAlloc, 17, calling),
        ),
        ({
            let top = m.regs[Rsp] as int;
            let n = utf8(m.regs[Rcx] as int).len();
            &&& calling.regs[Rcx] == 16 + n
            &&& calling.regs[Rbx] == m.regs[Rcx]
            &&& calling.regs[Rsi] == n
            &&& calling.regs[Rsp] == top - 32
            &&& kept(m.mem, calling.mem, top - 40, top)
            &&& saved(calling.mem, top, char_saves(), m.regs)
            &&& forall|reg: Reg|
                !volatile(reg) && reg != Rsp && !among(reg, char_saves())
                    ==> #[trigger] calling.regs[reg] == m.regs[reg]
        }),
{
    let program = str_from_char_program();
    let run = Run { world, program, start: 0, before: m };
    let regs = char_saves();
    let cp = m.regs[Rcx];
    let n = utf8(cp as int).len() as u64;
    assert(program.len() == 76);
    assert(part_of(frame_head(regs, 8), program, 0));
    assert(regs[0] == Rbx && regs[1] == Rsi && regs[2] == Rdi);
    let m1 = lemma_frame_head(run, m, regs, 8);
    lemma_mov(run, 4, m1, Rbx, Rcx);
    let m2 = m1.set(Rbx, cp);
    lemma_set_d(run, 5, m2, Rsi, 1);
    let m3 = m2.set(Rsi, 1);
    lemma_alu_imm32(run, 6, m3, Alu::Cmp, Rbx, 128);
    let m4 = operated(m3, Alu::Cmp, Rbx, 128);
    law_comparisons_order(cp, 128);
    lemma_jcc(run, 7, m4, L, false, Hop::Forward(8));
    let m10 = if cp < 0x80 {
        m4
    } else {
        lemma_set_d(run, 8, m4, Rsi, 2);
        let m5 = m4.set(Rsi, 2);
        lemma_alu_imm32(run, 9, m5, Alu::Cmp, Rbx, 2048);
        let m6 = operated(m5, Alu::Cmp, Rbx, 2048);
        law_comparisons_order(cp, 2048);
        lemma_jcc(run, 10, m6, L, false, Hop::Forward(5));
        if cp < 0x800 {
            m6
        } else {
            lemma_set_d(run, 11, m6, Rsi, 3);
            let m7 = m6.set(Rsi, 3);
            lemma_alu_imm32(run, 12, m7, Alu::Cmp, Rbx, 65536);
            let m8 = operated(m7, Alu::Cmp, Rbx, 65536);
            law_comparisons_order(cp, 65536);
            lemma_jcc(run, 13, m8, L, false, Hop::Forward(2));
            if cp < 0x1_0000 {
                m8
            } else {
                lemma_set_d(run, 14, m8, Rsi, 4);
                m8.set(Rsi, 4)
            }
        }
    };
    assert(m10.regs[Rsi] == n);
    assert(m10.address(world, at_d(Rsi, 16)) == 16 + n);
    lemma_lea(run, 15, m10, Rcx, at_d(Rsi, 16));
    let calling = m10.set(Rcx, (16 + n) as u64);
    lemma_call(run, 16, calling, Symbol::HeapAlloc);
    calling
}

/// `str_from_char` gives a fresh string of the one character; without room it traps.
#[verifier::rlimit(40)]
pub proof fn law_str_from_char(world: World, m: Machine, blocks: Seq<u64>) -> (end: (
    Machine,
    Seq<u64>,
))
    requires
        can_build(world, m, blocks, 40),
        m.regs[Rcx] <= 0x10_FFFF,
    ensures
        ({
            let (after, left) = end;
            let program = str_from_char_program();
            let text = utf8(m.regs[Rcx] as int);
            let room = has_room(world, m.mem, blocks, 16 + text.len() as int);
            &&& room ==> builds_string(world, program, m, after, blocks, left, text, 40)
            &&& !room ==> ends_in(world, program, 0, m, Outcome::Trapped(after))
        }),
{
    let program = str_from_char_program();
    let regs = char_saves();
    let cp = m.regs[Rcx];
    let top = m.regs[Rsp] as int;
    let text = utf8(cp as int);
    let n = text.len() as u64;
    let size = 16 + n;
    assert(program.len() == 76);
    assert(regs[0] == Rbx && regs[1] == Rsi && regs[2] == Rdi);
    law_utf8_reads_back(cp as int);
    let calling = lemma_char_call(world, m, blocks);
    lemma_at_the_call(world, m, calling, blocks, 40, size);
    let (out, left) = lemma_alloc_call(world, program, 17, calling, blocks);
    if has_room(world, m.mem, blocks, size) {
        let dst = out.regs[Rax];
        lemma_span_stays(world, m, calling, out, blocks, left, size, 40, top - 40, 40);
        let run = Run { world, program, start: 17, before: out };
        lemma_begin(run);
        assert(out.regs[Rbx] == cp && out.regs[Rsi] == n && out.regs[Rsp] == top - 32);
        assert(out.address(world, at_d(Rax, 0)) == dst);
        lemma_store_imm(run, 17, out, at_d(Rax, 0), 1);
        let n1 = out.store(Width::Quad, dst as int, 1);
        assert(n1.address(world, at_d(Rax, 8)) == dst + 8);
        lemma_store(run, 18, n1, at_d(Rax, 8), Rsi);
        let n2 = n1.store(Width::Quad, dst + 8, n as int);
        assert(n2.mem == with_lengths(out.mem, dst, 1, n));
        lemma_lengths(out.mem, dst, 1, n);
        assert(n2.address(world, at_d(Rax, 16)) == dst + 16);
        lemma_lea(run, 19, n2, Rdi, at_d(Rax, 16));
        let n3 = n2.set(Rdi, (dst + 16) as u64);
        lemma_push(run, 20, n3, Rax);
        let low = (top - 40) as u64;
        let n4 = n3.store(Width::Quad, low as int, dst as int).set(Rsp, low);
        assert forall|p: int| p < low || low + 8 <= p implies #[trigger] (n4.mem)(p) == (n2.mem)(
            p,
        ) by {
            law_word_keeps_bytes(n2.mem, low as int, dst, p);
        }
        law_word_reads_back(n2.mem, low as int, dst);
        let n5 = lemma_encode(run, n4);
        law_kept_bytes_keep_words(n4.mem, n5.mem, dst + 16, dst + size, low as int);
        assert(n5.regs[Rsp] == low);
        lemma_pop(run, 70, n5, Rax);
        let n6 = n5.set(Rsp, (top - 32) as u64).set(Rax, dst);
        law_kept_bytes_keep_words(n4.mem, n6.mem, dst + 16, dst + size, dst as int);
        law_kept_bytes_keep_words(n4.mem, n6.mem, dst + 16, dst + size, dst + 8);
        assert(word_at(n4.mem, dst as int) == 1 && word_at(n4.mem, dst + 8) == n) by {
            law_word_of_bytes(n4.mem, n2.mem, dst as int);
            law_word_of_bytes(n4.mem, n2.mem, dst + 8);
        }
        assert(text_at(n6.mem, dst) == text);
        assert(filled(out.mem, n6.mem, dst as int, size, top - 40, top)) by {
            assert forall|p: int|
                (p < dst || dst + size <= p) && (p < top - 40 || top <= p) implies #[trigger] (
            n6.mem)(p) == (out.mem)(p) by {
                assert((n4.mem)(p) == (n2.mem)(p));
                assert((n2.mem)(p) == (out.mem)(p));
            }
        }
        lemma_built(world, m, calling, out, n6.mem, blocks, left, size, 40);
        assert forall|p: int| top - 24 <= p < top implies #[trigger] (n6.mem)(p) == (calling.mem)(
            p,
        ) by {
            assert((n4.mem)(p) == (n2.mem)(p));
            assert((n2.mem)(p) == (out.mem)(p));
            assert((out.mem)(p) == (calling.mem)(p));
        }
        lemma_saved_stays(calling.mem, n6.mem, top, regs, m.regs);
        assert(part_of(frame_tail(regs, 8), program, 71));
        assert forall|reg: Reg|
            !volatile(reg) && reg != Rsp && !among(reg, regs) implies #[trigger] n6.regs[reg]
            == m.regs[reg] by {
            assert(n5.regs[reg] == n4.regs[reg]);
        }
        let after = lemma_frame_tail(run, 71, m, n6, regs, 8);
        law_ends_alone(world, program, 17, out, Outcome::Returned(after));
        law_call(
            world,
            program,
            0,
            m,
            Symbol::HeapAlloc,
            17,
            calling,
            out,
            Outcome::Returned(after),
        );
        (after, left)
    } else {
        law_call_traps(world, program, 0, m, Symbol::HeapAlloc, 17, calling, out);
        (out, left)
    }
}

} // verus!
