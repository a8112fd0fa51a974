//! Slicing strings.

use crate::behavior::allocation::{has_room, lemma_alloc_call};
use crate::behavior::building::{
    can_build, filled, lemma_at_the_call, lemma_built, lemma_span_stays,
};
use crate::behavior::characters::{
    char_offset, law_slices_count_characters, lemma_walk, slice_of, starts_clean,
};
use crate::behavior::guards::law_comparisons_order;
use crate::behavior::heap::volatile;
use crate::behavior::instructions::{
    lemma_alu, lemma_alu_imm32, lemma_begin, lemma_call, lemma_jcc, lemma_jmp, lemma_lea,
    lemma_load, lemma_mov, lemma_rep_movsb, lemma_store, lemma_test, lemma_ud2, operated, Run,
};
use crate::behavior::routines::{
    among, frame_head, frame_tail, kept_registers, lemma_frame_head, lemma_frame_tail,
    lemma_saved_stays, saved,
};
use crate::behavior::search::{chars_in, lemma_chars_bounded, lemma_text_kept, text_at};
use crate::behavior::strings::{
    builds_string, holds_string, lemma_lengths, string_safe, with_lengths,
};
use crate::linking::{ends_in, law_call, law_call_traps, law_ends_alone};
use crate::machine::{
    comes_to, flags_of_bits, kept, law_bytes_copied, law_kept_bytes_keep_words, part_of, signed,
    Machine, Outcome, World,
};
use crate::mnemonics::{at_b, at_d};
use crate::runtime::search::{char_to_byte_walk_program, str_substring_program};
use crate::symbols::Symbol;
use crate::x86::{Alu, Hop, Reg, Width};
use crate::x86::Cond::{G, L, S};
use crate::x86::Reg::{R12, R13, R14, R15, R8, R9, Rax, Rbp, Rbx, Rcx, Rdi, Rdx, Rsi, Rsp};
use vstd::prelude::*;

verus! {

/// Whether a slice's bounds lie in a text of `chars` characters.
pub open spec fn in_bounds(start: u64, end: u64, chars: int) -> bool {
    0 <= signed(start) <= signed(end) <= chars
}

/// Whether a string can be sliced.
pub open spec fn can_slice(world: World, m: Machine, blocks: Seq<u64>, text: Seq<u8>) -> bool {
    &&& can_build(world, m, blocks, 80)
    &&& string_safe(world, m, blocks, m.regs[Rcx], 80)
    &&& 16 + text.len() <= u64::MAX / 2
    &&& holds_string(m.mem, m.regs[Rcx], text)
    &&& starts_clean(text)
}

/// The check of the bounds: on to the slice, or to the trap.
proof fn lemma_slice_bounds(run: Run, m: Machine, blocks: Seq<u64>,
    text: Seq<u8>) -> (after: Machine)
    requires
        run.program == str_substring_program(),
        run.start == 0,
        run.before == m,
        can_slice(run.world, m, blocks, text),
    ensures
        ({
            let top = m.regs[Rsp] as int;
            let inside = in_bounds(m.regs[Rdx], m.regs[R8], chars_in(text) as int);
            &&& inside ==> run.at(18, after)
            &&& !inside ==> run.at(76, after)
            &&& after.regs[Rsp] == top - 72
            &&& forall|reg: Reg|
                reg != Rsp && reg != R9 ==> #[trigger] after.regs[reg] == m.regs[reg]
            &&& kept(m.mem, after.mem, top - 64, top)
            &&& saved(after.mem, top, kept_registers(), m.regs)
        }),
{
    let program = run.program;
    let regs = kept_registers();
    let top = m.regs[Rsp] as int;
    let record = m.regs[Rcx];
    let start = m.regs[Rdx];
    let end = m.regs[R8];
    let chars = chars_in(text) as u64;
    lemma_chars_bounded(text);
    assert(program.len() == 87);
    assert(part_of(frame_head(regs, 8), program, 0));
    assert(regs[0] == Rbx && regs[1] == Rbp && regs[2] == Rsi && regs[3] == Rdi && regs[4] == R12
        && regs[5] == R13 && regs[6] == R14 && regs[7] == R15);
    let m1 = lemma_frame_head(run, m, regs, 8);
    law_kept_bytes_keep_words(m.mem, m1.mem, top - 64, top, record as int);
    assert(m1.address(run.world, at_b(Rcx, 0)) == record);
    lemma_load(run, 9, m1, R9, at_b(Rcx, 0));
    let m2 = m1.set(R9, chars);
    lemma_test(run, 10, m2, Rdx);
    let m3 = m2.flagged(flags_of_bits(Width::Quad, start as int));
    lemma_jcc(run, 11, m3, S, false, Hop::Forward(65));
    if signed(start) < 0 {
        m3
    } else {
        lemma_test(run, 12, m3, R8);
        let m4 = m3.flagged(flags_of_bits(Width::Quad, end as int));
        lemma_jcc(run, 13, m4, S, false, Hop::Forward(63));
        if signed(end) < 0 {
            m4
        } else {
            lemma_alu(run, 14, m4, Alu::Cmp, R8, Rdx);
            let m5 = operated(m4, Alu::Cmp, R8, start);
            law_comparisons_order(end, start);
            lemma_jcc(run, 15, m5, L, false, Hop::Forward(61));
            if signed(end) < signed(start) {
                m5
            } else {
                lemma_alu(run, 16, m5, Alu::Cmp, R8, R9);
                let m6 = operated(m5, Alu::Cmp, R8, chars);
                law_comparisons_order(end, chars);
                lemma_jcc(run, 17, m6, G, false, Hop::Forward(59));
                m6
            }
        }
    }
}

/// The two walks: up to the call.
#[verifier::rlimit(40)]
proof fn lemma_slice_call(world: World, m: Machine, blocks: Seq<u64>,
    text: Seq<u8>) -> (calling: Machine)
    requires
        can_slice(world, m, blocks, text),
        in_bounds(m.regs[Rdx], m.regs[R8], chars_in(text) as int),
    ensures
        comes_to(
            world,
            str_substring_program(),
            0,
            m,
            Outcome::Called(Symbol::HeapAlloc, 62, calling),
        ),
        ({
            let top = m.regs[Rsp] as int;
            let a = char_offset(text, m.regs[Rdx] as int);
            let b = char_offset(text, m.regs[R8] as int);
            &&& calling.regs[Rcx] == 16 + (b - a)
            &&& calling.regs[Rbx] == a
            &&& calling.regs[Rbp] == b
            &&& calling.regs[R12] == m.regs[Rdx]
            &&& calling.regs[R13] == m.regs[R8]
            &&& calling.regs[Rsi] == m.regs[Rcx] + 16
            &&& calling.regs[Rsp] == top - 72
            &&& kept(m.mem, calling.mem, top - 80, top)
            &&& saved(calling.mem, top, kept_registers(), m.regs)
            &&& forall|reg: Reg|
                !volatile(reg) && reg != Rsp && !among(reg, kept_registers())
                    ==> #[trigger] calling.regs[reg] == m.regs[reg]
        }),
{
    let program = str_substring_program();
    let run = Run { world, program, start: 0, before: m };
    let regs = kept_registers();
    let top = m.regs[Rsp] as int;
    let record = m.regs[Rcx];
    let start = m.regs[Rdx];
    let end = m.regs[R8];
    let n = text.len() as int;
    assert(program.len() == 87);
    assert(regs[0] == Rbx && regs[1] == Rbp && regs[2] == Rsi && regs[3] == Rdi && regs[4] == R12
        && regs[5] == R13 && regs[6] == R14 && regs[7] == R15);
    let m1 = lemma_slice_bounds(run, m, blocks, text);
    law_slices_count_characters(text, start as int, end as int);
    lemma_text_kept(m.mem, m1.mem, top - 64, top, record);
    lemma_mov(run, 18, m1, R12, Rdx);
    let m2 = m1.set(R12, start);
    lemma_mov(run, 19, m2, R13, R8);
    let m3 = m2.set(R13, end);
    assert(m3.address(world, at_b(Rcx, 8)) == record + 8);
    lemma_load(run, 20, m3, R15, at_b(Rcx, 8));
    let m4 = m3.set(R15, n as u64);
    assert(m4.address(world, at_b(Rcx, 16)) == record + 16);
    lemma_lea(run, 21, m4, Rsi, at_b(Rcx, 16));
    let m5 = m4.set(Rsi, (record + 16) as u64);
    lemma_mov(run, 22, m5, Rax, R12);
    let m6 = m5.set(Rax, start);
    assert(part_of(char_to_byte_walk_program(), program, 23));
    let m7 = lemma_walk(run, 23, m6, text, start as int);
    let a = char_offset(text, start as int);
    lemma_mov(run, 39, m7, Rbx, Rax);
    let m8 = m7.set(Rbx, a as u64);
    lemma_mov(run, 40, m8, Rax, R13);
    let m9 = m8.set(Rax, end);
    assert(part_of(char_to_byte_walk_program(), program, 41));
    let m10 = lemma_walk(run, 41, m9, text, end as int);
    let b = char_offset(text, end as int);
    lemma_mov(run, 57, m10, Rbp, Rax);
    let m11 = m10.set(Rbp, b as u64);
    lemma_mov(run, 58, m11, Rcx, Rbp);
    let m12 = m11.set(Rcx, b as u64);
    assert(m12.regs[Rbx] == a);
    lemma_alu(run, 59, m12, Alu::Sub, Rcx, Rbx);
    let m13 = operated(m12, Alu::Sub, Rcx, a as u64);
    lemma_alu_imm32(run, 60, m13, Alu::Add, Rcx, 16);
    let calling = operated(m13, Alu::Add, Rcx, 16);
    lemma_call(run, 61, calling, Symbol::HeapAlloc);
    assert forall|reg: Reg|
        !volatile(reg) && reg != Rsp && !among(reg, regs) implies #[trigger] calling.regs[reg]
        == m.regs[reg] by {
        assert(m10.regs[reg] == m9.regs[reg]);
        assert(m7.regs[reg] == m6.regs[reg]);
        assert(m1.regs[reg] == m.regs[reg]);
    }
    assert(m10.regs[R12] == m9.regs[R12] && m10.regs[R13] == m9.regs[R13] && m10.regs[Rsi]
        == m9.regs[Rsi] && m10.regs[Rsp] == m9.regs[Rsp]);
    assert(m7.regs[R12] == m6.regs[R12] && m7.regs[R13] == m6.regs[R13] && m7.regs[Rsi]
        == m6.regs[Rsi] && m7.regs[Rsp] == m6.regs[Rsp]);
    calling
}

/// Slicing within the bounds.
#[verifier::rlimit(60)]
proof fn lemma_slice(world: World, m: Machine, blocks: Seq<u64>, text: Seq<u8>) -> (end: (
    Machine,
    Seq<u64>,
))
    requires
        can_slice(world, m, blocks, text),
        in_bounds(m.regs[Rdx], m.regs[R8], chars_in(text) as int),
    ensures
        ({
            let (after, left) = end;
            let program = str_substring_program();
            let slice = slice_of(text, m.regs[Rdx] as int, m.regs[R8] as int);
            let room = has_room(world, m.mem, blocks, 16 + slice.len() as int);
            &&& room ==> builds_string(world, program, m, after, blocks, left, slice, 80)
            &&& !room ==> ends_in(world, program, 0, m, Outcome::Trapped(after))
        }),
{
    let program = str_substring_program();
    let regs = kept_registers();
    let top = m.regs[Rsp] as int;
    let record = m.regs[Rcx];
    let n = text.len() as int;
    assert(program.len() == 87);
    assert(regs[0] == Rbx && regs[1] == Rbp && regs[2] == Rsi && regs[3] == Rdi && regs[4] == R12
        && regs[5] == R13 && regs[6] == R14 && regs[7] == R15);
    let from = m.regs[Rdx];
    let to = m.regs[R8];
    law_slices_count_characters(text, from as int, to as int);
    let a = char_offset(text, from as int);
    let b = char_offset(text, to as int);
    let slice = slice_of(text, from as int, to as int);
    let bytes = b - a;
    let size = 16 + bytes;
    let calling = lemma_slice_call(world, m, blocks, text);
    lemma_at_the_call(world, m, calling, blocks, 80, size);
    let (out, left) = lemma_alloc_call(world, program, 62, calling, blocks);
    if has_room(world, m.mem, blocks, size) {
        let dst = out.regs[Rax];
        let chars = (to - from) as u64;
        lemma_span_stays(world, m, calling, out, blocks, left, size, 80, record as int, 16 + n);
        let run = Run { world, program, start: 62, before: out };
        lemma_begin(run);
        assert(out.regs[Rbx] == a && out.regs[Rbp] == b && out.regs[R12] == from && out.regs[R13]
            == to && out.regs[Rsi] == record + 16);
        lemma_mov(run, 62, out, R14, Rax);
        let n1 = out.set(R14, dst);
        lemma_mov(run, 63, n1, Rcx, R13);
        let n2 = n1.set(Rcx, to);
        lemma_alu(run, 64, n2, Alu::Sub, Rcx, R12);
        let n3 = operated(n2, Alu::Sub, Rcx, from);
        assert(n3.regs[Rcx] == chars);
        assert(n3.address(world, at_d(R14, 0)) == dst);
        lemma_store(run, 65, n3, at_d(R14, 0), Rcx);
        let n4 = n3.store(Width::Quad, dst as int, chars as int);
        lemma_mov(run, 66, n4, Rcx, Rbp);
        let n5 = n4.set(Rcx, b as u64);
        lemma_alu(run, 67, n5, Alu::Sub, Rcx, Rbx);
        let n6 = operated(n5, Alu::Sub, Rcx, a as u64);
        assert(n6.regs[Rcx] == bytes);
        assert(n6.address(world, at_d(R14, 8)) == dst + 8);
        lemma_store(run, 68, n6, at_d(R14, 8), Rcx);
        let n7 = n6.store(Width::Quad, dst + 8, bytes);
        assert(n7.mem == with_lengths(out.mem, dst, chars, bytes as u64));
        lemma_lengths(out.mem, dst, chars, bytes as u64);
        assert(n7.address(world, at_d(R14, 16)) == dst + 16);
        lemma_lea(run, 69, n7, Rdi, at_d(R14, 16));
        let n8 = n7.set(Rdi, (dst + 16) as u64);
        lemma_alu(run, 70, n8, Alu::Add, Rsi, Rbx);
        let n9 = operated(n8, Alu::Add, Rsi, a as u64);
        assert(n9.regs[Rsi] == record + 16 + a);
        lemma_mov(run, 71, n9, Rcx, Rbp);
        let n10 = n9.set(Rcx, b as u64);
        lemma_alu(run, 72, n10, Alu::Sub, Rcx, Rbx);
        let n11 = operated(n10, Alu::Sub, Rcx, a as u64);
        let n12 = lemma_rep_movsb(run, 73, n11);
        law_bytes_copied(n11.mem, record + 16 + a, dst + 16, bytes as nat);
        lemma_mov(run, 74, n12, Rax, R14);
        let n13 = n12.set(Rax, dst);
        lemma_jmp(run, 75, n13, false, Hop::Forward(2));
        assert(kept(n7.mem, n13.mem, dst + 16, dst + size));
        law_kept_bytes_keep_words(n7.mem, n13.mem, dst + 16, dst + size, dst as int);
        law_kept_bytes_keep_words(n7.mem, n13.mem, dst + 16, dst + size, dst + 8);
        assert(text_at(n13.mem, dst) =~= slice) by {
            assert forall|i: int| 0 <= i < bytes implies text_at(n13.mem, dst)[i] == slice[i] by {
                let p = dst + 16 + i;
                let q = record + 16 + (a + i);
                assert((n12.mem)(p) == (n11.mem)(record + 16 + a + (p - (dst + 16))));
                assert((n7.mem)(q) == (out.mem)(q));
                assert((out.mem)(q) == (m.mem)(q));
                assert(text_at(m.mem, record)[a + i] == (m.mem)(q));
            }
        }
        assert(filled(out.mem, n13.mem, dst as int, size, top - 80, top)) by {
            assert forall|p: int| p < dst || dst + size <= p implies #[trigger] (n13.mem)(p) == (
            out.mem)(p) by {
                assert((n7.mem)(p) == (out.mem)(p));
            }
        }
        lemma_built(world, m, calling, out, n13.mem, blocks, left, size, 80);
        assert forall|p: int| top - 64 <= p < top implies #[trigger] (n13.mem)(p) == (calling.mem)(
            p,
        ) by {
            assert((n7.mem)(p) == (out.mem)(p));
            assert((out.mem)(p) == (calling.mem)(p));
        }
        lemma_saved_stays(calling.mem, n13.mem, top, regs, m.regs);
        assert(part_of(frame_tail(regs, 8), program, 77));
        let after = lemma_frame_tail(run, 77, m, n13, regs, 8);
        law_ends_alone(world, program, 62, out, Outcome::Returned(after));
        law_call(
            world,
            program,
            0,
            m,
            Symbol::HeapAlloc,
            62,
            calling,
            out,
            Outcome::Returned(after),
        );
        (after, left)
    } else {
        law_call_traps(world, program, 0, m, Symbol::HeapAlloc, 62, calling, out);
        (out, left)
    }
}

/// `substring` gives a fresh string with the characters from the one index up to the other;
/// bounds that do not lie in the string trap, and so does a slice without room for it.
pub proof fn law_str_substring(world: World, m: Machine, blocks: Seq<u64>, text: Seq<u8>) -> (end: (
    Machine,
    Seq<u64>,
))
    requires
        can_slice(world, m, blocks, text),
    ensures
        ({
            let (after, left) = end;
            let program = str_substring_program();
            let inside = in_bounds(m.regs[Rdx], m.regs[R8], chars_in(text) as int);
            let slice = slice_of(text, m.regs[Rdx] as int, m.regs[R8] as int);
            let room = has_room(world, m.mem, blocks, 16 + slice.len() as int);
            &&& inside && room ==> builds_string(
                world,
                program,
                m,
                after,
                blocks,
                left,
                slice,
                80,
            )
            &&& !inside || !room ==> ends_in(world, program, 0, m, Outcome::Trapped(after))
        }),
{
    if in_bounds(m.regs[Rdx], m.regs[R8], chars_in(text) as int) {
        lemma_slice(world, m, blocks, text)
    } else {
        let program = str_substring_program();
        let run = Run { world, program, start: 0, before: m };
        let m1 = lemma_slice_bounds(run, m, blocks, text);
        assert(program.len() == 87);
        lemma_ud2(run, 76, m1);
        law_ends_alone(world, program, 0, m, Outcome::Trapped(m1));
        (m1, blocks)
    }
}

} // verus!
