//! Writing booleans as strings.

use crate::behavior::allocation::{has_room, lemma_alloc_call};
use crate::behavior::building::{
    can_build, filled, lemma_at_the_call, lemma_built, lemma_span_stays,
};
use crate::behavior::instructions::{
    lemma_alu_imm32, lemma_begin, lemma_call, lemma_jcc, lemma_jmp, lemma_mov, lemma_set_d,
    lemma_store_imm, lemma_store_imm_b, lemma_store_imm_d, lemma_test, operated, Run,
};
use crate::behavior::routines::{
    frame_head, frame_tail, lemma_frame_head, lemma_frame_tail, lemma_saved_stays,
};
use crate::behavior::search::{chars_in, text_at};
use crate::behavior::strings::{builds_string, lemma_lengths, with_lengths};
use crate::behavior::trimming::lemma_ascii_chars;
use crate::linking::{ends_in, law_call, law_call_traps, law_ends_alone};
use crate::machine::{
    flags_of_bits, kept, law_kept_bytes_keep_words, law_number_keeps_bytes, law_number_writes_bytes,
    nth_byte, part_of, with_byte, with_number, word_at, word_span, Machine, Outcome, World,
};
use crate::mnemonics::{at_d, store_imm, store_imm_d};
use crate::runtime::format::str_from_bool_program;
use crate::symbols::Symbol;
use crate::x86::{Alu, Hop, Reg, Width};
use crate::x86::Cond::E;
use crate::x86::Reg::{Rax, Rbx, Rcx, Rsp};
use vstd::prelude::*;

verus! {

/// A boolean in letters.
pub open spec fn truth(word: u64) -> Seq<u8> {
    if word != 0 {
        seq![0x74, 0x72, 0x75, 0x65]
    } else {
        seq![0x66, 0x61, 0x6C, 0x73, 0x65]
    }
}

/// The registers that `str_from_bool` saves.
pub open spec fn bool_saves() -> Seq<Reg> {
    seq![Rbx]
}

proof fn lemma_truth_ascii(word: u64)
    ensures
        chars_in(truth(word)) == truth(word).len(),
{
    lemma_ascii_chars(truth(word));
}

/// The lengths and the first four letters, in a record.
proof fn lemma_four_letters(
    run: Run,
    pc: int,
    m: Machine,
    dst: u64,
    n: i32,
    letters: i32,
    word: u64,
) -> (after: Machine)
    requires
        run.at(pc, m),
        0 <= pc,
        pc + 3 <= run.program.len(),
        run.program[pc] == store_imm(at_d(Rax, 0), n),
        run.program[pc + 1] == store_imm(at_d(Rax, 8), n),
        run.program[pc + 2] == store_imm_d(at_d(Rax, 16), letters),
        m.regs[Rax] == dst,
        dst + 32 < word_span(),
        n == truth(word).len(),
        word != 0 ==> letters == 1702195828,
        word == 0 ==> letters == 1936482662,
    ensures
        run.at(pc + 3, after),
        after.regs == m.regs,
        word_at(after.mem, dst as int) == n,
        word_at(after.mem, dst + 8) == n,
        kept(m.mem, after.mem, dst as int, dst + 20),
        forall|i: int| 0 <= i < 4 ==> #[trigger] (after.mem)(dst + 16 + i) == truth(word)[i],
{
    let chars = n as u64;
    assert(m.address(run.world, at_d(Rax, 0)) == dst);
    lemma_store_imm(run, pc, m, at_d(Rax, 0), n);
    let m1 = m.store(Width::Quad, dst as int, n as int);
    assert(m1.address(run.world, at_d(Rax, 8)) == dst + 8);
    lemma_store_imm(run, pc + 1, m1, at_d(Rax, 8), n);
    let m2 = m1.store(Width::Quad, dst + 8, n as int);
    assert(m2.mem == with_lengths(m.mem, dst, chars, chars));
    lemma_lengths(m.mem, dst, chars, chars);
    assert(m2.address(run.world, at_d(Rax, 16)) == dst + 16);
    lemma_store_imm_d(run, pc + 2, m2, at_d(Rax, 16), letters);
    let after = Machine { mem: with_number(m2.mem, dst + 16, 4, letters as int), ..m2 };
    law_number_keeps_bytes(m2.mem, dst + 16, 4, letters as int);
    law_kept_bytes_keep_words(m2.mem, after.mem, dst + 16, dst + 20, dst as int);
    law_kept_bytes_keep_words(m2.mem, after.mem, dst + 16, dst + 20, dst + 8);
    assert forall|i: int| 0 <= i < 4 implies #[trigger] (after.mem)(dst + 16 + i) == truth(word)[i] by {
        law_number_writes_bytes(m2.mem, dst + 16, 4, letters as int, i as nat);
        reveal_with_fuel(nth_byte, 5);
        assert(i == 0 || i == 1 || i == 2 || i == 3);
    }
    after
}

/// `str_from_bool` gives a fresh string with `true` or `false` in it; without room it traps.
#[verifier::rlimit(40)]
pub proof fn law_str_from_bool(world: World, m: Machine, blocks: Seq<u64>) -> (end: (
    Machine,
    Seq<u64>,
))
    requires
        can_build(world, m, blocks, 48),
    ensures
        ({
            let (after, left) = end;
            let program = str_from_bool_program();
            let text = truth(m.regs[Rcx]);
            let room = has_room(world, m.mem, blocks, 16 + text.len() as int);
            &&& room ==> builds_string(world, program, m, after, blocks, left, text, 48)
            &&& !room ==> ends_in(world, program, 0, m, Outcome::Trapped(after))
        }),
{
    let program = str_from_bool_program();
    let run = Run { world, program, start: 0, before: m };
    let regs = bool_saves();
    let top = m.regs[Rsp] as int;
    let word = m.regs[Rcx];
    let text = truth(word);
    let n = text.len() as u64;
    let size = 16 + n;
    lemma_truth_ascii(word);
    assert(program.len() == 22);
    assert(regs[0] == Rbx);
    assert(part_of(frame_head(regs, 32), program, 0));
    let m1 = lemma_frame_head(run, m, regs, 32);
    lemma_mov(run, 2, m1, Rbx, Rcx);
    let m2 = m1.set(Rbx, word);
    lemma_set_d(run, 3, m2, Rcx, 5);
    let m3 = m2.set(Rcx, 5);
    lemma_test(run, 4, m3, Rbx);
    let m4 = m3.flagged(flags_of_bits(Width::Quad, word as int));
    lemma_jcc(run, 5, m4, E, true, Hop::Forward(2));
    let m5 = if word != 0 {
        lemma_set_d(run, 6, m4, Rcx, 4);
        m4.set(Rcx, 4)
    } else {
        m4
    };
    lemma_alu_imm32(run, 7, m5, Alu::Add, Rcx, 16);
    let calling = operated(m5, Alu::Add, Rcx, 16);
    lemma_call(run, 8, calling, Symbol::HeapAlloc);
    lemma_at_the_call(world, m, calling, blocks, 48, size);
    let (out, left) = lemma_alloc_call(world, program, 9, calling, blocks);
    if has_room(world, m.mem, blocks, size) {
        let dst = out.regs[Rax];
        lemma_span_stays(world, m, calling, out, blocks, left, size, 48, top - 48, 48);
        let run = Run { world, program, start: 9, before: out };
        lemma_begin(run);
        assert(out.regs[Rbx] == word);
        lemma_test(run, 9, out, Rbx);
        let n1 = out.flagged(flags_of_bits(Width::Quad, word as int));
        lemma_jcc(run, 10, n1, E, false, Hop::Forward(5));
        let n4 = if word != 0 {
            let n2 = lemma_four_letters(run, 11, n1, dst, 4, 1702195828, word);
            lemma_jmp(run, 14, n2, false, Hop::Forward(5));
            n2
        } else {
            let n2 = lemma_four_letters(run, 15, n1, dst, 5, 1936482662, word);
            assert(n2.address(world, at_d(Rax, 20)) == dst + 20);
            lemma_store_imm_b(run, 18, n2, at_d(Rax, 20), 101);
            let n3 = Machine { mem: with_byte(n2.mem, dst + 20, 101), ..n2 };
            assert(kept(n2.mem, n3.mem, dst + 20, dst + 21));
            law_kept_bytes_keep_words(n2.mem, n3.mem, dst + 20, dst + 21, dst as int);
            law_kept_bytes_keep_words(n2.mem, n3.mem, dst + 20, dst + 21, dst + 8);
            n3
        };
        assert(text_at(n4.mem, dst) =~= text);
        assert(filled(out.mem, n4.mem, dst as int, size, top - 48, top));
        lemma_built(world, m, calling, out, n4.mem, blocks, left, size, 48);
        assert forall|p: int| top - 8 <= p < top implies #[trigger] (n4.mem)(p) == (calling.mem)(
            p,
        ) by {
            assert((out.mem)(p) == (calling.mem)(p));
        }
        lemma_saved_stays(calling.mem, n4.mem, top, regs, m.regs);
        assert(part_of(frame_tail(regs, 32), program, 19));
        let after = lemma_frame_tail(run, 19, m, n4, regs, 32);
        law_ends_alone(world, program, 9, out, Outcome::Returned(after));
        law_call(
            world,
            program,
            0,
            m,
            Symbol::HeapAlloc,
            9,
            calling,
            out,
            Outcome::Returned(after),
        );
        (after, left)
    } else {
        law_call_traps(world, program, 0, m, Symbol::HeapAlloc, 9, calling, out);
        (out, left)
    }
}

} // verus!
