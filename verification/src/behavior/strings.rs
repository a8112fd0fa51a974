//! Strings on the heap: what the routines that build them leave.

use crate::behavior::allocation::{has_room, lemma_alloc_call, spans_apart};
use crate::behavior::building::{
    builds, can_build, filled, lemma_at_the_call, lemma_built, lemma_span_stays, span_safe,
};
use crate::behavior::guards::law_comparisons_order;
use crate::behavior::heap::{came_back, volatile};
use crate::behavior::instructions::{
    lemma_alu, lemma_alu_imm32, lemma_and_imm_b, lemma_begin, lemma_call, lemma_compare_imm_b,
    lemma_compare_imm_d, lemma_inc, lemma_jcc, lemma_jmp, lemma_lea, lemma_lea_d, lemma_load,
    lemma_load_b, lemma_mov, lemma_mov_b, lemma_move_d, lemma_movzx_load, lemma_pop, lemma_push,
    lemma_rep_movsb, lemma_store, lemma_store_b, lemma_store_imm_b, lemma_test_b, lemma_zero,
    operated, Run,
};
use crate::behavior::routines::{
    among, frame_head, frame_tail, lemma_frame_head, lemma_frame_tail, lemma_saved_stays, saved,
};
use crate::behavior::search::{bytes_at, chars_in, continues, lemma_chars_bounded, text_at};
use crate::linking::{ends_in, law_call, law_call_traps, law_ends_alone};
use crate::machine::{
    comes_to, flags_of_bits, flags_of_difference, kept, law_bytes_copied, law_kept_bytes_keep_words,
    law_word_keeps_bytes, law_word_keeps_others, law_word_of_bytes, law_word_reads_back, part_of,
    with_byte, with_word, word_at, word_span, Machine, Outcome, World,
};
use crate::mnemonics::{
    alu, alu_imm8_d, at, at_b, at_d, below, call, index_d, jcc, jmp_back, lea, lea_d, load, mov,
    movzx_load, store, store_b, unary,
};
use crate::runtime::strings::{
    str_concat_program, str_lit_program, str_lower_program, str_upper_program, to_cstr_program,
};
use crate::symbols::Symbol;
use crate::x86::{Alu, Hop, Insn, Reg, Unary, Width};
use crate::x86::Cond::{A, Ae, E};
use crate::x86::Reg::{R10, R12, R13, R14, R15, R8, Rax, Rbp, Rbx, Rcx, Rdi, Rdx, Rsi, Rsp};
use vstd::prelude::*;

verus! {

/// Whether a string record holds a text: its bytes, and before them how many characters and
/// how many bytes it has.
pub open spec fn holds_string(mem: spec_fn(int) -> u8, record: u64, text: Seq<u8>) -> bool {
    &&& text_at(mem, record) == text
    &&& word_at(mem, record as int) == chars_in(text)
}

/// The characters of two texts in a row are those of the one and those of the other.
pub proof fn law_chars_add_up(a: Seq<u8>, b: Seq<u8>)
    ensures
        chars_in(a + b) == chars_in(a) + chars_in(b),
    decreases b.len(),
{
    if b.len() == 0 {
        assert(a + b =~= a);
    } else {
        law_chars_add_up(a, b.drop_last());
        assert((a + b).drop_last() =~= a + b.drop_last());
        assert((a + b).last() == b.last());
    }
}

/// Whether a string record is safe to read while a string is built: `depth` bytes below the
/// stack are used for that.
pub open spec fn string_safe(world: World, m: Machine, blocks: Seq<u64>, record: u64,
    depth: int) -> bool {
    span_safe(world, m, blocks, record as int, 16 + word_at(m.mem, record + 8), depth)
}

/// Whether a routine built a string.
pub open spec fn builds_string(
    world: World,
    program: Seq<Insn>,
    m: Machine,
    after: Machine,
    blocks: Seq<u64>,
    left: Seq<u64>,
    text: Seq<u8>,
    depth: int,
) -> bool {
    &&& ends_in(world, program, 0, m, Outcome::Returned(after))
    &&& came_back(m, after)
    &&& builds(
        world,
        m,
        after.mem,
        blocks,
        left,
        16 + text.len() as int,
        after.regs[Rax],
        depth,
    )
    &&& holds_string(after.mem, after.regs[Rax], text)
}

/// A record with its two lengths written.
pub open spec fn with_lengths(mem: spec_fn(int) -> u8, record: u64, chars: u64,
    bytes: u64) -> spec_fn(
    int,
) -> u8 {
    with_word(with_word(mem, record as int, chars), record + 8, bytes)
}

pub proof fn lemma_lengths(mem: spec_fn(int) -> u8, record: u64, chars: u64, bytes: u64)
    ensures
        word_at(with_lengths(mem, record, chars, bytes), record as int) == chars,
        word_at(with_lengths(mem, record, chars, bytes), record + 8) == bytes,
        kept(mem, with_lengths(mem, record, chars, bytes), record as int, record + 16),
{
    let first = with_word(mem, record as int, chars);
    let both = with_lengths(mem, record, chars, bytes);
    law_word_reads_back(mem, record as int, chars);
    law_word_keeps_others(first, record + 8, bytes, record as int);
    law_word_reads_back(first, record + 8, bytes);
    assert forall|p: int| p < record || record + 16 <= p implies #[trigger] both(p) == mem(p) by {
        law_word_keeps_bytes(mem, record as int, chars, p);
        law_word_keeps_bytes(first, record + 8, bytes, p);
    }
}

// Concatenating

/// The registers that `concat` saves.
pub open spec fn concat_saves() -> Seq<Reg> {
    seq![Rsi, Rbx, Rbp, R12, R13, R14, R15, Rdi]
}

/// Whether two strings can be concatenated.
pub open spec fn can_concat(world: World, m: Machine, blocks: Seq<u64>) -> bool {
    let a = m.regs[Rcx];
    let b = m.regs[Rdx];
    &&& can_build(world, m, blocks, 80)
    &&& string_safe(world, m, blocks, a, 80)
    &&& string_safe(world, m, blocks, b, 80)
    &&& 16 + word_at(m.mem, a + 8) + word_at(m.mem, b + 8) <= u64::MAX / 2
}

/// The state at the call of the allocator.
proof fn lemma_concat_call(world: World, m: Machine, blocks: Seq<u64>) -> (calling: Machine)
    requires
        can_concat(world, m, blocks),
    ensures
        comes_to(
            world,
            str_concat_program(),
            0,
            m,
            Outcome::Called(Symbol::HeapAlloc, 19, calling),
        ),
        ({
            let a = m.regs[Rcx];
            let b = m.regs[Rdx];
            let top = m.regs[Rsp] as int;
            &&& calling.regs[Rcx] == 16 + word_at(m.mem, a + 8) + word_at(m.mem, b + 8)
            &&& calling.regs[Rsi] == a
            &&& calling.regs[R15] == b
            &&& calling.regs[Rbx] == word_at(m.mem, a + 8)
            &&& calling.regs[Rbp] == word_at(m.mem, b + 8)
            &&& calling.regs[R12] == word_at(m.mem, a as int)
            &&& calling.regs[R13] == word_at(m.mem, b as int)
            &&& calling.regs[Rsp] == top - 72
            &&& kept(m.mem, calling.mem, top - 80, top)
            &&& saved(calling.mem, top, concat_saves(), m.regs)
            &&& forall|reg: Reg|
                !volatile(reg) && reg != Rsp && !among(reg, concat_saves())
                    ==> #[trigger] calling.regs[reg] == m.regs[reg]
        }),
{
    let program = str_concat_program();
    let run = Run { world, program, start: 0, before: m };
    let regs = concat_saves();
    let a = m.regs[Rcx];
    let b = m.regs[Rdx];
    let top = m.regs[Rsp] as int;
    let la = word_at(m.mem, a + 8);
    let lb = word_at(m.mem, b + 8);
    let ca = word_at(m.mem, a as int);
    let cb = word_at(m.mem, b as int);
    assert(program.len() == 45);
    assert(part_of(frame_head(regs, 8), program, 0));
    let m1 = lemma_frame_head(run, m, regs, 8);
    law_kept_bytes_keep_words(m.mem, m1.mem, top - 64, top, a as int);
    law_kept_bytes_keep_words(m.mem, m1.mem, top - 64, top, a + 8);
    law_kept_bytes_keep_words(m.mem, m1.mem, top - 64, top, b as int);
    law_kept_bytes_keep_words(m.mem, m1.mem, top - 64, top, b + 8);
    lemma_mov(run, 9, m1, Rsi, Rcx);
    let m2 = m1.set(Rsi, a);
    lemma_mov(run, 10, m2, R15, Rdx);
    let m3 = m2.set(R15, b);
    assert(m3.address(world, at_d(Rsi, 8)) == a + 8);
    lemma_load(run, 11, m3, Rbx, at_d(Rsi, 8));
    let m4 = m3.set(Rbx, la);
    assert(m4.address(world, at_d(R15, 8)) == b + 8);
    lemma_load(run, 12, m4, Rbp, at_d(R15, 8));
    let m5 = m4.set(Rbp, lb);
    assert(m5.address(world, at_d(Rsi, 0)) == a);
    lemma_load(run, 13, m5, R12, at_d(Rsi, 0));
    let m6 = m5.set(R12, ca);
    assert(m6.address(world, at_d(R15, 0)) == b);
    lemma_load(run, 14, m6, R13, at_d(R15, 0));
    let m7 = m6.set(R13, cb);
    lemma_mov(run, 15, m7, Rcx, Rbx);
    let m8 = m7.set(Rcx, la);
    lemma_alu(run, 16, m8, Alu::Add, Rcx, Rbp);
    let m9 = operated(m8, Alu::Add, Rcx, lb);
    lemma_alu_imm32(run, 17, m9, Alu::Add, Rcx, 16);
    let calling = operated(m9, Alu::Add, Rcx, 16);
    lemma_call(run, 18, calling, Symbol::HeapAlloc);
    assert(regs[0] == Rsi && regs[1] == Rbx && regs[2] == Rbp && regs[3] == R12 && regs[4] == R13
        && regs[5] == R14 && regs[6] == R15 && regs[7] == Rdi);
    calling
}

/// The bytes of two texts copied one behind the other are the text of both.
proof fn lemma_joined(
    before: spec_fn(int) -> u8,
    after: spec_fn(int) -> u8,
    a: u64,
    b: u64,
    dst: u64,
)
    requires
        word_at(after, dst + 8) == word_at(before, a + 8) + word_at(before, b + 8),
        ({
            let la = word_at(before, a + 8) as int;
            let lb = word_at(before, b + 8) as int;
            &&& forall|p: int|
                dst + 16 <= p < dst + 16 + la ==> #[trigger] after(p) == before(
                    a + 16 + (p - (dst + 16)),
                )
            &&& forall|p: int|
                dst + 16 + la <= p < dst + 16 + la + lb ==> #[trigger] after(p) == before(
                    b + 16 + (p - (dst + 16 + la)),
                )
        }),
    ensures
        text_at(after, dst) == text_at(before, a) + text_at(before, b),
{
    let la = word_at(before, a + 8) as int;
    let whole = text_at(after, dst);
    let parts = text_at(before, a) + text_at(before, b);
    assert forall|i: int| 0 <= i < whole.len() implies whole[i] == parts[i] by {
        let p = dst + 16 + i;
        assert(whole[i] == after(p));
        if i < la {
            assert(parts[i] == before(a + 16 + i));
        } else {
            assert(parts[i] == before(b + 16 + (i - la)));
        }
    }
    assert(whole =~= parts);
}

/// Concatenating gives a fresh string with the bytes of the one and then those of the other;
/// the operands stay as they are, and without room the routine traps.
#[verifier::rlimit(60)]
pub proof fn law_str_concat(world: World, m: Machine, blocks: Seq<u64>, left_text: Seq<u8>,
    right_text: Seq<
    u8,
>) -> (end: (Machine, Seq<u64>))
    requires
        can_concat(world, m, blocks),
        holds_string(m.mem, m.regs[Rcx], left_text),
        holds_string(m.mem, m.regs[Rdx], right_text),
    ensures
        ({
            let (after, left) = end;
            let text = left_text + right_text;
            let room = has_room(world, m.mem, blocks, 16 + text.len() as int);
            &&& room ==> builds_string(
                world,
                str_concat_program(),
                m,
                after,
                blocks,
                left,
                text,
                80,
            )
            &&& !room ==> ends_in(world, str_concat_program(), 0, m, Outcome::Trapped(after))
        }),
{
    let program = str_concat_program();
    let regs = concat_saves();
    let a = m.regs[Rcx];
    let b = m.regs[Rdx];
    let top = m.regs[Rsp] as int;
    let la = word_at(m.mem, a + 8);
    let lb = word_at(m.mem, b + 8);
    let size = 16 + la + lb;
    assert(program.len() == 45);
    let calling = lemma_concat_call(world, m, blocks);
    lemma_at_the_call(world, m, calling, blocks, 80, size);
    let (out, left) = lemma_alloc_call(world, program, 19, calling, blocks);
    if has_room(world, m.mem, blocks, size) {
        let dst = out.regs[Rax];
        lemma_span_stays(world, m, calling, out, blocks, left, size, 80, a as int, 16 + la);
        lemma_span_stays(world, m, calling, out, blocks, left, size, 80, b as int, 16 + lb);
        law_chars_add_up(left_text, right_text);
        lemma_chars_bounded(left_text);
        lemma_chars_bounded(right_text);
        let chars = (chars_in(left_text) + chars_in(right_text)) as u64;
        let bytes = (la + lb) as u64;
        let run = Run { world, program, start: 19, before: out };
        lemma_begin(run);
        lemma_mov(run, 19, out, R14, Rax);
        let m1 = out.set(R14, dst);
        assert(m1.regs[R12] == chars_in(left_text) && m1.regs[R13] == chars_in(right_text));
        assert(m1.regs[Rbx] == la && m1.regs[Rbp] == lb && m1.regs[Rsi] == a && m1.regs[R15] == b);
        lemma_mov(run, 20, m1, Rcx, R12);
        let m2 = m1.set(Rcx, m1.regs[R12]);
        lemma_alu(run, 21, m2, Alu::Add, Rcx, R13);
        let m3 = operated(m2, Alu::Add, Rcx, m2.regs[R13]);
        assert(m3.regs[Rcx] == chars);
        assert(m3.address(world, at_d(R14, 0)) == dst);
        lemma_store(run, 22, m3, at_d(R14, 0), Rcx);
        let m4 = m3.store(Width::Quad, dst as int, chars as int);
        lemma_mov(run, 23, m4, Rcx, Rbx);
        let m5 = m4.set(Rcx, la);
        lemma_alu(run, 24, m5, Alu::Add, Rcx, Rbp);
        let m6 = operated(m5, Alu::Add, Rcx, lb);
        assert(m6.regs[Rcx] == bytes);
        assert(m6.address(world, at_d(R14, 8)) == dst + 8);
        lemma_store(run, 25, m6, at_d(R14, 8), Rcx);
        let m7 = m6.store(Width::Quad, dst + 8, bytes as int);
        assert(m7.mem == with_lengths(out.mem, dst, chars, bytes));
        lemma_lengths(out.mem, dst, chars, bytes);
        assert(m7.address(world, at_d(R14, 16)) == dst + 16);
        lemma_lea(run, 26, m7, Rdi, at_d(R14, 16));
        let m8 = m7.set(Rdi, (dst + 16) as u64);
        lemma_alu_imm32(run, 27, m8, Alu::Add, Rsi, 16);
        let m9 = operated(m8, Alu::Add, Rsi, 16);
        lemma_mov(run, 28, m9, Rcx, Rbx);
        let m10 = m9.set(Rcx, la);
        let m11 = lemma_rep_movsb(run, 29, m10);
        law_bytes_copied(m10.mem, a + 16, dst + 16, la as nat);
        lemma_mov(run, 30, m11, Rsi, R15);
        let m12 = m11.set(Rsi, b);
        lemma_alu_imm32(run, 31, m12, Alu::Add, Rsi, 16);
        let m13 = operated(m12, Alu::Add, Rsi, 16);
        lemma_mov(run, 32, m13, Rcx, Rbp);
        let m14 = m13.set(Rcx, lb);
        assert(m14.regs[Rdi] == dst + 16 + la);
        let m15 = lemma_rep_movsb(run, 33, m14);
        law_bytes_copied(m14.mem, b + 16, dst + 16 + la, lb as nat);
        lemma_mov(run, 34, m15, Rax, R14);
        let m16 = m15.set(Rax, dst);
        assert(kept(m7.mem, m16.mem, dst + 16, dst + size)) by {
            assert forall|p: int| p < dst + 16 || dst + size <= p implies #[trigger] (m16.mem)(p)
                == (m7.mem)(p) by {
                assert((m11.mem)(p) == (m10.mem)(p));
            }
        }
        assert(kept(out.mem, m16.mem, dst as int, dst + size)) by {
            assert forall|p: int| p < dst || dst + size <= p implies #[trigger] (m16.mem)(p) == (
            out.mem)(p) by {
                assert((m7.mem)(p) == (out.mem)(p));
            }
        }
        law_kept_bytes_keep_words(m7.mem, m16.mem, dst + 16, dst + size, dst as int);
        law_kept_bytes_keep_words(m7.mem, m16.mem, dst + 16, dst + size, dst + 8);
        assert forall|p: int| dst + 16 <= p < dst + 16 + la implies #[trigger] (m16.mem)(p) == (m.mem)(
            a + 16 + (p - (dst + 16)),
        ) by {
            let q = a + 16 + (p - (dst + 16));
            assert((m11.mem)(p) == (m10.mem)(q));
            assert((m7.mem)(q) == (out.mem)(q));
            assert((out.mem)(q) == (m.mem)(q));
        }
        assert forall|p: int| dst + 16 + la <= p < dst + size implies #[trigger] (m16.mem)(p) == (
        m.mem)(b + 16 + (p - (dst + 16 + la))) by {
            let q = b + 16 + (p - (dst + 16 + la));
            assert((m14.mem)(q) == (m10.mem)(q));
            assert((m7.mem)(q) == (out.mem)(q));
            assert((out.mem)(q) == (m.mem)(q));
        }
        lemma_joined(m.mem, m16.mem, a, b, dst);
        lemma_built(world, m, calling, out, m16.mem, blocks, left, size, 80);
        assert forall|p: int| top - 64 <= p < top implies #[trigger] (m16.mem)(p) == (calling.mem)(
            p,
        ) by {
            assert((m16.mem)(p) == (out.mem)(p));
            assert((out.mem)(p) == (calling.mem)(p));
        }
        lemma_saved_stays(calling.mem, m16.mem, top, regs, m.regs);
        assert(regs[0] == Rsi && regs[1] == Rbx && regs[2] == Rbp && regs[3] == R12 && regs[4]
            == R13 && regs[5] == R14 && regs[6] == R15 && regs[7] == Rdi);
        assert(part_of(frame_tail(regs, 8), program, 35));
        let after = lemma_frame_tail(run, 35, m, m16, regs, 8);
        law_ends_alone(world, program, 19, out, Outcome::Returned(after));
        law_call(
            world,
            program,
            0,
            m,
            Symbol::HeapAlloc,
            19,
            calling,
            out,
            Outcome::Returned(after),
        );
        (after, left)
    } else {
        law_call_traps(world, program, 0, m, Symbol::HeapAlloc, 19, calling, out);
        (out, left)
    }
}

// Upper and lower case

/// The registers that the case routines save.
pub open spec fn recase_saves() -> Seq<Reg> {
    seq![Rbx, Rsi]
}

/// The program that moves the 26 letters from `first` on by 32.
pub open spec fn recase_program(first: u8, op: Alu) -> Seq<Insn> {
    frame_head(recase_saves(), 40) + seq![
        mov(Rsi, Rcx),
        load(Rbx, at_d(Rsi, 8)),
        lea(Rcx, at_d(Rbx, 16)),
        call(Symbol::HeapAlloc),
        load(R10, at_d(Rsi, 0)),
        store(at_d(Rax, 0), R10),
        store(at_d(Rax, 8), Rbx),
        alu(Alu::Xor, R8, R8),
        alu(Alu::Cmp, R8, Rbx),
        jcc(Ae, 9),
        movzx_load(Rcx, index_d(Rsi, R8, 16)),
        lea_d(Rdx, below(Rcx, first)),
        alu_imm8_d(Alu::Cmp, Rdx, 25),
        jcc(A, 2),
        alu_imm8_d(op, Rcx, 32),
        store_b(index_d(Rax, R8, 16), Rcx),
        unary(Unary::Inc, R8),
        jmp_back(9),
    ] + frame_tail(recase_saves(), 40)
}

/// A byte, moved when it is one of the 26 letters from `first` on.
pub open spec fn recased(first: u8, op: Alu, byte: u8) -> u8 {
    if first <= byte <= first + 25 {
        if op == Alu::Add {
            (byte + 32) as u8
        } else {
            (byte - 32) as u8
        }
    } else {
        byte
    }
}

/// A text with the letters from `first` on moved.
pub open spec fn recased_text(first: u8, op: Alu, text: Seq<u8>) -> Seq<u8> {
    text.map_values(|byte: u8| recased(first, op, byte))
}

/// A text with the ASCII letters in upper case.
pub open spec fn upper_text(text: Seq<u8>) -> Seq<u8> {
    recased_text(97, Alu::Sub, text)
}

/// A text with the ASCII letters in lower case.
pub open spec fn lower_text(text: Seq<u8>) -> Seq<u8> {
    recased_text(65, Alu::Add, text)
}

/// Moving letters keeps the number of characters.
proof fn lemma_recased_chars(first: u8, op: Alu, text: Seq<u8>)
    requires
        (first == 97 && op == Alu::Sub) || (first == 65 && op == Alu::Add),
    ensures
        chars_in(recased_text(first, op, text)) == chars_in(text),
    decreases text.len(),
{
    if text.len() > 0 {
        let other = recased_text(first, op, text);
        lemma_recased_chars(first, op, text.drop_last());
        assert(other.drop_last() =~= recased_text(first, op, text.drop_last()));
        let byte = text.last();
        let moved = recased(first, op, byte);
        assert(other.last() == moved);
        assert(byte < 0x80 ==> byte & 0xC0 != 0x80) by (bit_vector);
        assert(moved < 0x80 ==> moved & 0xC0 != 0x80) by (bit_vector);
    }
}

/// The state of the loop over the bytes.
pub open spec fn recasing(
    first: u8,
    op: Alu,
    m0: Machine,
    m: Machine,
    src: int,
    dst: int,
    j: int,
) -> bool {
    &&& m.regs[R8] == j
    &&& kept(m0.mem, m.mem, dst, dst + j)
    &&& forall|p: int|
        dst <= p < dst + j ==> #[trigger] (m.mem)(p) == recased(
            first,
            op,
            (m0.mem)(src + (p - dst)),
        )
    &&& forall|reg: Reg|
        reg != Rcx && reg != Rdx && reg != R8 ==> #[trigger] m.regs[reg] == m0.regs[reg]
}

proof fn lemma_recase_from(run: Run, first: u8, op: Alu, m0: Machine, m: Machine, j: int) -> (after:
    Machine)
    requires
        (first == 97 && op == Alu::Sub) || (first == 65 && op == Alu::Add),
        run.program == recase_program(first, op),
        run.at(11, m),
        ({
            let src = m0.regs[Rsi] + 16;
            let dst = m0.regs[Rax] + 16;
            let n = m0.regs[Rbx];
            &&& src + n < word_span()
            &&& dst + n < word_span()
            &&& spans_apart(src, n as int, dst, n as int)
            &&& 0 <= j <= n
            &&& recasing(first, op, m0, m, src, dst, j)
        }),
    ensures
        run.at(21, after),
        recasing(
            first,
            op,
            m0,
            after,
            m0.regs[Rsi] + 16,
            m0.regs[Rax] + 16,
            m0.regs[Rbx] as int,
        ),
    decreases m0.regs[Rbx] - j,
{
    let src = m0.regs[Rsi] + 16;
    let dst = m0.regs[Rax] + 16;
    let n = m0.regs[Rbx];
    assert(m.regs[Rbx] == n && m.regs[Rsi] == m0.regs[Rsi] && m.regs[Rax] == m0.regs[Rax]);
    assert(run.program.len() == 25);
    lemma_alu(run, 11, m, Alu::Cmp, R8, Rbx);
    let m1 = operated(m, Alu::Cmp, R8, n);
    law_comparisons_order(j as u64, n);
    lemma_jcc(run, 12, m1, Ae, false, Hop::Forward(9));
    if j >= n {
        m1
    } else {
        assert(m1.address(run.world, index_d(Rsi, R8, 16)) == src + j);
        lemma_movzx_load(run, 13, m1, Rcx, index_d(Rsi, R8, 16));
        let byte = (m0.mem)(src + j);
        assert((m.mem)(src + j) == byte);
        let m2 = m1.set(Rcx, byte as u64);
        lemma_lea_d(run, 14, m2, Rdx, below(Rcx, first));
        let distance = m2.address(run.world, below(Rcx, first)) % 0x1_0000_0000;
        assert(distance == if byte >= first {
            byte - first
        } else {
            0x1_0000_0000 + byte - first
        });
        let m3 = m2.set(Rdx, distance as u64);
        lemma_compare_imm_d(run, 15, m3, Rdx, 25);
        let m4 = m3.flagged(flags_of_difference(Width::Long, distance, 25));
        assert(m4.flags.holds(A) == (distance > 25));
        lemma_jcc(run, 16, m4, A, false, Hop::Forward(2));
        let moved = recased(first, op, byte);
        let m5 = if distance > 25 {
            m4
        } else {
            lemma_move_d(run, 17, m4, op, Rcx, 32)
        };
        assert(m5.regs[Rcx] == moved);
        assert(m5.address(run.world, index_d(Rax, R8, 16)) == dst + j);
        lemma_store_b(run, 18, m5, index_d(Rax, R8, 16), Rcx);
        let m6 = Machine { mem: with_byte(m5.mem, dst + j, moved), ..m5 };
        let m7 = lemma_inc(run, 19, m6, R8);
        lemma_jmp(run, 20, m7, false, Hop::Back(9));
        lemma_recase_from(run, first, op, m0, m7, j + 1)
    }
}

/// Whether a string can be put into another case.
pub open spec fn can_recase(world: World, m: Machine, blocks: Seq<u64>) -> bool {
    &&& can_build(world, m, blocks, 64)
    &&& string_safe(world, m, blocks, m.regs[Rcx], 64)
    &&& 16 + word_at(m.mem, m.regs[Rcx] + 8) <= u64::MAX / 2
}

#[verifier::rlimit(40)]
proof fn lemma_recase(
    world: World,
    first: u8,
    op: Alu,
    m: Machine,
    blocks: Seq<u64>,
    text: Seq<u8>,
) -> (end: (Machine, Seq<u64>))
    requires
        (first == 97 && op == Alu::Sub) || (first == 65 && op == Alu::Add),
        can_recase(world, m, blocks),
        holds_string(m.mem, m.regs[Rcx], text),
    ensures
        ({
            let (after, left) = end;
            let program = recase_program(first, op);
            let room = has_room(world, m.mem, blocks, 16 + text.len() as int);
            &&& room ==> builds_string(
                world,
                program,
                m,
                after,
                blocks,
                left,
                recased_text(first, op, text),
                64,
            )
            &&& !room ==> ends_in(world, program, 0, m, Outcome::Trapped(after))
        }),
{
    let program = recase_program(first, op);
    let run = Run { world, program, start: 0, before: m };
    let regs = recase_saves();
    let src = m.regs[Rcx];
    let top = m.regs[Rsp] as int;
    let n = word_at(m.mem, src + 8);
    let chars = word_at(m.mem, src as int);
    let size = 16 + n;
    assert(program.len() == 25);
    assert(part_of(frame_head(regs, 40), program, 0));
    let m1 = lemma_frame_head(run, m, regs, 40);
    law_kept_bytes_keep_words(m.mem, m1.mem, top - 16, top, src + 8);
    lemma_mov(run, 3, m1, Rsi, Rcx);
    let m2 = m1.set(Rsi, src);
    assert(m2.address(world, at_d(Rsi, 8)) == src + 8);
    lemma_load(run, 4, m2, Rbx, at_d(Rsi, 8));
    let m3 = m2.set(Rbx, n);
    assert(m3.address(world, at_d(Rbx, 16)) == size);
    lemma_lea(run, 5, m3, Rcx, at_d(Rbx, 16));
    let calling = m3.set(Rcx, size as u64);
    lemma_call(run, 6, calling, Symbol::HeapAlloc);
    lemma_at_the_call(world, m, calling, blocks, 64, size);
    let (out, left) = lemma_alloc_call(world, program, 7, calling, blocks);
    assert(regs[0] == Rbx && regs[1] == Rsi);
    if has_room(world, m.mem, blocks, size) {
        let dst = out.regs[Rax];
        lemma_span_stays(world, m, calling, out, blocks, left, size, 64, src as int, size);
        law_word_of_bytes(out.mem, m.mem, src as int);
        let run2 = Run { world, program, start: 7, before: out };
        lemma_begin(run2);
        assert(out.regs[Rsi] == src && out.regs[Rbx] == n);
        assert(out.address(world, at_d(Rsi, 0)) == src);
        lemma_load(run2, 7, out, R10, at_d(Rsi, 0));
        let n1 = out.set(R10, chars);
        assert(n1.address(world, at_d(Rax, 0)) == dst);
        lemma_store(run2, 8, n1, at_d(Rax, 0), R10);
        let n2 = n1.store(Width::Quad, dst as int, chars as int);
        assert(n2.address(world, at_d(Rax, 8)) == dst + 8);
        lemma_store(run2, 9, n2, at_d(Rax, 8), Rbx);
        let n3 = n2.store(Width::Quad, dst + 8, n as int);
        assert(n3.mem == with_lengths(out.mem, dst, chars, n));
        lemma_lengths(out.mem, dst, chars, n);
        let n4 = lemma_zero(run2, 10, n3, R8);
        let n5 = lemma_recase_from(run2, first, op, n4, n4, 0);
        law_kept_bytes_keep_words(n4.mem, n5.mem, dst + 16, dst + 16 + n, dst as int);
        law_kept_bytes_keep_words(n4.mem, n5.mem, dst + 16, dst + 16 + n, dst + 8);
        let new = recased_text(first, op, text);
        assert(text_at(n5.mem, dst) =~= new) by {
            assert forall|i: int| 0 <= i < n implies text_at(n5.mem, dst)[i] == new[i] by {
                let p = dst + 16 + i;
                let q = src + 16 + i;
                assert((n5.mem)(p) == recased(first, op, (n4.mem)(src + 16 + (p - (dst + 16)))));
                assert((n4.mem)(q) == (out.mem)(q));
                assert((out.mem)(q) == (m.mem)(q));
                assert(text[i] == (m.mem)(q));
            }
        }
        lemma_recased_chars(first, op, text);
        assert(filled(out.mem, n5.mem, dst as int, size, top - 64, top)) by {
            assert forall|p: int| p < dst || dst + size <= p implies #[trigger] (n5.mem)(p) == (
            out.mem)(p) by {
                assert((n4.mem)(p) == (out.mem)(p));
            }
        }
        lemma_built(world, m, calling, out, n5.mem, blocks, left, size, 64);
        assert forall|p: int| top - 16 <= p < top implies #[trigger] (n5.mem)(p) == (calling.mem)(
            p,
        ) by {
            assert((n4.mem)(p) == (out.mem)(p));
            assert((out.mem)(p) == (calling.mem)(p));
        }
        lemma_saved_stays(calling.mem, n5.mem, top, regs, m.regs);
        assert(part_of(frame_tail(regs, 40), program, 21));
        let after = lemma_frame_tail(run2, 21, m, n5, regs, 40);
        law_ends_alone(world, program, 7, out, Outcome::Returned(after));
        law_call(
            world,
            program,
            0,
            m,
            Symbol::HeapAlloc,
            7,
            calling,
            out,
            Outcome::Returned(after),
        );
        (after, left)
    } else {
        law_call_traps(world, program, 0, m, Symbol::HeapAlloc, 7, calling, out);
        (out, left)
    }
}

/// `upper` gives a fresh string with the ASCII letters in upper case and every other byte as
/// it is; without room it traps.
pub proof fn law_str_upper(world: World, m: Machine, blocks: Seq<u64>, text: Seq<u8>) -> (end: (
    Machine,
    Seq<u64>,
))
    requires
        can_recase(world, m, blocks),
        holds_string(m.mem, m.regs[Rcx], text),
    ensures
        ({
            let (after, left) = end;
            let program = str_upper_program();
            let room = has_room(world, m.mem, blocks, 16 + text.len() as int);
            &&& room ==> builds_string(
                world,
                program,
                m,
                after,
                blocks,
                left,
                upper_text(text),
                64,
            )
            &&& !room ==> ends_in(world, program, 0, m, Outcome::Trapped(after))
        }),
{
    assert(str_upper_program() =~= recase_program(97, Alu::Sub));
    lemma_recase(world, 97, Alu::Sub, m, blocks, text)
}

/// `lower` gives a fresh string with the ASCII letters in lower case and every other byte as
/// it is; without room it traps.
pub proof fn law_str_lower(world: World, m: Machine, blocks: Seq<u64>, text: Seq<u8>) -> (end: (
    Machine,
    Seq<u64>,
))
    requires
        can_recase(world, m, blocks),
        holds_string(m.mem, m.regs[Rcx], text),
    ensures
        ({
            let (after, left) = end;
            let program = str_lower_program();
            let room = has_room(world, m.mem, blocks, 16 + text.len() as int);
            &&& room ==> builds_string(
                world,
                program,
                m,
                after,
                blocks,
                left,
                lower_text(text),
                64,
            )
            &&& !room ==> ends_in(world, program, 0, m, Outcome::Trapped(after))
        }),
{
    assert(str_lower_program() =~= recase_program(65, Alu::Add));
    lemma_recase(world, 65, Alu::Add, m, blocks, text)
}

// Strings of C

/// The registers that the routines from and to C strings save.
pub open spec fn cstr_saves() -> Seq<Reg> {
    seq![Rsi, Rdi, Rbx]
}

/// Whether a routine built a C string: the text, and a zero behind it.
pub open spec fn builds_cstr(
    world: World,
    program: Seq<Insn>,
    m: Machine,
    after: Machine,
    blocks: Seq<u64>,
    left: Seq<u64>,
    text: Seq<u8>,
) -> bool {
    let buffer = after.regs[Rax];
    &&& ends_in(world, program, 0, m, Outcome::Returned(after))
    &&& came_back(m, after)
    &&& builds(world, m, after.mem, blocks, left, text.len() as int + 1, buffer, 40)
    &&& bytes_at(after.mem, buffer as int, text.len() as int) == text
    &&& (after.mem)(buffer + text.len()) == 0
}

/// `to_cstr` gives a fresh buffer with the bytes of the string and a zero behind them;
/// without room it traps.
#[verifier::rlimit(40)]
pub proof fn law_to_cstr(world: World, m: Machine, blocks: Seq<u64>) -> (end: (Machine, Seq<u64>))
    requires
        can_build(world, m, blocks, 40),
        string_safe(world, m, blocks, m.regs[Rcx], 40),
        word_at(m.mem, m.regs[Rcx] + 8) < u64::MAX / 2,
    ensures
        ({
            let (after, left) = end;
            let text = text_at(m.mem, m.regs[Rcx]);
            let room = has_room(world, m.mem, blocks, text.len() as int + 1);
            &&& room ==> builds_cstr(world, to_cstr_program(), m, after, blocks, left, text)
            &&& !room ==> ends_in(world, to_cstr_program(), 0, m, Outcome::Trapped(after))
        }),
{
    let program = to_cstr_program();
    let run = Run { world, program, start: 0, before: m };
    let regs = cstr_saves();
    let src = m.regs[Rcx];
    let top = m.regs[Rsp] as int;
    let n = word_at(m.mem, src + 8);
    let size = n + 1;
    assert(program.len() == 20);
    assert(part_of(frame_head(regs, 8), program, 0));
    let m1 = lemma_frame_head(run, m, regs, 8);
    law_kept_bytes_keep_words(m.mem, m1.mem, top - 24, top, src + 8);
    lemma_mov(run, 4, m1, Rsi, Rcx);
    let m2 = m1.set(Rsi, src);
    assert(m2.address(world, at_d(Rsi, 8)) == src + 8);
    lemma_load(run, 5, m2, Rbx, at_d(Rsi, 8));
    let m3 = m2.set(Rbx, n);
    assert(m3.address(world, at_b(Rbx, 1)) == size);
    lemma_lea(run, 6, m3, Rcx, at_b(Rbx, 1));
    let calling = m3.set(Rcx, size as u64);
    lemma_call(run, 7, calling, Symbol::HeapAlloc);
    lemma_at_the_call(world, m, calling, blocks, 40, size);
    let (out, left) = lemma_alloc_call(world, program, 8, calling, blocks);
    assert(regs[0] == Rsi && regs[1] == Rdi && regs[2] == Rbx);
    if has_room(world, m.mem, blocks, size) {
        let dst = out.regs[Rax];
        lemma_span_stays(world, m, calling, out, blocks, left, size, 40, src as int, 16 + n);
        let run2 = Run { world, program, start: 8, before: out };
        lemma_begin(run2);
        assert(out.regs[Rsi] == src && out.regs[Rbx] == n && out.regs[Rsp] == top - 32);
        lemma_push(run2, 8, out, Rax);
        let low = (top - 40) as u64;
        let n1 = out.store(Width::Quad, low as int, dst as int).set(Rsp, low);
        assert forall|p: int| p < low || low + 8 <= p implies #[trigger] (n1.mem)(p) == (out.mem)(
            p,
        ) by {
            law_word_keeps_bytes(out.mem, low as int, dst, p);
        }
        law_word_reads_back(out.mem, low as int, dst);
        lemma_mov(run2, 9, n1, Rdi, Rax);
        let n2 = n1.set(Rdi, dst);
        lemma_alu_imm32(run2, 10, n2, Alu::Add, Rsi, 16);
        let n3 = operated(n2, Alu::Add, Rsi, 16);
        lemma_mov(run2, 11, n3, Rcx, Rbx);
        let n4 = n3.set(Rcx, n);
        let n5 = lemma_rep_movsb(run2, 12, n4);
        law_bytes_copied(n4.mem, src + 16, dst as int, n as nat);
        assert(n5.regs[Rdi] == dst + n);
        assert(n5.address(world, at(Rdi)) == dst + n);
        lemma_store_imm_b(run2, 13, n5, at(Rdi), 0);
        let n6 = Machine { mem: with_byte(n5.mem, dst + n, 0), ..n5 };
        assert forall|p: int| (p < dst || dst + size <= p) implies #[trigger] (n6.mem)(p) == (
        n1.mem)(p) by {
            assert((n5.mem)(p) == (n4.mem)(p));
        }
        assert(word_at(n6.mem, low as int) == dst) by {
            law_word_of_bytes(n6.mem, n1.mem, low as int);
        }
        lemma_pop(run2, 14, n6, Rax);
        let n7 = n6.set(Rsp, (top - 32) as u64).set(Rax, dst);
        assert(bytes_at(n7.mem, dst as int, n as int) =~= text_at(m.mem, src)) by {
            assert forall|i: int| 0 <= i < n implies bytes_at(n7.mem, dst as int, n as int)[i]
                == text_at(m.mem, src)[i] by {
                let p = dst + i;
                let q = src + 16 + i;
                assert((n5.mem)(p) == (n4.mem)(src + 16 + (p - dst)));
                assert((n1.mem)(q) == (out.mem)(q));
                assert((out.mem)(q) == (m.mem)(q));
            }
        }
        lemma_built(world, m, calling, out, n7.mem, blocks, left, size, 40);
        assert forall|p: int| top - 24 <= p < top implies #[trigger] (n7.mem)(p) == (calling.mem)(
            p,
        ) by {
            assert((n1.mem)(p) == (out.mem)(p));
            assert((out.mem)(p) == (calling.mem)(p));
        }
        lemma_saved_stays(calling.mem, n7.mem, top, regs, m.regs);
        assert(part_of(frame_tail(regs, 8), program, 15));
        let after = lemma_frame_tail(run2, 15, m, n7, regs, 8);
        law_ends_alone(world, program, 8, out, Outcome::Returned(after));
        law_call(
            world,
            program,
            0,
            m,
            Symbol::HeapAlloc,
            8,
            calling,
            out,
            Outcome::Returned(after),
        );
        (after, left)
    } else {
        law_call_traps(world, program, 0, m, Symbol::HeapAlloc, 8, calling, out);
        (out, left)
    }
}

/// Whether the bytes from `a` are `n` that are not zero and then a zero.
pub open spec fn terminated(mem: spec_fn(int) -> u8, a: int, n: int) -> bool {
    &&& 0 <= n
    &&& mem(a + n) == 0
    &&& forall|p: int| a <= p < a + n ==> #[trigger] mem(p) != 0
}

/// The scan for the end of a C string, after `j` bytes.
proof fn lemma_scan_from(run: Run, m0: Machine, m: Machine, n: int, j: int) -> (after: Machine)
    requires
        run.program == str_lit_program(),
        run.at(8, m),
        m.mem == m0.mem,
        forall|reg: Reg|
            reg != Rax && reg != Rbx && reg != Rcx && reg != Rdx && reg != Rdi
                ==> #[trigger] m.regs[reg] == m0.regs[reg],
        ({
            let src = m0.regs[Rsi];
            &&& src + n + 1 < word_span()
            &&& terminated(m0.mem, src as int, n)
            &&& 0 <= j <= n
            &&& m.regs[Rax] == src + j
            &&& m.regs[Rbx] == j
            &&& m.regs[Rdi] == chars_in(bytes_at(m0.mem, src as int, j))
        }),
    ensures
        run.at(19, after),
        after.mem == m0.mem,
        after.regs[Rbx] == n,
        after.regs[Rdi] == chars_in(bytes_at(m0.mem, m0.regs[Rsi] as int, n)),
        forall|reg: Reg|
            reg != Rax && reg != Rbx && reg != Rcx && reg != Rdx && reg != Rdi
                ==> #[trigger] after.regs[reg] == m0.regs[reg],
    decreases n - j,
{
    let src = m0.regs[Rsi];
    let byte = (m0.mem)(src + j);
    assert(run.program.len() == 33);
    assert(m.address(run.world, at(Rax)) == src + j);
    let m1 = lemma_load_b(run, 8, m, Rcx, at(Rax));
    lemma_test_b(run, 9, m1, Rcx);
    let m2 = m1.flagged(flags_of_bits(Width::Byte, byte as int));
    lemma_jcc(run, 10, m2, E, false, Hop::Forward(9));
    if j == n {
        m2
    } else {
        assert(byte != 0);
        let m3 = lemma_mov_b(run, 11, m2, Rdx, Rcx);
        let m4 = lemma_and_imm_b(run, 12, m3, Rdx, 0xC0);
        let masked = byte & 0xC0;
        lemma_compare_imm_b(run, 13, m4, Rdx, 0x80);
        let m5 = m4.flagged(flags_of_difference(Width::Byte, masked as int, 0x80));
        assert(m5.flags.zero == continues(byte));
        lemma_jcc(run, 14, m5, E, true, Hop::Forward(2));
        let longer = bytes_at(m0.mem, src as int, j + 1);
        assert(longer.drop_last() =~= bytes_at(m0.mem, src as int, j));
        assert(longer.last() == byte);
        lemma_chars_bounded(longer.drop_last());
        let m6 = if continues(byte) {
            m5
        } else {
            lemma_inc(run, 15, m5, Rdi)
        };
        let m7 = lemma_inc(run, 16, m6, Rax);
        let m8 = lemma_inc(run, 17, m7, Rbx);
        lemma_jmp(run, 18, m8, false, Hop::Back(10));
        lemma_scan_from(run, m0, m8, n, j + 1)
    }
}

/// `str_lit` gives a fresh string with the bytes of a C string, up to its zero; without room
/// it traps.
#[verifier::rlimit(40)]
pub proof fn law_str_lit(world: World, m: Machine, blocks: Seq<u64>, n: int) -> (end: (
    Machine,
    Seq<u64>,
))
    requires
        can_build(world, m, blocks, 40),
        terminated(m.mem, m.regs[Rcx] as int, n),
        span_safe(world, m, blocks, m.regs[Rcx] as int, n + 1, 40),
        16 + n <= u64::MAX / 2,
    ensures
        ({
            let (after, left) = end;
            let text = bytes_at(m.mem, m.regs[Rcx] as int, n);
            let room = has_room(world, m.mem, blocks, 16 + n);
            &&& room ==> builds_string(
                world,
                str_lit_program(),
                m,
                after,
                blocks,
                left,
                text,
                40,
            )
            &&& !room ==> ends_in(world, str_lit_program(), 0, m, Outcome::Trapped(after))
        }),
{
    let program = str_lit_program();
    let run = Run { world, program, start: 0, before: m };
    let regs = cstr_saves();
    let src = m.regs[Rcx];
    let top = m.regs[Rsp] as int;
    let size = 16 + n;
    let text = bytes_at(m.mem, src as int, n);
    assert(program.len() == 33);
    assert(part_of(frame_head(regs, 8), program, 0));
    let m1 = lemma_frame_head(run, m, regs, 8);
    lemma_mov(run, 4, m1, Rsi, Rcx);
    let m2 = m1.set(Rsi, src);
    lemma_mov(run, 5, m2, Rax, Rsi);
    let m3 = m2.set(Rax, src);
    let m4 = lemma_zero(run, 6, m3, Rbx);
    let m5 = lemma_zero(run, 7, m4, Rdi);
    assert(bytes_at(m5.mem, src as int, 0) =~= Seq::empty());
    assert(terminated(m5.mem, src as int, n)) by {
        assert((m5.mem)(src + n) == (m.mem)(src + n));
        assert forall|p: int| src <= p < src + n implies #[trigger] (m5.mem)(p) != 0 by {
            assert((m5.mem)(p) == (m.mem)(p));
        }
    }
    assert(bytes_at(m5.mem, src as int, n) =~= text) by {
        assert forall|i: int| 0 <= i < n implies bytes_at(m5.mem, src as int, n)[i] == text[i] by {
            assert((m5.mem)(src + i) == (m.mem)(src + i));
        }
    }
    let m6 = lemma_scan_from(run, m5, m5, n, 0);
    let chars = m6.regs[Rdi];
    assert(m6.address(world, at_d(Rbx, 16)) == size);
    lemma_lea(run, 19, m6, Rcx, at_d(Rbx, 16));
    let calling = m6.set(Rcx, size as u64);
    lemma_call(run, 20, calling, Symbol::HeapAlloc);
    lemma_at_the_call(world, m, calling, blocks, 40, size);
    let (out, left) = lemma_alloc_call(world, program, 21, calling, blocks);
    assert(regs[0] == Rsi && regs[1] == Rdi && regs[2] == Rbx);
    if has_room(world, m.mem, blocks, size) {
        let dst = out.regs[Rax];
        lemma_span_stays(world, m, calling, out, blocks, left, size, 40, src as int, n + 1);
        let run2 = Run { world, program, start: 21, before: out };
        lemma_begin(run2);
        assert(out.regs[Rsi] == src && out.regs[Rbx] == n && out.regs[Rdi] == chars);
        assert(out.regs[Rsp] == top - 32);
        assert(out.address(world, at_d(Rax, 0)) == dst);
        lemma_store(run2, 21, out, at_d(Rax, 0), Rdi);
        let n1 = out.store(Width::Quad, dst as int, chars as int);
        assert(n1.address(world, at_d(Rax, 8)) == dst + 8);
        lemma_store(run2, 22, n1, at_d(Rax, 8), Rbx);
        let n2 = n1.store(Width::Quad, dst + 8, n);
        assert(n2.mem == with_lengths(out.mem, dst, chars, n as u64));
        lemma_lengths(out.mem, dst, chars, n as u64);
        lemma_push(run2, 23, n2, Rax);
        let low = (top - 40) as u64;
        let n3 = n2.store(Width::Quad, low as int, dst as int).set(Rsp, low);
        assert forall|p: int| p < low || low + 8 <= p implies #[trigger] (n3.mem)(p) == (n2.mem)(
            p,
        ) by {
            law_word_keeps_bytes(n2.mem, low as int, dst, p);
        }
        law_word_reads_back(n2.mem, low as int, dst);
        assert(n3.address(world, at_d(Rax, 16)) == dst + 16);
        lemma_lea(run2, 24, n3, Rdi, at_d(Rax, 16));
        let n4 = n3.set(Rdi, (dst + 16) as u64);
        lemma_mov(run2, 25, n4, Rcx, Rbx);
        let n5 = n4.set(Rcx, n as u64);
        let n6 = lemma_rep_movsb(run2, 26, n5);
        law_bytes_copied(n5.mem, src as int, dst + 16, n as nat);
        assert forall|p: int| p < dst + 16 || dst + size <= p implies #[trigger] (n6.mem)(p) == (
        n3.mem)(p) by {}
        assert(word_at(n6.mem, low as int) == dst) by {
            law_word_of_bytes(n6.mem, n3.mem, low as int);
        }
        lemma_pop(run2, 27, n6, Rax);
        let n7 = n6.set(Rsp, (top - 32) as u64).set(Rax, dst);
        assert(word_at(n7.mem, dst as int) == chars && word_at(n7.mem, dst + 8) == n) by {
            law_word_of_bytes(n6.mem, n2.mem, dst as int);
            law_word_of_bytes(n6.mem, n2.mem, dst + 8);
        }
        assert(text_at(n7.mem, dst) =~= text) by {
            assert forall|i: int| 0 <= i < n implies text_at(n7.mem, dst)[i] == text[i] by {
                let p = dst + 16 + i;
                let q = src + i;
                assert((n6.mem)(p) == (n5.mem)(src + (p - (dst + 16))));
                assert((n3.mem)(q) == (n2.mem)(q));
                assert((n2.mem)(q) == (out.mem)(q));
                assert((out.mem)(q) == (m.mem)(q));
            }
        }
        assert(filled(out.mem, n7.mem, dst as int, size, top - 40, top)) by {
            assert forall|p: int|
                (p < dst || dst + size <= p) && (p < top - 40 || top <= p) implies #[trigger] (
            n7.mem)(p) == (out.mem)(p) by {
                assert((n3.mem)(p) == (n2.mem)(p));
                assert((n2.mem)(p) == (out.mem)(p));
            }
        }
        lemma_built(world, m, calling, out, n7.mem, blocks, left, size, 40);
        assert forall|p: int| top - 24 <= p < top implies #[trigger] (n7.mem)(p) == (calling.mem)(
            p,
        ) by {
            assert((n3.mem)(p) == (n2.mem)(p));
            assert((n2.mem)(p) == (out.mem)(p));
            assert((out.mem)(p) == (calling.mem)(p));
        }
        lemma_saved_stays(calling.mem, n7.mem, top, regs, m.regs);
        assert(part_of(frame_tail(regs, 8), program, 28));
        let after = lemma_frame_tail(run2, 28, m, n7, regs, 8);
        law_ends_alone(world, program, 21, out, Outcome::Returned(after));
        law_call(
            world,
            program,
            0,
            m,
            Symbol::HeapAlloc,
            21,
            calling,
            out,
            Outcome::Returned(after),
        );
        (after, left)
    } else {
        law_call_traps(world, program, 0, m, Symbol::HeapAlloc, 21, calling, out);
        (out, left)
    }
}

} // verus!
