//! Repeating strings.

use crate::behavior::allocation::{has_room, lemma_alloc_call, spans_apart};
use crate::behavior::building::{
    can_build, filled, lemma_at_the_call, lemma_built, lemma_span_stays,
};
use crate::behavior::heap::volatile;
use crate::behavior::instructions::{
    lemma_begin, lemma_call, lemma_dec, lemma_imul, lemma_jcc, lemma_jmp, lemma_lea, lemma_load,
    lemma_mov, lemma_mov_imm, lemma_rep_movsb, lemma_store, lemma_store_imm, lemma_test, Run,
};
use crate::behavior::routines::{
    among, frame_head, frame_tail, kept_registers, lemma_frame_head, lemma_frame_tail,
    lemma_saved_stays, saved,
};
use crate::behavior::search::{bytes_at, chars_in, lemma_chars_bounded, text_at};
use crate::behavior::strings::{
    builds_string, holds_string, law_chars_add_up, lemma_lengths, string_safe, with_lengths,
};
use crate::linking::{ends_in, law_call, law_call_traps, law_ends_alone};
use crate::machine::{
    comes_to, flags_of_bits, kept, law_bytes_copied, law_kept_bytes_keep_words, part_of, signed,
    word_at, word_span, Machine, Outcome, World,
};
use crate::mnemonics::at_b;
use crate::runtime::strings::str_repeat_program;
use crate::symbols::Symbol;
use crate::x86::{Hop, Reg, Width};
use crate::x86::Cond::{E, G};
use crate::x86::Reg::{R12, R13, R14, R15, Rax, Rbp, Rbx, Rcx, Rdi, Rdx, Rsi, Rsp};
use vstd::prelude::*;

verus! {

/// A text `k` times in a row.
pub open spec fn repeated(text: Seq<u8>, k: int) -> Seq<u8>
    decreases k,
{
    if k <= 0 {
        Seq::empty()
    } else {
        repeated(text, k - 1) + text
    }
}

proof fn lemma_repeated(text: Seq<u8>, k: int)
    requires
        0 <= k,
    ensures
        repeated(text, k).len() == text.len() * k,
        chars_in(repeated(text, k)) == chars_in(text) * k,
    decreases k,
{
    let n = text.len() as int;
    let c = chars_in(text) as int;
    if k > 0 {
        lemma_repeated(text, k - 1);
        law_chars_add_up(repeated(text, k - 1), text);
        assert(n * (k - 1) + n == n * k) by (nonlinear_arith);
        assert(c * (k - 1) + c == c * k) by (nonlinear_arith);
    } else {
        assert(n * 0 == 0 && c * 0 == 0) by (nonlinear_arith);
    }
}

proof fn lemma_repeated_grows(text: Seq<u8>, j: int, k: int)
    requires
        0 <= j <= k,
    ensures
        repeated(text, j).len() <= repeated(text, k).len(),
    decreases k - j,
{
    if j < k {
        lemma_repeated_grows(text, j, k - 1);
    }
}

/// How often a string is repeated: a count that is not positive asks for none.
pub open spec fn times(count: u64) -> int {
    if signed(count) > 0 {
        signed(count)
    } else {
        0
    }
}

/// Whether a string can be repeated.
pub open spec fn can_repeat(world: World, m: Machine, blocks: Seq<u64>, text: Seq<u8>) -> bool {
    &&& can_build(world, m, blocks, 80)
    &&& string_safe(world, m, blocks, m.regs[Rcx], 80)
    &&& 16 + repeated(text, times(m.regs[Rdx])).len() <= u64::MAX / 2
}

/// The copying after `k` times.
#[verifier::rlimit(30)]
proof fn lemma_repeat_from(
    run: Run,
    m0: Machine,
    m: Machine,
    text: Seq<u8>,
    count: int,
    k: int,
) -> (after: Machine)
    requires
        run.program == str_repeat_program(),
        run.at(31, m),
        0 <= k <= count <= i64::MAX,
        ({
            let src = m0.regs[R12] + 16;
            let dst = m0.regs[Rbp] + 16;
            let n = m0.regs[R15];
            let all = repeated(text, count).len() as int;
            let done = repeated(text, k).len() as int;
            &&& n == text.len()
            &&& bytes_at(m0.mem, src, n as int) == text
            &&& src + n < word_span()
            &&& dst + all < word_span()
            &&& spans_apart(src, n as int, dst, all)
            &&& m.regs[R13] == count - k
            &&& m.regs[Rdi] == dst + done
            &&& kept(m0.mem, m.mem, dst, dst + done)
            &&& bytes_at(m.mem, dst, done) == repeated(text, k)
        }),
        forall|reg: Reg|
            reg != Rcx && reg != Rsi && reg != Rdi && reg != R13 ==> #[trigger] m.regs[reg]
                == m0.regs[reg],
    ensures
        run.at(38, after),
        ({
            let dst = m0.regs[Rbp] + 16;
            let all = repeated(text, count).len() as int;
            &&& kept(m0.mem, after.mem, dst, dst + all)
            &&& bytes_at(after.mem, dst, all) == repeated(text, count)
        }),
        forall|reg: Reg|
            reg != Rcx && reg != Rsi && reg != Rdi && reg != R13 ==> #[trigger] after.regs[reg]
                == m0.regs[reg],
    decreases count - k,
{
    let src = m0.regs[R12] + 16;
    let dst = m0.regs[Rbp] + 16;
    let n = m0.regs[R15];
    let all = repeated(text, count).len() as int;
    let done = repeated(text, k).len() as int;
    assert(run.program.len() == 49);
    assert(m.regs[R12] == m0.regs[R12] && m.regs[R15] == n);
    lemma_test(run, 31, m, R13);
    let m1 = m.flagged(flags_of_bits(Width::Quad, count - k));
    lemma_jcc(run, 32, m1, E, false, Hop::Forward(6));
    if k == count {
        m1
    } else {
        lemma_repeated_grows(text, k, count);
        lemma_repeated_grows(text, k + 1, count);
        assert(repeated(text, k + 1) =~= repeated(text, k) + text);
        assert(m1.address(run.world, at_b(R12, 16)) == src);
        lemma_lea(run, 33, m1, Rsi, at_b(R12, 16));
        let m2 = m1.set(Rsi, src as u64);
        lemma_mov(run, 34, m2, Rcx, R15);
        let m3 = m2.set(Rcx, n);
        let m4 = lemma_rep_movsb(run, 35, m3);
        law_bytes_copied(m3.mem, src, dst + done, n as nat);
        let m5 = lemma_dec(run, 36, m4, R13);
        lemma_jmp(run, 37, m5, false, Hop::Back(6));
        let now = bytes_at(m5.mem, dst, done + n);
        let want = repeated(text, k + 1);
        assert forall|i: int| 0 <= i < done + n implies now[i] == want[i] by {
            let p = dst + i;
            if i < done {
                assert((m4.mem)(p) == (m3.mem)(p));
                assert(bytes_at(m.mem, dst, done)[i] == (m.mem)(p));
            } else {
                let q = src + (i - done);
                assert((m4.mem)(p) == (m3.mem)(src + (p - (dst + done))));
                assert((m.mem)(q) == (m0.mem)(q));
                assert(bytes_at(m0.mem, src, n as int)[i - done] == (m0.mem)(q));
            }
        }
        assert(now =~= want);
        assert forall|p: int| p < dst || dst + done + n <= p implies #[trigger] (m5.mem)(p) == (
        m0.mem)(p) by {
            assert((m4.mem)(p) == (m3.mem)(p));
        }
        lemma_repeat_from(run, m0, m5, text, count, k + 1)
    }
}

/// The empty string.
#[verifier::rlimit(40)]
proof fn lemma_repeat_none(world: World, m: Machine, blocks: Seq<u64>, text: Seq<u8>) -> (end: (
    Machine,
    Seq<u64>,
))
    requires
        can_repeat(world, m, blocks, text),
        signed(m.regs[Rdx]) <= 0,
    ensures
        ({
            let (after, left) = end;
            let program = str_repeat_program();
            let room = has_room(world, m.mem, blocks, 16);
            &&& room ==> builds_string(
                world,
                program,
                m,
                after,
                blocks,
                left,
                Seq::empty(),
                80,
            )
            &&& !room ==> ends_in(world, program, 0, m, Outcome::Trapped(after))
        }),
{
    let program = str_repeat_program();
    let run = Run { world, program, start: 0, before: m };
    let regs = kept_registers();
    let top = m.regs[Rsp] as int;
    assert(program.len() == 49);
    assert(part_of(frame_head(regs, 8), program, 0));
    assert(regs[0] == Rbx && regs[1] == Rbp && regs[2] == Rsi && regs[3] == Rdi && regs[4] == R12
        && regs[5] == R13 && regs[6] == R14 && regs[7] == R15);
    let m1 = lemma_frame_head(run, m, regs, 8);
    lemma_test(run, 9, m1, Rdx);
    let m2 = m1.flagged(flags_of_bits(Width::Quad, m.regs[Rdx] as int));
    lemma_jcc(run, 10, m2, G, false, Hop::Forward(6));
    lemma_mov_imm(run, 11, m2, Rcx, 16);
    let calling = m2.set(Rcx, 16);
    lemma_call(run, 12, calling, Symbol::HeapAlloc);
    lemma_at_the_call(world, m, calling, blocks, 80, 16);
    let (out, left) = lemma_alloc_call(world, program, 13, calling, blocks);
    if has_room(world, m.mem, blocks, 16) {
        let dst = out.regs[Rax];
        lemma_span_stays(world, m, calling, out, blocks, left, 16, 80, top - 80, 80);
        let run2 = Run { world, program, start: 13, before: out };
        lemma_begin(run2);
        assert(out.address(world, at_b(Rax, 0)) == dst);
        lemma_store_imm(run2, 13, out, at_b(Rax, 0), 0);
        let n1 = out.store(Width::Quad, dst as int, 0);
        assert(n1.address(world, at_b(Rax, 8)) == dst + 8);
        lemma_store_imm(run2, 14, n1, at_b(Rax, 8), 0);
        let n2 = n1.store(Width::Quad, dst + 8, 0);
        assert(n2.mem == with_lengths(out.mem, dst, 0, 0));
        lemma_lengths(out.mem, dst, 0, 0);
        lemma_jmp(run2, 15, n2, false, Hop::Forward(24));
        assert(text_at(n2.mem, dst) =~= Seq::empty());
        lemma_built(world, m, calling, out, n2.mem, blocks, left, 16, 80);
        assert forall|p: int| top - 64 <= p < top implies #[trigger] (n2.mem)(p) == (calling.mem)(
            p,
        ) by {
            assert((n2.mem)(p) == (out.mem)(p));
            assert((out.mem)(p) == (calling.mem)(p));
        }
        lemma_saved_stays(calling.mem, n2.mem, top, regs, m.regs);
        assert(part_of(frame_tail(regs, 8), program, 39));
        let after = lemma_frame_tail(run2, 39, m, n2, regs, 8);
        law_ends_alone(world, program, 13, out, Outcome::Returned(after));
        law_call(
            world,
            program,
            0,
            m,
            Symbol::HeapAlloc,
            13,
            calling,
            out,
            Outcome::Returned(after),
        );
        (after, left)
    } else {
        law_call_traps(world, program, 0, m, Symbol::HeapAlloc, 13, calling, out);
        (out, left)
    }
}

/// Repeating at least once: up to the call.
#[verifier::rlimit(30)]
proof fn lemma_repeat_call(world: World, m: Machine, blocks: Seq<u64>, text: Seq<u8>) -> (calling:
    Machine)
    requires
        can_repeat(world, m, blocks, text),
        holds_string(m.mem, m.regs[Rcx], text),
        signed(m.regs[Rdx]) > 0,
    ensures
        comes_to(
            world,
            str_repeat_program(),
            0,
            m,
            Outcome::Called(Symbol::HeapAlloc, 25, calling),
        ),
        ({
            let top = m.regs[Rsp] as int;
            let bytes = repeated(text, signed(m.regs[Rdx])).len();
            &&& calling.regs[Rcx] == 16 + bytes
            &&& calling.regs[Rbx] == bytes
            &&& calling.regs[R12] == m.regs[Rcx]
            &&& calling.regs[R13] == m.regs[Rdx]
            &&& calling.regs[R14] == chars_in(text)
            &&& calling.regs[R15] == text.len()
            &&& calling.regs[Rsp] == top - 72
            &&& kept(m.mem, calling.mem, top - 80, top)
            &&& saved(calling.mem, top, kept_registers(), m.regs)
            &&& forall|reg: Reg|
                !volatile(reg) && reg != Rsp && !among(reg, kept_registers())
                    ==> #[trigger] calling.regs[reg] == m.regs[reg]
        }),
{
    let program = str_repeat_program();
    let run = Run { world, program, start: 0, before: m };
    let regs = kept_registers();
    let src = m.regs[Rcx];
    let top = m.regs[Rsp] as int;
    let count = signed(m.regs[Rdx]);
    let n = text.len() as int;
    let bytes = repeated(text, count).len() as int;
    assert(program.len() == 49);
    assert(part_of(frame_head(regs, 8), program, 0));
    assert(regs[0] == Rbx && regs[1] == Rbp && regs[2] == Rsi && regs[3] == Rdi && regs[4] == R12
        && regs[5] == R13 && regs[6] == R14 && regs[7] == R15);
    let m1 = lemma_frame_head(run, m, regs, 8);
    law_kept_bytes_keep_words(m.mem, m1.mem, top - 64, top, src as int);
    law_kept_bytes_keep_words(m.mem, m1.mem, top - 64, top, src + 8);
    lemma_test(run, 9, m1, Rdx);
    let m2 = m1.flagged(flags_of_bits(Width::Quad, m.regs[Rdx] as int));
    lemma_jcc(run, 10, m2, G, false, Hop::Forward(6));
    lemma_mov(run, 16, m2, R12, Rcx);
    let m3 = m2.set(R12, src);
    lemma_mov(run, 17, m3, R13, Rdx);
    let m4 = m3.set(R13, m.regs[Rdx]);
    assert(m4.address(world, at_b(Rcx, 0)) == src);
    lemma_load(run, 18, m4, R14, at_b(Rcx, 0));
    let m5 = m4.set(R14, word_at(m.mem, src as int));
    assert(m5.address(world, at_b(Rcx, 8)) == src + 8);
    lemma_load(run, 19, m5, R15, at_b(Rcx, 8));
    let m6 = m5.set(R15, n as u64);
    lemma_mov(run, 20, m6, Rax, R15);
    let m7 = m6.set(Rax, n as u64);
    lemma_repeated(text, count);
    lemma_repeated_grows(text, 1, count);
    assert(repeated(text, 0) =~= Seq::empty());
    assert(repeated(text, 1) =~= text);
    assert(n <= bytes);
    let m8 = lemma_imul(run, 21, m7, Rax, R13);
    assert(signed(n as u64) == n);
    assert(m8.regs[Rax] == bytes);
    lemma_mov(run, 22, m8, Rbx, Rax);
    let m9 = m8.set(Rbx, bytes as u64);
    assert(m9.address(world, at_b(Rax, 16)) == bytes + 16);
    lemma_lea(run, 23, m9, Rcx, at_b(Rax, 16));
    let calling = m9.set(Rcx, (bytes + 16) as u64);
    lemma_call(run, 24, calling, Symbol::HeapAlloc);
    calling
}

/// Repeating at least once.
#[verifier::rlimit(60)]
proof fn lemma_repeat_some(world: World, m: Machine, blocks: Seq<u64>, text: Seq<u8>) -> (end: (
    Machine,
    Seq<u64>,
))
    requires
        can_repeat(world, m, blocks, text),
        holds_string(m.mem, m.regs[Rcx], text),
        signed(m.regs[Rdx]) > 0,
    ensures
        ({
            let (after, left) = end;
            let program = str_repeat_program();
            let all = repeated(text, signed(m.regs[Rdx]));
            let room = has_room(world, m.mem, blocks, 16 + all.len() as int);
            &&& room ==> builds_string(world, program, m, after, blocks, left, all, 80)
            &&& !room ==> ends_in(world, program, 0, m, Outcome::Trapped(after))
        }),
{
    let program = str_repeat_program();
    let regs = kept_registers();
    let src = m.regs[Rcx];
    let top = m.regs[Rsp] as int;
    let count = signed(m.regs[Rdx]);
    let n = text.len() as int;
    let all = repeated(text, count);
    let bytes = all.len() as int;
    let size = 16 + bytes;
    assert(program.len() == 49);
    assert(regs[0] == Rbx && regs[1] == Rbp && regs[2] == Rsi && regs[3] == Rdi && regs[4] == R12
        && regs[5] == R13 && regs[6] == R14 && regs[7] == R15);
    let calling = lemma_repeat_call(world, m, blocks, text);
    lemma_at_the_call(world, m, calling, blocks, 80, size);
    let (out, left) = lemma_alloc_call(world, program, 25, calling, blocks);
    if has_room(world, m.mem, blocks, size) {
        let dst = out.regs[Rax];
        lemma_span_stays(world, m, calling, out, blocks, left, size, 80, src as int, 16 + n);
        lemma_repeated(text, count);
        lemma_chars_bounded(text);
        lemma_chars_bounded(all);
        let c = chars_in(text);
        let chars = chars_in(all) as u64;
        let run = Run { world, program, start: 25, before: out };
        lemma_begin(run);
        assert(out.regs[Rbx] == bytes && out.regs[R12] == src && out.regs[R13] == m.regs[Rdx]
            && out.regs[R14] == c && out.regs[R15] == n);
        lemma_mov(run, 25, out, Rbp, Rax);
        let n1 = out.set(Rbp, dst);
        lemma_mov(run, 26, n1, Rax, R14);
        let n2 = n1.set(Rax, c as u64);
        let n3 = lemma_imul(run, 27, n2, Rax, R13);
        lemma_repeated_grows(text, 1, count);
        assert(repeated(text, 0) =~= Seq::empty());
        assert(repeated(text, 1) =~= text);
        assert(signed(c as u64) == c);
        assert(n3.regs[Rax] == chars);
        assert(n3.address(world, at_b(Rbp, 0)) == dst);
        lemma_store(run, 28, n3, at_b(Rbp, 0), Rax);
        let n4 = n3.store(Width::Quad, dst as int, chars as int);
        assert(n4.address(world, at_b(Rbp, 8)) == dst + 8);
        lemma_store(run, 29, n4, at_b(Rbp, 8), Rbx);
        let n5 = n4.store(Width::Quad, dst + 8, bytes);
        assert(n5.mem == with_lengths(out.mem, dst, chars, bytes as u64));
        lemma_lengths(out.mem, dst, chars, bytes as u64);
        assert(n5.address(world, at_b(Rbp, 16)) == dst + 16);
        lemma_lea(run, 30, n5, Rdi, at_b(Rbp, 16));
        let n6 = n5.set(Rdi, (dst + 16) as u64);
        assert(bytes_at(n6.mem, src + 16, n) =~= text) by {
            assert forall|i: int| 0 <= i < n implies bytes_at(n6.mem, src + 16,
                n)[i] == text[i] by {
                let q = src + 16 + i;
                assert((n5.mem)(q) == (out.mem)(q));
                assert((out.mem)(q) == (m.mem)(q));
                assert(text_at(m.mem, src)[i] == (m.mem)(q));
            }
        }
        assert(bytes_at(n6.mem, dst + 16, 0) =~= repeated(text, 0));
        let n7 = lemma_repeat_from(run, n6, n6, text, count, 0);
        lemma_mov(run, 38, n7, Rax, Rbp);
        let n8 = n7.set(Rax, dst);
        law_kept_bytes_keep_words(n6.mem, n8.mem, dst + 16, dst + size, dst as int);
        law_kept_bytes_keep_words(n6.mem, n8.mem, dst + 16, dst + size, dst + 8);
        assert(text_at(n8.mem, dst) == all);
        assert(filled(out.mem, n8.mem, dst as int, size, top - 80, top)) by {
            assert forall|p: int| p < dst || dst + size <= p implies #[trigger] (n8.mem)(p) == (
            out.mem)(p) by {
                assert((n6.mem)(p) == (out.mem)(p));
            }
        }
        lemma_built(world, m, calling, out, n8.mem, blocks, left, size, 80);
        assert forall|p: int| top - 64 <= p < top implies #[trigger] (n8.mem)(p) == (calling.mem)(
            p,
        ) by {
            assert((n6.mem)(p) == (out.mem)(p));
            assert((out.mem)(p) == (calling.mem)(p));
        }
        lemma_saved_stays(calling.mem, n8.mem, top, regs, m.regs);
        assert(part_of(frame_tail(regs, 8), program, 39));
        assert forall|reg: Reg|
            !volatile(reg) && reg != Rsp && !among(reg, regs) implies #[trigger] n8.regs[reg]
            == m.regs[reg] by {
            assert(n7.regs[reg] == n6.regs[reg]);
        }
        let after = lemma_frame_tail(run, 39, m, n8, regs, 8);
        law_ends_alone(world, program, 25, out, Outcome::Returned(after));
        law_call(
            world,
            program,
            0,
            m,
            Symbol::HeapAlloc,
            25,
            calling,
            out,
            Outcome::Returned(after),
        );
        (after, left)
    } else {
        law_call_traps(world, program, 0, m, Symbol::HeapAlloc, 25, calling, out);
        (out, left)
    }
}

/// `repeat` gives a fresh string with the text as many times in a row as the count says, and
/// the empty string for a count that is not positive; without room it traps.
pub proof fn law_str_repeat(world: World, m: Machine, blocks: Seq<u64>, text: Seq<u8>) -> (end: (
    Machine,
    Seq<u64>,
))
    requires
        can_repeat(world, m, blocks, text),
        holds_string(m.mem, m.regs[Rcx], text),
    ensures
        ({
            let (after, left) = end;
            let program = str_repeat_program();
            let all = repeated(text, times(m.regs[Rdx]));
            let room = has_room(world, m.mem, blocks, 16 + all.len() as int);
            &&& room ==> builds_string(world, program, m, after, blocks, left, all, 80)
            &&& !room ==> ends_in(world, program, 0, m, Outcome::Trapped(after))
        }),
{
    if signed(m.regs[Rdx]) > 0 {
        lemma_repeat_some(world, m, blocks, text)
    } else {
        lemma_repeat_none(world, m, blocks, text)
    }
}

} // verus!
