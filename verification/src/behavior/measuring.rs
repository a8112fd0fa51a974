//! Measuring C strings.

use crate::behavior::allocation::{has_room, lemma_alloc_call, spans_apart};
use crate::behavior::building::{
    builds, can_build, filled, lemma_at_the_call, lemma_built, lemma_span_stays, span_safe,
};
use crate::behavior::heap::{came_back, volatile};
use crate::behavior::instructions::{
    lemma_begin, lemma_call, lemma_inc, lemma_jcc, lemma_jmp, lemma_lea, lemma_load_b, lemma_mov,
    lemma_pop, lemma_push, lemma_rep_movsb, lemma_test_b, lemma_zero, Run,
};
use crate::behavior::routines::{
    among, frame_head, frame_tail, lemma_frame_head, lemma_frame_tail, lemma_saved_stays,
};
use crate::behavior::search::bytes_at;
use crate::behavior::strings::{cstr_saves, terminated};
use crate::linking::{ends_in, law_call, law_call_traps, law_ends_alone};
use crate::machine::{
    flags_of_bits, law_bytes_copied, law_word_keeps_bytes, law_word_of_bytes, law_word_reads_back,
    part_of, word_span, Machine, Outcome, World,
};
use crate::mnemonics::{at, at_b, index};
use crate::runtime::heap::heap_strlen_program;
use crate::symbols::Symbol;
use crate::x86::{Hop, Reg, Width};
use crate::x86::Cond::E;
use crate::x86::Reg::{Rax, Rbx, Rcx, Rdi, Rdx, Rsi, Rsp};
use vstd::prelude::*;

verus! {

/// The scan of the source, after `j` bytes.
proof fn lemma_measure(run: Run, m0: Machine, m: Machine, src: u64, n: int, j: int) -> (after:
    Machine)
    requires
        run.program == heap_strlen_program(),
        run.at(7, m),
        m.mem == m0.mem,
        terminated(m0.mem, src as int, n),
        src + n < word_span(),
        0 <= j <= n,
        m.regs[Rax] == src + j,
        m.regs[Rbx] == j,
        forall|reg: Reg|
            reg != Rax && reg != Rbx && reg != Rcx ==> #[trigger] m.regs[reg] == m0.regs[reg],
    ensures
        run.at(13, after),
        after.mem == m0.mem,
        after.regs[Rbx] == n,
        forall|reg: Reg|
            reg != Rax && reg != Rbx && reg != Rcx ==> #[trigger] after.regs[reg] == m0.regs[reg],
    decreases n - j,
{
    assert(run.program.len() == 32);
    assert(m.address(run.world, at(Rax)) == src + j);
    let m1 = lemma_load_b(run, 7, m, Rcx, at(Rax));
    lemma_test_b(run, 8, m1, Rcx);
    let m2 = m1.flagged(flags_of_bits(Width::Byte, m1.regs[Rcx] as int % 256));
    lemma_jcc(run, 9, m2, E, true, Hop::Forward(4));
    if j == n {
        m2
    } else {
        assert((m.mem)(src + j) != 0);
        let m3 = lemma_inc(run, 10, m2, Rax);
        let m4 = lemma_inc(run, 11, m3, Rbx);
        lemma_jmp(run, 12, m4, true, Hop::Back(5));
        lemma_measure(run, m0, m4, src, n, j + 1)
    }
}

/// The scan of the copy, after `j` bytes.
proof fn lemma_remeasure(run: Run, m0: Machine, m: Machine, dst: u64, n: int, j: int) -> (after:
    Machine)
    requires
        run.program == heap_strlen_program(),
        run.at(22, m),
        m.mem == m0.mem,
        terminated(m0.mem, dst as int, n),
        dst + n < word_span(),
        0 <= j <= n,
        m.regs[Rdx] == dst,
        m.regs[Rax] == j,
        forall|reg: Reg| reg != Rax && reg != Rcx ==> #[trigger] m.regs[reg] == m0.regs[reg],
    ensures
        run.at(27, after),
        after.mem == m0.mem,
        after.regs[Rax] == n,
        forall|reg: Reg| reg != Rax && reg != Rcx ==> #[trigger] after.regs[reg] == m0.regs[reg],
    decreases n - j,
{
    assert(run.program.len() == 32);
    assert(m.address(run.world, index(Rdx, Rax)) == dst + j);
    let m1 = lemma_load_b(run, 22, m, Rcx, index(Rdx, Rax));
    lemma_test_b(run, 23, m1, Rcx);
    let m2 = m1.flagged(flags_of_bits(Width::Byte, m1.regs[Rcx] as int % 256));
    lemma_jcc(run, 24, m2, E, true, Hop::Forward(3));
    if j == n {
        m2
    } else {
        assert((m.mem)(dst + j) != 0);
        let m3 = lemma_inc(run, 25, m2, Rax);
        lemma_jmp(run, 26, m3, true, Hop::Back(4));
        lemma_remeasure(run, m0, m3, dst, n, j + 1)
    }
}

/// The registers and memory that hold the heap's copy, before it is measured.
#[verifier::rlimit(40)]
proof fn lemma_heap_copy(
    run: Run,
    out: Machine,
    src: u64,
    dst: u64,
    n: int,
    top: int,
) -> (after: Machine)
    requires
        run.program == heap_strlen_program(),
        run.start == 15,
        run.before == out,
        out.regs[Rax] == dst,
        out.regs[Rsi] == src,
        out.regs[Rbx] == n,
        out.regs[Rsp] == top - 56,
        64 <= top,
        0 <= n,
        src + n < word_span(),
        dst + n + 1 < word_span(),
        spans_apart(src as int, n + 1, dst as int, n + 1),
        spans_apart(top - 64, 8, dst as int, n + 1),
        spans_apart(top - 64, 8, src as int, n + 1),
    ensures
        run.at(22, after),
        after.regs[Rdx] == dst,
        after.regs[Rax] == 0,
        after.regs[Rsp] == top - 56,
        filled(out.mem, after.mem, dst as int, n + 1, top - 64, top - 56),
        bytes_at(after.mem, dst as int, n + 1) == bytes_at(out.mem, src as int, n + 1),
        forall|reg: Reg|
            !volatile(reg) && reg != Rsp && reg != Rsi && reg != Rdi
                ==> #[trigger] after.regs[reg] == out.regs[reg],
{
    lemma_begin(run);
    assert(run.program.len() == 32);
    lemma_mov(run, 15, out, Rdi, Rax);
    let m1 = out.set(Rdi, dst);
    lemma_push(run, 16, m1, Rax);
    let low = (top - 64) as u64;
    let m2 = m1.store(Width::Quad, low as int, dst as int).set(Rsp, low);
    assert forall|p: int| p < low
        || low + 8 <= p implies #[trigger] (m2.mem)(p) == (out.mem)(p) by {
        law_word_keeps_bytes(out.mem, low as int, dst, p);
    }
    law_word_reads_back(out.mem, low as int, dst);
    lemma_mov(run, 17, m2, Rcx, Rbx);
    let m3 = m2.set(Rcx, n as u64);
    let m4 = lemma_inc(run, 18, m3, Rcx);
    let m5 = lemma_rep_movsb(run, 19, m4);
    law_bytes_copied(m4.mem, src as int, dst as int, (n + 1) as nat);
    law_word_of_bytes(m5.mem, m2.mem, low as int);
    lemma_pop(run, 20, m5, Rdx);
    let m6 = m5.set(Rsp, (top - 56) as u64).set(Rdx, dst);
    let after = lemma_zero(run, 21, m6, Rax);
    let size = n + 1;
    let copy = bytes_at(after.mem, dst as int, size);
    let original = bytes_at(out.mem, src as int, size);
    assert forall|i: int| 0 <= i < size implies #[trigger] copy[i] == original[i] by {
        let p = dst + i;
        assert((m5.mem)(p) == (m4.mem)(src + (p - dst)));
        assert((m2.mem)(src + i) == (out.mem)(src + i));
    }
    assert(copy =~= original);
    assert forall|p: int|
        (p < dst || dst + (n + 1) <= p) && (p < top - 64 || top - 56 <= p) implies #[trigger] (
    after.mem)(p) == (out.mem)(p) by {
        assert((m5.mem)(p) == (m4.mem)(p));
        assert((m2.mem)(p) == (out.mem)(p));
    }
    after
}

/// `heap_strlen` copies a C string to the heap, zero and all, and gives its length; without
/// room it traps. The third part of what this gives is where the copy stands.
#[verifier::rlimit(40)]
pub proof fn law_heap_strlen(world: World, m: Machine, blocks: Seq<u64>, n: int) -> (end: (
    Machine,
    Seq<u64>,
    u64,
))
    requires
        can_build(world, m, blocks, 64),
        terminated(m.mem, m.regs[Rcx] as int, n),
        span_safe(world, m, blocks, m.regs[Rcx] as int, n + 1, 64),
        n < u64::MAX / 2,
    ensures
        ({
            let (after, left, copy) = end;
            let program = heap_strlen_program();
            let room = has_room(world, m.mem, blocks, n + 1);
            &&& room ==> {
                &&& ends_in(world, program, 0, m, Outcome::Returned(after))
                &&& came_back(m, after)
                &&& after.regs[Rax] == n
                &&& builds(world, m, after.mem, blocks, left, n + 1, copy, 64)
                &&& bytes_at(after.mem, copy as int, n + 1) == bytes_at(
                    m.mem,
                    m.regs[Rcx] as int,
                    n + 1,
                )
            }
            &&& !room ==> ends_in(world, program, 0, m, Outcome::Trapped(after))
        }),
{
    let program = heap_strlen_program();
    let run = Run { world, program, start: 0, before: m };
    let regs = cstr_saves();
    let src = m.regs[Rcx];
    let top = m.regs[Rsp] as int;
    let size = n + 1;
    assert(program.len() == 32);
    assert(regs[0] == Rsi && regs[1] == Rdi && regs[2] == Rbx);
    assert(part_of(frame_head(regs, 32), program, 0));
    let m1 = lemma_frame_head(run, m, regs, 32);
    lemma_mov(run, 4, m1, Rsi, Rcx);
    let m2 = m1.set(Rsi, src);
    lemma_mov(run, 5, m2, Rax, Rsi);
    let m3 = m2.set(Rax, src);
    let m4 = lemma_zero(run, 6, m3, Rbx);
    assert(terminated(m4.mem, src as int, n)) by {
        assert forall|p: int| src <= p <= src + n implies #[trigger] (m4.mem)(p) == (m.mem)(p) by {}
        assert((m4.mem)(src + n) == 0);
    }
    let m5 = lemma_measure(run, m4, m4, src, n, 0);
    assert(m5.address(world, at_b(Rbx, 1)) == size);
    lemma_lea(run, 13, m5, Rcx, at_b(Rbx, 1));
    let calling = m5.set(Rcx, size as u64);
    lemma_call(run, 14, calling, Symbol::HeapAlloc);
    assert(m5.regs[Rsp] == m4.regs[Rsp] && m5.regs[Rsi] == m4.regs[Rsi]);
    lemma_at_the_call(world, m, calling, blocks, 64, size);
    let (out, left) = lemma_alloc_call(world, program, 15, calling, blocks);
    if has_room(world, m.mem, blocks, size) {
        let dst = out.regs[Rax];
        lemma_span_stays(world, m, calling, out, blocks, left, size, 64, src as int, size);
        let run2 = Run { world, program, start: 15, before: out };
        assert(out.regs[Rsi] == src && out.regs[Rbx] == n && out.regs[Rsp] == top - 56);
        let n1 = lemma_heap_copy(run2, out, src, dst, n, top);
        assert(bytes_at(out.mem, src as int, size) =~= bytes_at(m.mem, src as int, size));
        let bytes = bytes_at(m.mem, src as int, size);
        assert(terminated(n1.mem, dst as int, n)) by {
            assert forall|p: int| dst <= p < dst + n implies #[trigger] (n1.mem)(p) != 0 by {
                assert((n1.mem)(dst + (p - dst)) == bytes_at(n1.mem, dst as int, size)[p - dst]);
                assert(bytes[p - dst] == (m.mem)(src + (p - dst)));
            }
            assert((n1.mem)(dst + n) == bytes_at(n1.mem, dst as int, size)[n]);
            assert(bytes[n] == (m.mem)(src + n));
        }
        let n2 = lemma_remeasure(run2, n1, n1, dst, n, 0);
        assert(filled(out.mem, n2.mem, dst as int, size, top - 64, top));
        lemma_built(world, m, calling, out, n2.mem, blocks, left, size, 64);
        assert forall|p: int| top - 24 <= p < top implies #[trigger] (n2.mem)(p) == (calling.mem)(
            p,
        ) by {
            assert((out.mem)(p) == (calling.mem)(p));
        }
        lemma_saved_stays(calling.mem, n2.mem, top, regs, m.regs);
        assert(part_of(frame_tail(regs, 32), program, 27));
        assert forall|reg: Reg|
            !volatile(reg) && reg != Rsp && !among(reg, regs) implies #[trigger] n2.regs[reg]
            == m.regs[reg] by {
            assert(n2.regs[reg] == n1.regs[reg]);
            assert(m5.regs[reg] == m4.regs[reg]);
        }
        assert(n2.regs[Rsp] == n1.regs[Rsp]);
        let after = lemma_frame_tail(run2, 27, m, n2, regs, 32);
        law_ends_alone(world, program, 15, out, Outcome::Returned(after));
        law_call(
            world,
            program,
            0,
            m,
            Symbol::HeapAlloc,
            15,
            calling,
            out,
            Outcome::Returned(after),
        );
        (after, left, dst)
    } else {
        law_call_traps(world, program, 0, m, Symbol::HeapAlloc, 15, calling, out);
        (out, left, 0)
    }
}

} // verus!
