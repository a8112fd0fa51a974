//! Vectorized minima and maxima: the packed path and the scalar path give what the plain
//! loop gives, whichever the processor takes.

use crate::behavior::frames::slot_at;
use crate::behavior::guards::{
    law_comparisons_order, law_guarded_programs_trap, law_loop_bounds_guard, traps,
};
use crate::behavior::instructions::{
    lemma_alu, lemma_begin, lemma_cmov, lemma_cpuid, lemma_jcc, lemma_jmp, lemma_load, lemma_mov,
    lemma_mov_d, lemma_movdqu_load, lemma_movq, lemma_movq_to, lemma_part, lemma_pop, lemma_psrldq,
    lemma_push, lemma_set_q, lemma_sse, lemma_store, lemma_test_acc, Run,
};
use crate::behavior::loops::{
    acc_word, array_at, can_hold, element_at, elements, lemma_element_addr, lemma_load_elem,
    lemma_pair_head, lemma_signed_sum, lemma_single_head, lemma_tail, loop_apart, range_len,
};
use crate::lanes::{
    extreme, extreme_in_lanes, extreme_in_order, extreme_lanes, law_two_lanes_find_the_same_extreme,
};
use crate::machine::{
    apart, flags_of_bits, flags_of_difference, flows, greater_mask, law_word_keeps_others,
    law_word_reads_back, part_of, signed, word_at, word_span, wrap, Machine, World,
};
use crate::mnemonics::{at, frame, jmp};
use crate::vector_loops::{
    cpuid_probe, element_addr, load_array_elem, minmax_packed_path, minmax_program,
    minmax_scalar_loop, pair_loop, single_loop, MinMaxReduction, SSE42_BIT,
};
use crate::vectorize::{loop_bounds_guard, movdqu_from_rcx, MinMaxOp};
use crate::x86::{Alu, Hop, Insn, Reg, Sse, Width};
use crate::x86::Cond::E;
use crate::x86::Reg::{Rax, Rbp, Rbx, Rcx, Rdx, Rsp};
use crate::x86::Xmm::{Xmm0, Xmm1, Xmm2, Xmm3};
use vstd::prelude::*;

verus! {

/// A word as an integer.
pub open spec fn int_of(word: u64) -> i64 {
    signed(word) as i64
}

/// The extreme of two words.
pub open spec fn extreme_word(op: MinMaxOp, a: u64, b: u64) -> u64 {
    match op {
        MinMaxOp::Max => if signed(a) < signed(b) {
            b
        } else {
            a
        },
        MinMaxOp::Min => if signed(a) > signed(b) {
            b
        } else {
            a
        },
    }
}

/// The integers that words stand for.
pub open spec fn ints(words: Seq<u64>) -> Seq<i64> {
    words.map_values(|w: u64| int_of(w))
}

proof fn lemma_extreme_word(op: MinMaxOp, a: u64, b: u64)
    ensures
        int_of(extreme_word(op, a, b)) == extreme(op, int_of(a), int_of(b)),
{
}

/// A mask picks one of two words.
proof fn lemma_mask_picks(mask: u64, x: u64, y: u64)
    requires
        mask == 0 || mask == 0xFFFF_FFFF_FFFF_FFFF,
    ensures
        (mask & x) | (!mask & y) == if mask == 0 {
            y
        } else {
            x
        },
{
    assert((0u64 & x) | (!0u64 & y) == y) by (bit_vector);
    assert((0xFFFF_FFFF_FFFF_FFFFu64 & x) | (!0xFFFF_FFFF_FFFF_FFFFu64 & y) == x) by (bit_vector);
}

/// The packed combination picks the extreme in each lane.
proof fn lemma_packed(run: Run, op: MinMaxOp, pc: int, m: Machine) -> (after: Machine)
    requires
        part_of(op.packed(), run.program, pc),
        run.at(pc, m),
    ensures
        run.at(pc + 7, after),
        after.regs == m.regs,
        after.mem == m.mem,
        after.xmms[Xmm0] == (
            extreme_word(op, m.xmms[Xmm0].0, m.xmms[Xmm1].0),
            extreme_word(op, m.xmms[Xmm0].1, m.xmms[Xmm1].1),
        ),
{
    let part = op.packed();
    assert(run.program[pc] == part[0]);
    assert(run.program[pc + 1] == part[1]);
    assert(run.program[pc + 2] == part[2]);
    assert(run.program[pc + 3] == part[3]);
    assert(run.program[pc + 4] == part[4]);
    assert(run.program[pc + 5] == part[5]);
    assert(run.program[pc + 6] == part[6]);
    let a = m.xmms[Xmm0];
    let b = m.xmms[Xmm1];
    let mask = (greater_mask(a.0, b.0), greater_mask(a.1, b.1));
    let (greater, other) = match op {
        MinMaxOp::Max => (Xmm0, Xmm1),
        MinMaxOp::Min => (Xmm1, Xmm0),
    };
    let x = m.xmms[greater];
    let y = m.xmms[other];
    let m1 = m.set_lanes(Xmm2, a);
    let m2 = m1.set_lanes(Xmm2, mask);
    let m3 = m2.set_lanes(Xmm3, mask);
    let m4 = m3.set_lanes(Xmm3, (mask.0 & x.0, mask.1 & x.1));
    let m5 = m4.set_lanes(Xmm2, (!mask.0 & y.0, !mask.1 & y.1));
    let picked = ((mask.0 & x.0) | (!mask.0 & y.0), (mask.1 & x.1) | (!mask.1 & y.1));
    let m6 = m5.set_lanes(Xmm3, picked);
    let m7 = m6.set_lanes(Xmm0, picked);
    lemma_sse(run, pc, m, Sse::Movdqa, Xmm2, Xmm0);
    lemma_sse(run, pc + 1, m1, Sse::Pcmpgtq, Xmm2, Xmm1);
    lemma_sse(run, pc + 2, m2, Sse::Movdqa, Xmm3, Xmm2);
    lemma_sse(run, pc + 3, m3, Sse::Pand, Xmm3, greater);
    lemma_sse(run, pc + 4, m4, Sse::Pandn, Xmm2, other);
    lemma_sse(run, pc + 5, m5, Sse::Por, Xmm3, Xmm2);
    lemma_sse(run, pc + 6, m6, Sse::Movdqa, Xmm0, Xmm3);
    lemma_mask_picks(mask.0, x.0, y.0);
    lemma_mask_picks(mask.1, x.1, y.1);
    m7
}

/// The scalar combination picks the extreme of `rax` and `rcx`.
proof fn lemma_scalar(run: Run, op: MinMaxOp, pc: int, m: Machine) -> (after: Machine)
    requires
        part_of(op.scalar(), run.program, pc),
        run.at(pc, m),
    ensures
        run.at(pc + 2, after),
        after.regs[Rax] == extreme_word(op, m.regs[Rax], m.regs[Rcx]),
        after.mem == m.mem,
        after.xmms == m.xmms,
        forall|reg: Reg| reg != Rax ==> #[trigger] after.regs[reg] == m.regs[reg],
{
    let part = op.scalar();
    assert(run.program[pc] == part[0]);
    assert(run.program[pc + 1] == part[1]);
    let a = m.regs[Rax];
    let b = m.regs[Rcx];
    let m1 = m.flagged(flags_of_difference(Width::Quad, a as int, b as int));
    lemma_alu(run, pc, m, Alu::Cmp, Rax, Rcx);
    law_comparisons_order(a, b);
    lemma_cmov(run, pc + 1, m1, op.takes(), Rax, Rcx);
    if m1.flags.holds(op.takes()) {
        m1.set(Rax, b)
    } else {
        m1
    }
}

/// Combining the element in `rax` into the accumulator.
proof fn lemma_into_acc(
    run: Run,
    acc: Option<Reg>,
    acc_slot: i32,
    op: MinMaxOp,
    pc: int,
    m: Machine,
) -> (after: Machine)
    requires
        part_of(op.reduce_into_acc(acc, acc_slot), run.program, pc),
        run.at(pc, m),
        can_hold(acc),
    ensures
        run.at(pc + 5, after),
        acc_word(after, acc, acc_slot) == extreme_word(
            op,
            acc_word(m, acc, acc_slot),
            m.regs[Rax],
        ),
        after.xmms == m.xmms,
        forall|reg: Reg|
            reg != Rax && reg != Rcx && acc != Some(reg) ==> #[trigger] after.regs[reg]
                == m.regs[reg],
        forall|a: int|
            acc is Some || apart(a, slot_at(m.regs[Rbp], acc_slot)) ==> #[trigger] word_at(
                after.mem,
                a,
            ) == word_at(m.mem, a),
{
    let part = op.reduce_into_acc(acc, acc_slot);
    let scalar = op.scalar();
    assert(run.program[pc] == part[0]);
    assert(run.program[pc + 1] == part[1]);
    assert forall|i: int| 0 <= i < 2 implies #[trigger] scalar[i] == run.program[pc + 2 + i] by {
        assert(part[2 + i] == scalar[i]);
    }
    assert(run.program[pc + 4] == part[4]);
    let at = slot_at(m.regs[Rbp], acc_slot);
    let old = acc_word(m, acc, acc_slot);
    let m1 = m.set(Rcx, m.regs[Rax]);
    let m2 = m1.set(Rax, old);
    lemma_mov(run, pc, m, Rcx, Rax);
    match acc {
        Some(reg) => {
            lemma_mov(run, pc + 1, m1, Rax, reg);
            let m3 = lemma_scalar(run, op, pc + 2, m2);
            lemma_mov(run, pc + 4, m3, reg, Rax);
            m3.set(reg, m3.regs[Rax])
        },
        None => {
            assert(m1.address(run.world, frame(acc_slot)) == at);
            lemma_load(run, pc + 1, m1, Rax, frame(acc_slot));
            let m3 = lemma_scalar(run, op, pc + 2, m2);
            let new = m3.regs[Rax];
            assert(m3.address(run.world, frame(acc_slot)) == at);
            lemma_store(run, pc + 4, m3, frame(acc_slot), Rax);
            law_word_reads_back(m3.mem, at, new);
            let m4 = m3.store(Width::Quad, at, new as int);
            assert forall|a: int| apart(a, at) implies #[trigger] word_at(m4.mem, a) == word_at(
                m.mem,
                a,
            ) by {
                law_word_keeps_others(m3.mem, at, new, a);
            }
            m4
        },
    }
}

// The loop over pairs

/// The body of the loop over pairs.
pub open spec fn pair_body(op: MinMaxOp, base: i32) -> Seq<Insn> {
    element_addr(base, 8) + seq![movdqu_from_rcx(Xmm1)] + op.packed()
}

proof fn lemma_pair_body(
    run: Run,
    op: MinMaxOp,
    base: i32,
    index: int,
    pc: int,
    m: Machine,
) -> (after: Machine)
    requires
        part_of(pair_body(op, base), run.program, pc),
        run.at(pc, m),
        base + 8 <= i32::MAX,
        0 <= index <= i32::MAX,
        m.regs[Rax] == index + 1,
        array_at(m.regs[Rbp], base) + 8 * (index + 1) < word_span(),
    ensures
        run.at(pc + 12, after),
        after.mem == m.mem,
        after.xmms[Xmm0] == (
            extreme_word(
                op,
                m.xmms[Xmm0].0,
                word_at(m.mem, element_at(m.regs[Rbp], base, index)),
            ),
            extreme_word(
                op,
                m.xmms[Xmm0].1,
                word_at(m.mem, element_at(m.regs[Rbp], base, index + 1)),
            ),
        ),
        forall|reg: Reg|
            reg != Rax && reg != Rcx ==> #[trigger] after.regs[reg] == m.regs[reg],
{
    let part = pair_body(op, base);
    let addr = element_addr(base, 8);
    assert forall|i: int| 0 <= i < 4 implies #[trigger] addr[i] == run.program[pc + i] by {
        assert(part[i] == addr[i]);
    }
    let m1 = lemma_element_addr(run, base, 8, index, pc, m);
    assert(run.program[pc + 4] == part[4]);
    let picking = op.packed();
    assert forall|i: int| 0 <= i < 7 implies #[trigger] picking[i] == run.program[pc + 5 + i] by {
        assert(part[5 + i] == picking[i]);
    }
    let a = element_at(m.regs[Rbp], base, index);
    assert(m1.address(run.world, at(Rcx)) == a);
    let m2 = m1.set_lanes(Xmm1, (word_at(m.mem, a), word_at(m.mem, a + 8)));
    lemma_movdqu_load(run, pc + 4, m1, Xmm1, at(Rcx));
    lemma_packed(run, op, pc + 5, m2)
}

/// The state of the loop over pairs after `k` of them.
pub open spec fn paired(
    m0: Machine,
    m: Machine,
    op: MinMaxOp,
    i_slot: i32,
    words: Seq<u64>,
    k: int,
) -> bool {
    let i_at = slot_at(m0.regs[Rbp], i_slot);
    &&& signed(word_at(m.mem, i_at)) == signed(word_at(m0.mem, i_at)) + 2 * k
    &&& forall|a: int| apart(a, i_at) ==> #[trigger] word_at(m.mem, a) == word_at(m0.mem, a)
    &&& forall|reg: Reg| reg != Rax && reg != Rcx ==> #[trigger] m.regs[reg] == m0.regs[reg]
    &&& (int_of(m.xmms[Xmm0].0), int_of(m.xmms[Xmm0].1)) == extreme_lanes(op, ints(words), k)
}

proof fn lemma_pair_turns(
    run: Run,
    m0: Machine,
    m: Machine,
    i_slot: i32,
    end_slot: i32,
    acc_slot: i32,
    op: MinMaxOp,
    base: i32,
    len: int,
    k: int,
) -> (after: Machine)
    requires
        run.program == pair_loop(i_slot, end_slot, pair_body(op, base)),
        run.at(0, m),
        0 <= len <= i32::MAX,
        loop_apart(m0.regs[Rbp], i_slot, end_slot, acc_slot, base, len),
        ({
            let bp = m0.regs[Rbp];
            let first = signed(word_at(m0.mem, slot_at(bp, i_slot)));
            let last = signed(word_at(m0.mem, slot_at(bp, end_slot)));
            let n = range_len(first, last);
            &&& n > 0 ==> 0 <= first && last < len
            &&& 0 <= k <= n / 2
            &&& paired(m0, m, op, i_slot, elements(m0.mem, bp, base, first, n), k)
        }),
    ensures
        run.at(run.program.len() as int, after),
        ({
            let bp = m0.regs[Rbp];
            let first = signed(word_at(m0.mem, slot_at(bp, i_slot)));
            let last = signed(word_at(m0.mem, slot_at(bp, end_slot)));
            let n = range_len(first, last);
            paired(
                m0,
                after,
                op,
                i_slot,
                elements(m0.mem, bp, base, first, n),
                n as int / 2,
            )
        }),
    decreases
        range_len(
            signed(word_at(m0.mem, slot_at(m0.regs[Rbp], i_slot))),
            signed(word_at(m0.mem, slot_at(m0.regs[Rbp], end_slot))),
        ) - 2 * k,
{
    let bp = m0.regs[Rbp];
    let i_at = slot_at(bp, i_slot);
    let end_at = slot_at(bp, end_slot);
    let first = signed(word_at(m0.mem, i_at));
    let last = signed(word_at(m0.mem, end_at));
    let n = range_len(first, last);
    let words = elements(m0.mem, bp, base, first, n);
    let body = pair_body(op, base);
    assert(m.regs[Rbp] == bp);
    assert(word_at(m.mem, end_at) == word_at(m0.mem, end_at));
    let m1 = lemma_pair_head(run, i_slot, end_slot, body, m);
    if k == n / 2 {
        m1
    } else {
        let index = first + 2 * k;
        assert(m1.regs[Rax] == index + 1);
        assert forall|i: int| 0 <= i < body.len() implies #[trigger] body[i] == run.program[4
            + i] by {}
        let m2 = lemma_pair_body(run, op, base, index, 4, m1);
        assert(apart(element_at(bp, base, index), i_at));
        assert(apart(element_at(bp, base, index + 1), i_at));
        let x = word_at(m0.mem, element_at(bp, base, index));
        let y = word_at(m0.mem, element_at(bp, base, index + 1));
        assert(words[2 * k] == x);
        assert(words[2 * k + 1] == y);
        lemma_extreme_word(op, m.xmms[Xmm0].0, x);
        lemma_extreme_word(op, m.xmms[Xmm0].1, y);
        assert(ints(words)[2 * k] == int_of(x));
        assert(ints(words)[2 * k + 1] == int_of(y));
        let pc = 4 + body.len() as int;
        assert(pc + 4 == run.program.len());
        let m3 = lemma_tail(run, i_slot, 2, pc, (body.len() + 7) as u16, m2);
        lemma_signed_sum(word_at(m2.mem, i_at), 2);
        lemma_pair_turns(
            run,
            m0,
            m3,
            i_slot,
            end_slot,
            acc_slot,
            op,
            base,
            len,
            k + 1,
        )
    }
}

// The loop over single elements

/// The body of the loop over single elements.
pub open spec fn single_body(
    op: MinMaxOp,
    i_slot: i32,
    base: i32,
    acc: Option<Reg>,
    acc_slot: i32,
) -> Seq<Insn> {
    load_array_elem(i_slot, base) + op.reduce_into_acc(acc, acc_slot)
}

/// The state of the loop over single elements after `j` of them.
pub open spec fn singled(
    m0: Machine,
    m: Machine,
    op: MinMaxOp,
    i_slot: i32,
    acc: Option<Reg>,
    acc_slot: i32,
    words: Seq<u64>,
    j: int,
) -> bool {
    let i_at = slot_at(m0.regs[Rbp], i_slot);
    let acc_at = slot_at(m0.regs[Rbp], acc_slot);
    &&& signed(word_at(m.mem, i_at)) == signed(word_at(m0.mem, i_at)) + j
    &&& forall|a: int|
        apart(a, i_at) && (acc is Some || apart(a, acc_at)) ==> #[trigger] word_at(m.mem, a)
            == word_at(m0.mem, a)
    &&& forall|reg: Reg|
        reg != Rax && reg != Rcx && acc != Some(reg) ==> #[trigger] m.regs[reg] == m0.regs[reg]
    &&& int_of(acc_word(m, acc, acc_slot)) == extreme_in_order(
        op,
        int_of(acc_word(m0, acc, acc_slot)),
        ints(words),
        j,
    )
}

proof fn lemma_single_turns(
    run: Run,
    m0: Machine,
    m: Machine,
    i_slot: i32,
    end_slot: i32,
    acc: Option<Reg>,
    acc_slot: i32,
    op: MinMaxOp,
    base: i32,
    len: int,
    j: int,
) -> (after: Machine)
    requires
        run.program == single_loop(
            i_slot,
            end_slot,
            single_body(op, i_slot, base, acc, acc_slot),
        ),
        run.at(0, m),
        can_hold(acc),
        0 <= len <= i32::MAX,
        loop_apart(m0.regs[Rbp], i_slot, end_slot, acc_slot, base, len),
        ({
            let bp = m0.regs[Rbp];
            let first = signed(word_at(m0.mem, slot_at(bp, i_slot)));
            let last = signed(word_at(m0.mem, slot_at(bp, end_slot)));
            let n = range_len(first, last);
            &&& n > 0 ==> 0 <= first && last < len
            &&& 0 <= j <= n
            &&& singled(
                m0,
                m,
                op,
                i_slot,
                acc,
                acc_slot,
                elements(m0.mem, bp, base, first, n),
                j,
            )
        }),
    ensures
        run.at(run.program.len() as int, after),
        ({
            let bp = m0.regs[Rbp];
            let first = signed(word_at(m0.mem, slot_at(bp, i_slot)));
            let last = signed(word_at(m0.mem, slot_at(bp, end_slot)));
            let n = range_len(first, last);
            singled(
                m0,
                after,
                op,
                i_slot,
                acc,
                acc_slot,
                elements(m0.mem, bp, base, first, n),
                n as int,
            )
        }),
    decreases
        range_len(
            signed(word_at(m0.mem, slot_at(m0.regs[Rbp], i_slot))),
            signed(word_at(m0.mem, slot_at(m0.regs[Rbp], end_slot))),
        ) - j,
{
    let bp = m0.regs[Rbp];
    let i_at = slot_at(bp, i_slot);
    let end_at = slot_at(bp, end_slot);
    let acc_at = slot_at(bp, acc_slot);
    let first = signed(word_at(m0.mem, i_at));
    let last = signed(word_at(m0.mem, end_at));
    let n = range_len(first, last);
    let words = elements(m0.mem, bp, base, first, n);
    let body = single_body(op, i_slot, base, acc, acc_slot);
    assert(m.regs[Rbp] == bp);
    assert(word_at(m.mem, end_at) == word_at(m0.mem, end_at));
    let m1 = lemma_single_head(run, i_slot, end_slot, body, m);
    if j == n {
        m1
    } else {
        let index = first + j;
        let loading = load_array_elem(i_slot, base);
        let combining = op.reduce_into_acc(acc, acc_slot);
        assert forall|i: int| 0 <= i < loading.len() implies #[trigger] loading[i] == run.program[3
            + i] by {
            assert(body[i] == loading[i]);
        }
        assert forall|i: int| 0 <= i < combining.len() implies #[trigger] combining[i]
            == run.program[9 + i] by {
            assert(body[6 + i] == combining[i]);
        }
        assert(loading.len() == 6 && combining.len() == 5);
        let m2 = lemma_load_elem(run, i_slot, base, index, 3, m1);
        assert(apart(element_at(bp, base, index), i_at));
        assert(apart(element_at(bp, base, index), acc_at));
        assert(words[j] == word_at(m0.mem, element_at(bp, base, index)));
        assert(m2.regs[Rax] == words[j]);
        assert(ints(words)[j] == int_of(words[j]));
        assert(acc_word(m2, acc, acc_slot) == acc_word(m, acc, acc_slot));
        lemma_extreme_word(op, acc_word(m, acc, acc_slot), words[j]);
        let m3 = lemma_into_acc(run, acc, acc_slot, op, 9, m2);
        assert(m3.regs[Rbp] == bp);
        assert(word_at(m3.mem, i_at) == word_at(m.mem, i_at));
        assert(body.len() == 11);
        let m4 = lemma_tail(run, i_slot, 1, 14, (body.len() + 6) as u16, m3);
        lemma_signed_sum(word_at(m3.mem, i_at), 1);
        assert(acc_word(m4, acc, acc_slot) == acc_word(m3, acc, acc_slot));
        lemma_single_turns(
            run,
            m0,
            m4,
            i_slot,
            end_slot,
            acc,
            acc_slot,
            op,
            base,
            len,
            j + 1,
        )
    }
}

// The choice of path

/// Whether the processor compares packed 64-bit integers.
pub open spec fn compares_packed(world: World) -> bool {
    ((world.features)(1).2 as u64) & (SSE42_BIT as u64) != 0
}

/// The word that a push writes.
pub open spec fn pushed_at(m: Machine) -> int {
    wrap(m.regs[Rsp] - 8) as int
}

/// The probe goes on where the processor compares packed integers and jumps where it does
/// not, and keeps what the caller keeps in `rbx`.
proof fn lemma_probe(run: Run, to: u16, pc: int, m: Machine) -> (after: Machine)
    requires
        part_of(cpuid_probe(to), run.program, pc),
        run.at(pc, m),
    ensures
        compares_packed(run.world) ==> run.at(pc + 7, after),
        !compares_packed(run.world) ==> run.at(pc + 6 + to, after),
        forall|reg: Reg|
            reg != Rax && reg != Rcx && reg != Rdx ==> #[trigger] after.regs[reg] == m.regs[reg],
        forall|a: int|
            apart(a, pushed_at(m)) ==> #[trigger] word_at(after.mem, a) == word_at(m.mem, a),
{
    let part = cpuid_probe(to);
    assert(run.program[pc] == part[0]);
    assert(run.program[pc + 1] == part[1]);
    assert(run.program[pc + 2] == part[2]);
    assert(run.program[pc + 3] == part[3]);
    assert(run.program[pc + 4] == part[4]);
    assert(run.program[pc + 5] == part[5]);
    assert(run.program[pc + 6] == part[6]);
    let top = wrap(m.regs[Rsp] - 8);
    let bx = m.regs[Rbx];
    let m1 = m.store(Width::Quad, top as int, bx as int).set(Rsp, top);
    let m2 = m1.set(Rax, 1);
    let (a, b, c, d) = (run.world.features)(1);
    let m3 = m2.set(Rax, a as u64).set(Rbx, b as u64).set(Rcx, c as u64).set(Rdx, d as u64);
    let m4 = m3.set(Rax, c as u64);
    let m5 = m4.set(Rsp, m.regs[Rsp]).set(Rbx, bx);
    let bit = (c as u64) & (SSE42_BIT as u64);
    let m6 = m5.flagged(flags_of_bits(Width::Long, bit as int));
    lemma_push(run, pc, m, Rbx);
    lemma_set_q(run, pc + 1, m1, Rax, 1);
    lemma_cpuid(run, pc + 2, m2);
    lemma_mov_d(run, pc + 3, m3, Rax, Rcx);
    law_word_reads_back(m.mem, top as int, bx);
    lemma_pop(run, pc + 4, m4, Rbx);
    lemma_test_acc(run, pc + 5, m5, SSE42_BIT);
    lemma_jcc(run, pc + 6, m6, E, false, Hop::Forward(to));
    assert forall|p: int| apart(p, top as int) implies #[trigger] word_at(m6.mem, p) == word_at(
        m.mem,
        p,
    ) by {
        law_word_keeps_others(m.mem, top as int, bx, p);
    }
    m6
}

/// Seeding the lanes with the identity.
proof fn lemma_seed(run: Run, op: MinMaxOp, pc: int, m: Machine) -> (after: Machine)
    requires
        part_of(op.packed_seed(), run.program, pc),
        run.at(pc, m),
    ensures
        run.at(pc + 3, after),
        after.mem == m.mem,
        int_of(after.xmms[Xmm0].0) == op.identity(),
        int_of(after.xmms[Xmm0].1) == op.identity(),
        forall|reg: Reg| reg != Rax ==> #[trigger] after.regs[reg] == m.regs[reg],
{
    let part = op.packed_seed();
    assert(run.program[pc] == part[0]);
    assert(run.program[pc + 1] == part[1]);
    assert(run.program[pc + 2] == part[2]);
    let id = wrap(op.identity() as int);
    let m1 = m.set(Rax, id);
    let m2 = m1.set_lanes(Xmm0, (id, 0));
    lemma_set_q(run, pc, m, Rax, op.identity());
    lemma_movq_to(run, pc + 1, m1, Xmm0, Rax);
    lemma_sse(run, pc + 2, m2, Sse::Punpcklqdq, Xmm0, Xmm0);
    m2.set_lanes(Xmm0, (id, id))
}

/// Folding the two lanes into `rax`.
proof fn lemma_fold(run: Run, op: MinMaxOp, pc: int, m: Machine) -> (after: Machine)
    requires
        0 <= pc,
        pc + 3 <= run.program.len(),
        run.program[pc] == (Insn::MovqFromXmm { dst: Rax, src: Xmm0 }),
        run.program[pc + 1] == (Insn::Psrldq { xmm: Xmm0, amount: 8 }),
        run.program[pc + 2] == (Insn::MovqFromXmm { dst: Rcx, src: Xmm0 }),
        part_of(op.scalar(), run.program, pc + 3),
        run.at(pc, m),
    ensures
        run.at(pc + 5, after),
        after.mem == m.mem,
        after.regs[Rax] == extreme_word(op, m.xmms[Xmm0].0, m.xmms[Xmm0].1),
        forall|reg: Reg|
            reg != Rax && reg != Rcx ==> #[trigger] after.regs[reg] == m.regs[reg],
{
    let (low, high) = m.xmms[Xmm0];
    let m1 = m.set(Rax, low);
    let m2 = m1.set_lanes(Xmm0, (high, 0));
    let m3 = m2.set(Rcx, high);
    lemma_movq(run, pc, m, Rax, Xmm0);
    lemma_psrldq(run, pc + 1, m1, Xmm0);
    lemma_movq(run, pc + 2, m2, Rcx, Xmm0);
    lemma_scalar(run, op, pc + 3, m3)
}

/// What a minimum or maximum leaves: the accumulator holds what comparing the elements one
/// after the other gives, and nothing changes but the counter, the accumulator, `rax`,
/// `rcx`, `rdx`, the vector registers and the word below the stack.
pub open spec fn finds(
    before: Machine,
    after: Machine,
    i_slot: i32,
    end_slot: i32,
    acc: Option<Reg>,
    red: MinMaxReduction,
) -> bool {
    let bp = before.regs[Rbp];
    let first = signed(word_at(before.mem, slot_at(bp, i_slot)));
    let last = signed(word_at(before.mem, slot_at(bp, end_slot)));
    let n = range_len(first, last);
    let values = ints(elements(before.mem, bp, red.array_base_static, first, n));
    &&& int_of(acc_word(after, acc, red.acc_slot)) == extreme_in_order(
        red.op,
        int_of(acc_word(before, acc, red.acc_slot)),
        values,
        n as int,
    )
    &&& forall|a: int|
        apart(a, slot_at(bp, i_slot)) && (acc is Some || apart(a, slot_at(bp, red.acc_slot)))
            && apart(a, pushed_at(before)) ==> #[trigger] word_at(after.mem, a) == word_at(
            before.mem,
            a,
        )
    &&& forall|reg: Reg|
        reg != Rax && reg != Rcx && reg != Rdx && acc != Some(reg) ==> #[trigger] after.regs[reg]
            == before.regs[reg]
}

/// Whether the word below the stack lies apart from all that the loop reads.
pub open spec fn stack_apart(
    m: Machine,
    i_slot: i32,
    end_slot: i32,
    acc_slot: i32,
    base: i32,
    len: int,
) -> bool {
    let bp = m.regs[Rbp];
    &&& apart(slot_at(bp, i_slot), pushed_at(m))
    &&& apart(slot_at(bp, end_slot), pushed_at(m))
    &&& apart(slot_at(bp, acc_slot), pushed_at(m))
    &&& forall|k: int| 0 <= k < len ==> apart(#[trigger] element_at(bp, base, k), pushed_at(m))
}

/// The packed path finds what the plain loop finds, and jumps over the scalar path.
#[verifier::rlimit(40)]
proof fn lemma_packed_path(
    run: Run,
    i_slot: i32,
    end_slot: i32,
    acc: Option<Reg>,
    red: MinMaxReduction,
    pc: int,
    m: Machine,
) -> (after: Machine)
    requires
        part_of(minmax_packed_path(i_slot, end_slot, acc, red, 19), run.program, pc),
        run.at(pc, m),
        can_hold(acc),
        0 <= red.array_len <= i32::MAX,
        loop_apart(
            m.regs[Rbp],
            i_slot,
            end_slot,
            red.acc_slot,
            red.array_base_static,
            red.array_len as int,
        ),
        ({
            let first = signed(word_at(m.mem, slot_at(m.regs[Rbp], i_slot)));
            let last = signed(word_at(m.mem, slot_at(m.regs[Rbp], end_slot)));
            &&& first > last || (0 <= first && last < red.array_len)
        }),
    ensures
        run.at(pc + 70, after),
        finds(m, after, i_slot, end_slot, acc, red),
{
    let op = red.op;
    let base = red.array_base_static;
    let len = red.array_len as int;
    let bp = m.regs[Rbp];
    let i_at = slot_at(bp, i_slot);
    let end_at = slot_at(bp, end_slot);
    let acc_at = slot_at(bp, red.acc_slot);
    let first = signed(word_at(m.mem, i_at));
    let last = signed(word_at(m.mem, end_at));
    let n = range_len(first, last);
    let words = elements(m.mem, bp, base, first, n);
    let path = minmax_packed_path(i_slot, end_slot, acc, red, 19);
    let seed = op.packed_seed();
    let pairs = pair_loop(i_slot, end_slot, pair_body(op, base));
    let scalar = op.scalar();
    let combining = op.reduce_into_acc(acc, red.acc_slot);
    let singles = minmax_scalar_loop(i_slot, end_slot, acc, red);
    let unpacking = seq![
        Insn::MovqFromXmm { dst: Rax, src: Xmm0 },
        Insn::Psrldq { xmm: Xmm0, amount: 8 },
        Insn::MovqFromXmm { dst: Rcx, src: Xmm0 },
    ];
    assert(seed.len() == 3 && pairs.len() == 20 && scalar.len() == 2 && combining.len() == 5
        && singles.len() == 18);
    assert(path =~= seed + pairs + unpacking + scalar + combining + singles + seq![jmp(19)]);
    assert forall|i: int| 0 <= i < 3 implies #[trigger] seed[i] == run.program[pc + i] by {
        assert(path[i] == seed[i]);
    }
    assert forall|i: int| 0 <= i < 20 implies #[trigger] pairs[i] == run.program[pc + 3 + i] by {
        assert(path[3 + i] == pairs[i]);
    }
    assert forall|i: int| 0 <= i < 2 implies #[trigger] scalar[i] == run.program[pc + 26 + i] by {
        assert(path[26 + i] == scalar[i]);
    }
    assert forall|i: int| 0 <= i < 5 implies #[trigger] combining[i] == run.program[pc + 28
        + i] by {
        assert(path[28 + i] == combining[i]);
    }
    assert forall|i: int| 0 <= i < 18 implies #[trigger] singles[i] == run.program[pc + 33 + i] by {
        assert(path[33 + i] == singles[i]);
    }
    assert(run.program[pc + 23] == path[23] && path[23] == unpacking[0]);
    assert(run.program[pc + 24] == path[24] && path[24] == unpacking[1]);
    assert(run.program[pc + 25] == path[25] && path[25] == unpacking[2]);
    assert(run.program[pc + 51] == path[51] && path[51] == jmp(19));
    let m2 = lemma_seed(run, op, pc, m);
    let pair_run = Run { world: run.world, program: pairs, start: 0, before: m2 };
    lemma_begin(pair_run);
    assert(m2.regs[Rbp] == bp);
    let m3 = lemma_pair_turns(
        pair_run,
        m2,
        m2,
        i_slot,
        end_slot,
        red.acc_slot,
        op,
        base,
        len,
        0,
    );
    assert(part_of(pairs, run.program, pc + 3));
    lemma_part(run, pc + 3, m2, pairs, m3);
    let m4 = lemma_fold(run, op, pc + 23, m3);
    let m5 = lemma_into_acc(run, acc, red.acc_slot, op, pc + 28, m4);
    assert(m5.regs[Rbp] == bp);
    let half = n as int / 2;
    let first2 = first + 2 * half;
    assert(word_at(m5.mem, i_at) == word_at(m3.mem, i_at));
    assert(word_at(m5.mem, end_at) == word_at(m.mem, end_at)) by {
        assert(word_at(m3.mem, end_at) == word_at(m2.mem, end_at));
    }
    let single_run = Run { world: run.world, program: singles, start: 0, before: m5 };
    lemma_begin(single_run);
    let after = lemma_single_turns(
        single_run,
        m5,
        m5,
        i_slot,
        end_slot,
        acc,
        red.acc_slot,
        op,
        base,
        len,
        0,
    );
    assert(part_of(singles, run.program, pc + 33));
    lemma_part(run, pc + 33, m5, singles, after);
    lemma_jmp(run, pc + 51, after, false, Hop::Forward(19));
    // The total.
    let acc0 = acc_word(m, acc, red.acc_slot);
    assert(acc_word(m4, acc, red.acc_slot) == acc0) by {
        if acc is None {
            assert(word_at(m3.mem, acc_at) == word_at(m2.mem, acc_at));
        }
    }
    let values = ints(words);
    let (even, odd) = extreme_lanes(op, values, half);
    lemma_extreme_word(op, m3.xmms[Xmm0].0, m3.xmms[Xmm0].1);
    lemma_extreme_word(op, acc0, m4.regs[Rax]);
    let folded = extreme(op, int_of(acc0), extreme(op, even, odd));
    assert(int_of(acc_word(m5, acc, red.acc_slot)) == folded);
    let rest = elements(m5.mem, bp, base, first2, range_len(first2, last));
    if n % 2 == 1 {
        assert(first2 == last);
        assert(rest.len() == 1);
        let at = element_at(bp, base, last);
        assert(apart(at, i_at) && apart(at, acc_at));
        assert(rest[0] == word_at(m5.mem, at));
        assert(word_at(m3.mem, at) == word_at(m2.mem, at));
        assert(words[n - 1] == word_at(m.mem, at));
        assert(ints(rest)[0] == values[n - 1]);
        assert(extreme_in_order(op, folded, ints(rest), 1) == extreme(
            op,
            extreme_in_order(op, folded, ints(rest), 0),
            ints(rest)[0],
        ));
    } else {
        assert(rest.len() == 0);
    }
    assert(values.len() == n);
    assert(int_of(acc_word(after, acc, red.acc_slot)) == extreme_in_lanes(
        op,
        int_of(acc0),
        values,
    ));
    law_two_lanes_find_the_same_extreme(op, int_of(acc0), values);
    assert forall|a: int|
        apart(a, i_at) && (acc is Some || apart(a, acc_at)) implies #[trigger] word_at(
        after.mem,
        a,
    ) == word_at(m.mem, a) by {
        assert(word_at(after.mem, a) == word_at(m5.mem, a));
        assert(word_at(m5.mem, a) == word_at(m4.mem, a));
        assert(word_at(m3.mem, a) == word_at(m2.mem, a));
    }
    assert forall|reg: Reg|
        reg != Rax && reg != Rcx && reg != Rdx
            && acc != Some(reg) implies #[trigger] after.regs[reg]
        == m.regs[reg] by {
        assert(after.regs[reg] == m5.regs[reg]);
        assert(m5.regs[reg] == m4.regs[reg]);
        assert(m4.regs[reg] == m3.regs[reg]);
        assert(m3.regs[reg] == m2.regs[reg]);
    }
    after
}

/// The scalar path finds what the plain loop finds.
proof fn lemma_scalar_path(
    run: Run,
    i_slot: i32,
    end_slot: i32,
    acc: Option<Reg>,
    red: MinMaxReduction,
    pc: int,
    m: Machine,
) -> (after: Machine)
    requires
        part_of(minmax_scalar_loop(i_slot, end_slot, acc, red), run.program, pc),
        run.at(pc, m),
        can_hold(acc),
        0 <= red.array_len <= i32::MAX,
        loop_apart(
            m.regs[Rbp],
            i_slot,
            end_slot,
            red.acc_slot,
            red.array_base_static,
            red.array_len as int,
        ),
        ({
            let first = signed(word_at(m.mem, slot_at(m.regs[Rbp], i_slot)));
            let last = signed(word_at(m.mem, slot_at(m.regs[Rbp], end_slot)));
            first > last || (0 <= first && last < red.array_len)
        }),
    ensures
        run.at(pc + 18, after),
        finds(m, after, i_slot, end_slot, acc, red),
{
    let singles = minmax_scalar_loop(i_slot, end_slot, acc, red);
    assert(singles.len() == 18);
    let single_run = Run { world: run.world, program: singles, start: 0, before: m };
    lemma_begin(single_run);
    let after = lemma_single_turns(
        single_run,
        m,
        m,
        i_slot,
        end_slot,
        acc,
        red.acc_slot,
        red.op,
        red.array_base_static,
        red.array_len as int,
        0,
    );
    lemma_part(run, pc, m, singles, after);
    after
}

/// A vectorized minimum or maximum finds exactly what the plain loop finds, element after
/// element in order, whether or not the processor compares packed integers; a range that
/// is not empty and not inside the array traps, with memory as it was.
pub proof fn law_vectorized_extreme(
    world: World,
    i_slot: i32,
    end_slot: i32,
    acc: Option<Reg>,
    red: MinMaxReduction,
    m: Machine,
)
    requires
        can_hold(acc),
        0 <= red.array_len <= i32::MAX,
        loop_apart(
            m.regs[Rbp],
            i_slot,
            end_slot,
            red.acc_slot,
            red.array_base_static,
            red.array_len as int,
        ),
        stack_apart(
            m,
            i_slot,
            end_slot,
            red.acc_slot,
            red.array_base_static,
            red.array_len as int,
        ),
    ensures
        ({
            let bp = m.regs[Rbp];
            let first = signed(word_at(m.mem, slot_at(bp, i_slot)));
            let last = signed(word_at(m.mem, slot_at(bp, end_slot)));
            let program = minmax_program(i_slot, end_slot, acc, red);
            let inside = first > last || (0 <= first && last < red.array_len);
            &&& inside ==> exists|after: Machine|
                #[trigger] flows(world, program, m, after) && finds(
                    m,
                    after,
                    i_slot,
                    end_slot,
                    acc,
                    red,
                )
            &&& !inside ==> traps(world, program, m)
        }),
{
    let bp = m.regs[Rbp];
    let i_at = slot_at(bp, i_slot);
    let end_at = slot_at(bp, end_slot);
    let first = signed(word_at(m.mem, i_at));
    let last = signed(word_at(m.mem, end_at));
    let inside = first > last || (0 <= first && last < red.array_len);
    let program = minmax_program(i_slot, end_slot, acc, red);
    let guard = loop_bounds_guard(i_slot, end_slot, red.array_len);
    assert(m.address(world, frame(i_slot)) == i_at);
    assert(m.address(world, frame(end_slot)) == end_at);
    law_loop_bounds_guard(world, i_slot, end_slot, red.array_len, m);
    assert(part_of(guard, program, 0));
    if inside {
        let guarded = choose|after: Machine|
            {
                &&& #[trigger] flows(world, guard, m, after)
                &&& after.regs == m.regs.insert(Rax, after.regs[Rax])
                &&& after.mem == m.mem
                &&& after.xmms == m.xmms
            };
        let after = lemma_extreme(world, i_slot, end_slot, acc, red, m, guarded);
        assert(flows(world, program, m, after) && finds(m, after, i_slot, end_slot, acc, red));
    } else {
        law_guarded_programs_trap(world, i_slot, end_slot, red.array_len, program, m);
    }
}

/// A minimum or maximum behind its guard.
#[verifier::rlimit(40)]
proof fn lemma_extreme(
    world: World,
    i_slot: i32,
    end_slot: i32,
    acc: Option<Reg>,
    red: MinMaxReduction,
    m: Machine,
    guarded: Machine,
) -> (after: Machine)
    requires
        can_hold(acc),
        0 <= red.array_len <= i32::MAX,
        loop_apart(
            m.regs[Rbp],
            i_slot,
            end_slot,
            red.acc_slot,
            red.array_base_static,
            red.array_len as int,
        ),
        stack_apart(
            m,
            i_slot,
            end_slot,
            red.acc_slot,
            red.array_base_static,
            red.array_len as int,
        ),
        flows(world, loop_bounds_guard(i_slot, end_slot, red.array_len), m, guarded),
        guarded.regs == m.regs.insert(Rax, guarded.regs[Rax]),
        guarded.mem == m.mem,
        ({
            let first = signed(word_at(m.mem, slot_at(m.regs[Rbp], i_slot)));
            let last = signed(word_at(m.mem, slot_at(m.regs[Rbp], end_slot)));
            &&& first > last || (0 <= first && last < red.array_len)
        }),
    ensures
        flows(world, minmax_program(i_slot, end_slot, acc, red), m, after),
        finds(m, after, i_slot, end_slot, acc, red),
{
    let program = minmax_program(i_slot, end_slot, acc, red);
    let run = Run { world, program, start: 0, before: m };
    let bp = m.regs[Rbp];
    let base = red.array_base_static;
    let i_at = slot_at(bp, i_slot);
    let end_at = slot_at(bp, end_slot);
    let first = signed(word_at(m.mem, i_at));
    let last = signed(word_at(m.mem, end_at));
    let n = range_len(first, last);
    let guard = loop_bounds_guard(i_slot, end_slot, red.array_len);
    let scalar = minmax_scalar_loop(i_slot, end_slot, acc, red);
    let path = minmax_packed_path(i_slot, end_slot, acc, red, 19);
    let probe = cpuid_probe(53);
    assert(scalar.len() == 18);
    assert(path.len() == 52);
    assert(guard.len() == 10 && probe.len() == 7);
    assert(program =~= guard + probe + path + scalar);
    lemma_begin(run);
    assert(part_of(guard, program, 0));
    lemma_part(run, 0, m, guard, guarded);
    assert(part_of(probe, program, 10));
    let m2 = lemma_probe(run, 53, 10, guarded);
    assert(pushed_at(guarded) == pushed_at(m));
    assert(m2.regs[Rbp] == bp);
    assert(word_at(m2.mem, i_at) == word_at(m.mem, i_at));
    assert(word_at(m2.mem, end_at) == word_at(m.mem, end_at));
    assert(acc_word(m2, acc, red.acc_slot) == acc_word(m, acc, red.acc_slot));
    let words = elements(m.mem, bp, base, first, n);
    assert(elements(m2.mem, bp, base, first, n) =~= words) by {
        assert forall|j: int| 0 <= j < n implies #[trigger] elements(m2.mem, bp, base, first, n)[j]
            == words[j] by {
            let at = element_at(bp, base, first + j);
            assert(apart(at, pushed_at(m)));
            assert(word_at(m2.mem, at) == word_at(m.mem, at));
        }
    }
    let after = if compares_packed(world) {
        assert(part_of(path, program, 17));
        lemma_packed_path(run, i_slot, end_slot, acc, red, 17, m2)
    } else {
        assert(part_of(scalar, program, 69));
        lemma_scalar_path(run, i_slot, end_slot, acc, red, 69, m2)
    };
    assert(pushed_at(m2) == pushed_at(m));
    assert forall|a: int|
        apart(a, i_at) && (acc is Some || apart(a, slot_at(bp, red.acc_slot))) && apart(
            a,
            pushed_at(m),
        ) implies #[trigger] word_at(after.mem, a) == word_at(m.mem, a) by {
        assert(word_at(after.mem, a) == word_at(m2.mem, a));
    }
    assert forall|reg: Reg|
        reg != Rax && reg != Rcx && reg != Rdx
            && acc != Some(reg) implies #[trigger] after.regs[reg]
        == m.regs[reg] by {
        assert(after.regs[reg] == m2.regs[reg]);
        assert(m2.regs[reg] == guarded.regs[reg]);
    }
    after
}

} // verus!
