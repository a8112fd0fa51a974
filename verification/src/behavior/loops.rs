//! Vectorized loops: a loop over pairs of elements and a loop over what is left give what
//! the plain loop gives.

use crate::behavior::frames::slot_at;
use crate::behavior::guards::{
    law_comparisons_order, law_guarded_programs_trap, law_loop_bounds_guard, traps,
};
use crate::behavior::instructions::{
    lemma_alu, lemma_alu_imm32, lemma_alu_imm8, lemma_alu_load, lemma_begin, lemma_jcc, lemma_jmp,
    lemma_load, lemma_mov, lemma_movdqu_load, lemma_movq, lemma_part, lemma_powers, lemma_psrldq,
    lemma_shl, lemma_sse, lemma_store, operated, Run,
};
use crate::lanes::{
    fold_in_lanes, fold_in_order, lanes, law_two_lanes_reduce_as_one, reduce_identity, reduce_words,
};
use crate::machine::{
    apart, flags_of_difference, flows, halves_equal, law_word_keeps_others, law_word_reads_back,
    packed, part_of, signed, word_at, word_span, wrap, Machine, World,
};
use crate::mnemonics::{alu_imm8, at, frame, jmp_back, load, store};
use crate::vector_loops::{
    element_addr, load_array_elem, pair_loop, reduction_program, single_loop, Reduction,
};
use crate::vectorize::{hfold, loop_bounds_guard, movdqu_from_rcx, reduce_into_acc, ReduceOp};
use crate::x86::{Alu, Hop, Insn, Reg, Sse, Width};
use crate::x86::Cond::{G, Ge};
use crate::x86::Reg::{Rax, Rbp, Rcx, Rdx, Rsp};
use crate::x86::Xmm::{Xmm0, Xmm1};
use vstd::arithmetic::div_mod::{
    lemma_add_mod_noop_right, lemma_small_mod, lemma_sub_mod_noop_right,
};
use vstd::prelude::*;

verus! {

// Wrapped arithmetic

pub(crate) proof fn lemma_wrap_sums(a: int, b: int)
    ensures
        wrap(wrap(a) + b) == wrap(a + b),
        wrap(a - wrap(b)) == wrap(a - b),
        0 <= a < word_span() ==> wrap(a) == a,
{
    let m = word_span();
    lemma_add_mod_noop_right(b, a, m);
    lemma_sub_mod_noop_right(a, b, m);
    if 0 <= a < m {
        lemma_small_mod(a as nat, m as nat);
    }
}

/// The address of an element, computed with a bias that is taken off again.
pub(crate) proof fn lemma_biased_address(bp: u64, base: int, bias: int, offset: int)
    ensures
        wrap(wrap(bp + (offset + bias)) - wrap(base + bias)) == wrap(wrap(bp - base) + offset),
{
    lemma_wrap_sums(bp + (offset + bias), -wrap(base + bias));
    lemma_wrap_sums(bp + (offset + bias), base + bias);
    lemma_wrap_sums(bp - base, offset);
    assert(bp + (offset + bias) - (base + bias) == bp - base + offset);
}

pub(crate) proof fn lemma_signed_sum(x: u64, y: int)
    requires
        i64::MIN <= signed(x) + y <= i64::MAX,
    ensures
        signed(wrap(x + y)) == signed(x) + y,
{
}

// Loop heads and tails

/// The head of a loop over pairs: on to the body with `i + 1` in `rax` where that is not
/// beyond the end.
pub(crate) proof fn lemma_pair_head(
    run: Run,
    i_slot: i32,
    end_slot: i32,
    body: Seq<Insn>,
    m: Machine,
) -> (after: Machine)
    requires
        run.program == pair_loop(i_slot, end_slot, body),
        body.len() <= 1000,
        run.at(0, m),
    ensures
        ({
            let i = word_at(m.mem, slot_at(m.regs[Rbp], i_slot));
            let end = word_at(m.mem, slot_at(m.regs[Rbp], end_slot));
            &&& after.regs == m.regs.insert(Rax, after.regs[Rax])
            &&& after.mem == m.mem
            &&& after.xmms == m.xmms
            &&& signed(i) < signed(end) ==> run.at(4, after) && after.regs[Rax] == wrap(i + 1)
            &&& signed(i) >= signed(end) ==> run.at(run.program.len() as int, after)
        }),
{
    let i = word_at(m.mem, slot_at(m.regs[Rbp], i_slot));
    let end = word_at(m.mem, slot_at(m.regs[Rbp], end_slot));
    let m1 = m.set(Rax, i);
    let m2 = m1.flagged(flags_of_difference(Width::Quad, i as int, end as int));
    assert(m.address(run.world, frame(i_slot)) == slot_at(m.regs[Rbp], i_slot));
    lemma_load(run, 0, m, Rax, frame(i_slot));
    assert(m1.address(run.world, frame(end_slot)) == slot_at(m.regs[Rbp], end_slot));
    lemma_alu_load(run, 1, m1, Alu::Cmp, Rax, frame(end_slot));
    law_comparisons_order(i, end);
    lemma_jcc(run, 2, m2, Ge, false, Hop::Forward((body.len() + 6) as u16));
    let after = if signed(i) < signed(end) {
        lemma_alu_imm8(run, 3, m2, Alu::Add, Rax, 1);
        operated(m2, Alu::Add, Rax, 1)
    } else {
        m2
    };
    assert(after.regs =~= m.regs.insert(Rax, after.regs[Rax]));
    after
}

/// The tail of a loop: `i` grows by `by`, and back to the head.
pub(crate) proof fn lemma_tail(run: Run, i_slot: i32, by: u8, pc: int, back: u16,
    m: Machine) -> (after: Machine)
    requires
        0 <= pc,
        pc + 4 <= run.program.len(),
        run.program[pc] == load(Rax, frame(i_slot)),
        run.program[pc + 1] == alu_imm8(Alu::Add, Rax, by),
        run.program[pc + 2] == store(frame(i_slot), Rax),
        run.program[pc + 3] == jmp_back(back),
        by < 128,
        run.at(pc, m),
    ensures
        run.at(pc + 3 - back, after),
        ({
            let at = slot_at(m.regs[Rbp], i_slot);
            let next = wrap(word_at(m.mem, at) + by);
            &&& after.regs == m.regs.insert(Rax, next)
            &&& after.xmms == m.xmms
            &&& word_at(after.mem, at) == next
            &&& forall|a: int| apart(a, at)
                ==> #[trigger] word_at(after.mem, a) == word_at(m.mem, a)
        }),
{
    let at = slot_at(m.regs[Rbp], i_slot);
    let i = word_at(m.mem, at);
    let m1 = m.set(Rax, i);
    let m2 = operated(m1, Alu::Add, Rax, by as u64);
    let next = m2.regs[Rax];
    let m3 = m2.store(Width::Quad, at, next as int);
    assert(m.address(run.world, frame(i_slot)) == at);
    assert(m2.address(run.world, frame(i_slot)) == at);
    lemma_load(run, pc, m, Rax, frame(i_slot));
    lemma_alu_imm8(run, pc + 1, m1, Alu::Add, Rax, by);
    lemma_store(run, pc + 2, m2, frame(i_slot), Rax);
    lemma_jmp(run, pc + 3, m3, false, Hop::Back(back));
    law_word_reads_back(m2.mem, at, next);
    assert forall|a: int| apart(a, at) implies #[trigger] word_at(m3.mem, a) == word_at(
        m.mem,
        a,
    ) by {
        law_word_keeps_others(m2.mem, at, next, a);
    }
    assert(m3.regs =~= m.regs.insert(Rax, next));
    m3
}

/// The head of a loop over single elements: `i` in `rax`, and on to the body unless that
/// is beyond the end.
pub(crate) proof fn lemma_single_head(
    run: Run,
    i_slot: i32,
    end_slot: i32,
    body: Seq<Insn>,
    m: Machine,
) -> (after: Machine)
    requires
        run.program == single_loop(i_slot, end_slot, body),
        body.len() <= 1000,
        run.at(0, m),
    ensures
        ({
            let i = word_at(m.mem, slot_at(m.regs[Rbp], i_slot));
            let end = word_at(m.mem, slot_at(m.regs[Rbp], end_slot));
            &&& after.regs == m.regs.insert(Rax, i)
            &&& after.mem == m.mem
            &&& after.xmms == m.xmms
            &&& signed(i) <= signed(end) ==> run.at(3, after)
            &&& signed(i) > signed(end) ==> run.at(run.program.len() as int, after)
        }),
{
    let i = word_at(m.mem, slot_at(m.regs[Rbp], i_slot));
    let end = word_at(m.mem, slot_at(m.regs[Rbp], end_slot));
    let m1 = m.set(Rax, i);
    let m2 = m1.flagged(flags_of_difference(Width::Quad, i as int, end as int));
    assert(m.address(run.world, frame(i_slot)) == slot_at(m.regs[Rbp], i_slot));
    lemma_load(run, 0, m, Rax, frame(i_slot));
    assert(m1.address(run.world, frame(end_slot)) == slot_at(m.regs[Rbp], end_slot));
    lemma_alu_load(run, 1, m1, Alu::Cmp, Rax, frame(end_slot));
    law_comparisons_order(i, end);
    lemma_jcc(run, 2, m2, G, false, Hop::Forward((body.len() + 5) as u16));
    m2
}

// Elements

/// Where an array in the frame starts.
pub open spec fn array_at(bp: u64, base: i32) -> int {
    wrap(bp - base) as int
}

/// The address of the element whose index, plus `bias / 8`, is in `rax`.
pub(crate) proof fn lemma_element_addr(
    run: Run,
    base: i32,
    bias: i32,
    index: int,
    pc: int,
    m: Machine,
) -> (after: Machine)
    requires
        part_of(element_addr(base, bias), run.program, pc),
        run.at(pc, m),
        i32::MIN <= base + bias <= i32::MAX,
        0 <= index <= i32::MAX,
        0 <= bias <= 8,
        bias % 8 == 0,
        m.regs[Rax] == index + bias / 8,
        array_at(m.regs[Rbp], base) + 8 * index < word_span(),
    ensures
        run.at(pc + 4, after),
        after.regs == m.regs.insert(Rax, after.regs[Rax]).insert(
            Rcx,
            (array_at(m.regs[Rbp], base) + 8 * index) as u64,
        ),
        after.mem == m.mem,
        after.xmms == m.xmms,
{
    let part = element_addr(base, bias);
    assert(run.program[pc] == part[0]);
    assert(run.program[pc + 1] == part[1]);
    assert(run.program[pc + 2] == part[2]);
    assert(run.program[pc + 3] == part[3]);
    let bp = m.regs[Rbp];
    lemma_powers();
    let m1 = lemma_shl(run, pc, m, Rax, 3, 8);
    assert(m1.regs[Rax] == 8 * index + bias);
    let m2 = m1.set(Rcx, bp);
    lemma_mov(run, pc + 1, m1, Rcx, Rbp);
    let m3 = operated(m2, Alu::Add, Rcx, m2.regs[Rax]);
    lemma_alu(run, pc + 2, m2, Alu::Add, Rcx, Rax);
    let less = wrap(base + bias);
    let m4 = operated(m3, Alu::Sub, Rcx, less);
    assert(base.wrapping_add(bias) == base + bias);
    lemma_alu_imm32(run, pc + 3, m3, Alu::Sub, Rcx, base.wrapping_add(bias));
    let start = array_at(bp, base);
    lemma_biased_address(bp, base as int, bias as int, 8 * index);
    lemma_wrap_sums(start + 8 * index, 0);
    assert(m3.regs[Rcx] == wrap(bp + (8 * index + bias)));
    assert(m4.regs[Rcx] == start + 8 * index);
    assert(m4.regs =~= m.regs.insert(Rax, m4.regs[Rax]).insert(
        Rcx,
        (start + 8 * index) as u64,
    ));
    m4
}

// The accumulator

/// The value of an accumulator, in its register or in its slot.
pub open spec fn acc_word(m: Machine, acc: Option<Reg>, acc_slot: i32) -> u64 {
    match acc {
        Some(reg) => m.regs[reg],
        None => word_at(m.mem, slot_at(m.regs[Rbp], acc_slot)),
    }
}

/// Whether a register can hold a local: the loops use it for nothing else.
pub open spec fn can_hold(acc: Option<Reg>) -> bool {
    acc matches Some(reg) ==> reg != Rax && reg != Rcx && reg != Rdx && reg != Rbp && reg != Rsp
}

/// Combining `rax` into the accumulator.
proof fn lemma_reduce_into_acc(
    run: Run,
    acc: Option<Reg>,
    acc_slot: i32,
    op: ReduceOp,
    pc: int,
    m: Machine,
) -> (after: Machine)
    requires
        part_of(reduce_into_acc(acc, acc_slot, op), run.program, pc),
        run.at(pc, m),
        can_hold(acc),
    ensures
        run.at(pc + 4, after),
        acc_word(after, acc, acc_slot) == reduce_words(
            op,
            acc_word(m, acc, acc_slot),
            m.regs[Rax],
        ),
        after.xmms == m.xmms,
        forall|reg: Reg|
            reg != Rax && reg != Rdx && acc != Some(reg) ==> #[trigger] after.regs[reg]
                == m.regs[reg],
        forall|a: int|
            acc is Some || apart(a, slot_at(m.regs[Rbp], acc_slot)) ==> #[trigger] word_at(
                after.mem,
                a,
            ) == word_at(m.mem, a),
{
    let part = reduce_into_acc(acc, acc_slot, op);
    assert(run.program[pc] == part[0]);
    assert(run.program[pc + 1] == part[1]);
    assert(run.program[pc + 2] == part[2]);
    assert(run.program[pc + 3] == part[3]);
    let at = slot_at(m.regs[Rbp], acc_slot);
    let x = m.regs[Rax];
    let old = acc_word(m, acc, acc_slot);
    let m1 = m.set(Rdx, x);
    let m2 = m1.set(Rax, old);
    let m3 = operated(m2, op.alu_op(), Rax, x);
    let new = reduce_words(op, old, x);
    assert(m3.regs[Rax] == new);
    lemma_mov(run, pc, m, Rdx, Rax);
    match acc {
        Some(reg) => {
            lemma_mov(run, pc + 1, m1, Rax, reg);
            lemma_alu(run, pc + 2, m2, op.alu_op(), Rax, Rdx);
            lemma_mov(run, pc + 3, m3, reg, Rax);
            m3.set(reg, new)
        },
        None => {
            assert(m1.address(run.world, frame(acc_slot)) == at);
            lemma_load(run, pc + 1, m1, Rax, frame(acc_slot));
            lemma_alu(run, pc + 2, m2, op.alu_op(), Rax, Rdx);
            assert(m3.address(run.world, frame(acc_slot)) == at);
            lemma_store(run, pc + 3, m3, frame(acc_slot), Rax);
            law_word_reads_back(m3.mem, at, new);
            let m4 = m3.store(Width::Quad, at, new as int);
            assert forall|a: int| apart(a, at) implies #[trigger] word_at(m4.mem, a) == word_at(
                m.mem,
                a,
            ) by {
                law_word_keeps_others(m3.mem, at, new, a);
            }
            m4
        },
    }
}

// Reductions

/// Where the element at `index` of an array in the frame lies.
pub open spec fn element_at(bp: u64, base: i32, index: int) -> int {
    array_at(bp, base) + 8 * index
}

/// The elements from `first` on.
pub open spec fn elements(
    mem: spec_fn(int) -> u8,
    bp: u64,
    base: i32,
    first: int,
    n: nat,
) -> Seq<u64> {
    Seq::new(n, |j: int| word_at(mem, element_at(bp, base, first + j)))
}

/// Whether a loop's counter, its end, its accumulator and the array share no byte, and the
/// array does not run past the top of memory.
pub open spec fn loop_apart(
    bp: u64,
    i_slot: i32,
    end_slot: i32,
    acc_slot: i32,
    base: i32,
    len: int,
) -> bool {
    let i_at = slot_at(bp, i_slot);
    let end_at = slot_at(bp, end_slot);
    let acc_at = slot_at(bp, acc_slot);
    &&& apart(end_at, i_at)
    &&& apart(acc_at, i_at)
    &&& apart(end_at, acc_at)
    &&& base + 8 <= i32::MAX
    &&& array_at(bp, base) + 8 * len < word_span()
    &&& forall|k: int|
        0 <= k < len ==> apart(#[trigger] element_at(bp, base, k), i_at) && apart(
            element_at(bp, base, k),
            acc_at,
        )
}

/// One packed operation is the operation on each lane.
proof fn lemma_packed_reduces(op: ReduceOp, a: (u64, u64), b: (u64, u64), insn: Sse)
    requires
        op.packed() == (Insn::SseRr { op: insn, dst: Xmm0, src: Xmm1 }),
    ensures
        packed(insn, a, b) == Some((reduce_words(op, a.0, b.0), reduce_words(op, a.1, b.1))),
{
}

/// The packed operation of a reduction.
pub open spec fn packed_op(op: ReduceOp) -> Sse {
    match op {
        ReduceOp::Add => Sse::Paddq,
        ReduceOp::And => Sse::Pand,
        ReduceOp::Or => Sse::Por,
        ReduceOp::Xor => Sse::Pxor,
    }
}

/// The body of a reduction's loop over pairs.
pub open spec fn pair_body(op: ReduceOp, base: i32) -> Seq<Insn> {
    element_addr(base, 8) + seq![movdqu_from_rcx(Xmm1), op.packed()]
}

/// Combining the pair at `index`.
proof fn lemma_pair_body(
    run: Run,
    op: ReduceOp,
    base: i32,
    index: int,
    pc: int,
    m: Machine,
) -> (after: Machine)
    requires
        part_of(pair_body(op, base), run.program, pc),
        run.at(pc, m),
        base + 8 <= i32::MAX,
        0 <= index <= i32::MAX,
        m.regs[Rax] == index + 1,
        array_at(m.regs[Rbp], base) + 8 * (index + 1) < word_span(),
    ensures
        run.at(pc + 6, after),
        after.mem == m.mem,
        after.xmms[Xmm0] == (
            reduce_words(
                op,
                m.xmms[Xmm0].0,
                word_at(m.mem, element_at(m.regs[Rbp], base, index)),
            ),
            reduce_words(
                op,
                m.xmms[Xmm0].1,
                word_at(m.mem, element_at(m.regs[Rbp], base, index + 1)),
            ),
        ),
        forall|reg: Reg|
            reg != Rax && reg != Rcx ==> #[trigger] after.regs[reg] == m.regs[reg],
{
    let part = pair_body(op, base);
    let addr = element_addr(base, 8);
    assert forall|i: int| 0 <= i < 4 implies #[trigger] addr[i] == run.program[pc + i] by {
        assert(part[i] == addr[i]);
    }
    let m1 = lemma_element_addr(run, base, 8, index, pc, m);
    assert(run.program[pc + 4] == part[4]);
    assert(run.program[pc + 5] == part[5]);
    let a = element_at(m.regs[Rbp], base, index);
    assert(m1.address(run.world, at(Rcx)) == a);
    let pair = (word_at(m.mem, a), word_at(m.mem, a + 8));
    let m2 = m1.set_lanes(Xmm1, pair);
    lemma_movdqu_load(run, pc + 4, m1, Xmm1, at(Rcx));
    lemma_packed_reduces(op, m2.xmms[Xmm0], pair, packed_op(op));
    lemma_sse(run, pc + 5, m2, packed_op(op), Xmm0, Xmm1);
    m2.set_lanes(Xmm0, packed(packed_op(op), m2.xmms[Xmm0], pair)->0)
}

/// The state of a reduction's loop over pairs after `k` of them.
pub open spec fn paired(
    m0: Machine,
    m: Machine,
    op: ReduceOp,
    i_slot: i32,
    words: Seq<u64>,
    k: int,
) -> bool {
    let i_at = slot_at(m0.regs[Rbp], i_slot);
    &&& signed(word_at(m.mem, i_at)) == signed(word_at(m0.mem, i_at)) + 2 * k
    &&& forall|a: int| apart(a, i_at) ==> #[trigger] word_at(m.mem, a) == word_at(m0.mem, a)
    &&& forall|reg: Reg| reg != Rax && reg != Rcx ==> #[trigger] m.regs[reg] == m0.regs[reg]
    &&& m.xmms[Xmm0] == lanes(op, words, k)
}

/// How many elements the range from `first` to `last` has.
pub open spec fn range_len(first: int, last: int) -> nat {
    if first > last {
        0
    } else {
        (last - first + 1) as nat
    }
}

/// The loop over pairs, from the `k`-th on.
proof fn lemma_pair_turns(
    run: Run,
    m0: Machine,
    m: Machine,
    i_slot: i32,
    end_slot: i32,
    acc_slot: i32,
    op: ReduceOp,
    base: i32,
    len: int,
    k: int,
) -> (after: Machine)
    requires
        run.program == pair_loop(i_slot, end_slot, pair_body(op, base)),
        run.at(0, m),
        0 <= len <= i32::MAX,
        loop_apart(m0.regs[Rbp], i_slot, end_slot, acc_slot, base, len),
        ({
            let bp = m0.regs[Rbp];
            let first = signed(word_at(m0.mem, slot_at(bp, i_slot)));
            let last = signed(word_at(m0.mem, slot_at(bp, end_slot)));
            let n = range_len(first, last);
            &&& n > 0 ==> 0 <= first && last < len
            &&& 0 <= k <= n / 2
            &&& paired(m0, m, op, i_slot, elements(m0.mem, bp, base, first, n), k)
        }),
    ensures
        run.at(run.program.len() as int, after),
        ({
            let bp = m0.regs[Rbp];
            let first = signed(word_at(m0.mem, slot_at(bp, i_slot)));
            let last = signed(word_at(m0.mem, slot_at(bp, end_slot)));
            let n = range_len(first, last);
            paired(
                m0,
                after,
                op,
                i_slot,
                elements(m0.mem, bp, base, first, n),
                n as int / 2,
            )
        }),
    decreases
        range_len(
            signed(word_at(m0.mem, slot_at(m0.regs[Rbp], i_slot))),
            signed(word_at(m0.mem, slot_at(m0.regs[Rbp], end_slot))),
        ) - 2 * k,
{
    let bp = m0.regs[Rbp];
    let i_at = slot_at(bp, i_slot);
    let end_at = slot_at(bp, end_slot);
    let first = signed(word_at(m0.mem, i_at));
    let last = signed(word_at(m0.mem, end_at));
    let n = range_len(first, last);
    let words = elements(m0.mem, bp, base, first, n);
    let body = pair_body(op, base);
    assert(m.regs[Rbp] == bp);
    assert(word_at(m.mem, end_at) == word_at(m0.mem, end_at));
    let m1 = lemma_pair_head(run, i_slot, end_slot, body, m);
    if k == n / 2 {
        m1
    } else {
        let index = first + 2 * k;
        assert(m1.regs[Rax] == index + 1);
        assert forall|i: int| 0 <= i < body.len() implies #[trigger] body[i] == run.program[4
            + i] by {}
        let m2 = lemma_pair_body(run, op, base, index, 4, m1);
        assert(apart(element_at(bp, base, index), i_at));
        assert(apart(element_at(bp, base, index + 1), i_at));
        assert(words[2 * k] == word_at(m0.mem, element_at(bp, base, index)));
        assert(words[2 * k + 1] == word_at(m0.mem, element_at(bp, base, index + 1)));
        assert(m2.xmms[Xmm0] == lanes(op, words, k + 1));
        let pc = 4 + body.len() as int;
        assert(pc + 4 == run.program.len());
        let m3 = lemma_tail(run, i_slot, 2, pc, (body.len() + 7) as u16, m2);
        lemma_signed_sum(word_at(m2.mem, i_at), 2);
        lemma_pair_turns(
            run,
            m0,
            m3,
            i_slot,
            end_slot,
            acc_slot,
            op,
            base,
            len,
            k + 1,
        )
    }
}

/// The body of a reduction's loop over single elements.
pub open spec fn single_body(
    op: ReduceOp,
    i_slot: i32,
    base: i32,
    acc: Option<Reg>,
    acc_slot: i32,
) -> Seq<Insn> {
    load_array_elem(i_slot, base) + reduce_into_acc(acc, acc_slot, op)
}

/// Loading the element at `index`.
pub(crate) proof fn lemma_load_elem(run: Run, i_slot: i32, base: i32, index: int, pc: int,
    m: Machine) -> (after:
    Machine)
    requires
        part_of(load_array_elem(i_slot, base), run.program, pc),
        run.at(pc, m),
        0 <= index <= i32::MAX,
        signed(word_at(m.mem, slot_at(m.regs[Rbp], i_slot))) == index,
        array_at(m.regs[Rbp], base) + 8 * index < word_span(),
    ensures
        run.at(pc + 6, after),
        after.mem == m.mem,
        after.xmms == m.xmms,
        after.regs[Rax] == word_at(m.mem, element_at(m.regs[Rbp], base, index)),
        forall|reg: Reg|
            reg != Rax && reg != Rcx ==> #[trigger] after.regs[reg] == m.regs[reg],
{
    let part = load_array_elem(i_slot, base);
    let addr = element_addr(base, 0);
    assert(run.program[pc] == part[0]);
    assert forall|i: int| 0 <= i < 4 implies #[trigger] addr[i] == run.program[pc + 1 + i] by {
        assert(part[i + 1] == addr[i]);
    }
    assert(run.program[pc + 5] == part[5]);
    let i = word_at(m.mem, slot_at(m.regs[Rbp], i_slot));
    let m1 = m.set(Rax, i);
    assert(m.address(run.world, frame(i_slot)) == slot_at(m.regs[Rbp], i_slot));
    lemma_load(run, pc, m, Rax, frame(i_slot));
    let m2 = lemma_element_addr(run, base, 0, index, pc + 1, m1);
    let a = element_at(m.regs[Rbp], base, index);
    assert(m2.address(run.world, at(Rcx)) == a);
    lemma_load(run, pc + 5, m2, Rax, at(Rcx));
    m2.set(Rax, word_at(m.mem, a))
}

/// The state of a reduction's loop over single elements after `j` of them.
pub open spec fn singled(
    m0: Machine,
    m: Machine,
    op: ReduceOp,
    i_slot: i32,
    acc: Option<Reg>,
    acc_slot: i32,
    words: Seq<u64>,
    j: int,
) -> bool {
    let i_at = slot_at(m0.regs[Rbp], i_slot);
    let acc_at = slot_at(m0.regs[Rbp], acc_slot);
    &&& signed(word_at(m.mem, i_at)) == signed(word_at(m0.mem, i_at)) + j
    &&& forall|a: int|
        apart(a, i_at) && (acc is Some || apart(a, acc_at)) ==> #[trigger] word_at(m.mem, a)
            == word_at(m0.mem, a)
    &&& forall|reg: Reg|
        reg != Rax && reg != Rcx && reg != Rdx && acc != Some(reg) ==> #[trigger] m.regs[reg]
            == m0.regs[reg]
    &&& acc_word(m, acc, acc_slot) == fold_in_order(op, acc_word(m0, acc, acc_slot), words, j)
    &&& m.xmms == m0.xmms
}

/// The loop over single elements, from the `j`-th on.
proof fn lemma_single_turns(
    run: Run,
    m0: Machine,
    m: Machine,
    i_slot: i32,
    end_slot: i32,
    acc: Option<Reg>,
    acc_slot: i32,
    op: ReduceOp,
    base: i32,
    len: int,
    j: int,
) -> (after: Machine)
    requires
        run.program == single_loop(
            i_slot,
            end_slot,
            single_body(op, i_slot, base, acc, acc_slot),
        ),
        run.at(0, m),
        can_hold(acc),
        0 <= len <= i32::MAX,
        loop_apart(m0.regs[Rbp], i_slot, end_slot, acc_slot, base, len),
        ({
            let bp = m0.regs[Rbp];
            let first = signed(word_at(m0.mem, slot_at(bp, i_slot)));
            let last = signed(word_at(m0.mem, slot_at(bp, end_slot)));
            let n = range_len(first, last);
            &&& n > 0 ==> 0 <= first && last < len
            &&& 0 <= j <= n
            &&& singled(
                m0,
                m,
                op,
                i_slot,
                acc,
                acc_slot,
                elements(m0.mem, bp, base, first, n),
                j,
            )
        }),
    ensures
        run.at(run.program.len() as int, after),
        ({
            let bp = m0.regs[Rbp];
            let first = signed(word_at(m0.mem, slot_at(bp, i_slot)));
            let last = signed(word_at(m0.mem, slot_at(bp, end_slot)));
            let n = range_len(first, last);
            singled(
                m0,
                after,
                op,
                i_slot,
                acc,
                acc_slot,
                elements(m0.mem, bp, base, first, n),
                n as int,
            )
        }),
    decreases
        range_len(
            signed(word_at(m0.mem, slot_at(m0.regs[Rbp], i_slot))),
            signed(word_at(m0.mem, slot_at(m0.regs[Rbp], end_slot))),
        ) - j,
{
    let bp = m0.regs[Rbp];
    let i_at = slot_at(bp, i_slot);
    let end_at = slot_at(bp, end_slot);
    let acc_at = slot_at(bp, acc_slot);
    let first = signed(word_at(m0.mem, i_at));
    let last = signed(word_at(m0.mem, end_at));
    let n = range_len(first, last);
    let words = elements(m0.mem, bp, base, first, n);
    let body = single_body(op, i_slot, base, acc, acc_slot);
    assert(m.regs[Rbp] == bp);
    assert(word_at(m.mem, end_at) == word_at(m0.mem, end_at));
    let m1 = lemma_single_head(run, i_slot, end_slot, body, m);
    if j == n {
        m1
    } else {
        let index = first + j;
        let loading = load_array_elem(i_slot, base);
        let combining = reduce_into_acc(acc, acc_slot, op);
        assert forall|i: int| 0 <= i < loading.len() implies #[trigger] loading[i] == run.program[3
            + i] by {
            assert(body[i] == loading[i]);
        }
        assert forall|i: int| 0 <= i < combining.len() implies #[trigger] combining[i]
            == run.program[9 + i] by {
            assert(body[6 + i] == combining[i]);
        }
        assert(loading.len() == 6);
        let m2 = lemma_load_elem(run, i_slot, base, index, 3, m1);
        assert(apart(element_at(bp, base, index), i_at));
        assert(apart(element_at(bp, base, index), acc_at));
        assert(words[j] == word_at(m0.mem, element_at(bp, base, index)));
        assert(m2.regs[Rax] == words[j]);
        assert(acc_word(m2, acc, acc_slot) == acc_word(m, acc, acc_slot));
        let m3 = lemma_reduce_into_acc(run, acc, acc_slot, op, 9, m2);
        assert(acc_word(m3, acc, acc_slot) == fold_in_order(
            op,
            acc_word(m0, acc, acc_slot),
            words,
            j + 1,
        ));
        assert(m3.regs[Rbp] == bp);
        assert(word_at(m3.mem, i_at) == word_at(m.mem, i_at));
        let m4 = lemma_tail(run, i_slot, 1, 13, (body.len() + 6) as u16, m3);
        lemma_signed_sum(word_at(m3.mem, i_at), 1);
        assert(acc_word(m4, acc, acc_slot) == acc_word(m3, acc, acc_slot));
        lemma_single_turns(
            run,
            m0,
            m4,
            i_slot,
            end_slot,
            acc,
            acc_slot,
            op,
            base,
            len,
            j + 1,
        )
    }
}

/// Folding the two lanes into `rax`.
proof fn lemma_hfold(run: Run, op: ReduceOp, pc: int, m: Machine) -> (after: Machine)
    requires
        part_of(hfold(op), run.program, pc),
        run.at(pc, m),
    ensures
        run.at(pc + 4, after),
        after.mem == m.mem,
        after.regs[Rax] == reduce_words(op, m.xmms[Xmm0].0, m.xmms[Xmm0].1),
        forall|reg: Reg|
            reg != Rax && reg != Rcx ==> #[trigger] after.regs[reg] == m.regs[reg],
{
    let part = hfold(op);
    assert(run.program[pc] == part[0]);
    assert(run.program[pc + 1] == part[1]);
    assert(run.program[pc + 2] == part[2]);
    assert(run.program[pc + 3] == part[3]);
    let (low, high) = m.xmms[Xmm0];
    let m1 = m.set(Rax, low);
    let m2 = m1.set_lanes(Xmm0, (high, 0));
    let m3 = m2.set(Rcx, high);
    lemma_movq(run, pc, m, Rax, Xmm0);
    lemma_psrldq(run, pc + 1, m1, Xmm0);
    lemma_movq(run, pc + 2, m2, Rcx, Xmm0);
    lemma_alu(run, pc + 3, m3, op.alu_op(), Rax, Rcx);
    operated(m3, op.alu_op(), Rax, high)
}

/// Seeding the lanes with the identity.
proof fn lemma_identity(run: Run, op: ReduceOp, pc: int, m: Machine) -> (after: Machine)
    requires
        0 <= pc < run.program.len(),
        run.program[pc] == op.packed_identity(),
        run.at(pc, m),
    ensures
        run.at(pc + 1, after),
        after.mem == m.mem,
        after.regs == m.regs,
        after.xmms[Xmm0] == (reduce_identity(op), reduce_identity(op)),
{
    let (low, high) = m.xmms[Xmm0];
    if op == ReduceOp::And {
        assert(halves_equal(low, low) == 0xFFFF_FFFF_FFFF_FFFF) by {
            assert(0xFFFF_FFFFu64 | 0xFFFF_FFFF_0000_0000u64 == 0xFFFF_FFFF_FFFF_FFFFu64)
                by (bit_vector);
        }
        assert(halves_equal(high, high) == halves_equal(low, low));
        lemma_sse(run, pc, m, Sse::Pcmpeqd, Xmm0, Xmm0);
    } else {
        assert(low ^ low == 0) by (bit_vector);
        assert(high ^ high == 0) by (bit_vector);
        lemma_sse(run, pc, m, Sse::Pxor, Xmm0, Xmm0);
    }
    let id = reduce_identity(op);
    m.set_lanes(Xmm0, (id, id))
}

/// What a reduction leaves: the accumulator holds what combining the elements one after
/// the other gives, and nothing changes but the counter, the accumulator, `rax`, `rcx`,
/// `rdx` and the vector registers.
pub open spec fn reduces(
    before: Machine,
    after: Machine,
    i_slot: i32,
    end_slot: i32,
    acc: Option<Reg>,
    red: Reduction,
) -> bool {
    let bp = before.regs[Rbp];
    let first = signed(word_at(before.mem, slot_at(bp, i_slot)));
    let last = signed(word_at(before.mem, slot_at(bp, end_slot)));
    let n = range_len(first, last);
    let words = elements(before.mem, bp, red.array_base_static, first, n);
    &&& acc_word(after, acc, red.acc_slot) == fold_in_order(
        red.op,
        acc_word(before, acc, red.acc_slot),
        words,
        n as int,
    )
    &&& forall|a: int|
        apart(a, slot_at(bp, i_slot)) && (acc is Some || apart(a, slot_at(bp, red.acc_slot)))
            ==> #[trigger] word_at(after.mem, a) == word_at(before.mem, a)
    &&& forall|reg: Reg|
        reg != Rax && reg != Rcx && reg != Rdx && acc != Some(reg) ==> #[trigger] after.regs[reg]
            == before.regs[reg]
}

/// A vectorized reduction computes exactly what the plain loop computes, element after
/// element in order; a range that is not empty and not inside the array traps, with memory
/// as it was.
pub proof fn law_vectorized_reduction(
    world: World,
    i_slot: i32,
    end_slot: i32,
    acc: Option<Reg>,
    red: Reduction,
    m: Machine,
)
    requires
        can_hold(acc),
        0 <= red.array_len <= i32::MAX,
        loop_apart(
            m.regs[Rbp],
            i_slot,
            end_slot,
            red.acc_slot,
            red.array_base_static,
            red.array_len as int,
        ),
    ensures
        ({
            let bp = m.regs[Rbp];
            let first = signed(word_at(m.mem, slot_at(bp, i_slot)));
            let last = signed(word_at(m.mem, slot_at(bp, end_slot)));
            let program = reduction_program(i_slot, end_slot, acc, red);
            let inside = first > last || (0 <= first && last < red.array_len);
            &&& inside ==> exists|after: Machine|
                #[trigger] flows(world, program, m, after) && reduces(
                    m,
                    after,
                    i_slot,
                    end_slot,
                    acc,
                    red,
                )
            &&& !inside ==> traps(world, program, m)
        }),
{
    let bp = m.regs[Rbp];
    let i_at = slot_at(bp, i_slot);
    let end_at = slot_at(bp, end_slot);
    let first = signed(word_at(m.mem, i_at));
    let last = signed(word_at(m.mem, end_at));
    let inside = first > last || (0 <= first && last < red.array_len);
    let program = reduction_program(i_slot, end_slot, acc, red);
    let guard = loop_bounds_guard(i_slot, end_slot, red.array_len);
    assert(m.address(world, frame(i_slot)) == i_at);
    assert(m.address(world, frame(end_slot)) == end_at);
    law_loop_bounds_guard(world, i_slot, end_slot, red.array_len, m);
    assert(part_of(guard, program, 0));
    if inside {
        let guarded = choose|after: Machine|
            {
                &&& #[trigger] flows(world, guard, m, after)
                &&& after.regs == m.regs.insert(Rax, after.regs[Rax])
                &&& after.mem == m.mem
                &&& after.xmms == m.xmms
            };
        let after = lemma_reduction(world, i_slot, end_slot, acc, red, m, guarded);
        assert(flows(world, program, m, after) && reduces(m, after, i_slot, end_slot, acc, red));
    } else {
        law_guarded_programs_trap(world, i_slot, end_slot, red.array_len, program, m);
    }
}

/// A reduction behind its guard.
#[verifier::rlimit(40)]
proof fn lemma_reduction(
    world: World,
    i_slot: i32,
    end_slot: i32,
    acc: Option<Reg>,
    red: Reduction,
    m: Machine,
    guarded: Machine,
) -> (after: Machine)
    requires
        can_hold(acc),
        0 <= red.array_len <= i32::MAX,
        loop_apart(
            m.regs[Rbp],
            i_slot,
            end_slot,
            red.acc_slot,
            red.array_base_static,
            red.array_len as int,
        ),
        flows(world, loop_bounds_guard(i_slot, end_slot, red.array_len), m, guarded),
        guarded.regs == m.regs.insert(Rax, guarded.regs[Rax]),
        guarded.mem == m.mem,
        ({
            let first = signed(word_at(m.mem, slot_at(m.regs[Rbp], i_slot)));
            let last = signed(word_at(m.mem, slot_at(m.regs[Rbp], end_slot)));
            &&& first > last || (0 <= first && last < red.array_len)
        }),
    ensures
        flows(world, reduction_program(i_slot, end_slot, acc, red), m, after),
        reduces(m, after, i_slot, end_slot, acc, red),
{
    let program = reduction_program(i_slot, end_slot, acc, red);
    let run = Run { world, program, start: 0, before: m };
    let op = red.op;
    let base = red.array_base_static;
    let len = red.array_len as int;
    let bp = m.regs[Rbp];
    let i_at = slot_at(bp, i_slot);
    let end_at = slot_at(bp, end_slot);
    let acc_at = slot_at(bp, red.acc_slot);
    let first = signed(word_at(m.mem, i_at));
    let last = signed(word_at(m.mem, end_at));
    let n = range_len(first, last);
    let words = elements(m.mem, bp, base, first, n);
    let guard = loop_bounds_guard(i_slot, end_slot, red.array_len);
    let pairs = pair_loop(i_slot, end_slot, pair_body(op, base));
    let folding = hfold(op);
    let combining = reduce_into_acc(acc, red.acc_slot, op);
    let singles = single_loop(
        i_slot,
        end_slot,
        single_body(op, i_slot, base, acc, red.acc_slot),
    );
    assert(guard.len() == 10 && pairs.len() == 14 && folding.len() == 4 && combining.len() == 4
        && singles.len() == 17);
    assert(program =~= guard + seq![op.packed_identity()] + pairs + folding + combining + singles);
    lemma_begin(run);
    assert(part_of(guard, program, 0));
    lemma_part(run, 0, m, guard, guarded);
    assert(program[10] == op.packed_identity());
    let m2 = lemma_identity(run, op, 10, guarded);
    let pair_run = Run { world, program: pairs, start: 0, before: m2 };
    lemma_begin(pair_run);
    assert(m2.regs[Rbp] == bp);
    let m3 = lemma_pair_turns(
        pair_run,
        m2,
        m2,
        i_slot,
        end_slot,
        red.acc_slot,
        op,
        base,
        len,
        0,
    );
    assert(part_of(pairs, program, 11));
    lemma_part(run, 11, m2, pairs, m3);
    assert(part_of(folding, program, 25));
    let m4 = lemma_hfold(run, op, 25, m3);
    assert(part_of(combining, program, 29));
    let m5 = lemma_reduce_into_acc(run, acc, red.acc_slot, op, 29, m4);
    assert(m5.regs[Rbp] == bp);
    let half = n as int / 2;
    let first2 = first + 2 * half;
    assert(word_at(m5.mem, i_at) == word_at(m3.mem, i_at));
    assert(word_at(m5.mem, end_at) == word_at(m.mem, end_at)) by {
        assert(word_at(m3.mem, end_at) == word_at(m2.mem, end_at));
    }
    let single_run = Run { world, program: singles, start: 0, before: m5 };
    lemma_begin(single_run);
    let after = lemma_single_turns(
        single_run,
        m5,
        m5,
        i_slot,
        end_slot,
        acc,
        red.acc_slot,
        op,
        base,
        len,
        0,
    );
    assert(part_of(singles, program, 33));
    lemma_part(run, 33, m5, singles, after);
    // The total.
    let acc0 = acc_word(m, acc, red.acc_slot);
    assert(acc_word(m4, acc, red.acc_slot) == acc0) by {
        if acc is None {
            assert(word_at(m3.mem, acc_at) == word_at(m2.mem, acc_at));
        }
    }
    let (even, odd) = lanes(op, words, half);
    let folded = reduce_words(op, acc0, reduce_words(op, even, odd));
    assert(acc_word(m5, acc, red.acc_slot) == folded);
    let rest = elements(m5.mem, bp, base, first2, range_len(first2, last));
    if n % 2 == 1 {
        assert(first2 == last);
        assert(rest.len() == 1);
        let at = element_at(bp, base, last);
        assert(apart(at, i_at) && apart(at, acc_at));
        assert(rest[0] == word_at(m5.mem, at));
        assert(word_at(m3.mem, at) == word_at(m2.mem, at));
        assert(words[n - 1] == word_at(m.mem, at));
        assert(fold_in_order(op, folded, rest, 1) == reduce_words(
            op,
            fold_in_order(op, folded, rest, 0),
            rest[0],
        ));
    } else {
        assert(rest.len() == 0);
    }
    assert(acc_word(after, acc, red.acc_slot) == fold_in_lanes(op, acc0, words));
    law_two_lanes_reduce_as_one(op, acc0, words);
    assert forall|a: int|
        apart(a, i_at) && (acc is Some || apart(a, acc_at)) implies #[trigger] word_at(
        after.mem,
        a,
    ) == word_at(m.mem, a) by {
        assert(word_at(after.mem, a) == word_at(m5.mem, a));
        assert(word_at(m5.mem, a) == word_at(m4.mem, a));
        assert(word_at(m3.mem, a) == word_at(m2.mem, a));
    }
    assert forall|reg: Reg|
        reg != Rax && reg != Rcx && reg != Rdx
            && acc != Some(reg) implies #[trigger] after.regs[reg]
        == m.regs[reg] by {
        assert(after.regs[reg] == m5.regs[reg]);
        assert(m5.regs[reg] == m4.regs[reg]);
        assert(m4.regs[reg] == m3.regs[reg]);
        assert(m3.regs[reg] == m2.regs[reg]);
    }
    after
}

} // verus!
