//! Vectorized sums and dot products of floats: what the loops leave in the accumulator.

use crate::behavior::frames::slot_at;
use crate::behavior::guards::{law_guarded_programs_trap, law_loop_bounds_guard, traps};
use crate::behavior::instructions::{
    lemma_begin, lemma_double_store, lemma_float_load, lemma_floated, lemma_mov, lemma_movdqu_load,
    lemma_part, lemma_powers, lemma_shl, lemma_sse, Run,
};
use crate::behavior::loops::{
    element_at, lemma_pair_head, lemma_signed_sum, lemma_single_head, lemma_tail, loop_apart,
    range_len,
};
use crate::behavior::maps::{counter, double_pair_body, lemma_block_addr};
use crate::machine::{
    apart, flows, law_word_keeps_others, law_word_reads_back, packed, part_of, word_at, word_span,
    Machine, World,
};
use crate::mnemonics::{at, frame, mov, shift, store_float_local};
use crate::vector_loops::{
    block_addr, f64_pair_factor, f64_program, f64_single_factor, movsd_xmm1_from_local, pair_loop,
    single_loop, F64Reduction,
};
use crate::vectorize::{loop_bounds_guard, movsd_from_rcx, scalar_double, sse};
use crate::x86::{FloatWidth, Insn, Reg, ScalarOp, Shift, Sse, Width};
use crate::x86::Reg::{Rax, Rbp, Rcx, Rdx};
use crate::x86::Xmm::{Xmm0, Xmm1, Xmm2};
use vstd::prelude::*;

verus! {

/// What the element at `index` adds to the sum: the element, or its product with the other
/// array's.
pub open spec fn term(world: World, m: Machine, red: F64Reduction, index: int) -> u64 {
    let bp = m.regs[Rbp];
    let left = word_at(m.mem, element_at(bp, red.lhs_base, index));
    match red.rhs_base {
        Some(base) => (world.double)(
            ScalarOp::Times,
            left,
            word_at(m.mem, element_at(bp, base, index)),
        ),
        None => left,
    }
}

/// The sum of `k` terms, every other one from `first` on, from the left and starting with
/// zero.
pub open spec fn every_other(
    world: World,
    m: Machine,
    red: F64Reduction,
    first: int,
    k: int,
) -> u64
    decreases k,
{
    if k <= 0 {
        0
    } else {
        (world.double)(
            ScalarOp::Plus,
            every_other(world, m, red, first, k - 1),
            term(world, m, red, first + 2 * (k - 1)),
        )
    }
}

/// The accumulator after the terms of `n` elements from `first` on: the sum of those at even
/// places and that of those at odd places are added up, then to the accumulator, and a last
/// element without a partner after them.
pub open spec fn summed(world: World, m: Machine, red: F64Reduction, first: int, n: int) -> u64 {
    let pairs = (world.double)(
        ScalarOp::Plus,
        every_other(world, m, red, first, n / 2),
        every_other(world, m, red, first + 1, n / 2),
    );
    let old = word_at(m.mem, slot_at(m.regs[Rbp], red.acc_slot));
    let whole = (world.double)(ScalarOp::Plus, pairs, old);
    if n % 2 == 1 {
        (world.double)(ScalarOp::Plus, term(world, m, red, first + n - 1), whole)
    } else {
        whole
    }
}

/// Whether the counter, its end, the accumulator and the arrays lie apart, as a frame lays
/// them out.
pub open spec fn sum_apart(m: Machine, i_slot: i32, end_slot: i32, red: F64Reduction) -> bool {
    let bp = m.regs[Rbp];
    let len = red.array_len as int;
    &&& loop_apart(bp, i_slot, end_slot, red.acc_slot, red.lhs_base, len)
    &&& red.rhs_base matches Some(base) ==> loop_apart(
        bp,
        i_slot,
        end_slot,
        red.acc_slot,
        base,
        len,
    )
}

/// Whether nothing changed between two states but the counter, the accumulator, and
/// registers that the loops use.
pub open spec fn sum_keeps(
    m0: Machine,
    m: Machine,
    i_slot: i32,
    red: F64Reduction,
) -> bool {
    let bp = m0.regs[Rbp];
    &&& forall|a: int|
        apart(a, slot_at(bp, i_slot)) && apart(a, slot_at(bp, red.acc_slot))
            ==> #[trigger] word_at(m.mem, a) == word_at(m0.mem, a)
    &&& forall|reg: Reg|
        reg != Rax && reg != Rcx && reg != Rdx ==> #[trigger] m.regs[reg] == m0.regs[reg]
}

/// Terms read the arrays alone, which the loops leave as they are.
proof fn lemma_term_stands(
    world: World,
    m0: Machine,
    m: Machine,
    i_slot: i32,
    end_slot: i32,
    red: F64Reduction,
    index: int,
)
    requires
        sum_apart(m0, i_slot, end_slot, red),
        sum_keeps(m0, m, i_slot, red),
        0 <= index < red.array_len,
    ensures
        term(world, m, red, index) == term(world, m0, red, index),
{
    let bp = m0.regs[Rbp];
    assert(m.regs[Rbp] == bp);
    assert(apart(element_at(bp, red.lhs_base, index), slot_at(bp, i_slot)));
    if let Some(base) = red.rhs_base {
        assert(apart(element_at(bp, base, index), slot_at(bp, i_slot)));
    }
}

// The loop over pairs

/// One turn of the loop over pairs adds two terms, one in each lane.
#[verifier::rlimit(40)]
proof fn lemma_pair_body(
    run: Run,
    red: F64Reduction,
    index: int,
    pc: int,
    m: Machine,
) -> (after: Machine)
    requires
        part_of(double_pair_body(red), run.program, pc),
        run.at(pc, m),
        0 <= index < i32::MAX,
        m.regs[Rax] == index + 1,
        red.lhs_base + 8 <= i32::MAX,
        element_at(m.regs[Rbp], red.lhs_base, index + 2) < word_span(),
        red.rhs_base matches Some(base) ==> base + 8 <= i32::MAX && element_at(
            m.regs[Rbp],
            base,
            index + 2,
        ) < word_span(),
    ensures
        run.at(pc + double_pair_body(red).len(), after),
        after.mem == m.mem,
        after.xmms[Xmm0] == (
            (run.world.double)(ScalarOp::Plus, m.xmms[Xmm0].0, term(run.world, m, red, index)),
            (run.world.double)(
                ScalarOp::Plus,
                m.xmms[Xmm0].1,
                term(run.world, m, red, index + 1),
            ),
        ),
        forall|reg: Reg|
            reg != Rax && reg != Rcx && reg != Rdx ==> #[trigger] after.regs[reg] == m.regs[reg],
{
    let bp = m.regs[Rbp];
    let part = double_pair_body(red);
    let to_lhs = block_addr(red.lhs_base, 8);
    let factor = f64_pair_factor(red.rhs_base);
    let t = factor.len() as int;
    assert(part.len() == 7 + t);
    assert(run.program[pc] == part[0]);
    assert(run.program[pc + 1] == part[1]);
    assert forall|i: int| 0 <= i < 3 implies #[trigger] to_lhs[i] == run.program[pc + 2 + i] by {
        assert(part[2 + i] == to_lhs[i]);
    }
    assert(run.program[pc + 5] == part[5]);
    assert forall|i: int| 0 <= i < t implies #[trigger] factor[i] == run.program[pc + 6 + i] by {
        assert(part[6 + i] == factor[i]);
    }
    assert(run.program[pc + 6 + t] == part[6 + t]);
    let lhs = element_at(bp, red.lhs_base, index);
    lemma_powers();
    let m1 = lemma_shl(run, pc, m, Rax, 3, 8);
    assert(m1.regs[Rax] == 8 * index + 8);
    let m2 = m1.set(Rdx, m1.regs[Rax]);
    lemma_mov(run, pc + 1, m1, Rdx, Rax);
    let m3 = lemma_block_addr(run, red.lhs_base, 8, index, pc + 2, m2);
    assert(m3.address(run.world, at(Rcx)) == lhs);
    let a = (word_at(m.mem, lhs), word_at(m.mem, lhs + 8));
    lemma_movdqu_load(run, pc + 5, m3, Xmm1, at(Rcx));
    let m4 = m3.set_lanes(Xmm1, a);
    let terms = (term(run.world, m, red, index), term(run.world, m, red, index + 1));
    assert(element_at(bp, red.lhs_base, index + 1) == lhs + 8);
    let m7 = match red.rhs_base {
        Some(base) => {
            let to_rhs = block_addr(base, 8);
            let rhs = element_at(bp, base, index);
            assert(t == 5);
            assert forall|i: int| 0 <= i < 3 implies #[trigger] to_rhs[i] == run.program[pc + 6
                + i] by {
                assert(factor[i] == to_rhs[i]);
            }
            assert(run.program[pc + 6 + 3] == factor[3]);
            assert(run.program[pc + 6 + 4] == factor[4]);
            let m5 = lemma_block_addr(run, base, 8, index, pc + 6, m4);
            assert(m5.address(run.world, at(Rcx)) == rhs);
            let b = (word_at(m.mem, rhs), word_at(m.mem, rhs + 8));
            assert(element_at(bp, base, index + 1) == rhs + 8);
            lemma_movdqu_load(run, pc + 9, m5, Xmm2, at(Rcx));
            let m6 = m5.set_lanes(Xmm2, b);
            lemma_floated(run, pc + 10, m6, Sse::Mulpd, Xmm1, Xmm2);
            m6.set_lanes(Xmm1, terms)
        },
        None => m4,
    };
    assert(m7.xmms[Xmm1] == terms);
    assert(m7.xmms[Xmm0] == m.xmms[Xmm0]);
    lemma_floated(run, pc + 6 + t, m7, Sse::Addpd, Xmm0, Xmm1);
    m7.set_lanes(
        Xmm0,
        (
            (run.world.double)(ScalarOp::Plus, m.xmms[Xmm0].0, terms.0),
            (run.world.double)(ScalarOp::Plus, m.xmms[Xmm0].1, terms.1),
        ),
    )
}

/// The state of the loop over pairs after `k` of them.
pub open spec fn pairs_summed(
    world: World,
    m0: Machine,
    m: Machine,
    i_slot: i32,
    red: F64Reduction,
    k: int,
) -> bool {
    let bp = m0.regs[Rbp];
    let first = counter(m0, bp, i_slot);
    &&& counter(m, bp, i_slot) == first + 2 * k
    &&& sum_keeps(m0, m, i_slot, red)
    &&& word_at(m.mem, slot_at(bp, red.acc_slot)) == word_at(m0.mem, slot_at(bp, red.acc_slot))
    &&& m.xmms[Xmm0] == (
        every_other(world, m0, red, first, k),
        every_other(world, m0, red, first + 1, k),
    )
}

#[verifier::rlimit(30)]
proof fn lemma_pair_turns(
    run: Run,
    m0: Machine,
    m: Machine,
    i_slot: i32,
    end_slot: i32,
    red: F64Reduction,
    k: int,
) -> (after: Machine)
    requires
        run.program == pair_loop(i_slot, end_slot, double_pair_body(red)),
        run.at(0, m),
        0 <= red.array_len <= i32::MAX,
        sum_apart(m0, i_slot, end_slot, red),
        pairs_summed(run.world, m0, m, i_slot, red, k),
        ({
            let first = counter(m0, m0.regs[Rbp], i_slot);
            let last = counter(m0, m0.regs[Rbp], end_slot);
            let n = range_len(first, last);
            &&& n > 0 ==> 0 <= first && last < red.array_len
            &&& 0 <= k <= n / 2
        }),
    ensures
        run.at(run.program.len() as int, after),
        ({
            let first = counter(m0, m0.regs[Rbp], i_slot);
            let last = counter(m0, m0.regs[Rbp], end_slot);
            pairs_summed(run.world, m0, after, i_slot, red, range_len(first, last) as int / 2)
        }),
    decreases
        range_len(
            counter(m0, m0.regs[Rbp], i_slot),
            counter(m0, m0.regs[Rbp], end_slot),
        ) - 2 * k,
{
    let bp = m0.regs[Rbp];
    let i_at = slot_at(bp, i_slot);
    let end_at = slot_at(bp, end_slot);
    let acc_at = slot_at(bp, red.acc_slot);
    let first = counter(m0, bp, i_slot);
    let last = counter(m0, bp, end_slot);
    let n = range_len(first, last);
    let body = double_pair_body(red);
    assert(m.regs[Rbp] == bp);
    assert(body.len() <= 12);
    assert(word_at(m.mem, end_at) == word_at(m0.mem, end_at));
    let m1 = lemma_pair_head(run, i_slot, end_slot, body, m);
    if k == n / 2 {
        assert forall|reg: Reg|
            reg != Rax && reg != Rcx && reg != Rdx implies #[trigger] m1.regs[reg]
            == m0.regs[reg] by {
            assert(m1.regs[reg] == m.regs[reg]);
        }
        m1
    } else {
        let index = first + 2 * k;
        assert(m1.regs[Rax] == index + 1);
        assert forall|i: int| 0 <= i < body.len() implies #[trigger] body[i] == run.program[4
            + i] by {}
        let m2 = lemma_pair_body(run, red, index, 4, m1);
        assert(sum_keeps(m0, m1, i_slot, red)) by {
            assert forall|reg: Reg|
                reg != Rax && reg != Rcx && reg != Rdx implies #[trigger] m1.regs[reg]
                == m0.regs[reg] by {
                assert(m1.regs[reg] == m.regs[reg]);
            }
        }
        lemma_term_stands(run.world, m0, m1, i_slot, end_slot, red, index);
        lemma_term_stands(run.world, m0, m1, i_slot, end_slot, red, index + 1);
        assert(m2.regs[Rbp] == m1.regs[Rbp]);
        let pc = 4 + body.len() as int;
        let m3 = lemma_tail(run, i_slot, 2, pc, (body.len() + 7) as u16, m2);
        lemma_signed_sum(word_at(m2.mem, i_at), 2);
        assert forall|reg: Reg|
            reg != Rax && reg != Rcx && reg != Rdx implies #[trigger] m3.regs[reg]
            == m0.regs[reg] by {
            assert(m3.regs[reg] == m2.regs[reg]);
            assert(m2.regs[reg] == m1.regs[reg]);
            assert(m1.regs[reg] == m0.regs[reg]);
        }
        assert(word_at(m3.mem, acc_at) == word_at(m.mem, acc_at));
        assert(m3.xmms[Xmm0] == (
            every_other(run.world, m0, red, first, k + 1),
            every_other(run.world, m0, red, first + 1, k + 1),
        ));
        lemma_pair_turns(run, m0, m3, i_slot, end_slot, red, k + 1)
    }
}

// The lanes

/// Adds up the lanes and the accumulator.
pub open spec fn lanes_into_acc(red: F64Reduction) -> Seq<Insn> {
    seq![
        sse(Sse::Movapd, Xmm1, Xmm0),
        sse(Sse::Unpckhpd, Xmm1, Xmm1),
        scalar_double(ScalarOp::Plus),
        movsd_xmm1_from_local(red.acc_slot),
        scalar_double(ScalarOp::Plus),
        store_float_local(red.acc_slot, FloatWidth::F64),
    ]
}

proof fn lemma_lanes_into_acc(world: World, red: F64Reduction, m: Machine) -> (after: Machine)
    ensures
        flows(world, lanes_into_acc(red), m, after),
        after.regs == m.regs,
        ({
            let at = slot_at(m.regs[Rbp], red.acc_slot);
            &&& word_at(after.mem, at) == (world.double)(
                ScalarOp::Plus,
                (world.double)(ScalarOp::Plus, m.xmms[Xmm0].0, m.xmms[Xmm0].1),
                word_at(m.mem, at),
            )
            &&& forall|a: int| apart(a, at) ==> #[trigger] word_at(after.mem, a) == word_at(
                m.mem,
                a,
            )
        }),
{
    let program = lanes_into_acc(red);
    let run = Run { world, program, start: 0, before: m };
    let slot = slot_at(m.regs[Rbp], red.acc_slot);
    let (low, high) = m.xmms[Xmm0];
    let old = word_at(m.mem, slot);
    let plus = Sse::Scalar(FloatWidth::F64, ScalarOp::Plus);
    assert(program.len() == 6);
    lemma_begin(run);
    lemma_sse(run, 0, m, Sse::Movapd, Xmm1, Xmm0);
    let m1 = m.set_lanes(Xmm1, (low, high));
    lemma_sse(run, 1, m1, Sse::Unpckhpd, Xmm1, Xmm1);
    let m2 = m1.set_lanes(Xmm1, (high, high));
    lemma_floated(run, 2, m2, plus, Xmm0, Xmm1);
    let both = (world.double)(ScalarOp::Plus, low, high);
    let m3 = m2.set_lanes(Xmm0, (both, high));
    assert(m3.address(world, frame(red.acc_slot)) == slot);
    lemma_float_load(run, 3, m3, FloatWidth::F64, Xmm1, frame(red.acc_slot));
    let m4 = m3.set_lanes(Xmm1, (old, 0));
    lemma_floated(run, 4, m4, plus, Xmm0, Xmm1);
    let new = (world.double)(ScalarOp::Plus, both, old);
    let m5 = m4.set_lanes(Xmm0, (new, high));
    assert(m5.address(world, frame(red.acc_slot)) == slot);
    lemma_double_store(run, 5, m5, frame(red.acc_slot), Xmm0);
    let after = m5.store(Width::Quad, slot, new as int);
    law_word_reads_back(m5.mem, slot, new);
    assert forall|a: int| apart(a, slot) implies #[trigger] word_at(after.mem, a) == word_at(
        m.mem,
        a,
    ) by {
        law_word_keeps_others(m5.mem, slot, new, a);
    }
    after
}

// The loop over a last element

/// The body of the loop over single elements.
pub open spec fn double_single_body(red: F64Reduction) -> Seq<Insn> {
    seq![shift(Shift::Shl, Rax, 3), mov(Rdx, Rax)] + block_addr(red.lhs_base, 0) + seq![
        movsd_from_rcx(Xmm0),
    ] + f64_single_factor(red.rhs_base) + seq![
        movsd_xmm1_from_local(red.acc_slot),
        scalar_double(ScalarOp::Plus),
        store_float_local(red.acc_slot, FloatWidth::F64),
    ]
}

/// One turn of the loop over single elements adds one term to the accumulator.
#[verifier::rlimit(40)]
proof fn lemma_single_body(
    run: Run,
    red: F64Reduction,
    index: int,
    pc: int,
    m: Machine,
) -> (after: Machine)
    requires
        part_of(double_single_body(red), run.program, pc),
        run.at(pc, m),
        0 <= index < i32::MAX,
        m.regs[Rax] == index,
        red.lhs_base + 8 <= i32::MAX,
        element_at(m.regs[Rbp], red.lhs_base, index + 1) < word_span(),
        red.rhs_base matches Some(base) ==> base + 8 <= i32::MAX && element_at(
            m.regs[Rbp],
            base,
            index + 1,
        ) < word_span(),
    ensures
        run.at(pc + double_single_body(red).len(), after),
        ({
            let acc_at = slot_at(m.regs[Rbp], red.acc_slot);
            &&& word_at(after.mem, acc_at) == (run.world.double)(
                ScalarOp::Plus,
                term(run.world, m, red, index),
                word_at(m.mem, acc_at),
            )
            &&& forall|a: int| apart(a, acc_at) ==> #[trigger] word_at(after.mem, a) == word_at(
                m.mem,
                a,
            )
        }),
        forall|reg: Reg|
            reg != Rax && reg != Rcx && reg != Rdx ==> #[trigger] after.regs[reg] == m.regs[reg],
{
    let bp = m.regs[Rbp];
    let slot = slot_at(bp, red.acc_slot);
    let part = double_single_body(red);
    let to_lhs = block_addr(red.lhs_base, 0);
    let factor = f64_single_factor(red.rhs_base);
    let t = factor.len() as int;
    assert(part.len() == 9 + t);
    assert(run.program[pc] == part[0]);
    assert(run.program[pc + 1] == part[1]);
    assert forall|i: int| 0 <= i < 3 implies #[trigger] to_lhs[i] == run.program[pc + 2 + i] by {
        assert(part[2 + i] == to_lhs[i]);
    }
    assert(run.program[pc + 5] == part[5]);
    assert forall|i: int| 0 <= i < t implies #[trigger] factor[i] == run.program[pc + 6 + i] by {
        assert(part[6 + i] == factor[i]);
    }
    assert(run.program[pc + 6 + t] == part[6 + t]);
    assert(run.program[pc + 7 + t] == part[7 + t]);
    assert(run.program[pc + 8 + t] == part[8 + t]);
    let lhs = element_at(bp, red.lhs_base, index);
    lemma_powers();
    let m1 = lemma_shl(run, pc, m, Rax, 3, 8);
    assert(m1.regs[Rax] == 8 * index);
    let m2 = m1.set(Rdx, m1.regs[Rax]);
    lemma_mov(run, pc + 1, m1, Rdx, Rax);
    let m3 = lemma_block_addr(run, red.lhs_base, 0, index, pc + 2, m2);
    assert(m3.address(run.world, at(Rcx)) == lhs);
    let a = word_at(m.mem, lhs);
    lemma_float_load(run, pc + 5, m3, FloatWidth::F64, Xmm0, at(Rcx));
    let m4 = m3.set_lanes(Xmm0, (a, 0));
    let x = term(run.world, m, red, index);
    let m7 = match red.rhs_base {
        Some(base) => {
            let to_rhs = block_addr(base, 0);
            let rhs = element_at(bp, base, index);
            assert(t == 5);
            assert forall|i: int| 0 <= i < 3 implies #[trigger] to_rhs[i] == run.program[pc + 6
                + i] by {
                assert(factor[i] == to_rhs[i]);
            }
            assert(run.program[pc + 6 + 3] == factor[3]);
            assert(run.program[pc + 6 + 4] == factor[4]);
            let m5 = lemma_block_addr(run, base, 0, index, pc + 6, m4);
            assert(m5.address(run.world, at(Rcx)) == rhs);
            let b = word_at(m.mem, rhs);
            lemma_float_load(run, pc + 9, m5, FloatWidth::F64, Xmm1, at(Rcx));
            let m6 = m5.set_lanes(Xmm1, (b, 0));
            let times = Sse::Scalar(FloatWidth::F64, ScalarOp::Times);
            lemma_floated(run, pc + 10, m6, times, Xmm0, Xmm1);
            m6.set_lanes(Xmm0, (x, 0))
        },
        None => m4,
    };
    assert(m7.xmms[Xmm0] == (x, 0u64));
    assert(m7.regs[Rbp] == bp);
    let old = word_at(m.mem, slot);
    assert(m7.address(run.world, frame(red.acc_slot)) == slot);
    lemma_float_load(run, pc + 6 + t, m7, FloatWidth::F64, Xmm1, frame(red.acc_slot));
    let m8 = m7.set_lanes(Xmm1, (old, 0));
    let plus = Sse::Scalar(FloatWidth::F64, ScalarOp::Plus);
    lemma_floated(run, pc + 7 + t, m8, plus, Xmm0, Xmm1);
    let new = (run.world.double)(ScalarOp::Plus, x, old);
    let m9 = m8.set_lanes(Xmm0, (new, 0));
    assert(m9.address(run.world, frame(red.acc_slot)) == slot);
    lemma_double_store(run, pc + 8 + t, m9, frame(red.acc_slot), Xmm0);
    let after = m9.store(Width::Quad, slot, new as int);
    law_word_reads_back(m9.mem, slot, new);
    assert forall|p: int| apart(p, slot) implies #[trigger] word_at(after.mem, p) == word_at(
        m.mem,
        p,
    ) by {
        law_word_keeps_others(m9.mem, slot, new, p);
    }
    after
}

/// The loop over a last element, behind `n / 2` pairs.
#[verifier::rlimit(30)]
proof fn lemma_single_turns(
    run: Run,
    m0: Machine,
    m: Machine,
    i_slot: i32,
    end_slot: i32,
    red: F64Reduction,
) -> (after: Machine)
    requires
        run.program == single_loop(i_slot, end_slot, double_single_body(red)),
        run.at(0, m),
        0 <= red.array_len <= i32::MAX,
        sum_apart(m0, i_slot, end_slot, red),
        sum_keeps(m0, m, i_slot, red),
        ({
            let first = counter(m0, m0.regs[Rbp], i_slot);
            let last = counter(m0, m0.regs[Rbp], end_slot);
            let n = range_len(first, last) as int;
            &&& n > 0 ==> 0 <= first && last < red.array_len
            &&& counter(m, m0.regs[Rbp], i_slot) == first + 2 * (n / 2)
        }),
    ensures
        run.at(run.program.len() as int, after),
        sum_keeps(m0, after, i_slot, red),
        ({
            let bp = m0.regs[Rbp];
            let first = counter(m0, bp, i_slot);
            let last = counter(m0, bp, end_slot);
            let n = range_len(first, last) as int;
            let acc_at = slot_at(bp, red.acc_slot);
            word_at(after.mem, acc_at) == if n % 2 == 1 {
                (run.world.double)(
                    ScalarOp::Plus,
                    term(run.world, m0, red, first + n - 1),
                    word_at(m.mem, acc_at),
                )
            } else {
                word_at(m.mem, acc_at)
            }
        }),
{
    let bp = m0.regs[Rbp];
    let i_at = slot_at(bp, i_slot);
    let end_at = slot_at(bp, end_slot);
    let acc_at = slot_at(bp, red.acc_slot);
    let first = counter(m0, bp, i_slot);
    let last = counter(m0, bp, end_slot);
    let n = range_len(first, last) as int;
    let body = double_single_body(red);
    assert(m.regs[Rbp] == bp);
    assert(body.len() <= 14);
    assert(word_at(m.mem, end_at) == word_at(m0.mem, end_at));
    let m1 = lemma_single_head(run, i_slot, end_slot, body, m);
    assert(sum_keeps(m0, m1, i_slot, red)) by {
        assert forall|reg: Reg|
            reg != Rax && reg != Rcx && reg != Rdx implies #[trigger] m1.regs[reg]
            == m0.regs[reg] by {
            assert(m1.regs[reg] == m.regs[reg]);
        }
    }
    if n % 2 == 0 {
        m1
    } else {
        let index = first + n - 1;
        assert(index == last);
        assert(m1.regs[Rax] == index);
        assert forall|i: int| 0 <= i < body.len() implies #[trigger] body[i] == run.program[3
            + i] by {}
        let m2 = lemma_single_body(run, red, index, 3, m1);
        lemma_term_stands(run.world, m0, m1, i_slot, end_slot, red, index);
        let pc = 3 + body.len() as int;
        assert(m2.regs[Rbp] == m1.regs[Rbp]);
        assert(word_at(m2.mem, i_at) == word_at(m1.mem, i_at));
        let m3 = lemma_tail(run, i_slot, 1, pc, (body.len() + 6) as u16, m2);
        lemma_signed_sum(word_at(m2.mem, i_at), 1);
        assert(word_at(m3.mem, acc_at) == word_at(m2.mem, acc_at));
        assert(word_at(m3.mem, end_at) == word_at(m0.mem, end_at)) by {
            assert(word_at(m3.mem, end_at) == word_at(m2.mem, end_at));
            assert(word_at(m2.mem, end_at) == word_at(m1.mem, end_at));
        }
        assert(sum_keeps(m0, m3, i_slot, red)) by {
            assert forall|reg: Reg|
                reg != Rax && reg != Rcx && reg != Rdx implies #[trigger] m3.regs[reg]
                == m0.regs[reg] by {
                assert(m3.regs[reg] == m2.regs[reg]);
                assert(m2.regs[reg] == m1.regs[reg]);
                assert(m1.regs[reg] == m0.regs[reg]);
            }
            assert forall|a: int| apart(a, i_at) && apart(a, acc_at) implies #[trigger] word_at(
                m3.mem,
                a,
            ) == word_at(m0.mem, a) by {
                assert(word_at(m3.mem, a) == word_at(m2.mem, a));
                assert(word_at(m2.mem, a) == word_at(m1.mem, a));
            }
        }
        assert(m3.regs[Rbp] == bp);
        let m4 = lemma_single_head(run, i_slot, end_slot, body, m3);
        assert(sum_keeps(m0, m4, i_slot, red)) by {
            assert forall|reg: Reg|
                reg != Rax && reg != Rcx && reg != Rdx implies #[trigger] m4.regs[reg]
                == m0.regs[reg] by {
                assert(m4.regs[reg] == m3.regs[reg]);
            }
        }
        m4
    }
}

/// A vectorized sum or dot product of floats leaves in the accumulator the sum of its old
/// value and the terms of the whole range, taken in two lanes, and changes nothing else but
/// the counter, `rax`, `rcx`, `rdx` and the vector registers; a range that is not empty and
/// not inside the arrays traps, with memory as it was.
pub proof fn law_vectorized_double_sum(
    world: World,
    i_slot: i32,
    end_slot: i32,
    red: F64Reduction,
    m: Machine,
)
    requires
        0 <= red.array_len <= i32::MAX,
        sum_apart(m, i_slot, end_slot, red),
    ensures
        ({
            let bp = m.regs[Rbp];
            let first = counter(m, bp, i_slot);
            let last = counter(m, bp, end_slot);
            let program = f64_program(i_slot, end_slot, red);
            let inside = first > last || (0 <= first && last < red.array_len);
            &&& inside ==> exists|after: Machine|
                {
                    &&& #[trigger] flows(world, program, m, after)
                    &&& word_at(after.mem, slot_at(bp, red.acc_slot)) == summed(
                        world,
                        m,
                        red,
                        first,
                        range_len(first, last) as int,
                    )
                    &&& sum_keeps(m, after, i_slot, red)
                }
            &&& !inside ==> traps(world, program, m)
        }),
{
    let bp = m.regs[Rbp];
    let first = counter(m, bp, i_slot);
    let last = counter(m, bp, end_slot);
    let inside = first > last || (0 <= first && last < red.array_len);
    let program = f64_program(i_slot, end_slot, red);
    let guard = loop_bounds_guard(i_slot, end_slot, red.array_len);
    assert(m.address(world, frame(i_slot)) == slot_at(bp, i_slot));
    assert(m.address(world, frame(end_slot)) == slot_at(bp, end_slot));
    law_loop_bounds_guard(world, i_slot, end_slot, red.array_len, m);
    assert(part_of(guard, program, 0));
    if inside {
        let guarded = choose|after: Machine|
            {
                &&& #[trigger] flows(world, guard, m, after)
                &&& after.regs == m.regs.insert(Rax, after.regs[Rax])
                &&& after.mem == m.mem
                &&& after.xmms == m.xmms
            };
        let after = lemma_sum(world, i_slot, end_slot, red, m, guarded);
        assert(flows(world, program, m, after));
    } else {
        law_guarded_programs_trap(world, i_slot, end_slot, red.array_len, program, m);
    }
}

/// A sum behind its guard.
#[verifier::rlimit(30)]
proof fn lemma_sum(
    world: World,
    i_slot: i32,
    end_slot: i32,
    red: F64Reduction,
    m: Machine,
    guarded: Machine,
) -> (after: Machine)
    requires
        0 <= red.array_len <= i32::MAX,
        sum_apart(m, i_slot, end_slot, red),
        flows(world, loop_bounds_guard(i_slot, end_slot, red.array_len), m, guarded),
        guarded.regs == m.regs.insert(Rax, guarded.regs[Rax]),
        guarded.mem == m.mem,
        ({
            let first = counter(m, m.regs[Rbp], i_slot);
            let last = counter(m, m.regs[Rbp], end_slot);
            first > last || (0 <= first && last < red.array_len)
        }),
    ensures
        flows(world, f64_program(i_slot, end_slot, red), m, after),
        sum_keeps(m, after, i_slot, red),
        ({
            let first = counter(m, m.regs[Rbp], i_slot);
            let last = counter(m, m.regs[Rbp], end_slot);
            word_at(after.mem, slot_at(m.regs[Rbp], red.acc_slot)) == summed(
                world,
                m,
                red,
                first,
                range_len(first, last) as int,
            )
        }),
{
    let program = f64_program(i_slot, end_slot, red);
    let run = Run { world, program, start: 0, before: m };
    let bp = m.regs[Rbp];
    let first = counter(m, bp, i_slot);
    let last = counter(m, bp, end_slot);
    let n = range_len(first, last) as int;
    let guard = loop_bounds_guard(i_slot, end_slot, red.array_len);
    let pairs = pair_loop(i_slot, end_slot, double_pair_body(red));
    let ends = lanes_into_acc(red);
    let singles = single_loop(i_slot, end_slot, double_single_body(red));
    let p = pairs.len() as int;
    assert(guard.len() == 10 && ends.len() == 6);
    assert(program =~= guard + seq![sse(Sse::Pxor, Xmm0, Xmm0)] + pairs + ends + singles);
    lemma_begin(run);
    assert(part_of(guard, program, 0));
    lemma_part(run, 0, m, guard, guarded);
    assert(program[10] == sse(Sse::Pxor, Xmm0, Xmm0));
    lemma_sse(run, 10, guarded, Sse::Pxor, Xmm0, Xmm0);
    let (low, high) = guarded.xmms[Xmm0];
    assert(low ^ low == 0 && high ^ high == 0) by (bit_vector);
    let m1 = guarded.set_lanes(Xmm0, (0, 0));
    assert(packed(Sse::Pxor, (low, high), (low, high)) == Some((0u64, 0u64)));
    assert(pairs_summed(world, m, m1, i_slot, red, 0));
    let pair_run = Run { world, program: pairs, start: 0, before: m1 };
    lemma_begin(pair_run);
    let m2 = lemma_pair_turns(pair_run, m, m1, i_slot, end_slot, red, 0);
    assert(part_of(pairs, program, 11));
    lemma_part(run, 11, m1, pairs, m2);
    assert(m2.regs[Rbp] == bp);
    let m3 = lemma_lanes_into_acc(world, red, m2);
    assert(part_of(ends, program, 11 + p));
    lemma_part(run, 11 + p, m2, ends, m3);
    assert(apart(slot_at(bp, red.acc_slot), slot_at(bp, i_slot)));
    assert(word_at(m3.mem, slot_at(bp, i_slot)) == word_at(m2.mem, slot_at(bp, i_slot)));
    assert(sum_keeps(m, m3, i_slot, red)) by {
        assert forall|a: int|
            apart(a, slot_at(bp, i_slot)) && apart(
                a,
                slot_at(bp, red.acc_slot),
            ) implies #[trigger] word_at(m3.mem, a) == word_at(m.mem, a) by {
            assert(word_at(m3.mem, a) == word_at(m2.mem, a));
        }
        assert forall|reg: Reg|
            reg != Rax && reg != Rcx && reg != Rdx implies #[trigger] m3.regs[reg]
            == m.regs[reg] by {
            assert(m2.regs[reg] == m.regs[reg]);
        }
    }
    let single_run = Run { world, program: singles, start: 0, before: m3 };
    lemma_begin(single_run);
    let after = lemma_single_turns(single_run, m, m3, i_slot, end_slot, red);
    assert(part_of(singles, program, 17 + p));
    lemma_part(run, 17 + p, m3, singles, after);
    after
}

} // verus!
