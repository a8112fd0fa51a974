//! Vectorized element-wise maps, of integers and of floats: the loops write what the plain
//! loop writes.

use crate::behavior::extremes::pushed_at;
use crate::behavior::frames::slot_at;
use crate::behavior::guards::{law_guarded_programs_trap, law_loop_bounds_guard, traps};
use crate::behavior::instructions::{
    lemma_alu, lemma_alu_imm32, lemma_begin, lemma_double_store, lemma_float_load, lemma_floated,
    lemma_load, lemma_mov, lemma_movdqu_load, lemma_movdqu_store, lemma_part, lemma_pop,
    lemma_powers, lemma_push, lemma_shl, lemma_sse, lemma_store, operated, Run,
};
use crate::behavior::loops::{
    array_at, element_at, lemma_biased_address, lemma_pair_head, lemma_signed_sum,
    lemma_single_head, lemma_tail, lemma_wrap_sums, range_len,
};
use crate::machine::{
    apart, comes_to, flows, law_word_keeps_others, law_word_reads_back, packed, part_of, signed,
    word_at, word_span, wrap, Machine, Outcome, World,
};
use crate::mnemonics::{at, frame, load, load_local, mov, shift, store};
use crate::vector_loops::{
    block_addr, f64_pair_factor, f64_program, map_program, map_single, pair_loop, single_loop,
    ElementwiseMap, F64Reduction,
};
use crate::vectorize::{
    loop_bounds_guard, movdqu_from_rcx, movsd_from_rcx, sse, FloatMapOp, MapKind, MapOp,
};
use crate::x86::{Alu, FloatWidth, Insn, Reg, ScalarOp, Shift, Sse, Width};
use crate::x86::Reg::{Rax, Rbp, Rcx, Rdx, Rsp};
use crate::x86::Xmm::{Xmm0, Xmm1};
use vstd::prelude::*;

verus! {

/// One element of a map.
pub open spec fn mapped_word(op: MapOp, a: u64, b: u64) -> u64 {
    match op {
        MapOp::Add => wrap(a + b),
        MapOp::Sub => wrap(a - b),
        MapOp::And => a & b,
        MapOp::Or => a | b,
        MapOp::Xor => a ^ b,
    }
}

/// The arithmetic of a map of floats.
pub open spec fn float_arithmetic(op: FloatMapOp) -> ScalarOp {
    match op {
        FloatMapOp::Add => ScalarOp::Plus,
        FloatMapOp::Sub => ScalarOp::Minus,
        FloatMapOp::Mul => ScalarOp::Times,
    }
}

/// One element of a map of integers or of floats.
pub open spec fn mapped_value(world: World, op: MapKind, a: u64, b: u64) -> u64 {
    match op {
        MapKind::Int(op) => mapped_word(op, a, b),
        MapKind::Float(op) => (world.double)(float_arithmetic(op), a, b),
    }
}

/// The address of the element whose offset, plus `bias`, is in `rdx`.
pub(crate) proof fn lemma_block_addr(run: Run, base: i32, bias: i32, index: int, pc: int,
    m: Machine) -> (after:
    Machine)
    requires
        part_of(block_addr(base, bias), run.program, pc),
        run.at(pc, m),
        i32::MIN <= base + bias <= i32::MAX,
        m.regs[Rdx] == 8 * index + bias,
        0 <= index,
        array_at(m.regs[Rbp], base) + 8 * index < word_span(),
    ensures
        run.at(pc + 3, after),
        after.regs == m.regs.insert(Rcx, element_at(m.regs[Rbp], base, index) as u64),
        after.regs[Rcx] == element_at(m.regs[Rbp], base, index),
        after.mem == m.mem,
        after.xmms == m.xmms,
{
    let part = block_addr(base, bias);
    assert(run.program[pc] == part[0]);
    assert(run.program[pc + 1] == part[1]);
    assert(run.program[pc + 2] == part[2]);
    let bp = m.regs[Rbp];
    let m1 = m.set(Rcx, bp);
    lemma_mov(run, pc, m, Rcx, Rbp);
    let m2 = operated(m1, Alu::Add, Rcx, m1.regs[Rdx]);
    lemma_alu(run, pc + 1, m1, Alu::Add, Rcx, Rdx);
    assert(base.wrapping_add(bias) == base + bias);
    lemma_alu_imm32(run, pc + 2, m2, Alu::Sub, Rcx, base.wrapping_add(bias));
    let m3 = operated(m2, Alu::Sub, Rcx, wrap(base + bias));
    let start = array_at(bp, base);
    lemma_biased_address(bp, base as int, bias as int, 8 * index);
    lemma_wrap_sums(start + 8 * index, 0);
    assert(m2.regs[Rcx] == wrap(bp + (8 * index + bias)));
    assert(m3.regs[Rcx] == start + 8 * index);
    assert(m3.regs =~= m.regs.insert(Rcx, (start + 8 * index) as u64));
    m3
}

// Where the arrays lie

/// Whether a source array is the destination itself or lies apart from it.
pub open spec fn source_apart(bp: u64, source: i32, dest: i32, len: int) -> bool {
    source == dest || forall|j: int, k: int|
        0 <= j < len && 0 <= k < len ==> apart(
            #[trigger] element_at(bp, source, j),
            #[trigger] element_at(bp, dest, k),
        )
}

/// Whether an array lies in the address space, and its last elements have addresses that
/// the code can compute.
pub open spec fn array_fits(bp: u64, base: i32, len: int) -> bool {
    base + 8 <= i32::MAX && array_at(bp, base) + 8 * len < word_span()
}

/// Whether the destination lies apart from the word at `a`.
pub open spec fn dest_apart(bp: u64, dest: i32, len: int, a: int) -> bool {
    forall|k: int| 0 <= k < len ==> apart(#[trigger] element_at(bp, dest, k), a)
}

/// Whether everything a map works on lies apart as the frame lays it out: the counter, the
/// end, the word below the stack and the arrays.
pub open spec fn map_apart(m: Machine, i_slot: i32, end_slot: i32, map: ElementwiseMap) -> bool {
    let bp = m.regs[Rbp];
    let len = map.min_len as int;
    let i_at = slot_at(bp, i_slot);
    let end_at = slot_at(bp, end_slot);
    &&& apart(end_at, i_at)
    &&& apart(i_at, pushed_at(m))
    &&& apart(end_at, pushed_at(m))
    &&& array_fits(bp, map.dest_base, len)
    &&& array_fits(bp, map.lhs_base, len)
    &&& array_fits(bp, map.rhs_base, len)
    &&& dest_apart(bp, map.dest_base, len, i_at)
    &&& dest_apart(bp, map.dest_base, len, end_at)
    &&& dest_apart(bp, map.dest_base, len, pushed_at(m))
    &&& dest_apart(bp, map.lhs_base, len, i_at)
    &&& dest_apart(bp, map.lhs_base, len, pushed_at(m))
    &&& dest_apart(bp, map.rhs_base, len, i_at)
    &&& dest_apart(bp, map.rhs_base, len, pushed_at(m))
    &&& source_apart(bp, map.lhs_base, map.dest_base, len)
    &&& source_apart(bp, map.rhs_base, map.dest_base, len)
}

/// The element of the map at `index`, of the arrays before the loop.
pub open spec fn mapped_element(world: World, m: Machine, map: ElementwiseMap, op: MapKind,
    index: int) -> u64 {
    let bp = m.regs[Rbp];
    mapped_value(
        world,
        op,
        word_at(m.mem, element_at(bp, map.lhs_base, index)),
        word_at(m.mem, element_at(bp, map.rhs_base, index)),
    )
}

/// The state of a map after the elements from `first` up to `next` are written.
pub open spec fn written(
    world: World,
    m0: Machine,
    m: Machine,
    i_slot: i32,
    map: ElementwiseMap,
    op: MapKind,
    first: int,
    next: int,
) -> bool {
    let bp = m0.regs[Rbp];
    let i_at = slot_at(bp, i_slot);
    &&& forall|k: int|
        first <= k < next ==> word_at(m.mem, #[trigger] element_at(bp, map.dest_base, k))
            == mapped_element(world, m0, map, op, k)
    &&& forall|a: int|
        apart(a, i_at) && apart(a, pushed_at(m0)) && (forall|k: int|
            first <= k < next ==> apart(a, #[trigger] element_at(bp, map.dest_base, k)))
            ==> #[trigger] word_at(m.mem, a) == word_at(m0.mem, a)
    &&& forall|reg: Reg|
        reg != Rax && reg != Rcx && reg != Rdx ==> #[trigger] m.regs[reg] == m0.regs[reg]
}

/// The source elements that are still to be read are as before the loop.
proof fn lemma_sources_stand(
    world: World,
    m0: Machine,
    m: Machine,
    i_slot: i32,
    end_slot: i32,
    map: ElementwiseMap,
    op: MapKind,
    first: int,
    next: int,
    index: int,
)
    requires
        map_apart(m0, i_slot, end_slot, map),
        written(world, m0, m, i_slot, map, op, first, next),
        0 <= first <= next <= index < map.min_len,
    ensures
        ({
            let bp = m0.regs[Rbp];
            mapped_value(
                world,
                op,
                word_at(m.mem, element_at(bp, map.lhs_base, index)),
                word_at(m.mem, element_at(bp, map.rhs_base, index)),
            ) == mapped_element(world, m0, map, op, index)
        }),
{
    let bp = m0.regs[Rbp];
    let i_at = slot_at(bp, i_slot);
    let lhs = element_at(bp, map.lhs_base, index);
    let rhs = element_at(bp, map.rhs_base, index);
    assert(apart(lhs, i_at) && apart(lhs, pushed_at(m0)));
    assert(apart(rhs, i_at) && apart(rhs, pushed_at(m0)));
    assert forall|k: int| first <= k < next implies apart(
        lhs,
        #[trigger] element_at(bp, map.dest_base, k),
    ) by {}
    assert forall|k: int| first <= k < next implies apart(
        rhs,
        #[trigger] element_at(bp, map.dest_base, k),
    ) by {}
    assert(word_at(m.mem, lhs) == word_at(m0.mem, lhs));
    assert(word_at(m.mem, rhs) == word_at(m0.mem, rhs));
}

// The loop over pairs

/// The body of the loop over pairs.
pub open spec fn pair_body(map: ElementwiseMap) -> Seq<Insn> {
    seq![shift(Shift::Shl, Rax, 3), mov(Rdx, Rax)] + block_addr(map.lhs_base, 8) + seq![
        movdqu_from_rcx(Xmm0),
    ] + block_addr(map.rhs_base, 8) + seq![movdqu_from_rcx(Xmm1), map.kind.packed()] + block_addr(
        map.dest_base,
        8,
    ) + seq![Insn::MovdquStore { mem: at(Rcx), xmm: Xmm0 }]
}

/// The packed operation of a map.
pub open spec fn packed_op(op: MapOp) -> Sse {
    match op {
        MapOp::Add => Sse::Paddq,
        MapOp::Sub => Sse::Psubq,
        MapOp::And => Sse::Pand,
        MapOp::Or => Sse::Por,
        MapOp::Xor => Sse::Pxor,
    }
}

/// The packed operation of a map of floats.
pub open spec fn packed_float_op(op: FloatMapOp) -> Sse {
    match op {
        FloatMapOp::Add => Sse::Addpd,
        FloatMapOp::Sub => Sse::Subpd,
        FloatMapOp::Mul => Sse::Mulpd,
    }
}

/// One turn of the loop over pairs writes the elements at `index` and after it.
#[verifier::rlimit(30)]
proof fn lemma_pair_body(run: Run, map: ElementwiseMap, op: MapKind, index: int, pc: int,
    m: Machine) -> (after:
    Machine)
    requires
        part_of(pair_body(map), run.program, pc),
        map.kind == op,
        run.at(pc, m),
        0 <= index,
        index + 2 <= i32::MAX,
        m.regs[Rax] == index + 1,
        array_fits(m.regs[Rbp], map.dest_base, index + 2),
        array_fits(m.regs[Rbp], map.lhs_base, index + 2),
        array_fits(m.regs[Rbp], map.rhs_base, index + 2),
    ensures
        run.at(pc + 15, after),
        ({
            let bp = m.regs[Rbp];
            let dest = element_at(bp, map.dest_base, index);
            let lhs = element_at(bp, map.lhs_base, index);
            let rhs = element_at(bp, map.rhs_base, index);
            &&& word_at(after.mem, dest) == mapped_value(
                run.world,
                op,
                word_at(m.mem, lhs),
                word_at(m.mem, rhs),
            )
            &&& word_at(after.mem, dest + 8) == mapped_value(
                run.world,
                op,
                word_at(m.mem, lhs + 8),
                word_at(m.mem, rhs + 8),
            )
            &&& forall|a: int|
                apart(a, dest) && apart(a, dest + 8) ==> #[trigger] word_at(after.mem, a)
                    == word_at(m.mem, a)
            &&& forall|reg: Reg|
                reg != Rax && reg != Rcx && reg != Rdx ==> #[trigger] after.regs[reg]
                    == m.regs[reg]
        }),
{
    let bp = m.regs[Rbp];
    let part = pair_body(map);
    let to_lhs = block_addr(map.lhs_base, 8);
    let to_rhs = block_addr(map.rhs_base, 8);
    let to_dest = block_addr(map.dest_base, 8);
    assert(part.len() == 15);
    assert(run.program[pc] == part[0]);
    assert(run.program[pc + 1] == part[1]);
    assert forall|i: int| 0 <= i < 3 implies #[trigger] to_lhs[i] == run.program[pc + 2 + i] by {
        assert(part[2 + i] == to_lhs[i]);
    }
    assert(run.program[pc + 5] == part[5]);
    assert forall|i: int| 0 <= i < 3 implies #[trigger] to_rhs[i] == run.program[pc + 6 + i] by {
        assert(part[6 + i] == to_rhs[i]);
    }
    assert(run.program[pc + 9] == part[9]);
    assert(run.program[pc + 10] == part[10]);
    assert forall|i: int| 0 <= i < 3 implies #[trigger] to_dest[i] == run.program[pc + 11 + i] by {
        assert(part[11 + i] == to_dest[i]);
    }
    assert(run.program[pc + 14] == part[14]);
    let dest = element_at(bp, map.dest_base, index);
    let lhs = element_at(bp, map.lhs_base, index);
    let rhs = element_at(bp, map.rhs_base, index);
    lemma_powers();
    let m1 = lemma_shl(run, pc, m, Rax, 3, 8);
    assert(m1.regs[Rax] == 8 * index + 8);
    let m2 = m1.set(Rdx, m1.regs[Rax]);
    lemma_mov(run, pc + 1, m1, Rdx, Rax);
    let m3 = lemma_block_addr(run, map.lhs_base, 8, index, pc + 2, m2);
    assert(m3.address(run.world, at(Rcx)) == lhs);
    let a = (word_at(m.mem, lhs), word_at(m.mem, lhs + 8));
    lemma_movdqu_load(run, pc + 5, m3, Xmm0, at(Rcx));
    let m4 = m3.set_lanes(Xmm0, a);
    let m5 = lemma_block_addr(run, map.rhs_base, 8, index, pc + 6, m4);
    assert(m5.address(run.world, at(Rcx)) == rhs);
    let b = (word_at(m.mem, rhs), word_at(m.mem, rhs + 8));
    lemma_movdqu_load(run, pc + 9, m5, Xmm1, at(Rcx));
    let m6 = m5.set_lanes(Xmm1, b);
    let both = (mapped_value(run.world, op, a.0, b.0), mapped_value(run.world, op, a.1, b.1));
    match op {
        MapKind::Int(op) => {
            lemma_sse(run, pc + 10, m6, packed_op(op), Xmm0, Xmm1);
        },
        MapKind::Float(op) => {
            lemma_floated(run, pc + 10, m6, packed_float_op(op), Xmm0, Xmm1);
        },
    }
    let m7 = m6.set_lanes(Xmm0, both);
    let m8 = lemma_block_addr(run, map.dest_base, 8, index, pc + 11, m7);
    assert(m8.address(run.world, at(Rcx)) == dest);
    lemma_movdqu_store(run, pc + 14, m8, at(Rcx), Xmm0);
    let low = m8.store(Width::Quad, dest, both.0 as int);
    let after = low.store(Width::Quad, dest + 8, both.1 as int);
    law_word_reads_back(m8.mem, dest, both.0);
    law_word_reads_back(low.mem, dest + 8, both.1);
    law_word_keeps_others(low.mem, dest + 8, both.1, dest);
    assert forall|p: int| apart(p, dest) && apart(p, dest + 8) implies #[trigger] word_at(
        after.mem,
        p,
    ) == word_at(m.mem, p) by {
        law_word_keeps_others(m8.mem, dest, both.0, p);
        law_word_keeps_others(low.mem, dest + 8, both.1, p);
    }
    after
}

/// Writing one more element, whatever moved the counter on.
proof fn lemma_written_on(
    world: World,
    m0: Machine,
    m: Machine,
    after: Machine,
    i_slot: i32,
    end_slot: i32,
    map: ElementwiseMap,
    op: MapKind,
    first: int,
    next: int,
    count: int,
)
    requires
        map_apart(m0, i_slot, end_slot, map),
        written(world, m0, m, i_slot, map, op, first, next),
        0 <= first <= next,
        1 <= count <= 2,
        next + count <= map.min_len,
        ({
            let bp = m0.regs[Rbp];
            let i_at = slot_at(bp, i_slot);
            let dest = element_at(bp, map.dest_base, next);
            &&& word_at(after.mem, dest) == mapped_element(world, m0, map, op, next)
            &&& count == 2 ==> word_at(after.mem, dest + 8) == mapped_element(
                world,
                m0,
                map,
                op,
                next + 1,
            )
            &&& forall|a: int|
                apart(a, dest) && (count == 2 ==> apart(a, dest + 8)) && apart(a, i_at) && apart(
                    a,
                    pushed_at(m0),
                ) ==> #[trigger] word_at(after.mem, a) == word_at(m.mem, a)
            &&& forall|reg: Reg|
                reg != Rax && reg != Rcx && reg != Rdx ==> #[trigger] after.regs[reg]
                    == m.regs[reg]
        }),
    ensures
        written(world, m0, after, i_slot, map, op, first, next + count),
{
    let bp = m0.regs[Rbp];
    let base = map.dest_base;
    let i_at = slot_at(bp, i_slot);
    let dest = element_at(bp, base, next);
    assert(element_at(bp, base, next + 1) == dest + 8);
    assert forall|k: int| first <= k < next + count implies word_at(
        after.mem,
        #[trigger] element_at(bp, base, k),
    ) == mapped_element(world, m0, map, op, k) by {
        let a = element_at(bp, base, k);
        if k < next {
            assert(apart(a, i_at) && apart(a, pushed_at(m0)));
            assert(word_at(after.mem, a) == word_at(m.mem, a));
        }
    }
    assert forall|a: int|
        apart(a, i_at) && apart(a, pushed_at(m0)) && (forall|k: int|
            first <= k < next + count ==> apart(a, #[trigger] element_at(bp, base, k)))
        implies #[trigger] word_at(after.mem, a) == word_at(m0.mem, a) by {
        assert(apart(a, element_at(bp, base, next)));
        if count == 2 {
            assert(apart(a, element_at(bp, base, next + 1)));
        }
        assert(word_at(after.mem, a) == word_at(m.mem, a));
        assert(word_at(m.mem, a) == word_at(m0.mem, a));
    }
    assert forall|reg: Reg|
        reg != Rax && reg != Rcx && reg != Rdx implies #[trigger] after.regs[reg]
        == m0.regs[reg] by {
        assert(after.regs[reg] == m.regs[reg]);
    }
}

/// The counter and the end of a loop.
pub open spec fn counter(m: Machine, bp: u64, slot: i32) -> int {
    signed(word_at(m.mem, slot_at(bp, slot)))
}

#[verifier::rlimit(30)]
proof fn lemma_pair_turns(
    run: Run,
    m0: Machine,
    m: Machine,
    i_slot: i32,
    end_slot: i32,
    map: ElementwiseMap,
    op: MapKind,
    first: int,
    next: int,
) -> (after: Machine)
    requires
        run.program == pair_loop(i_slot, end_slot, pair_body(map)),
        map.kind == op,
        run.at(0, m),
        0 <= map.min_len <= i32::MAX,
        map_apart(m0, i_slot, end_slot, map),
        written(run.world, m0, m, i_slot, map, op, first, next),
        ({
            let last = counter(m0, m0.regs[Rbp], end_slot);
            &&& counter(m, m0.regs[Rbp], i_slot) == next
            &&& counter(m, m0.regs[Rbp], end_slot) == last
            &&& first <= next
            &&& first <= last ==> 0 <= first && next <= last + 1 && last < map.min_len
            &&& first > last ==> next == first
        }),
    ensures
        run.at(run.program.len() as int, after),
        ({
            let bp = m0.regs[Rbp];
            let last = counter(m0, bp, end_slot);
            let stop = counter(after, bp, i_slot);
            &&& written(run.world, m0, after, i_slot, map, op, first, stop)
            &&& counter(after, bp, end_slot) == last
            &&& first <= stop
            &&& first <= last ==> last <= stop <= last + 1
            &&& first > last ==> stop == first
        }),
    decreases range_len(next, counter(m0, m0.regs[Rbp], end_slot)),
{
    let bp = m0.regs[Rbp];
    let i_at = slot_at(bp, i_slot);
    let end_at = slot_at(bp, end_slot);
    let last = counter(m0, bp, end_slot);
    let body = pair_body(map);
    assert(m.regs[Rbp] == bp);
    assert(body.len() == 15);
    let m1 = lemma_pair_head(run, i_slot, end_slot, body, m);
    if next + 1 > last {
        m1
    } else {
        assert(word_at(m.mem, i_at) == next);
        assert(m1.regs[Rax] == next + 1);
        assert forall|i: int| 0 <= i < body.len() implies #[trigger] body[i] == run.program[4
            + i] by {}
        let dest = element_at(bp, map.dest_base, next);
        assert(element_at(bp, map.dest_base, next + 1) == dest + 8);
        assert(element_at(bp, map.lhs_base, next + 1) == element_at(bp, map.lhs_base, next) + 8);
        assert(element_at(bp, map.rhs_base, next + 1) == element_at(bp, map.rhs_base, next) + 8);
        let m2 = lemma_pair_body(run, map, op, next, 4, m1);
        lemma_sources_stand(run.world, m0, m, i_slot, end_slot, map, op, first, next, next);
        lemma_sources_stand(run.world, m0, m, i_slot, end_slot, map, op, first, next, next + 1);
        assert(m2.regs[Rbp] == bp);
        assert(apart(element_at(bp, map.dest_base, next), i_at));
        assert(apart(element_at(bp, map.dest_base, next + 1), i_at));
        assert(apart(element_at(bp, map.dest_base, next), end_at));
        assert(apart(element_at(bp, map.dest_base, next + 1), end_at));
        assert(word_at(m2.mem, i_at) == word_at(m.mem, i_at));
        assert(word_at(m2.mem, end_at) == word_at(m.mem, end_at));
        let m3 = lemma_tail(run, i_slot, 2, 19, (body.len() + 7) as u16, m2);
        lemma_signed_sum(word_at(m2.mem, i_at), 2);
        assert(word_at(m3.mem, end_at) == word_at(m.mem, end_at));
        assert(word_at(m3.mem, dest) == word_at(m2.mem, dest));
        assert(word_at(m3.mem, dest + 8) == word_at(m2.mem, dest + 8));
        assert forall|a: int|
            apart(a, dest) && apart(a, dest + 8) && apart(a, i_at) implies #[trigger] word_at(
            m3.mem,
            a,
        ) == word_at(m.mem, a) by {
            assert(word_at(m3.mem, a) == word_at(m2.mem, a));
        }
        assert forall|reg: Reg|
            reg != Rax && reg != Rcx && reg != Rdx implies #[trigger] m3.regs[reg]
            == m.regs[reg] by {
            assert(m3.regs[reg] == m2.regs[reg]);
            assert(m2.regs[reg] == m1.regs[reg]);
        }
        lemma_written_on(run.world, m0, m, m3, i_slot, end_slot, map, op, first, next, 2);
        lemma_pair_turns(run, m0, m3, i_slot, end_slot, map, op, first, next + 2)
    }
}

// The loop over single elements

/// The body of the loop over single elements.
pub open spec fn single_body(i_slot: i32, map: ElementwiseMap) -> Seq<Insn> {
    seq![load_local(i_slot), shift(Shift::Shl, Rax, 3), mov(Rdx, Rax)] + map_single(map)
}

/// Combining left operand `rcx` with right operand `rax`.
proof fn lemma_scalar_tail(run: Run, op: MapOp, pc: int, m: Machine) -> (after: Machine)
    requires
        part_of(op.scalar_tail(), run.program, pc),
        run.at(pc, m),
    ensures
        run.at(pc + op.scalar_tail().len(), after),
        after.regs[Rax] == mapped_word(op, m.regs[Rcx], m.regs[Rax]),
        after.mem == m.mem,
        forall|reg: Reg|
            reg != Rax && reg != Rcx ==> #[trigger] after.regs[reg] == m.regs[reg],
{
    let part = op.scalar_tail();
    let a = m.regs[Rcx];
    let b = m.regs[Rax];
    assert(run.program[pc] == part[0]);
    assert(b & a == a & b && b | a == a | b && b ^ a == a ^ b) by (bit_vector);
    match op {
        MapOp::Add => {
            lemma_alu(run, pc, m, Alu::Add, Rax, Rcx);
            operated(m, Alu::Add, Rax, a)
        },
        MapOp::And => {
            lemma_alu(run, pc, m, Alu::And, Rax, Rcx);
            operated(m, Alu::And, Rax, a)
        },
        MapOp::Or => {
            lemma_alu(run, pc, m, Alu::Or, Rax, Rcx);
            operated(m, Alu::Or, Rax, a)
        },
        MapOp::Xor => {
            lemma_alu(run, pc, m, Alu::Xor, Rax, Rcx);
            operated(m, Alu::Xor, Rax, a)
        },
        MapOp::Sub => {
            assert(run.program[pc + 1] == part[1]);
            lemma_alu(run, pc, m, Alu::Sub, Rcx, Rax);
            let m1 = operated(m, Alu::Sub, Rcx, b);
            lemma_mov(run, pc + 1, m1, Rax, Rcx);
            m1.set(Rax, m1.regs[Rcx])
        },
    }
}

#[verifier::rlimit(40)]
proof fn lemma_single_word(
    run: Run,
    i_slot: i32,
    map: ElementwiseMap,
    op: MapOp,
    index: int,
    pc: int,
    m: Machine,
) -> (after: Machine)
    requires
        part_of(single_body(i_slot, map), run.program, pc),
        map.kind == MapKind::Int(op),
        run.at(pc, m),
        0 <= index < i32::MAX,
        counter(m, m.regs[Rbp], i_slot) == index,
        array_fits(m.regs[Rbp], map.dest_base, index + 1),
        array_fits(m.regs[Rbp], map.lhs_base, index + 1),
        array_fits(m.regs[Rbp], map.rhs_base, index + 1),
        apart(element_at(m.regs[Rbp], map.rhs_base, index), pushed_at(m)),
        apart(element_at(m.regs[Rbp], map.dest_base, index), pushed_at(m)),
    ensures
        run.at(pc + single_body(i_slot, map).len(), after),
        ({
            let bp = m.regs[Rbp];
            let dest = element_at(bp, map.dest_base, index);
            &&& word_at(after.mem, dest) == mapped_word(
                op,
                word_at(m.mem, element_at(bp, map.lhs_base, index)),
                word_at(m.mem, element_at(bp, map.rhs_base, index)),
            )
            &&& forall|a: int|
                apart(a, dest) && apart(a, pushed_at(m)) ==> #[trigger] word_at(after.mem, a)
                    == word_at(m.mem, a)
            &&& forall|reg: Reg|
                reg != Rax && reg != Rcx && reg != Rdx ==> #[trigger] after.regs[reg]
                    == m.regs[reg]
        }),
{
    let bp = m.regs[Rbp];
    let part = single_body(i_slot, map);
    let to_lhs = block_addr(map.lhs_base, 0);
    let to_rhs = block_addr(map.rhs_base, 0);
    let to_dest = block_addr(map.dest_base, 0);
    let tail = op.scalar_tail();
    let t = tail.len() as int;
    assert(part.len() == 19 + t);
    assert(part =~= seq![load_local(i_slot), shift(Shift::Shl, Rax, 3), mov(Rdx, Rax)] + to_lhs
        + seq![load(Rax, at(Rcx)), Insn::Push(Rax)] + to_rhs + seq![
        load(Rax, at(Rcx)),
        Insn::Pop(Rcx),
    ] + tail + seq![Insn::Push(Rax)] + to_dest + seq![Insn::Pop(Rax), store(at(Rcx), Rax)]);
    assert(run.program[pc] == part[0]);
    assert(run.program[pc + 1] == part[1]);
    assert(run.program[pc + 2] == part[2]);
    assert forall|i: int| 0 <= i < 3 implies #[trigger] to_lhs[i] == run.program[pc + 3 + i] by {
        assert(part[3 + i] == to_lhs[i]);
    }
    assert(run.program[pc + 6] == part[6]);
    assert(run.program[pc + 7] == part[7]);
    assert forall|i: int| 0 <= i < 3 implies #[trigger] to_rhs[i] == run.program[pc + 8 + i] by {
        assert(part[8 + i] == to_rhs[i]);
    }
    assert(run.program[pc + 11] == part[11]);
    assert(run.program[pc + 12] == part[12]);
    assert forall|i: int| 0 <= i < t implies #[trigger] tail[i] == run.program[pc + 13 + i] by {
        assert(part[13 + i] == tail[i]);
    }
    assert(run.program[pc + 13 + t] == part[13 + t]);
    assert forall|i: int| 0 <= i < 3 implies #[trigger] to_dest[i] == run.program[pc + 14 + t
        + i] by {
        assert(part[14 + t + i] == to_dest[i]);
    }
    assert(run.program[pc + 17 + t] == part[17 + t]);
    assert(run.program[pc + 18 + t] == part[18 + t]);
    let dest = element_at(bp, map.dest_base, index);
    let lhs = element_at(bp, map.lhs_base, index);
    let rhs = element_at(bp, map.rhs_base, index);
    let top = wrap(m.regs[Rsp] - 8);
    let i = word_at(m.mem, slot_at(bp, i_slot));
    assert(i == index);
    assert(m.address(run.world, frame(i_slot)) == slot_at(bp, i_slot));
    lemma_load(run, pc, m, Rax, frame(i_slot));
    let m1 = m.set(Rax, i);
    lemma_powers();
    let m2 = lemma_shl(run, pc + 1, m1, Rax, 3, 8);
    assert(m2.regs[Rax] == 8 * index);
    let m3 = m2.set(Rdx, m2.regs[Rax]);
    lemma_mov(run, pc + 2, m2, Rdx, Rax);
    let m4 = lemma_block_addr(run, map.lhs_base, 0, index, pc + 3, m3);
    assert(m4.address(run.world, at(Rcx)) == lhs);
    let a = word_at(m.mem, lhs);
    lemma_load(run, pc + 6, m4, Rax, at(Rcx));
    let m5 = m4.set(Rax, a);
    lemma_push(run, pc + 7, m5, Rax);
    let m6 = m5.store(Width::Quad, top as int, a as int).set(Rsp, top);
    law_word_reads_back(m.mem, top as int, a);
    let m7 = lemma_block_addr(run, map.rhs_base, 0, index, pc + 8, m6);
    assert(m7.address(run.world, at(Rcx)) == rhs);
    let b = word_at(m.mem, rhs);
    law_word_keeps_others(m.mem, top as int, a, rhs);
    lemma_load(run, pc + 11, m7, Rax, at(Rcx));
    let m8 = m7.set(Rax, b);
    lemma_pop(run, pc + 12, m8, Rcx);
    let m9 = m8.set(Rsp, m.regs[Rsp]).set(Rcx, a);
    let m10 = lemma_scalar_tail(run, op, pc + 13, m9);
    let c = mapped_word(op, a, b);
    lemma_push(run, pc + 13 + t, m10, Rax);
    let m11 = m10.store(Width::Quad, top as int, c as int).set(Rsp, top);
    law_word_reads_back(m10.mem, top as int, c);
    let m12 = lemma_block_addr(run, map.dest_base, 0, index, pc + 14 + t, m11);
    lemma_pop(run, pc + 17 + t, m12, Rax);
    let m13 = m12.set(Rsp, m.regs[Rsp]).set(Rax, c);
    assert(m13.address(run.world, at(Rcx)) == dest);
    lemma_store(run, pc + 18 + t, m13, at(Rcx), Rax);
    let after = m13.store(Width::Quad, dest, c as int);
    law_word_reads_back(m13.mem, dest, c);
    assert forall|p: int| apart(p, dest) && apart(p, pushed_at(m)) implies #[trigger] word_at(
        after.mem,
        p,
    ) == word_at(m.mem, p) by {
        law_word_keeps_others(m.mem, top as int, a, p);
        law_word_keeps_others(m10.mem, top as int, c, p);
        law_word_keeps_others(m13.mem, dest, c, p);
    }
    assert forall|reg: Reg|
        reg != Rax && reg != Rcx && reg != Rdx implies #[trigger] after.regs[reg]
        == m.regs[reg] by {
        assert(m10.regs[reg] == m9.regs[reg]);
    }
    after
}

#[verifier::rlimit(40)]
proof fn lemma_single_float(
    run: Run,
    i_slot: i32,
    map: ElementwiseMap,
    op: FloatMapOp,
    index: int,
    pc: int,
    m: Machine,
) -> (after: Machine)
    requires
        part_of(single_body(i_slot, map), run.program, pc),
        map.kind == MapKind::Float(op),
        run.at(pc, m),
        0 <= index < i32::MAX,
        counter(m, m.regs[Rbp], i_slot) == index,
        array_fits(m.regs[Rbp], map.dest_base, index + 1),
        array_fits(m.regs[Rbp], map.lhs_base, index + 1),
        array_fits(m.regs[Rbp], map.rhs_base, index + 1),
        apart(element_at(m.regs[Rbp], map.rhs_base, index), pushed_at(m)),
        apart(element_at(m.regs[Rbp], map.dest_base, index), pushed_at(m)),
    ensures
        run.at(pc + single_body(i_slot, map).len(), after),
        ({
            let bp = m.regs[Rbp];
            let dest = element_at(bp, map.dest_base, index);
            &&& word_at(after.mem, dest) == (run.world.double)(
                float_arithmetic(op),
                word_at(m.mem, element_at(bp, map.lhs_base, index)),
                word_at(m.mem, element_at(bp, map.rhs_base, index)),
            )
            &&& forall|a: int|
                apart(a, dest) && apart(a, pushed_at(m)) ==> #[trigger] word_at(after.mem, a)
                    == word_at(m.mem, a)
            &&& forall|reg: Reg|
                reg != Rax && reg != Rcx && reg != Rdx ==> #[trigger] after.regs[reg]
                    == m.regs[reg]
        }),
{
    let bp = m.regs[Rbp];
    let part = single_body(i_slot, map);
    let to_lhs = block_addr(map.lhs_base, 0);
    let to_rhs = block_addr(map.rhs_base, 0);
    let to_dest = block_addr(map.dest_base, 0);
    assert(part.len() == 16);
    assert(part =~= seq![load_local(i_slot), shift(Shift::Shl, Rax, 3), mov(Rdx, Rax)] + to_lhs
        + seq![movsd_from_rcx(Xmm0)] + to_rhs + seq![movsd_from_rcx(Xmm1), op.scalar()] + to_dest
        + seq![Insn::MovsStore { width: FloatWidth::F64, mem: at(Rcx), xmm: Xmm0 }]);
    assert(run.program[pc] == part[0]);
    assert(run.program[pc + 1] == part[1]);
    assert(run.program[pc + 2] == part[2]);
    assert forall|i: int| 0 <= i < 3 implies #[trigger] to_lhs[i] == run.program[pc + 3 + i] by {
        assert(part[3 + i] == to_lhs[i]);
    }
    assert(run.program[pc + 6] == part[6]);
    assert forall|i: int| 0 <= i < 3 implies #[trigger] to_rhs[i] == run.program[pc + 7 + i] by {
        assert(part[7 + i] == to_rhs[i]);
    }
    assert(run.program[pc + 10] == part[10]);
    assert(run.program[pc + 11] == part[11]);
    assert forall|i: int| 0 <= i < 3 implies #[trigger] to_dest[i] == run.program[pc + 12 + i] by {
        assert(part[12 + i] == to_dest[i]);
    }
    assert(run.program[pc + 15] == part[15]);
    let dest = element_at(bp, map.dest_base, index);
    let lhs = element_at(bp, map.lhs_base, index);
    let rhs = element_at(bp, map.rhs_base, index);
    let i = word_at(m.mem, slot_at(bp, i_slot));
    assert(i == index);
    assert(m.address(run.world, frame(i_slot)) == slot_at(bp, i_slot));
    lemma_load(run, pc, m, Rax, frame(i_slot));
    let m1 = m.set(Rax, i);
    lemma_powers();
    let m2 = lemma_shl(run, pc + 1, m1, Rax, 3, 8);
    assert(m2.regs[Rax] == 8 * index);
    let m3 = m2.set(Rdx, m2.regs[Rax]);
    lemma_mov(run, pc + 2, m2, Rdx, Rax);
    let m4 = lemma_block_addr(run, map.lhs_base, 0, index, pc + 3, m3);
    assert(m4.address(run.world, at(Rcx)) == lhs);
    let a = word_at(m.mem, lhs);
    lemma_float_load(run, pc + 6, m4, FloatWidth::F64, Xmm0, at(Rcx));
    let m5 = m4.set_lanes(Xmm0, (a, 0));
    let m6 = lemma_block_addr(run, map.rhs_base, 0, index, pc + 7, m5);
    assert(m6.address(run.world, at(Rcx)) == rhs);
    let b = word_at(m.mem, rhs);
    lemma_float_load(run, pc + 10, m6, FloatWidth::F64, Xmm1, at(Rcx));
    let m7 = m6.set_lanes(Xmm1, (b, 0));
    let k = float_arithmetic(op);
    let c = (run.world.double)(k, a, b);
    lemma_floated(run, pc + 11, m7, Sse::Scalar(FloatWidth::F64, k), Xmm0, Xmm1);
    let m8 = m7.set_lanes(Xmm0, (c, 0));
    let m9 = lemma_block_addr(run, map.dest_base, 0, index, pc + 12, m8);
    assert(m9.address(run.world, at(Rcx)) == dest);
    lemma_double_store(run, pc + 15, m9, at(Rcx), Xmm0);
    let after = m9.store(Width::Quad, dest, c as int);
    law_word_reads_back(m9.mem, dest, c);
    assert forall|p: int| apart(p, dest) && apart(p, pushed_at(m)) implies #[trigger] word_at(
        after.mem,
        p,
    ) == word_at(m.mem, p) by {
        law_word_keeps_others(m9.mem, dest, c, p);
    }
    after
}

/// One turn of the loop over single elements writes the element at `index`.
proof fn lemma_single_body(
    run: Run,
    i_slot: i32,
    map: ElementwiseMap,
    op: MapKind,
    index: int,
    pc: int,
    m: Machine,
) -> (after: Machine)
    requires
        part_of(single_body(i_slot, map), run.program, pc),
        map.kind == op,
        run.at(pc, m),
        0 <= index < i32::MAX,
        counter(m, m.regs[Rbp], i_slot) == index,
        array_fits(m.regs[Rbp], map.dest_base, index + 1),
        array_fits(m.regs[Rbp], map.lhs_base, index + 1),
        array_fits(m.regs[Rbp], map.rhs_base, index + 1),
        apart(element_at(m.regs[Rbp], map.rhs_base, index), pushed_at(m)),
        apart(element_at(m.regs[Rbp], map.dest_base, index), pushed_at(m)),
    ensures
        run.at(pc + single_body(i_slot, map).len(), after),
        ({
            let bp = m.regs[Rbp];
            let dest = element_at(bp, map.dest_base, index);
            &&& word_at(after.mem, dest) == mapped_value(
                run.world,
                op,
                word_at(m.mem, element_at(bp, map.lhs_base, index)),
                word_at(m.mem, element_at(bp, map.rhs_base, index)),
            )
            &&& forall|a: int|
                apart(a, dest) && apart(a, pushed_at(m)) ==> #[trigger] word_at(after.mem, a)
                    == word_at(m.mem, a)
            &&& forall|reg: Reg|
                reg != Rax && reg != Rcx && reg != Rdx ==> #[trigger] after.regs[reg]
                    == m.regs[reg]
        }),
{
    match op {
        MapKind::Int(op) => lemma_single_word(run, i_slot, map, op, index, pc, m),
        MapKind::Float(op) => lemma_single_float(run, i_slot, map, op, index, pc, m),
    }
}

#[verifier::rlimit(30)]
proof fn lemma_single_turns(
    run: Run,
    m0: Machine,
    m: Machine,
    i_slot: i32,
    end_slot: i32,
    map: ElementwiseMap,
    op: MapKind,
    first: int,
    next: int,
) -> (after: Machine)
    requires
        run.program == single_loop(i_slot, end_slot, single_body(i_slot, map)),
        map.kind == op,
        run.at(0, m),
        0 <= map.min_len <= i32::MAX,
        map_apart(m0, i_slot, end_slot, map),
        written(run.world, m0, m, i_slot, map, op, first, next),
        ({
            let last = counter(m0, m0.regs[Rbp], end_slot);
            &&& counter(m, m0.regs[Rbp], i_slot) == next
            &&& counter(m, m0.regs[Rbp], end_slot) == last
            &&& first <= last ==> 0 <= first <= next <= last + 1 && last < map.min_len
            &&& first > last ==> next == first
        }),
    ensures
        run.at(run.program.len() as int, after),
        ({
            let last = counter(m0, m0.regs[Rbp], end_slot);
            written(
                run.world,
                m0,
                after,
                i_slot,
                map,
                op,
                first,
                if first > last {
                    first
                } else {
                    last + 1
                },
            )
        }),
    decreases range_len(next, counter(m0, m0.regs[Rbp], end_slot)),
{
    let bp = m0.regs[Rbp];
    let i_at = slot_at(bp, i_slot);
    let end_at = slot_at(bp, end_slot);
    let last = counter(m0, bp, end_slot);
    let body = single_body(i_slot, map);
    assert(m.regs[Rbp] == bp);
    assert(body.len() <= 21);
    let m1 = lemma_single_head(run, i_slot, end_slot, body, m);
    if next > last {
        m1
    } else {
        assert forall|i: int| 0 <= i < body.len() implies #[trigger] body[i] == run.program[3
            + i] by {}
        let dest = element_at(bp, map.dest_base, next);
        assert(m1.regs[Rsp] == m0.regs[Rsp]) by {
            assert(m.regs[Rsp] == m0.regs[Rsp]);
        }
        assert(apart(dest, i_at) && apart(dest, end_at) && apart(dest, pushed_at(m0)));
        assert(apart(element_at(bp, map.rhs_base, next), pushed_at(m0)));
        let m2 = lemma_single_body(run, i_slot, map, op, next, 3, m1);
        lemma_sources_stand(run.world, m0, m, i_slot, end_slot, map, op, first, next, next);
        assert(m2.regs[Rbp] == bp);
        assert(word_at(m2.mem, i_at) == word_at(m.mem, i_at));
        assert(word_at(m2.mem, end_at) == word_at(m.mem, end_at));
        let pc = 3 + body.len() as int;
        let m3 = lemma_tail(run, i_slot, 1, pc, (body.len() + 6) as u16, m2);
        lemma_signed_sum(word_at(m2.mem, i_at), 1);
        assert(word_at(m3.mem, end_at) == word_at(m.mem, end_at));
        assert(word_at(m3.mem, dest) == word_at(m2.mem, dest));
        assert forall|a: int|
            apart(a, dest) && apart(a, i_at) && apart(a, pushed_at(m0)) implies #[trigger] word_at(
            m3.mem,
            a,
        ) == word_at(m.mem, a) by {
            assert(word_at(m3.mem, a) == word_at(m2.mem, a));
        }
        assert forall|reg: Reg|
            reg != Rax && reg != Rcx && reg != Rdx implies #[trigger] m3.regs[reg]
            == m.regs[reg] by {
            assert(m3.regs[reg] == m2.regs[reg]);
            assert(m2.regs[reg] == m1.regs[reg]);
        }
        lemma_written_on(run.world, m0, m, m3, i_slot, end_slot, map, op, first, next, 1);
        lemma_single_turns(run, m0, m3, i_slot, end_slot, map, op, first, next + 1)
    }
}

/// What a map leaves: each element of the range holds what the operation gives for the
/// elements of the two sources, and nothing else changes but the counter, `rax`, `rcx`,
/// `rdx`, the vector registers and the word below the stack.
pub open spec fn maps(
    world: World,
    before: Machine,
    after: Machine,
    i_slot: i32,
    end_slot: i32,
    map: ElementwiseMap,
    op: MapKind,
) -> bool {
    let first = counter(before, before.regs[Rbp], i_slot);
    let last = counter(before, before.regs[Rbp], end_slot);
    written(
        world,
        before,
        after,
        i_slot,
        map,
        op,
        first,
        if first > last {
            first
        } else {
            last + 1
        },
    )
}

/// A vectorized map writes exactly what the plain loop writes, also where the destination
/// is one of the sources; a range that is not empty and not inside the arrays traps, with
/// memory as it was.
pub proof fn law_vectorized_map(
    world: World,
    i_slot: i32,
    end_slot: i32,
    map: ElementwiseMap,
    op: MapKind,
    m: Machine,
)
    requires
        map.kind == op,
        0 <= map.min_len <= i32::MAX,
        map_apart(m, i_slot, end_slot, map),
    ensures
        ({
            let first = counter(m, m.regs[Rbp], i_slot);
            let last = counter(m, m.regs[Rbp], end_slot);
            let program = map_program(i_slot, end_slot, map);
            let inside = first > last || (0 <= first && last < map.min_len);
            &&& inside ==> exists|after: Machine|
                #[trigger] flows(world, program, m, after) && maps(
                    world,
                    m,
                    after,
                    i_slot,
                    end_slot,
                    map,
                    op,
                )
            &&& !inside ==> traps(world, program, m)
        }),
{
    let bp = m.regs[Rbp];
    let first = counter(m, bp, i_slot);
    let last = counter(m, bp, end_slot);
    let inside = first > last || (0 <= first && last < map.min_len);
    let program = map_program(i_slot, end_slot, map);
    let guard = loop_bounds_guard(i_slot, end_slot, map.min_len);
    assert(m.address(world, frame(i_slot)) == slot_at(bp, i_slot));
    assert(m.address(world, frame(end_slot)) == slot_at(bp, end_slot));
    law_loop_bounds_guard(world, i_slot, end_slot, map.min_len, m);
    assert(part_of(guard, program, 0));
    if inside {
        let guarded = choose|after: Machine|
            {
                &&& #[trigger] flows(world, guard, m, after)
                &&& after.regs == m.regs.insert(Rax, after.regs[Rax])
                &&& after.mem == m.mem
                &&& after.xmms == m.xmms
            };
        let after = lemma_map(world, i_slot, end_slot, map, op, m, guarded);
        assert(flows(world, program, m, after) && maps(world, m, after, i_slot, end_slot, map, op));
    } else {
        law_guarded_programs_trap(world, i_slot, end_slot, map.min_len, program, m);
    }
}

/// A map behind its guard.
#[verifier::rlimit(30)]
proof fn lemma_map(
    world: World,
    i_slot: i32,
    end_slot: i32,
    map: ElementwiseMap,
    op: MapKind,
    m: Machine,
    guarded: Machine,
) -> (after: Machine)
    requires
        map.kind == op,
        0 <= map.min_len <= i32::MAX,
        map_apart(m, i_slot, end_slot, map),
        flows(world, loop_bounds_guard(i_slot, end_slot, map.min_len), m, guarded),
        guarded.regs == m.regs.insert(Rax, guarded.regs[Rax]),
        guarded.mem == m.mem,
        ({
            let first = counter(m, m.regs[Rbp], i_slot);
            let last = counter(m, m.regs[Rbp], end_slot);
            &&& first > last || (0 <= first && last < map.min_len)
        }),
    ensures
        flows(world, map_program(i_slot, end_slot, map), m, after),
        maps(world, m, after, i_slot, end_slot, map, op),
{
    let program = map_program(i_slot, end_slot, map);
    let run = Run { world, program, start: 0, before: m };
    let bp = m.regs[Rbp];
    let first = counter(m, bp, i_slot);
    let guard = loop_bounds_guard(i_slot, end_slot, map.min_len);
    let pairs = pair_loop(i_slot, end_slot, pair_body(map));
    let singles = single_loop(i_slot, end_slot, single_body(i_slot, map));
    assert(guard.len() == 10 && pairs.len() == 23);
    assert(program =~= guard + pairs + singles);
    lemma_begin(run);
    assert(part_of(guard, program, 0));
    lemma_part(run, 0, m, guard, guarded);
    assert(written(world, m, guarded, i_slot, map, op, first, first));
    let pair_run = Run { world, program: pairs, start: 0, before: guarded };
    lemma_begin(pair_run);
    let m2 = lemma_pair_turns(pair_run, m, guarded, i_slot, end_slot, map, op, first, first);
    assert(part_of(pairs, program, 10));
    lemma_part(run, 10, guarded, pairs, m2);
    let single_run = Run { world, program: singles, start: 0, before: m2 };
    lemma_begin(single_run);
    let after = lemma_single_turns(
        single_run,
        m,
        m2,
        i_slot,
        end_slot,
        map,
        op,
        first,
        counter(m2, bp, i_slot),
    );
    assert(part_of(singles, program, 33));
    lemma_part(run, 33, m2, singles, after);
    after
}

/// A vectorized map, of integers or of floats, traps on a range that is not empty and not
/// inside the arrays, and touches nothing for an empty one: memory and the vector registers
/// stay as they were.
pub proof fn law_vectorized_map_range(
    world: World,
    i_slot: i32,
    end_slot: i32,
    map: ElementwiseMap,
    m: Machine,
)
    requires
        0 <= map.min_len <= i32::MAX,
    ensures
        ({
            let first = counter(m, m.regs[Rbp], i_slot);
            let last = counter(m, m.regs[Rbp], end_slot);
            let program = map_program(i_slot, end_slot, map);
            &&& first <= last && (first < 0 || map.min_len <= last) ==> traps(world, program, m)
            &&& first > last ==> exists|after: Machine|
                {
                    &&& #[trigger] flows(world, program, m, after)
                    &&& after.regs == m.regs.insert(Rax, after.regs[Rax])
                    &&& after.mem == m.mem
                    &&& after.xmms == m.xmms
                }
        }),
{
    let bp = m.regs[Rbp];
    let first = counter(m, bp, i_slot);
    let last = counter(m, bp, end_slot);
    let program = map_program(i_slot, end_slot, map);
    let run = Run { world, program, start: 0, before: m };
    let guard = loop_bounds_guard(i_slot, end_slot, map.min_len);
    let pairs = pair_loop(i_slot, end_slot, pair_body(map));
    let singles = single_loop(i_slot, end_slot, single_body(i_slot, map));
    assert(m.address(world, frame(i_slot)) == slot_at(bp, i_slot));
    assert(m.address(world, frame(end_slot)) == slot_at(bp, end_slot));
    assert(guard.len() == 10 && pairs.len() == 23);
    assert(program =~= guard + pairs + singles);
    assert(part_of(guard, program, 0));
    if first <= last && (first < 0 || map.min_len <= last) {
        law_guarded_programs_trap(world, i_slot, end_slot, map.min_len, program, m);
    } else if first > last {
        law_loop_bounds_guard(world, i_slot, end_slot, map.min_len, m);
        let m1 = choose|after: Machine|
            {
                &&& #[trigger] flows(world, guard, m, after)
                &&& after.regs == m.regs.insert(Rax, after.regs[Rax])
                &&& after.mem == m.mem
                &&& after.xmms == m.xmms
            };
        lemma_begin(run);
        lemma_part(run, 0, m, guard, m1);
        let pair_run = Run { world, program: pairs, start: 0, before: m1 };
        lemma_begin(pair_run);
        let m2 = lemma_pair_head(pair_run, i_slot, end_slot, pair_body(map), m1);
        assert(part_of(pairs, program, 10));
        lemma_part(run, 10, m1, pairs, m2);
        let single_run = Run { world, program: singles, start: 0, before: m2 };
        lemma_begin(single_run);
        let after = lemma_single_head(single_run, i_slot, end_slot, single_body(i_slot, map), m2);
        assert(part_of(singles, program, 33));
        lemma_part(run, 33, m2, singles, after);
        assert(after.regs =~= m.regs.insert(Rax, after.regs[Rax]));
        assert(flows(world, program, m, after));
    }
}

/// The body of a float reduction's loop over pairs.
pub open spec fn double_pair_body(red: F64Reduction) -> Seq<Insn> {
    seq![shift(Shift::Shl, Rax, 3), mov(Rdx, Rax)] + block_addr(red.lhs_base, 8) + seq![
        movdqu_from_rcx(Xmm1),
    ] + f64_pair_factor(red.rhs_base) + seq![sse(Sse::Addpd, Xmm0, Xmm1)]
}

/// A vectorized sum or dot product of floats traps on a range that is not empty and not
/// inside the arrays; on an empty one its loop over pairs is passed over with memory as it
/// was.
pub proof fn law_vectorized_double_range(
    world: World,
    i_slot: i32,
    end_slot: i32,
    red: F64Reduction,
    m: Machine,
)
    requires
        0 <= red.array_len <= i32::MAX,
    ensures
        ({
            let first = counter(m, m.regs[Rbp], i_slot);
            let last = counter(m, m.regs[Rbp], end_slot);
            let program = f64_program(i_slot, end_slot, red);
            let pairs = pair_loop(i_slot, end_slot, double_pair_body(red));
            let passed = 11 + pairs.len() as int;
            &&& first <= last && (first < 0 || red.array_len <= last) ==> traps(world, program, m)
            &&& first > last ==> exists|after: Machine|
                {
                    &&& #[trigger] comes_to(world, program, 0, m, Outcome::At(passed, after))
                    &&& after.regs == m.regs.insert(Rax, after.regs[Rax])
                    &&& after.mem == m.mem
                }
        }),
{
    let bp = m.regs[Rbp];
    let first = counter(m, bp, i_slot);
    let last = counter(m, bp, end_slot);
    let program = f64_program(i_slot, end_slot, red);
    let run = Run { world, program, start: 0, before: m };
    let guard = loop_bounds_guard(i_slot, end_slot, red.array_len);
    let body = double_pair_body(red);
    let pairs = pair_loop(i_slot, end_slot, body);
    assert(m.address(world, frame(i_slot)) == slot_at(bp, i_slot));
    assert(m.address(world, frame(end_slot)) == slot_at(bp, end_slot));
    assert(guard.len() == 10 && body.len() <= 20);
    assert(part_of(guard, program, 0));
    if first <= last && (first < 0 || red.array_len <= last) {
        law_guarded_programs_trap(world, i_slot, end_slot, red.array_len, program, m);
    } else if first > last {
        law_loop_bounds_guard(world, i_slot, end_slot, red.array_len, m);
        let m1 = choose|after: Machine|
            {
                &&& #[trigger] flows(world, guard, m, after)
                &&& after.regs == m.regs.insert(Rax, after.regs[Rax])
                &&& after.mem == m.mem
                &&& after.xmms == m.xmms
            };
        lemma_begin(run);
        lemma_part(run, 0, m, guard, m1);
        assert(program[10] == sse(Sse::Pxor, Xmm0, Xmm0));
        lemma_sse(run, 10, m1, Sse::Pxor, Xmm0, Xmm0);
        let m2 = m1.set_lanes(Xmm0, packed(Sse::Pxor, m1.xmms[Xmm0], m1.xmms[Xmm0])->0);
        let pair_run = Run { world, program: pairs, start: 0, before: m2 };
        lemma_begin(pair_run);
        let after = lemma_pair_head(pair_run, i_slot, end_slot, body, m2);
        assert(part_of(pairs, program, 11));
        lemma_part(run, 11, m2, pairs, after);
        assert(after.regs =~= m.regs.insert(Rax, after.regs[Rax]));
    }
}

} // verus!
