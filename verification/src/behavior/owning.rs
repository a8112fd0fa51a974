//! Operations that use up their operands: what they read is dropped afterwards.

use crate::behavior::allocation::{
    block_of, block_size, has_room, heap_fits, idle, in_block, lemma_heap_stands, span_held,
    spans_apart, spare,
};
use crate::behavior::building::{
    builds, can_build, lemma_enter, lemma_leave, lemma_span_safe_inside,
};
use crate::behavior::counting::{
    can_drop, count_of, lemma_drop_call, lemma_drop_leaves, mode_at, releases,
};
use crate::behavior::heap::{came_back, volatile};
use crate::behavior::instructions::{
    lemma_begin, lemma_call, lemma_call_reg, lemma_jcc, lemma_load, lemma_mov, lemma_mov_d,
    lemma_test_imm_d, Run,
};
use crate::behavior::routines::{
    among, frame_head, frame_tail, lemma_frame_head, lemma_frame_tail, lemma_saved_stays, saved,
};
use crate::behavior::search::text_at;
use crate::behavior::strings::{holds_string, law_str_concat, string_safe};
use crate::linking::{
    ends_in, entered, law_call, law_call_traps, law_ends_alone, law_runs_into, returned_home,
};
use crate::machine::{
    comes_to, flags_of_bits, kept, law_ends_are_unique, law_kept_bytes_keep_words,
    law_word_of_bytes, part_of, word_at, Machine, Outcome, World,
};
use crate::mnemonics::{alu_imm8, at_b, call, jcc_short, mov, mov_d, test_imm_d};
use crate::runtime::heap::rc_dec_program;
use crate::runtime::strings::{
    str_binop_own_program, str_concat_own_program, str_concat_program, str_len_own_program,
    str_read_own_program,
};
use crate::symbols::Symbol;
use crate::x86::{Alu, Hop, Insn, Reg, Width};
use crate::x86::Cond::E;
use crate::x86::Reg::{R12, R8, R9, Rax, Rbx, Rcx, Rdi, Rdx, Rsi, Rsp};
use vstd::prelude::*;

verus! {

/// Whether dropping a reference is safe for a routine that uses the bytes of the stack from
/// `low` up to `high`.
pub open spec fn drop_safe(
    world: World,
    mem: spec_fn(int) -> u8,
    blocks: Seq<u64>,
    payload: u64,
    low: int,
    high: int,
) -> bool {
    let block = block_of(payload);
    &&& (world.code)(Symbol::RcDec) == rc_dec_program()
    &&& can_drop(world, mem, blocks, payload)
    &&& span_held(world, mem, blocks, mode_at(world), 8)
    &&& span_held(world, mem, blocks, low, high - low)
    &&& spans_apart(block as int, block_size(mem, block), low, high - low)
    &&& spans_apart(mode_at(world), 8, low, high - low)
}

/// What dropping a reference leaves, but for the bytes of the stack from `low` up to `high`.
pub open spec fn dropped(
    world: World,
    before: spec_fn(int) -> u8,
    after: spec_fn(int) -> u8,
    blocks: Seq<u64>,
    left: Seq<u64>,
    payload: u64,
    low: int,
    high: int,
) -> bool {
    let block = block_of(payload);
    let last = count_of(before, payload) == 1 && releases(world, before);
    &&& heap_fits(world, after, left)
    &&& spare(world, after) == spare(world, before)
    &&& !last ==> {
        &&& left == blocks
        &&& count_of(after, payload) == count_of(before, payload) - 1
        &&& forall|p: int| #[trigger] idle(world, after, left, p) == idle(world, before, blocks, p)
        &&& forall|p: int|
            (p < payload - 8 || payload <= p) && (p < low || high <= p) ==> #[trigger] after(p)
                == before(p)
    }
    &&& last ==> {
        &&& left == seq![block] + blocks
        &&& forall|p: int| #[trigger]
            idle(world, after, left, p) == (idle(world, before, blocks, p) || in_block(
                before,
                block,
                p,
            ))
        &&& forall|p: int|
            !idle(world, before, blocks, p) && !in_block(before, block, p) && (p < low || high
                <= p) ==> #[trigger] after(p) == before(p)
    }
}

/// Dropping a reference from a routine: the call, and what it leaves.
pub proof fn lemma_drop_from(
    world: World,
    before: spec_fn(int) -> u8,
    calling: Machine,
    program: Seq<Insn>,
    back: int,
    blocks: Seq<u64>,
    low: int,
    high: int,
) -> (end: (Machine, Seq<u64>))
    requires
        drop_safe(world, before, blocks, calling.regs[Rcx], low, high),
        kept(before, calling.mem, low, high),
        0 <= low,
        low + 8 <= calling.regs[Rsp] <= high,
    ensures
        ({
            let (out, left) = end;
            &&& ends_in(
                world,
                (world.code)(Symbol::RcDec),
                0,
                entered(world, program, back, calling),
                Outcome::Returned(out),
            )
            &&& returned_home(world, program, back, calling, out)
            &&& out.regs[Rsp] == calling.regs[Rsp]
            &&& forall|reg: Reg|
                !volatile(reg) && reg != Rsp ==> #[trigger] out.regs[reg] == calling.regs[reg]
            &&& dropped(world, before, out.mem, blocks, left, calling.regs[Rcx], low, high)
            &&& forall|p: int|
                calling.regs[Rsp] <= p < high ==> #[trigger] (out.mem)(p) == (calling.mem)(p)
        }),
{
    let payload = calling.regs[Rcx];
    let block = block_of(payload);
    lemma_drop_stands(world, before, calling.mem, blocks, payload, low, high);
    let start = entered(world, program, back, calling);
    let (out, left) = lemma_drop_call(world, program, back, calling, blocks);
    lemma_drop_leaves(world, start.mem, out.mem, blocks, left, payload);
    let at = calling.regs[Rsp] - 8;
    law_kept_bytes_keep_words(calling.mem, start.mem, at, at + 8, block as int);
    assert forall|p: int| in_block(before, block, p) == in_block(start.mem, block, p) by {}
    assert forall|p: int|
        !idle(world, before, blocks, p) && !in_block(before, block, p) && (p < low || high
            <= p) implies #[trigger] (out.mem)(p) == before(p) by {
        assert(!idle(world, calling.mem, blocks, p));
        assert(!idle(world, start.mem, blocks, p));
        assert((start.mem)(p) == (calling.mem)(p));
    }
    assert forall|p: int| at + 8 <= p < high implies #[trigger] (out.mem)(p) == (calling.mem)(p) by {
        assert(!idle(world, before, blocks, p));
        assert(!idle(world, calling.mem, blocks, p));
        assert(!idle(world, start.mem, blocks, p));
        assert(!in_block(start.mem, block, p));
        assert((start.mem)(p) == (calling.mem)(p));
    }
    if count_of(before, payload) == 1 && releases(world, before) {
        assert forall|p: int| #[trigger]
            idle(world, out.mem, left, p) == (idle(world, before, blocks, p) || in_block(
                before,
                block,
                p,
            )) by {
            assert(idle(world, start.mem, blocks, p) == idle(world, calling.mem, blocks, p));
        }
    } else {
        assert forall|p: int| #[trigger]
            idle(world, out.mem, left, p) == idle(world, before, blocks, p) by {
            assert(idle(world, start.mem, blocks, p) == idle(world, calling.mem, blocks, p));
        }
        assert forall|p: int|
            (p < payload - 8 || payload <= p)
                && (p < low || high <= p) implies #[trigger] (out.mem)(
            p,
        ) == before(p) by {
            assert((start.mem)(p) == (calling.mem)(p));
        }
    }
    (out, left)
}

/// A reference that can be dropped can be dropped when the stack of the routine has changed.
proof fn lemma_drop_stands(
    world: World,
    before: spec_fn(int) -> u8,
    after: spec_fn(int) -> u8,
    blocks: Seq<u64>,
    payload: u64,
    low: int,
    high: int,
)
    requires
        drop_safe(world, before, blocks, payload, low, high),
        kept(before, after, low, high),
        low < high,
    ensures
        drop_safe(world, after, blocks, payload, low, high),
        spare(world, after) == spare(world, before),
        count_of(after, payload) == count_of(before, payload),
        releases(world, after) == releases(world, before),
        block_size(after, block_of(payload)) == block_size(before, block_of(payload)),
        forall|p: int| #[trigger] idle(world, after, blocks, p) == idle(world, before, blocks, p),
{
    let block = block_of(payload);
    assert forall|p: int| #[trigger] idle(world, before, blocks,
        p) implies after(p) == before(p) by {}
    lemma_heap_stands(world, before, after, blocks);
    law_kept_bytes_keep_words(before, after, low, high, block as int);
    law_kept_bytes_keep_words(before, after, low, high, payload - 8);
    law_kept_bytes_keep_words(before, after, low, high, mode_at(world));
    assert forall|p: int| #[trigger] in_block(after, block, p) implies !idle(world, after, blocks,
        p) by {
        assert(in_block(before, block, p));
    }
}

/// A span that is not the allocator's nor in the block is not touched by a drop.
pub proof fn lemma_span_through_drop(
    world: World,
    before: spec_fn(int) -> u8,
    after: spec_fn(int) -> u8,
    blocks: Seq<u64>,
    left: Seq<u64>,
    payload: u64,
    low: int,
    high: int,
    a: int,
    n: int,
)
    requires
        can_drop(world, before, blocks, payload),
        dropped(world, before, after, blocks, left, payload, low, high),
        span_held(world, before, blocks, a, n),
        spans_apart(block_of(payload) as int, block_size(before, block_of(payload)), a, n),
    ensures
        span_held(world, after, left, a, n),
        spans_apart(a, n, low, high - low) ==> forall|p: int|
            a <= p < a + n ==> #[trigger] after(p) == before(p),
{
    assert forall|p: int| a <= p < a + n implies !#[trigger] idle(world, after, left, p) by {
        assert(!idle(world, before, blocks, p));
    }
    assert forall|p: int| a <= p < a + n
        && spans_apart(a, n, low, high - low) implies #[trigger] after(
        p,
    ) == before(p) by {
        assert(!idle(world, before, blocks, p));
    }
}

/// A reference to another block can still be dropped after a drop.
pub proof fn lemma_safe_through_drop(
    world: World,
    before: spec_fn(int) -> u8,
    after: spec_fn(int) -> u8,
    blocks: Seq<u64>,
    left: Seq<u64>,
    payload: u64,
    low: int,
    high: int,
    other: u64,
)
    requires
        low < high,
        drop_safe(world, before, blocks, payload, low, high),
        dropped(world, before, after, blocks, left, payload, low, high),
        drop_safe(world, before, blocks, other, low, high),
        spans_apart(
            block_of(payload) as int,
            block_size(before, block_of(payload)),
            block_of(other) as int,
            block_size(before, block_of(other)),
        ),
    ensures
        drop_safe(world, after, left, other, low, high),
        block_size(after, block_of(other)) == block_size(before, block_of(other)),
        count_of(after, other) == count_of(before, other),
        releases(world, after) == releases(world, before),
{
    let block = block_of(other);
    let size = block_size(before, block);
    assert(span_held(world, before, blocks, block as int, size)) by {
        assert forall|p: int| block <= p < block + size implies !#[trigger] idle(
            world,
            before,
            blocks,
            p,
        ) by {
            assert(in_block(before, block, p));
        }
    }
    lemma_span_through_drop(
        world,
        before,
        after,
        blocks,
        left,
        payload,
        low,
        high,
        block as int,
        size,
    );
    let mode = mode_at(world);
    lemma_span_through_drop(world, before, after, blocks, left, payload, low, high, mode, 8);
    lemma_span_through_drop(
        world,
        before,
        after,
        blocks,
        left,
        payload,
        low,
        high,
        low,
        high - low,
    );
    law_word_of_bytes(after, before, block as int);
    law_word_of_bytes(after, before, other - 8);
    law_word_of_bytes(after, before, mode);
}

/// A span that is not the allocator's is not touched when something is built, and what was
/// built lies apart from it.
pub proof fn lemma_span_through_build(
    world: World,
    m: Machine,
    after: spec_fn(int) -> u8,
    blocks: Seq<u64>,
    left: Seq<u64>,
    size: int,
    payload: u64,
    depth: int,
    a: int,
    n: int,
)
    requires
        builds(world, m, after, blocks, left, size, payload, depth),
        span_held(world, m.mem, blocks, a, n),
        0 < n,
        0 <= size,
    ensures
        span_held(world, after, left, a, n),
        spans_apart(block_of(payload) as int, block_size(after, block_of(payload)), a, n),
        spans_apart(a, n, m.regs[Rsp] - depth, depth) ==> forall|p: int|
            a <= p < a + n ==> #[trigger] after(p) == (m.mem)(p),
{
    let block = block_of(payload);
    assert forall|p: int| a <= p < a + n implies !#[trigger] idle(world, after, left, p) by {
        assert(!idle(world, m.mem, blocks, p));
    }
    let q = if block <= a {
        a
    } else {
        block as int
    };
    assert(in_block(after, block, q) ==> idle(world, m.mem, blocks, q));
    assert forall|p: int| a <= p < a + n && spans_apart(
        a,
        n,
        m.regs[Rsp] - depth,
        depth,
    ) implies #[trigger] after(p) == (m.mem)(p) by {
        assert(!idle(world, m.mem, blocks, p));
    }
}

/// A reference can still be dropped after something was built.
pub proof fn lemma_safe_through_build(
    world: World,
    m: Machine,
    after: spec_fn(int) -> u8,
    blocks: Seq<u64>,
    left: Seq<u64>,
    size: int,
    payload: u64,
    depth: int,
    other: u64,
)
    requires
        builds(world, m, after, blocks, left, size, payload, depth),
        0 < depth,
        0 <= size,
        drop_safe(world, m.mem, blocks, other, m.regs[Rsp] - depth, m.regs[Rsp] as int),
    ensures
        drop_safe(world, after, left, other, m.regs[Rsp] - depth, m.regs[Rsp] as int),
        block_size(after, block_of(other)) == block_size(m.mem, block_of(other)),
        count_of(after, other) == count_of(m.mem, other),
        releases(world, after) == releases(world, m.mem),
        spans_apart(
            block_of(payload) as int,
            block_size(after, block_of(payload)),
            block_of(other) as int,
            block_size(after, block_of(other)),
        ),
{
    let block = block_of(other);
    let held = block_size(m.mem, block);
    let low = m.regs[Rsp] - depth;
    assert(span_held(world, m.mem, blocks, block as int, held)) by {
        assert forall|p: int| block <= p < block + held implies !#[trigger] idle(
            world,
            m.mem,
            blocks,
            p,
        ) by {
            assert(in_block(m.mem, block, p));
        }
    }
    lemma_span_through_build(
        world,
        m,
        after,
        blocks,
        left,
        size,
        payload,
        depth,
        block as int,
        held,
    );
    let mode = mode_at(world);
    lemma_span_through_build(world, m, after, blocks, left, size, payload, depth, mode, 8);
    lemma_span_through_build(world, m, after, blocks, left, size, payload, depth, low, depth);
    law_word_of_bytes(after, m.mem, block as int);
    law_word_of_bytes(after, m.mem, other - 8);
    law_word_of_bytes(after, m.mem, mode);
}

// The length of a string that is used up

/// The registers that `str_len_own` saves.
pub open spec fn len_saves() -> Seq<Reg> {
    seq![Rbx]
}

/// `str_len_own` gives the number of characters of a string and drops the string.
pub proof fn law_str_len_own(world: World, m: Machine, blocks: Seq<u64>) -> (end: (
    Machine,
    Seq<u64>,
))
    requires
        48 <= m.regs[Rsp],
        drop_safe(
            world,
            m.mem,
            blocks,
            m.regs[Rcx],
            m.regs[Rsp] - 48,
            m.regs[Rsp] as int,
        ),
        spans_apart(m.regs[Rcx] as int, 8, m.regs[Rsp] - 48, 48),
    ensures
        ({
            let (after, left) = end;
            let record = m.regs[Rcx];
            let top = m.regs[Rsp] as int;
            &&& ends_in(world, str_len_own_program(), 0, m, Outcome::Returned(after))
            &&& came_back(m, after)
            &&& after.regs[Rax] == word_at(m.mem, record as int)
            &&& dropped(world, m.mem, after.mem, blocks, left, record, top - 48, top)
        }),
{
    let program = str_len_own_program();
    let run = Run { world, program, start: 0, before: m };
    let regs = len_saves();
    let record = m.regs[Rcx];
    let top = m.regs[Rsp] as int;
    assert(program.len() == 8);
    assert(regs[0] == Rbx);
    assert(part_of(frame_head(regs, 32), program, 0));
    let m1 = lemma_frame_head(run, m, regs, 32);
    assert(m1.address(world, at_b(Rcx, 0)) == record);
    lemma_load(run, 2, m1, Rbx, at_b(Rcx, 0));
    law_kept_bytes_keep_words(m.mem, m1.mem, top - 48, top, record as int);
    let chars = word_at(m.mem, record as int);
    let calling = m1.set(Rbx, chars);
    lemma_call(run, 3, calling, Symbol::RcDec);
    let (out, left) = lemma_drop_from(
        world,
        m.mem,
        calling,
        program,
        4,
        blocks,
        top - 48,
        top,
    );
    let run = Run { world, program, start: 4, before: out };
    lemma_begin(run);
    lemma_mov(run, 4, out, Rax, Rbx);
    let n1 = out.set(Rax, chars);
    lemma_saved_stays(m1.mem, n1.mem, top, regs, m.regs);
    assert(part_of(frame_tail(regs, 32), program, 5));
    let after = lemma_frame_tail(run, 5, m, n1, regs, 32);
    law_ends_alone(world, program, 4, out, Outcome::Returned(after));
    law_call(world, program, 0, m, Symbol::RcDec, 4, calling, out, Outcome::Returned(after));
    (after, left)
}

// Operands that are used up

/// Whether a mask marks the left operand as used up.
pub open spec fn uses_left(mask: u64) -> bool {
    mask % 2 == 1
}

/// Whether a mask marks the right operand as used up.
pub open spec fn uses_right(mask: u64) -> bool {
    mask / 2 % 2 == 1
}

proof fn lemma_mask(mask: u64)
    ensures
        (((mask % 0x1_0000_0000) as u64 & 1) != 0) == uses_left(mask),
        (((mask % 0x1_0000_0000) as u64 & 2) != 0) == uses_right(mask),
        uses_left((mask % 0x1_0000_0000) as u64) == uses_left(mask),
        uses_right((mask % 0x1_0000_0000) as u64) == uses_right(mask),
{
    let low = (mask % 0x1_0000_0000) as u64;
    assert(low == mask % 0x1_0000_0000);
    assert((low & 1 != 0) == (low % 2 == 1) && (low & 2 != 0) == (low / 2 % 2 == 1))
        by (bit_vector);
}

/// What is left when a reference is dropped, or not.
pub open spec fn dropped_if(
    used: bool,
    world: World,
    before: spec_fn(int) -> u8,
    after: spec_fn(int) -> u8,
    blocks: Seq<u64>,
    left: Seq<u64>,
    payload: u64,
    low: int,
    high: int,
) -> bool {
    if used {
        dropped(world, before, after, blocks, left, payload, low, high)
    } else {
        after == before && left == blocks
    }
}

/// Whether the marked operands can be dropped, one after the other.
pub open spec fn operands_safe(
    world: World,
    mem: spec_fn(int) -> u8,
    blocks: Seq<u64>,
    a: u64,
    b: u64,
    mask: u64,
    low: int,
    high: int,
) -> bool {
    &&& uses_left(mask) ==> drop_safe(world, mem, blocks, a, low, high)
    &&& uses_right(mask) ==> drop_safe(world, mem, blocks, b, low, high)
    &&& uses_left(mask) && uses_right(mask) ==> spans_apart(
        block_of(a) as int,
        block_size(mem, block_of(a)),
        block_of(b) as int,
        block_size(mem, block_of(b)),
    )
}

/// The registers that an operation on two operands saves.
pub open spec fn own_saves() -> Seq<Reg> {
    seq![Rbx, Rsi, Rdi, R12]
}

/// What follows the operation: the marked operands are dropped, and its result is returned.
pub open spec fn own_tail() -> Seq<Insn> {
    seq![
        mov(R12, Rax),
        test_imm_d(Rdi, 1),
        jcc_short(E, 3),
        mov(Rcx, Rbx),
        call(Symbol::RcDec),
        test_imm_d(Rdi, 2),
        jcc_short(E, 3),
        mov(Rcx, Rsi),
        call(Symbol::RcDec),
        mov(Rax, R12),
        alu_imm8(Alu::Add, Rsp, 40),
        Insn::Pop(R12),
        Insn::Pop(Rdi),
        Insn::Pop(Rsi),
        Insn::Pop(Rbx),
        Insn::Ret,
    ]
}

/// The state of the routine between its head and its return.
pub open spec fn owning(m: Machine, now: Machine, low: int) -> bool {
    let top = m.regs[Rsp] as int;
    &&& 0 <= low
    &&& low + 80 <= top
    &&& now.regs[Rsp] == top - 72
    &&& saved(now.mem, top, own_saves(), m.regs)
    &&& forall|reg: Reg|
        !volatile(reg) && reg != Rsp && !among(reg, own_saves()) ==> #[trigger] now.regs[reg]
            == m.regs[reg]
}

/// Returning the result.
proof fn lemma_own_return(
    world: World,
    program: Seq<Insn>,
    pc: int,
    m: Machine,
    now: Machine,
    low: int,
) -> (after: Machine)
    requires
        0 <= pc,
        part_of(own_tail(), program, pc),
        owning(m, now, low),
    ensures
        ends_in(world, program, pc + 9, now, Outcome::Returned(after)),
        came_back(m, after),
        after.mem == now.mem,
        after.regs[Rax] == now.regs[R12],
{
    let run = Run { world, program, start: pc + 9, before: now };
    let regs = own_saves();
    let tail = own_tail();
    assert(regs[0] == Rbx && regs[1] == Rsi && regs[2] == Rdi && regs[3] == R12);
    lemma_begin(run);
    assert(program[pc + 9] == tail[9]);
    lemma_mov(run, pc + 9, now, Rax, R12);
    let m1 = now.set(Rax, now.regs[R12]);
    assert(part_of(frame_tail(regs, 40), program, pc + 10)) by {
        let ending = frame_tail(regs, 40);
        assert forall|i: int| 0 <= i < ending.len() implies #[trigger] ending[i] == program[pc + 10
            + i] by {
            assert(ending[i] == tail[10 + i]);
            assert(program[pc + (10 + i)] == tail[10 + i]);
        }
    }
    let after = lemma_frame_tail(run, pc + 10, m, m1, regs, 40);
    law_ends_alone(world, program, pc + 9, now, Outcome::Returned(after));
    after
}

/// One operand: the test of the mask, and the drop when it is marked.
proof fn lemma_own_operand(
    world: World,
    program: Seq<Insn>,
    pc: int,
    m: Machine,
    now: Machine,
    blocks: Seq<u64>,
    low: int,
    bit: i32,
    operand: Reg,
) -> (end: (Machine, Seq<u64>))
    requires
        0 <= pc,
        pc + 4 <= program.len(),
        program[pc] == test_imm_d(Rdi, bit),
        program[pc + 1] == jcc_short(E, 3),
        program[pc + 2] == mov(Rcx, operand),
        program[pc + 3] == call(Symbol::RcDec),
        bit == 1 || bit == 2,
        owning(m, now, low),
        ({
            let used = if bit == 1 {
                uses_left(now.regs[Rdi])
            } else {
                uses_right(now.regs[Rdi])
            };
            used ==> drop_safe(
                world,
                now.mem,
                blocks,
                now.regs[operand],
                low,
                m.regs[Rsp] as int,
            )
        }),
    ensures
        ({
            let (out, left) = end;
            let used = if bit == 1 {
                uses_left(now.regs[Rdi])
            } else {
                uses_right(now.regs[Rdi])
            };
            let top = m.regs[Rsp] as int;
            &&& owning(m, out, low)
            &&& forall|reg: Reg| !volatile(reg) ==> #[trigger] out.regs[reg] == now.regs[reg]
            &&& dropped_if(
                used,
                world,
                now.mem,
                out.mem,
                blocks,
                left,
                now.regs[operand],
                low,
                top,
            )
            &&& forall|outcome: Outcome| #[trigger]
                ends_in(world, program, pc + 4, out, outcome) ==> ends_in(
                    world,
                    program,
                    pc,
                    now,
                    outcome,
                )
        }),
{
    let run = Run { world, program, start: pc, before: now };
    let top = m.regs[Rsp] as int;
    let mask = now.regs[Rdi];
    let bits = (mask % 0x1_0000_0000) as u64 & bit as u64;
    let used = if bit == 1 {
        uses_left(mask)
    } else {
        uses_right(mask)
    };
    lemma_mask(mask);
    lemma_begin(run);
    lemma_test_imm_d(run, pc, now, Rdi, bit);
    let m1 = now.flagged(flags_of_bits(Width::Long, bits as int));
    lemma_jcc(run, pc + 1, m1, E, true, Hop::Forward(3));
    if used {
        lemma_mov(run, pc + 2, m1, Rcx, operand);
        let calling = m1.set(Rcx, now.regs[operand]);
        lemma_call(run, pc + 3, calling, Symbol::RcDec);
        let (out, left) = lemma_drop_from(
            world,
            now.mem,
            calling,
            program,
            pc + 4,
            blocks,
            low,
            top,
        );
        lemma_saved_stays(now.mem, out.mem, top, own_saves(), m.regs);
        assert forall|outcome: Outcome| #[trigger]
            ends_in(world, program, pc + 4, out, outcome) implies ends_in(
            world,
            program,
            pc,
            now,
            outcome,
        ) by {
            law_call(
                world,
                program,
                pc,
                now,
                Symbol::RcDec,
                pc + 4,
                calling,
                out,
                outcome,
            );
        }
        (out, left)
    } else {
        assert forall|outcome: Outcome| #[trigger]
            ends_in(world, program, pc + 4, m1, outcome) implies ends_in(
            world,
            program,
            pc,
            now,
            outcome,
        ) by {
            law_runs_into(world, program, pc, now, pc + 4, m1, outcome);
        }
        (m1, blocks)
    }
}

/// What follows the operation: the drops of the marked operands and the return.
proof fn lemma_own_tail(
    world: World,
    program: Seq<Insn>,
    pc: int,
    m: Machine,
    out: Machine,
    blocks: Seq<u64>,
    low: int,
) -> (end: (Machine, Seq<u64>, Machine, Seq<u64>))
    requires
        0 <= pc,
        part_of(own_tail(), program, pc),
        owning(m, out, low),
        operands_safe(
            world,
            out.mem,
            blocks,
            out.regs[Rbx],
            out.regs[Rsi],
            out.regs[Rdi],
            low,
            m.regs[Rsp] as int,
        ),
    ensures
        ({
            let (between, some, after, left) = end;
            let top = m.regs[Rsp] as int;
            let mask = out.regs[Rdi];
            let a = out.regs[Rbx];
            let b = out.regs[Rsi];
            &&& ends_in(world, program, pc, out, Outcome::Returned(after))
            &&& came_back(m, after)
            &&& after.regs[Rax] == out.regs[Rax]
            &&& dropped_if(
                uses_left(mask),
                world,
                out.mem,
                between.mem,
                blocks,
                some,
                a,
                low,
                top,
            )
            &&& dropped_if(
                uses_right(mask),
                world,
                between.mem,
                after.mem,
                some,
                left,
                b,
                low,
                top,
            )
            &&& uses_right(mask) ==> drop_safe(world, between.mem, some, b, low, top)
        }),
{
    let run = Run { world, program, start: pc, before: out };
    let top = m.regs[Rsp] as int;
    let tail = own_tail();
    let a = out.regs[Rbx];
    let b = out.regs[Rsi];
    let mask = out.regs[Rdi];
    assert forall|i: int| 0 <= i < tail.len() implies #[trigger] program[pc + i] == tail[i] by {}
    assert(program[pc + 0] == tail[0] && program[pc + 1] == tail[1] && program[pc + 2] == tail[2]
        && program[pc + 3] == tail[3] && program[pc + 4] == tail[4] && program[pc + 5] == tail[5]
        && program[pc + 6] == tail[6] && program[pc + 7] == tail[7] && program[pc + 8] == tail[8]);
    lemma_begin(run);
    lemma_mov(run, pc, out, R12, Rax);
    let now = out.set(R12, out.regs[Rax]);
    assert(own_saves()[3] == R12);
    assert(owning(m, now, low));
    let (between, some) = lemma_own_operand(world, program, pc + 1, m, now, blocks, low, 1, Rbx);
    if uses_left(mask) && uses_right(mask) {
        lemma_safe_through_drop(world, out.mem, between.mem, blocks, some, a, low, top, b);
    }
    let (last, left) = lemma_own_operand(
        world,
        program,
        pc + 5,
        m,
        between,
        some,
        low,
        2,
        Rsi,
    );
    let after = lemma_own_return(world, program, pc, m, last, low);
    assert(ends_in(world, program, pc + 5 + 4, last, Outcome::Returned(after)));
    assert(ends_in(world, program, pc + 1 + 4, between, Outcome::Returned(after)));
    assert(ends_in(world, program, pc + 1, now, Outcome::Returned(after)));
    law_runs_into(world, program, pc, out, pc + 1, now, Outcome::Returned(after));
    (between, some, after, left)
}

// Concatenating strings that are used up

/// Whether two strings can be concatenated and the marked ones dropped.
pub open spec fn can_concat_own(world: World, m: Machine, blocks: Seq<u64>) -> bool {
    let a = m.regs[Rcx];
    let b = m.regs[Rdx];
    let top = m.regs[Rsp] as int;
    &&& (world.code)(Symbol::StrConcat) == str_concat_program()
    &&& can_build(world, m, blocks, 160)
    &&& string_safe(world, m, blocks, a, 160)
    &&& string_safe(world, m, blocks, b, 160)
    &&& 16 + word_at(m.mem, a + 8) + word_at(m.mem, b + 8) <= u64::MAX / 2
    &&& operands_safe(world, m.mem, blocks, a, b, m.regs[R8], top - 160, top)
}

/// The operands, kept in registers across the call.
proof fn lemma_own_head(world: World, program: Seq<Insn>, m: Machine) -> (now: Machine)
    requires
        part_of(own_head(), program, 0),
        80 <= m.regs[Rsp],
    ensures
        comes_to(world, program, 0, m, Outcome::At(8, now)),
        owning(m, now, m.regs[Rsp] - 80),
        kept(m.mem, now.mem, m.regs[Rsp] - 32, m.regs[Rsp] as int),
        now.regs[Rbx] == m.regs[Rcx],
        now.regs[Rsi] == m.regs[Rdx],
        now.regs[Rdi] == m.regs[R8] % 0x1_0000_0000,
        forall|reg: Reg| volatile(reg) ==> #[trigger] now.regs[reg] == m.regs[reg],
{
    let run = Run { world, program, start: 0, before: m };
    let regs = own_saves();
    let head = own_head();
    assert(regs[0] == Rbx && regs[1] == Rsi && regs[2] == Rdi && regs[3] == R12);
    assert forall|i: int| 0 <= i < head.len() implies #[trigger] program[i] == head[i] by {
        assert(program[0 + i] == head[i]);
    }
    assert(part_of(frame_head(regs, 40), program, 0)) by {
        let start = frame_head(regs, 40);
        assert forall|i: int| 0 <= i < start.len() implies #[trigger] start[i] == program[0 + i] by {
            assert(start[i] == head[i]);
        }
    }
    let m1 = lemma_frame_head(run, m, regs, 40);
    assert(program[5] == head[5] && program[6] == head[6] && program[7] == head[7]);
    lemma_mov(run, 5, m1, Rbx, Rcx);
    let m2 = m1.set(Rbx, m.regs[Rcx]);
    lemma_mov(run, 6, m2, Rsi, Rdx);
    let m3 = m2.set(Rsi, m.regs[Rdx]);
    lemma_mov_d(run, 7, m3, Rdi, R8);
    m3.set(Rdi, m.regs[R8] % 0x1_0000_0000)
}

/// What an operation that may use up its operands starts with.
pub open spec fn own_head() -> Seq<Insn> {
    seq![
        Insn::Push(Rbx),
        Insn::Push(Rsi),
        Insn::Push(Rdi),
        Insn::Push(R12),
        alu_imm8(Alu::Sub, Rsp, 40),
        mov(Rbx, Rcx),
        mov(Rsi, Rdx),
        mov_d(Rdi, R8),
    ]
}

/// `str_concat_own` gives a fresh string with the one text behind the other, and then drops
/// the operands that the mask marks, the left one first; without room it traps.
#[verifier::rlimit(60)]
pub proof fn law_str_concat_own(
    world: World,
    m: Machine,
    blocks: Seq<u64>,
    left_text: Seq<u8>,
    right_text: Seq<u8>,
) -> (end: (Machine, Seq<u64>, Machine, Seq<u64>, Machine, Seq<u64>))
    requires
        can_concat_own(world, m, blocks),
        holds_string(m.mem, m.regs[Rcx], left_text),
        holds_string(m.mem, m.regs[Rdx], right_text),
    ensures
        ({
            let (built, most, between, some, after, left) = end;
            let program = str_concat_own_program();
            let text = left_text + right_text;
            let size = 16 + text.len() as int;
            let mask = m.regs[R8];
            let result = after.regs[Rax];
            let top = m.regs[Rsp] as int;
            let low = top - 160;
            let room = has_room(world, m.mem, blocks, size);
            &&& room ==> {
                &&& ends_in(world, program, 0, m, Outcome::Returned(after))
                &&& came_back(m, after)
                &&& builds(world, m, built.mem, blocks, most, size, result, 160)
                &&& dropped_if(
                    uses_left(mask),
                    world,
                    built.mem,
                    between.mem,
                    most,
                    some,
                    m.regs[Rcx],
                    low,
                    top,
                )
                &&& dropped_if(
                    uses_right(mask),
                    world,
                    between.mem,
                    after.mem,
                    some,
                    left,
                    m.regs[Rdx],
                    low,
                    top,
                )
                &&& holds_string(after.mem, result, text)
                &&& count_of(after.mem, result) == 1
            }
            &&& !room ==> ends_in(world, program, 0, m, Outcome::Trapped(after))
        }),
{
    let program = str_concat_own_program();
    let run = Run { world, program, start: 0, before: m };
    let a = m.regs[Rcx];
    let b = m.regs[Rdx];
    let mask = m.regs[R8];
    let text = left_text + right_text;
    let size = 16 + text.len() as int;
    let top = m.regs[Rsp] as int;
    let low = top - 160;
    assert(program.len() == 27);
    assert(part_of(own_head(), program, 0));
    let m1 = lemma_own_head(world, program, m);
    lemma_mov(run, 8, m1, Rcx, Rbx);
    let m2 = m1.set(Rcx, a);
    lemma_mov(run, 9, m2, Rdx, Rsi);
    let calling = m2.set(Rdx, b);
    lemma_call(run, 10, calling, Symbol::StrConcat);
    let start = entered(world, program, 11, calling);
    lemma_enter(world, m, calling, program, 11, blocks, 160, 80, size);
    let na = 16 + word_at(m.mem, a + 8);
    let nb = 16 + word_at(m.mem, b + 8);
    lemma_span_safe_inside(world, m, calling, program, 11, blocks, 160, 80, a as int, na);
    lemma_span_safe_inside(world, m, calling, program, 11, blocks, 160, 80, b as int, nb);
    law_word_of_bytes(start.mem, m.mem, a as int);
    law_word_of_bytes(start.mem, m.mem, a + 8);
    law_word_of_bytes(start.mem, m.mem, b as int);
    law_word_of_bytes(start.mem, m.mem, b + 8);
    assert(text_at(start.mem, a) =~= left_text) by {
        assert(text_at(m.mem, a) == left_text);
    }
    assert(text_at(start.mem, b) =~= right_text) by {
        assert(text_at(m.mem, b) == right_text);
    }
    let (out, most) = law_str_concat(world, start, blocks, left_text, right_text);
    if has_room(world, m.mem, blocks, size) {
        let result = out.regs[Rax];
        lemma_leave(
            world,
            m,
            calling,
            out,
            program,
            11,
            blocks,
            most,
            size,
            result,
            160,
            80,
        );
        lemma_mask(mask);
        lemma_saved_stays(calling.mem, out.mem, top, own_saves(), m.regs);
        if uses_left(mask) {
            lemma_safe_through_build(world, m, out.mem, blocks, most, size, result, 160, a);
        }
        if uses_right(mask) {
            lemma_safe_through_build(world, m, out.mem, blocks, most, size, result, 160, b);
        }
        assert(owning(m, out, low));
        assert(part_of(own_tail(), program, 11));
        let (between, some, after, left) = lemma_own_tail(
            world,
            program,
            11,
            m,
            out,
            most,
            low,
        );
        let block = block_of(result);
        let whole = block_size(out.mem, block);
        lemma_span_through_build(world, m, out.mem, blocks, most, size, result, 160, low, 160);
        assert(span_held(world, out.mem, most, block as int, whole)) by {
            assert forall|p: int| block <= p < block + whole implies !#[trigger] idle(
                world,
                out.mem,
                most,
                p,
            ) by {
                assert(in_block(out.mem, block, p));
            }
        }
        if uses_left(mask) {
            lemma_span_through_drop(
                world,
                out.mem,
                between.mem,
                most,
                some,
                a,
                low,
                top,
                block as int,
                whole,
            );
        }
        if uses_right(mask) {
            if uses_left(mask) {
                lemma_safe_through_drop(world, out.mem, between.mem, most, some, a, low, top, b);
            }
            lemma_span_through_drop(
                world,
                between.mem,
                after.mem,
                some,
                left,
                b,
                low,
                top,
                block as int,
                whole,
            );
        }
        assert forall|p: int| block <= p < block + whole implies #[trigger] (after.mem)(p) == (
        out.mem)(p) by {
            assert((between.mem)(p) == (out.mem)(p));
        }
        law_word_of_bytes(after.mem, out.mem, result - 8);
        law_word_of_bytes(after.mem, out.mem, result as int);
        law_word_of_bytes(after.mem, out.mem, result + 8);
        assert(text_at(after.mem, result) =~= text) by {
            assert(text_at(out.mem, result) == text);
        }
        law_call(
            world,
            program,
            0,
            m,
            Symbol::StrConcat,
            11,
            calling,
            out,
            Outcome::Returned(after),
        );
        (out, most, between, some, after, left)
    } else {
        law_call_traps(world, program, 0, m, Symbol::StrConcat, 11, calling, out);
        (out, most, out, most, out, most)
    }
}

// Any operation on strings that are used up

/// Whether a called operation came back to its caller, and left the caller's stack alone.
pub open spec fn op_returns(
    world: World,
    program: Seq<Insn>,
    op: Symbol,
    back: int,
    calling: Machine,
    out: Machine,
    top: int,
) -> bool {
    let start = entered(world, program, back, calling);
    &&& ends_in(world, (world.code)(op), 0, start, Outcome::Returned(out))
    &&& returned_home(world, program, back, calling, out)
    &&& came_back(start, out)
    &&& forall|p: int| calling.regs[Rsp] <= p < top ==> #[trigger] (out.mem)(p) == (calling.mem)(p)
}

/// `str_binop_own` calls the operation in `r9` with the operands where they are.
pub proof fn law_str_binop_own_calls(world: World, m: Machine) -> (calling: Machine)
    requires
        80 <= m.regs[Rsp],
    ensures
        comes_to(
            world,
            str_binop_own_program(),
            0,
            m,
            Outcome::Called((world.routine)(m.regs[R9]), 9, calling),
        ),
        owning(m, calling, m.regs[Rsp] - 80),
        kept(m.mem, calling.mem, m.regs[Rsp] - 32, m.regs[Rsp] as int),
        calling.regs[Rbx] == m.regs[Rcx],
        calling.regs[Rsi] == m.regs[Rdx],
        calling.regs[Rdi] == m.regs[R8] % 0x1_0000_0000,
        forall|reg: Reg| volatile(reg) ==> #[trigger] calling.regs[reg] == m.regs[reg],
{
    let program = str_binop_own_program();
    let run = Run { world, program, start: 0, before: m };
    assert(program.len() == 25);
    assert(part_of(own_head(), program, 0));
    let calling = lemma_own_head(world, program, m);
    lemma_call_reg(run, 8, calling, R9);
    calling
}

/// `str_binop_own` gives the result of the operation, and drops the operands that the mask
/// marks, the left one first.
pub proof fn law_str_binop_own(
    world: World,
    m: Machine,
    calling: Machine,
    out: Machine,
    blocks: Seq<u64>,
    low: int,
) -> (end: (Machine, Seq<u64>, Machine, Seq<u64>))
    requires
        0 <= low,
        low + 80 <= m.regs[Rsp],
        comes_to(
            world,
            str_binop_own_program(),
            0,
            m,
            Outcome::Called((world.routine)(m.regs[R9]), 9, calling),
        ),
        op_returns(
            world,
            str_binop_own_program(),
            (world.routine)(m.regs[R9]),
            9,
            calling,
            out,
            m.regs[Rsp] as int,
        ),
        operands_safe(
            world,
            out.mem,
            blocks,
            m.regs[Rcx],
            m.regs[Rdx],
            m.regs[R8],
            low,
            m.regs[Rsp] as int,
        ),
    ensures
        ({
            let (between, some, after, left) = end;
            let top = m.regs[Rsp] as int;
            let mask = m.regs[R8];
            &&& ends_in(world, str_binop_own_program(), 0, m, Outcome::Returned(after))
            &&& came_back(m, after)
            &&& after.regs[Rax] == out.regs[Rax]
            &&& dropped_if(
                uses_left(mask),
                world,
                out.mem,
                between.mem,
                blocks,
                some,
                m.regs[Rcx],
                low,
                top,
            )
            &&& dropped_if(
                uses_right(mask),
                world,
                between.mem,
                after.mem,
                some,
                left,
                m.regs[Rdx],
                low,
                top,
            )
        }),
{
    let program = str_binop_own_program();
    let op = (world.routine)(m.regs[R9]);
    let top = m.regs[Rsp] as int;
    let mask = m.regs[R8];
    let same = law_str_binop_own_calls(world, m);
    law_ends_are_unique(
        world,
        program,
        0,
        m,
        Outcome::Called(op, 9, calling),
        Outcome::Called(op, 9, same),
    );
    assert(program.len() == 25);
    lemma_mask(mask);
    lemma_saved_stays(calling.mem, out.mem, top, own_saves(), m.regs);
    assert(owning(m, out, low));
    assert(part_of(own_tail(), program, 9));
    let (between, some, after, left) = lemma_own_tail(world, program, 9, m, out, blocks, low);
    law_call(world, program, 0, m, op, 9, calling, out, Outcome::Returned(after));
    (between, some, after, left)
}

/// The registers that `str_read_own` saves.
pub open spec fn read_saves() -> Seq<Reg> {
    seq![Rbx, Rsi]
}

/// `str_read_own` calls the operation in `r9` with its arguments where they are.
pub proof fn law_str_read_own_calls(world: World, m: Machine) -> (calling: Machine)
    requires
        64 <= m.regs[Rsp],
    ensures
        comes_to(
            world,
            str_read_own_program(),
            0,
            m,
            Outcome::Called((world.routine)(m.regs[R9]), 5, calling),
        ),
        calling.regs[Rsp] == m.regs[Rsp] - 56,
        saved(calling.mem, m.regs[Rsp] as int, read_saves(), m.regs),
        kept(m.mem, calling.mem, m.regs[Rsp] - 16, m.regs[Rsp] as int),
        calling.regs[Rbx] == m.regs[Rcx],
        forall|reg: Reg|
            reg != Rsp && reg != Rbx ==> #[trigger] calling.regs[reg] == m.regs[reg],
{
    let program = str_read_own_program();
    let run = Run { world, program, start: 0, before: m };
    let regs = read_saves();
    assert(program.len() == 13);
    assert(regs[0] == Rbx && regs[1] == Rsi);
    assert(part_of(frame_head(regs, 40), program, 0));
    let m1 = lemma_frame_head(run, m, regs, 40);
    lemma_mov(run, 3, m1, Rbx, Rcx);
    let calling = m1.set(Rbx, m.regs[Rcx]);
    lemma_call_reg(run, 4, calling, R9);
    calling
}

/// `str_read_own` gives the result of the operation, and drops the string that it read.
pub proof fn law_str_read_own(
    world: World,
    m: Machine,
    calling: Machine,
    out: Machine,
    blocks: Seq<u64>,
    low: int,
) -> (end: (Machine, Seq<u64>))
    requires
        0 <= low,
        low + 64 <= m.regs[Rsp],
        comes_to(
            world,
            str_read_own_program(),
            0,
            m,
            Outcome::Called((world.routine)(m.regs[R9]), 5, calling),
        ),
        op_returns(
            world,
            str_read_own_program(),
            (world.routine)(m.regs[R9]),
            5,
            calling,
            out,
            m.regs[Rsp] as int,
        ),
        drop_safe(world, out.mem, blocks, m.regs[Rcx], low, m.regs[Rsp] as int),
    ensures
        ({
            let (after, left) = end;
            let top = m.regs[Rsp] as int;
            &&& ends_in(world, str_read_own_program(), 0, m, Outcome::Returned(after))
            &&& came_back(m, after)
            &&& after.regs[Rax] == out.regs[Rax]
            &&& dropped(world, out.mem, after.mem, blocks, left, m.regs[Rcx], low, top)
        }),
{
    let program = str_read_own_program();
    let op = (world.routine)(m.regs[R9]);
    let top = m.regs[Rsp] as int;
    let regs = read_saves();
    let source = m.regs[Rcx];
    let same = law_str_read_own_calls(world, m);
    law_ends_are_unique(
        world,
        program,
        0,
        m,
        Outcome::Called(op, 5, calling),
        Outcome::Called(op, 5, same),
    );
    assert(program.len() == 13);
    assert(regs[0] == Rbx && regs[1] == Rsi);
    let run = Run { world, program, start: 5, before: out };
    lemma_begin(run);
    assert(out.regs[Rbx] == source && out.regs[Rsp] == top - 56);
    lemma_mov(run, 5, out, Rsi, Rax);
    let m1 = out.set(Rsi, out.regs[Rax]);
    lemma_mov(run, 6, m1, Rcx, Rbx);
    let dropping = m1.set(Rcx, source);
    lemma_call(run, 7, dropping, Symbol::RcDec);
    let (back, left) = lemma_drop_from(
        world,
        out.mem,
        dropping,
        program,
        8,
        blocks,
        low,
        top,
    );
    let run = Run { world, program, start: 8, before: back };
    lemma_begin(run);
    lemma_mov(run, 8, back, Rax, Rsi);
    let m2 = back.set(Rax, out.regs[Rax]);
    assert forall|p: int| top - 16 <= p < top implies #[trigger] (m2.mem)(p) == (calling.mem)(p) by {
        assert((out.mem)(p) == (calling.mem)(p));
    }
    lemma_saved_stays(calling.mem, m2.mem, top, regs, m.regs);
    assert(part_of(frame_tail(regs, 40), program, 9));
    let after = lemma_frame_tail(run, 9, m, m2, regs, 40);
    law_ends_alone(world, program, 8, back, Outcome::Returned(after));
    law_call(world, program, 5, out, Symbol::RcDec, 8, dropping, back, Outcome::Returned(after));
    law_call(world, program, 0, m, op, 5, calling, out, Outcome::Returned(after));
    (after, left)
}

} // verus!
