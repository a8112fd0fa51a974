//! Lists, maps and structs on the heap: what building, copying and growing them leaves.

use crate::behavior::allocation::{allocated, has_room, lemma_alloc_call, spans_apart};
use crate::behavior::building::{
    builds, can_build, lemma_at_the_call, lemma_built, lemma_span_stays, span_safe,
};
use crate::behavior::guards::law_comparisons_order;
use crate::behavior::heap::{came_back, returns_with, volatile};
use crate::behavior::instructions::{
    lemma_alu, lemma_alu_imm32, lemma_alu_imm8, lemma_begin, lemma_call, lemma_inc, lemma_jcc,
    lemma_jmp, lemma_lea, lemma_load, lemma_mov, lemma_powers, lemma_ret, lemma_set_d, lemma_shl,
    lemma_store, lemma_store_imm, lemma_test, lemma_zero, operated, Run,
};
use crate::behavior::routines::{
    frame_head, frame_tail, lemma_frame_head, lemma_frame_tail, lemma_saved_stays, saved,
};
use crate::linking::{ends_in, law_call, law_call_traps, law_ends_alone};
use crate::machine::{
    comes_to, flags_of_bits, kept, law_kept_bytes_keep_words, law_word_keeps_bytes,
    law_word_keeps_others, law_word_of_bytes, law_word_reads_back, part_of, with_word, word_at,
    word_span, wrap, Machine, Outcome, World,
};
use crate::mnemonics::{
    alu, alu_imm32, alu_imm8, at, at_b, at_d, below, call, index8, index8_d, index_d, jcc, jmp,
    jmp_back, load, mov, set_d, shift, shift_one, store, store_imm, test_rr, unary,
};
use crate::runtime::{LIST_INITIAL_CAP, LIST_NEW_SIZE, MAP_INITIAL_CAP, MAP_NEW_SIZE};
use crate::runtime::collections::{
    list_copy_program, list_grow_program, list_new_program, map_copy_program, map_find_program,
    map_grow_program, map_new_program, word_copy_loop_program,
};
use crate::runtime::heap::struct_copy_program;
use crate::symbols::Symbol;
use crate::x86::{Alu, Hop, Insn, Mem, Reg, Shift, Unary, Width};
use crate::x86::Cond::{E, Ge, L, Ne};
use crate::x86::Reg::{R10, R11, Rax, Rbx, Rcx, Rdi, Rdx, Rsi, Rsp};
use vstd::prelude::*;

verus! {

// Building

/// What the routines that build an empty collection share: the block's size, and the
/// capacity written to it.
pub open spec fn new_program(size: i32, cap: i32) -> Seq<Insn> {
    seq![
        alu_imm8(Alu::Sub, Rsp, 40),
        set_d(Rcx, size),
        call(Symbol::HeapAlloc),
        store_imm(at_d(Rax, 0), 0),
        store_imm(at_d(Rax, 8), cap),
        alu_imm8(Alu::Add, Rsp, 40),
        Insn::Ret,
    ]
}

/// Whether a routine built an empty collection.
pub open spec fn builds_empty(
    world: World,
    program: Seq<Insn>,
    m: Machine,
    after: Machine,
    blocks: Seq<u64>,
    left: Seq<u64>,
    size: int,
    cap: int,
) -> bool {
    &&& ends_in(world, program, 0, m, Outcome::Returned(after))
    &&& came_back(m, after)
    &&& builds(world, m, after.mem, blocks, left, size, after.regs[Rax], 48)
    &&& word_at(after.mem, after.regs[Rax] as int) == 0
    &&& word_at(after.mem, after.regs[Rax] + 8) == cap
}

proof fn lemma_new(world: World, size: i32, cap: i32, m: Machine, blocks: Seq<u64>) -> (end: (
    Machine,
    Seq<u64>,
))
    requires
        can_build(world, m, blocks, 48),
        16 <= size,
        0 <= cap,
    ensures
        ({
            let (after, left) = end;
            let program = new_program(size, cap);
            let room = has_room(world, m.mem, blocks, size as int);
            &&& room ==> builds_empty(
                world,
                program,
                m,
                after,
                blocks,
                left,
                size as int,
                cap as int,
            )
            &&& !room ==> ends_in(world, program, 0, m, Outcome::Trapped(after))
        }),
{
    let program = new_program(size, cap);
    let run = Run { world, program, start: 0, before: m };
    let top = m.regs[Rsp] as int;
    lemma_begin(run);
    lemma_alu_imm8(run, 0, m, Alu::Sub, Rsp, 40);
    let m1 = operated(m, Alu::Sub, Rsp, 40);
    assert(m1.regs[Rsp] == top - 40);
    lemma_set_d(run, 1, m1, Rcx, size);
    let calling = m1.set(Rcx, size as u64);
    lemma_call(run, 2, calling, Symbol::HeapAlloc);
    lemma_at_the_call(world, m, calling, blocks, 48, size as int);
    let (out, left) = lemma_alloc_call(world, program, 3, calling, blocks);
    if has_room(world, m.mem, blocks, size as int) {
        let payload = out.regs[Rax];
        let run2 = Run { world, program, start: 3, before: out };
        lemma_begin(run2);
        assert(out.address(world, at_d(Rax, 0)) == payload);
        lemma_store_imm(run2, 3, out, at_d(Rax, 0), 0);
        let m4 = out.store(Width::Quad, payload as int, 0);
        assert(m4.address(world, at_d(Rax, 8)) == payload + 8);
        lemma_store_imm(run2, 4, m4, at_d(Rax, 8), cap);
        let m5 = m4.store(Width::Quad, payload + 8, cap as int);
        lemma_alu_imm8(run2, 5, m5, Alu::Add, Rsp, 40);
        let m6 = operated(m5, Alu::Add, Rsp, 40);
        lemma_ret(run2, 6, m6);
        let after = m6.set(Rsp, wrap(m6.regs[Rsp] + 8));
        law_ends_alone(world, program, 3, out, Outcome::Returned(after));
        law_call(
            world,
            program,
            0,
            m,
            Symbol::HeapAlloc,
            3,
            calling,
            out,
            Outcome::Returned(after),
        );
        law_word_reads_back(out.mem, payload as int, 0);
        law_word_reads_back(m4.mem, payload + 8, cap as u64);
        law_word_keeps_others(m4.mem, payload + 8, cap as u64, payload as int);
        assert forall|p: int| p < payload || payload + size <= p implies #[trigger] (after.mem)(p)
            == (out.mem)(p) by {
            law_word_keeps_bytes(out.mem, payload as int, 0, p);
            law_word_keeps_bytes(m4.mem, payload + 8, cap as u64, p);
        }
        lemma_built(world, m, calling, out, after.mem, blocks, left, size as int, 48);
        (after, left)
    } else {
        law_call_traps(world, program, 0, m, Symbol::HeapAlloc, 3, calling, out);
        (out, left)
    }
}

/// A new list is empty, with the initial capacity; without room for it the routine traps.
pub proof fn law_list_new(world: World, m: Machine, blocks: Seq<u64>) -> (end: (Machine, Seq<u64>))
    requires
        can_build(world, m, blocks, 48),
    ensures
        ({
            let (after, left) = end;
            let room = has_room(world, m.mem, blocks, LIST_NEW_SIZE as int);
            &&& room ==> builds_empty(
                world,
                list_new_program(),
                m,
                after,
                blocks,
                left,
                LIST_NEW_SIZE as int,
                LIST_INITIAL_CAP as int,
            )
            &&& !room ==> ends_in(world, list_new_program(), 0, m, Outcome::Trapped(after))
        }),
{
    assert(list_new_program() =~= new_program(LIST_NEW_SIZE, LIST_INITIAL_CAP));
    lemma_new(world, LIST_NEW_SIZE, LIST_INITIAL_CAP, m, blocks)
}

/// A new map is empty, with the initial capacity; without room for it the routine traps.
pub proof fn law_map_new(world: World, m: Machine, blocks: Seq<u64>) -> (end: (Machine, Seq<u64>))
    requires
        can_build(world, m, blocks, 48),
    ensures
        ({
            let (after, left) = end;
            let room = has_room(world, m.mem, blocks, MAP_NEW_SIZE as int);
            &&& room ==> builds_empty(
                world,
                map_new_program(),
                m,
                after,
                blocks,
                left,
                MAP_NEW_SIZE as int,
                MAP_INITIAL_CAP as int,
            )
            &&& !room ==> ends_in(world, map_new_program(), 0, m, Outcome::Trapped(after))
        }),
{
    assert(map_new_program() =~= new_program(MAP_NEW_SIZE, MAP_INITIAL_CAP));
    lemma_new(world, MAP_NEW_SIZE, MAP_INITIAL_CAP, m, blocks)
}

// Copying words

/// Where the `i`-th word behind `base` lies.
pub open spec fn item(base: int, i: int) -> int {
    base + 8 * i
}

/// Whether the `n` words behind `to` are those that lay behind `from`.
pub open spec fn words_copied(
    before: spec_fn(int) -> u8,
    after: spec_fn(int) -> u8,
    from: int,
    to: int,
    n: int,
) -> bool {
    forall|i: int|
        0 <= i < n ==> word_at(after, #[trigger] item(to, i)) == word_at(before, item(from, i))
}

/// The loop that copies words, after `j` of them.
proof fn lemma_copy_from(
    run: Run,
    pc: int,
    off: int,
    source: Mem,
    dest: Mem,
    m0: Machine,
    m: Machine,
    j: int,
) -> (after: Machine)
    requires
        0 <= pc,
        pc + 6 <= run.program.len(),
        run.program[pc] == alu(Alu::Cmp, Rax, Rbx),
        run.program[pc + 1] == jcc(Ge, 5),
        run.program[pc + 2] == load(R10, source),
        run.program[pc + 3] == store(dest, R10),
        run.program[pc + 4] == unary(Unary::Inc, Rax),
        run.program[pc + 5] == jmp_back(5),
        (off == 16 && source == index8_d(Rsi, Rax, 16) && dest == index8_d(Rdi, Rax, 16)) || (off
            == 0 && source == index8(Rsi, Rax) && dest == index8(Rdi, Rax)),
        run.at(pc, m),
        m.regs[Rax] == j,
        forall|reg: Reg| reg != Rax && reg != R10 ==> #[trigger] m.regs[reg] == m0.regs[reg],
        ({
            let n = m0.regs[Rbx];
            let from = m0.regs[Rsi] + off;
            let to = m0.regs[Rdi] + off;
            &&& n <= i64::MAX
            &&& 0 <= j <= n
            &&& from + 8 * n < word_span()
            &&& to + 8 * n < word_span()
            &&& spans_apart(from, 8 * n, to, 8 * n)
            &&& kept(m0.mem, m.mem, to, to + 8 * j)
            &&& words_copied(m0.mem, m.mem, from, to, j)
        }),
    ensures
        run.at(pc + 6, after),
        forall|reg: Reg| reg != Rax && reg != R10 ==> #[trigger] after.regs[reg] == m0.regs[reg],
        ({
            let n = m0.regs[Rbx];
            let from = m0.regs[Rsi] + off;
            let to = m0.regs[Rdi] + off;
            &&& kept(m0.mem, after.mem, to, to + 8 * n)
            &&& words_copied(m0.mem, after.mem, from, to, n as int)
        }),
    decreases m0.regs[Rbx] - j,
{
    let n = m0.regs[Rbx];
    let from = m0.regs[Rsi] + off;
    let to = m0.regs[Rdi] + off;
    assert(m.regs[Rbx] == n && m.regs[Rsi] == m0.regs[Rsi] && m.regs[Rdi] == m0.regs[Rdi]);
    lemma_alu(run, pc, m, Alu::Cmp, Rax, Rbx);
    let m1 = operated(m, Alu::Cmp, Rax, n);
    law_comparisons_order(j as u64, n);
    lemma_jcc(run, pc + 1, m1, Ge, false, Hop::Forward(5));
    if j >= n {
        m1
    } else {
        let a = item(from, j);
        let b = item(to, j);
        assert(m1.address(run.world, source) == a);
        lemma_load(run, pc + 2, m1, R10, source);
        let v = word_at(m1.mem, a);
        law_kept_bytes_keep_words(m0.mem, m.mem, to, to + 8 * j, a);
        assert(v == word_at(m0.mem, a));
        let m2 = m1.set(R10, v);
        assert(m2.address(run.world, dest) == b);
        lemma_store(run, pc + 3, m2, dest, R10);
        let m3 = m2.store(Width::Quad, b, v as int);
        let m4 = lemma_inc(run, pc + 4, m3, Rax);
        lemma_jmp(run, pc + 5, m4, false, Hop::Back(5));
        assert forall|p: int| p < to || to + 8 * (j + 1) <= p implies #[trigger] (m4.mem)(p) == (
        m0.mem)(p) by {
            law_word_keeps_bytes(m2.mem, b, v, p);
        }
        law_word_reads_back(m2.mem, b, v);
        assert forall|i: int| 0 <= i < j + 1 implies word_at(m4.mem, #[trigger] item(to, i))
            == word_at(m0.mem, item(from, i)) by {
            if i < j {
                law_word_keeps_others(m2.mem, b, v, item(to, i));
            }
        }
        lemma_copy_from(run, pc, off, source, dest, m0, m4, j + 1)
    }
}

// The frame of a copying routine

/// The registers that the copying routines save.
pub open spec fn copy_saves() -> Seq<Reg> {
    seq![Rsi, Rdi, Rbx]
}

/// What the copying routines start with.
pub open spec fn copy_head() -> Seq<Insn> {
    frame_head(copy_saves(), 40)
}

/// What the copying routines end with.
pub open spec fn copy_tail() -> Seq<Insn> {
    frame_tail(copy_saves(), 40)
}

// Copying lists and maps

/// How many words `n` entries have: one each in a list, a key and a value each in a map.
pub open spec fn words_of(wide: bool, n: int) -> int {
    if wide {
        2 * n
    } else {
        n
    }
}

/// The shift from entries to bytes.
pub open spec fn entry_shift(wide: bool) -> u8 {
    if wide {
        4
    } else {
        3
    }
}

/// The instruction that turns entries into words, where an entry has two.
pub open spec fn widening(wide: bool) -> Seq<Insn> {
    if wide {
        seq![shift_one(Shift::Shl, Rbx)]
    } else {
        seq![]
    }
}

/// The program that copies a list, or a map when `wide`.
pub open spec fn copy_program(wide: bool) -> Seq<Insn> {
    copy_head() + seq![
        mov(Rsi, Rcx),
        load(Rcx, at_d(Rsi, 8)),
        shift(Shift::Shl, Rcx, entry_shift(wide)),
        alu_imm32(Alu::Add, Rcx, 16),
        call(Symbol::HeapAlloc),
        mov(Rdi, Rax),
        load(R10, at_d(Rsi, 0)),
        store(at_d(Rdi, 0), R10),
        load(R10, at_d(Rsi, 8)),
        store(at_d(Rdi, 8), R10),
        load(Rbx, at_d(Rsi, 0)),
    ] + widening(wide) + word_copy_loop_program() + seq![mov(Rax, Rdi)] + copy_tail()
}

/// The payload bytes of a list or map of capacity `cap`.
pub open spec fn payload_size(wide: bool, cap: int) -> int {
    16 + 8 * words_of(wide, cap)
}

/// The length of a list or map.
pub open spec fn len_at(mem: spec_fn(int) -> u8, at: u64) -> u64 {
    word_at(mem, at as int)
}

/// The capacity of a list or map.
pub open spec fn cap_at(mem: spec_fn(int) -> u8, at: u64) -> u64 {
    word_at(mem, at + 8)
}

/// Whether a list or map can be copied: it is one, it lies apart from the stack and from the
/// allocator's memory, and its size can be said.
pub open spec fn can_copy(world: World, m: Machine, blocks: Seq<u64>, wide: bool,
    cap: int) -> bool {
    let src = m.regs[Rcx];
    let len = len_at(m.mem, src);
    &&& can_build(world, m, blocks, 72)
    &&& len <= cap
    &&& payload_size(wide, cap) <= u64::MAX / 2
    &&& span_safe(world, m, blocks, src as int, payload_size(wide, len as int), 72)
}

/// Whether a routine left a fresh block of capacity `cap` with the entries of the one it was
/// given.
pub open spec fn copies(
    world: World,
    program: Seq<Insn>,
    m: Machine,
    after: Machine,
    blocks: Seq<u64>,
    left: Seq<u64>,
    wide: bool,
    cap: int,
) -> bool {
    let src = m.regs[Rcx];
    let dst = after.regs[Rax];
    let len = len_at(m.mem, src);
    &&& ends_in(world, program, 0, m, Outcome::Returned(after))
    &&& came_back(m, after)
    &&& builds(world, m, after.mem, blocks, left, payload_size(wide, cap), dst, 72)
    &&& len_at(after.mem, dst) == len
    &&& cap_at(after.mem, dst) == cap
    &&& words_copied(m.mem, after.mem, src + 16, dst + 16, words_of(wide, len as int))
}

/// Copying the entries, from behind the two header words on.
#[verifier::rlimit(40)]
proof fn lemma_copy_entries(
    run: Run,
    pc: int,
    wide: bool,
    m: Machine,
    calling: Machine,
    out: Machine,
    now: Machine,
    blocks: Seq<u64>,
    left: Seq<u64>,
    cap: int,
) -> (after: Machine)
    requires
        can_copy(run.world, m, blocks, wide, cap),
        part_of(widening(wide) + word_copy_loop_program(), run.program, pc),
        calling.regs[Rsp] == m.regs[Rsp] - 64,
        kept(m.mem, calling.mem, m.regs[Rsp] - 72, m.regs[Rsp] as int),
        saved(calling.mem, m.regs[Rsp] as int, copy_saves(), m.regs),
        allocated(run.world, calling, out, blocks, left, payload_size(wide, cap)),
        run.at(pc, now),
        now.regs[Rsp] == m.regs[Rsp] - 64,
        now.regs[Rsi] == m.regs[Rcx],
        now.regs[Rdi] == out.regs[Rax],
        now.regs[Rbx] == len_at(m.mem, m.regs[Rcx]),
        now.mem == with_word(
            with_word(out.mem, out.regs[Rax] as int, len_at(m.mem, m.regs[Rcx])),
            out.regs[Rax] + 8,
            cap as u64,
        ),
        forall|reg: Reg|
            !volatile(reg) && reg != Rsp && reg != Rsi && reg != Rdi && reg != Rbx
                ==> #[trigger] now.regs[reg] == m.regs[reg],
    ensures
        run.at(pc + widening(wide).len() + 7, after),
        after.regs[Rsp] == m.regs[Rsp] - 64,
        after.regs[Rdi] == out.regs[Rax],
        saved(after.mem, m.regs[Rsp] as int, copy_saves(), m.regs),
        forall|reg: Reg|
            !volatile(reg) && reg != Rsp && reg != Rsi && reg != Rdi && reg != Rbx
                ==> #[trigger] after.regs[reg] == m.regs[reg],
        builds(
            run.world,
            m,
            after.mem,
            blocks,
            left,
            payload_size(wide, cap),
            out.regs[Rax],
            72,
        ),
        len_at(after.mem, out.regs[Rax]) == len_at(m.mem, m.regs[Rcx]),
        cap_at(after.mem, out.regs[Rax]) == cap,
        words_copied(
            m.mem,
            after.mem,
            m.regs[Rcx] + 16,
            out.regs[Rax] + 16,
            words_of(wide, len_at(m.mem, m.regs[Rcx]) as int),
        ),
{
    let world = run.world;
    let part = widening(wide) + word_copy_loop_program();
    let w = widening(wide).len() as int;
    let looping = word_copy_loop_program();
    let src = m.regs[Rcx];
    let dst = out.regs[Rax];
    let top = m.regs[Rsp] as int;
    let len = len_at(m.mem, src);
    let n = words_of(wide, len as int);
    let size = payload_size(wide, cap);
    let m1 = if wide {
        assert(run.program[pc] == part[0]);
        lemma_powers();
        lemma_shl(run, pc, now, Rbx, 1, 2)
    } else {
        now
    };
    assert(m1.regs[Rbx] == n);
    assert forall|i: int| 0 <= i < 7 implies #[trigger] looping[i] == run.program[pc + w + i] by {
        assert(part[w + i] == looping[i]);
    }
    assert(run.program[pc + w] == looping[0]);
    let m2 = lemma_zero(run, pc + w, m1, Rax);
    lemma_span_stays(
        world,
        m,
        calling,
        out,
        blocks,
        left,
        size,
        72,
        src as int,
        payload_size(wide, len as int),
    );
    assert(run.program[pc + w + 1] == looping[1]);
    assert(run.program[pc + w + 2] == looping[2]);
    assert(run.program[pc + w + 3] == looping[3]);
    assert(run.program[pc + w + 4] == looping[4]);
    assert(run.program[pc + w + 5] == looping[5]);
    assert(run.program[pc + w + 6] == looping[6]);
    let first = with_word(out.mem, dst as int, len);
    assert forall|p: int| p < dst || dst + 16 <= p implies #[trigger] (now.mem)(p) == (out.mem)(
        p,
    ) by {
        law_word_keeps_bytes(out.mem, dst as int, len, p);
        law_word_keeps_bytes(first, dst + 8, cap as u64, p);
    }
    let after = lemma_copy_from(
        run,
        pc + w + 1,
        16,
        index8_d(Rsi, Rax, 16),
        index8_d(Rdi, Rax, 16),
        m2,
        m2,
        0,
    );
    law_word_reads_back(out.mem, dst as int, len);
    law_word_keeps_others(first, dst + 8, cap as u64, dst as int);
    law_word_reads_back(first, dst + 8, cap as u64);
    law_kept_bytes_keep_words(m2.mem, after.mem, dst + 16, dst + 16 + 8 * n, dst as int);
    law_kept_bytes_keep_words(m2.mem, after.mem, dst + 16, dst + 16 + 8 * n, dst + 8);
    assert forall|p: int| p < dst || dst + size <= p implies #[trigger] (after.mem)(p) == (
    out.mem)(p) by {
        assert((after.mem)(p) == (m2.mem)(p));
        assert((now.mem)(p) == (out.mem)(p));
    }
    lemma_built(world, m, calling, out, after.mem, blocks, left, size, 72);
    assert forall|i: int| 0 <= i < n implies word_at(after.mem, #[trigger] item(dst + 16, i))
        == word_at(m.mem, item(src + 16, i)) by {
        let a = item(src + 16, i);
        assert forall|p: int| a <= p < a + 8 implies #[trigger] (now.mem)(p) == (m.mem)(p) by {
            assert((now.mem)(p) == (out.mem)(p));
            assert((out.mem)(p) == (m.mem)(p));
        }
        law_word_of_bytes(m2.mem, m.mem, a);
    }
    assert forall|p: int| top - 24 <= p < top implies #[trigger] (after.mem)(p) == (calling.mem)(
        p,
    ) by {
        assert((after.mem)(p) == (out.mem)(p));
        assert((out.mem)(p) == (calling.mem)(p));
    }
    lemma_saved_stays(calling.mem, after.mem, top, copy_saves(), m.regs);
    assert forall|reg: Reg|
        !volatile(reg) && reg != Rsp && reg != Rsi && reg != Rdi && reg != Rbx
        implies #[trigger] after.regs[reg] == m.regs[reg] by {
        assert(after.regs[reg] == m2.regs[reg]);
        assert(m2.regs[reg] == now.regs[reg]);
    }
    after
}

/// A copy is a fresh block with the same length, capacity and entries; the source stays as
/// it is, and without room the routine traps.
#[verifier::rlimit(40)]
proof fn lemma_copy(world: World, wide: bool, m: Machine, blocks: Seq<u64>) -> (end: (
    Machine,
    Seq<u64>,
))
    requires
        can_copy(world, m, blocks, wide, cap_at(m.mem, m.regs[Rcx]) as int),
    ensures
        ({
            let (after, left) = end;
            let cap = cap_at(m.mem, m.regs[Rcx]) as int;
            let room = has_room(world, m.mem, blocks, payload_size(wide, cap));
            &&& room ==> copies(
                world,
                copy_program(wide),
                m,
                after,
                blocks,
                left,
                wide,
                cap,
            )
            &&& !room ==> ends_in(world, copy_program(wide), 0, m, Outcome::Trapped(after))
        }),
{
    let program = copy_program(wide);
    let run = Run { world, program, start: 0, before: m };
    let w = widening(wide).len() as int;
    let src = m.regs[Rcx];
    let top = m.regs[Rsp] as int;
    let len = len_at(m.mem, src);
    let cap = cap_at(m.mem, src);
    let size = payload_size(wide, cap as int);
    assert(program.len() == 15 + w + 7 + 1 + 5);
    assert(part_of(copy_head(), program, 0));
    let m1 = lemma_frame_head(run, m, copy_saves(), 40);
    law_kept_bytes_keep_words(m.mem, m1.mem, top - 72, top, src as int);
    law_kept_bytes_keep_words(m.mem, m1.mem, top - 72, top, src + 8);
    lemma_mov(run, 4, m1, Rsi, Rcx);
    let m2 = m1.set(Rsi, src);
    assert(m2.address(world, at_d(Rsi, 8)) == src + 8);
    lemma_load(run, 5, m2, Rcx, at_d(Rsi, 8));
    let m3 = m2.set(Rcx, cap);
    lemma_powers();
    let m4 = if wide {
        lemma_shl(run, 6, m3, Rcx, 4, 16)
    } else {
        lemma_shl(run, 6, m3, Rcx, 3, 8)
    };
    assert(m4.regs[Rcx] == 8 * words_of(wide, cap as int));
    lemma_alu_imm32(run, 7, m4, Alu::Add, Rcx, 16);
    let calling = operated(m4, Alu::Add, Rcx, 16);
    assert(calling.regs[Rcx] == size);
    lemma_call(run, 8, calling, Symbol::HeapAlloc);
    lemma_at_the_call(world, m, calling, blocks, 72, size);
    let (out, left) = lemma_alloc_call(world, program, 9, calling, blocks);
    if has_room(world, m.mem, blocks, size) {
        let dst = out.regs[Rax];
        lemma_span_stays(
            world,
            m,
            calling,
            out,
            blocks,
            left,
            size,
            72,
            src as int,
            payload_size(wide, len as int),
        );
        law_word_of_bytes(out.mem, m.mem, src as int);
        law_word_of_bytes(out.mem, m.mem, src + 8);
        let run2 = Run { world, program, start: 9, before: out };
        lemma_begin(run2);
        lemma_mov(run2, 9, out, Rdi, Rax);
        let n1 = out.set(Rdi, dst);
        assert(n1.regs[Rsi] == src);
        assert(n1.address(world, at_d(Rsi, 0)) == src);
        lemma_load(run2, 10, n1, R10, at_d(Rsi, 0));
        let n2 = n1.set(R10, len);
        assert(n2.address(world, at_d(Rdi, 0)) == dst);
        lemma_store(run2, 11, n2, at_d(Rdi, 0), R10);
        let n3 = n2.store(Width::Quad, dst as int, len as int);
        law_word_keeps_others(n2.mem, dst as int, len, src + 8);
        assert(n3.address(world, at_d(Rsi, 8)) == src + 8);
        lemma_load(run2, 12, n3, R10, at_d(Rsi, 8));
        let n4 = n3.set(R10, cap);
        assert(n4.address(world, at_d(Rdi, 8)) == dst + 8);
        lemma_store(run2, 13, n4, at_d(Rdi, 8), R10);
        let n5 = n4.store(Width::Quad, dst + 8, cap as int);
        law_word_keeps_others(n2.mem, dst as int, len, src as int);
        law_word_keeps_others(n4.mem, dst + 8, cap, src as int);
        assert(n5.address(world, at_d(Rsi, 0)) == src);
        lemma_load(run2, 14, n5, Rbx, at_d(Rsi, 0));
        let n6 = n5.set(Rbx, len);
        let entries = widening(wide) + word_copy_loop_program();
        assert(part_of(entries, program, 15)) by {
            assert forall|i: int| 0 <= i < entries.len() implies #[trigger] entries[i] == program[15
                + i] by {}
        }
        let n7 = lemma_copy_entries(
            run2,
            15,
            wide,
            m,
            calling,
            out,
            n6,
            blocks,
            left,
            cap as int,
        );
        let pc = 15 + w + 7;
        lemma_mov(run2, pc, n7, Rax, Rdi);
        let n8 = n7.set(Rax, dst);
        assert(part_of(copy_tail(), program, pc + 1));
        assert(copy_saves()[0] == Rsi && copy_saves()[1] == Rdi && copy_saves()[2] == Rbx);
        let after = lemma_frame_tail(run2, pc + 1, m, n8, copy_saves(), 40);
        law_ends_alone(world, program, 9, out, Outcome::Returned(after));
        law_call(
            world,
            program,
            0,
            m,
            Symbol::HeapAlloc,
            9,
            calling,
            out,
            Outcome::Returned(after),
        );
        (after, left)
    } else {
        law_call_traps(world, program, 0, m, Symbol::HeapAlloc, 9, calling, out);
        (out, left)
    }
}

/// Copying a list gives a fresh list of the same length, capacity and elements; the source
/// stays as it is, and without room the routine traps.
pub proof fn law_list_copy(world: World, m: Machine, blocks: Seq<u64>) -> (end: (Machine, Seq<u64>))
    requires
        can_copy(world, m, blocks, false, cap_at(m.mem, m.regs[Rcx]) as int),
    ensures
        ({
            let (after, left) = end;
            let cap = cap_at(m.mem, m.regs[Rcx]) as int;
            let room = has_room(world, m.mem, blocks, payload_size(false, cap));
            &&& room ==> copies(world, list_copy_program(), m, after, blocks, left, false, cap)
            &&& !room ==> ends_in(world, list_copy_program(), 0, m, Outcome::Trapped(after))
        }),
{
    assert(list_copy_program() =~= copy_program(false));
    lemma_copy(world, false, m, blocks)
}

/// Copying a map gives a fresh map of the same length, capacity and entries; the source stays
/// as it is, and without room the routine traps.
pub proof fn law_map_copy(world: World, m: Machine, blocks: Seq<u64>) -> (end: (Machine, Seq<u64>))
    requires
        can_copy(world, m, blocks, true, cap_at(m.mem, m.regs[Rcx]) as int),
    ensures
        ({
            let (after, left) = end;
            let cap = cap_at(m.mem, m.regs[Rcx]) as int;
            let room = has_room(world, m.mem, blocks, payload_size(true, cap));
            &&& room ==> copies(world, map_copy_program(), m, after, blocks, left, true, cap)
            &&& !room ==> ends_in(world, map_copy_program(), 0, m, Outcome::Trapped(after))
        }),
{
    assert(map_copy_program() =~= copy_program(true));
    lemma_copy(world, true, m, blocks)
}

// Growing

/// The capacity after growing: twice as much, or the initial one.
pub open spec fn grown(cap: int) -> int {
    if cap == 0 {
        4
    } else {
        2 * cap
    }
}

/// The program that grows a list, or a map when `wide`.
pub open spec fn grow_program(wide: bool) -> Seq<Insn> {
    copy_head() + seq![
        mov(Rsi, Rcx),
        load(Rax, at_d(Rsi, 0)),
        load(Rdx, at_d(Rsi, 8)),
        alu(Alu::Cmp, Rax, Rdx),
        jcc(
            L,
            if wide {
                26
            } else {
                25
            },
        ),
        mov(Rbx, Rdx),
        test_rr(Rbx, Rbx),
        jcc(Ne, 3),
        set_d(Rbx, 4),
        jmp(2),
        shift_one(Shift::Shl, Rbx),
        mov(Rcx, Rbx),
        shift(Shift::Shl, Rcx, entry_shift(wide)),
        alu_imm32(Alu::Add, Rcx, 16),
        call(Symbol::HeapAlloc),
        mov(Rdi, Rax),
        load(R10, at_d(Rsi, 0)),
        store(at_d(Rdi, 0), R10),
        store(at_d(Rdi, 8), Rbx),
        load(Rbx, at_d(Rsi, 0)),
    ] + widening(wide) + word_copy_loop_program() + seq![
        mov(Rax, Rdi),
        jmp(2),
        mov(Rax, Rsi),
    ] + copy_tail()
}

/// Whether a list or map can be grown.
pub open spec fn can_grow(world: World, m: Machine, blocks: Seq<u64>, wide: bool) -> bool {
    let src = m.regs[Rcx];
    let len = len_at(m.mem, src);
    let cap = cap_at(m.mem, src);
    &&& can_build(world, m, blocks, 72)
    &&& len <= cap <= i64::MAX
    &&& len == cap ==> payload_size(wide, grown(cap as int)) <= u64::MAX / 2
    &&& span_safe(world, m, blocks, src as int, payload_size(wide, len as int), 72)
}

/// Whether a routine gave back what it was given, with nothing changed but below the stack.
pub open spec fn gives_back(world: World, program: Seq<Insn>, m: Machine, after: Machine) -> bool {
    &&& ends_in(world, program, 0, m, Outcome::Returned(after))
    &&& came_back(m, after)
    &&& after.regs[Rax] == m.regs[Rcx]
    &&& kept(m.mem, after.mem, m.regs[Rsp] - 72, m.regs[Rsp] as int)
}

/// The decision and the new capacity: up to the call.
proof fn lemma_grow_call(world: World, wide: bool, m: Machine,
    blocks: Seq<u64>) -> (calling: Machine)
    requires
        can_grow(world, m, blocks, wide),
        len_at(m.mem, m.regs[Rcx]) == cap_at(m.mem, m.regs[Rcx]),
    ensures
        comes_to(
            world,
            grow_program(wide),
            0,
            m,
            Outcome::Called(Symbol::HeapAlloc, 19, calling),
        ),
        ({
            let cap = grown(cap_at(m.mem, m.regs[Rcx]) as int);
            &&& calling.regs[Rcx] == payload_size(wide, cap)
            &&& calling.regs[Rbx] == cap
            &&& calling.regs[Rsi] == m.regs[Rcx]
            &&& calling.regs[Rsp] == m.regs[Rsp] - 64
            &&& kept(m.mem, calling.mem, m.regs[Rsp] - 72, m.regs[Rsp] as int)
            &&& saved(calling.mem, m.regs[Rsp] as int, copy_saves(), m.regs)
            &&& forall|reg: Reg|
                !volatile(reg) && reg != Rsp && reg != Rsi && reg != Rdi && reg != Rbx
                    ==> #[trigger] calling.regs[reg] == m.regs[reg]
        }),
{
    let program = grow_program(wide);
    let run = Run { world, program, start: 0, before: m };
    let src = m.regs[Rcx];
    let top = m.regs[Rsp] as int;
    let len = len_at(m.mem, src);
    let cap = cap_at(m.mem, src);
    let more = grown(cap as int);
    assert(part_of(copy_head(), program, 0));
    let m1 = lemma_frame_head(run, m, copy_saves(), 40);
    law_kept_bytes_keep_words(m.mem, m1.mem, top - 72, top, src as int);
    law_kept_bytes_keep_words(m.mem, m1.mem, top - 72, top, src + 8);
    lemma_mov(run, 4, m1, Rsi, Rcx);
    let m2 = m1.set(Rsi, src);
    assert(m2.address(world, at_d(Rsi, 0)) == src);
    lemma_load(run, 5, m2, Rax, at_d(Rsi, 0));
    let m3 = m2.set(Rax, len);
    assert(m3.address(world, at_d(Rsi, 8)) == src + 8);
    lemma_load(run, 6, m3, Rdx, at_d(Rsi, 8));
    let m4 = m3.set(Rdx, cap);
    lemma_alu(run, 7, m4, Alu::Cmp, Rax, Rdx);
    let m5 = operated(m4, Alu::Cmp, Rax, cap);
    law_comparisons_order(len, cap);
    lemma_jcc(
        run,
        8,
        m5,
        L,
        false,
        Hop::Forward(
            if wide {
                26
            } else {
                25
            },
        ),
    );
    lemma_mov(run, 9, m5, Rbx, Rdx);
    let m6 = m5.set(Rbx, cap);
    lemma_test(run, 10, m6, Rbx);
    let m7 = m6.flagged(flags_of_bits(Width::Quad, cap as int));
    lemma_jcc(run, 11, m7, Ne, false, Hop::Forward(3));
    lemma_powers();
    let m8 = if cap == 0 {
        lemma_set_d(run, 12, m7, Rbx, 4);
        let n1 = m7.set(Rbx, 4);
        lemma_jmp(run, 13, n1, false, Hop::Forward(2));
        n1
    } else {
        lemma_shl(run, 14, m7, Rbx, 1, 2)
    };
    assert(m8.regs[Rbx] == more);
    lemma_mov(run, 15, m8, Rcx, Rbx);
    let m9 = m8.set(Rcx, more as u64);
    let m10 = if wide {
        lemma_shl(run, 16, m9, Rcx, 4, 16)
    } else {
        lemma_shl(run, 16, m9, Rcx, 3, 8)
    };
    assert(m10.regs[Rcx] == 8 * words_of(wide, more));
    lemma_alu_imm32(run, 17, m10, Alu::Add, Rcx, 16);
    let calling = operated(m10, Alu::Add, Rcx, 16);
    lemma_call(run, 18, calling, Symbol::HeapAlloc);
    calling
}

/// Room that is left: the routine gives back what it was given.
proof fn lemma_grow_same(world: World, wide: bool, m: Machine, blocks: Seq<u64>) -> (after: Machine)
    requires
        can_grow(world, m, blocks, wide),
        len_at(m.mem, m.regs[Rcx]) < cap_at(m.mem, m.regs[Rcx]),
    ensures
        gives_back(world, grow_program(wide), m, after),
{
    let program = grow_program(wide);
    let run = Run { world, program, start: 0, before: m };
    let w = widening(wide).len() as int;
    let src = m.regs[Rcx];
    let top = m.regs[Rsp] as int;
    let len = len_at(m.mem, src);
    let cap = cap_at(m.mem, src);
    assert(program.len() == 24 + w + 7 + 3 + 5);
    assert(part_of(copy_head(), program, 0));
    let m1 = lemma_frame_head(run, m, copy_saves(), 40);
    law_kept_bytes_keep_words(m.mem, m1.mem, top - 72, top, src as int);
    law_kept_bytes_keep_words(m.mem, m1.mem, top - 72, top, src + 8);
    lemma_mov(run, 4, m1, Rsi, Rcx);
    let m2 = m1.set(Rsi, src);
    assert(m2.address(world, at_d(Rsi, 0)) == src);
    lemma_load(run, 5, m2, Rax, at_d(Rsi, 0));
    let m3 = m2.set(Rax, len);
    assert(m3.address(world, at_d(Rsi, 8)) == src + 8);
    lemma_load(run, 6, m3, Rdx, at_d(Rsi, 8));
    let m4 = m3.set(Rdx, cap);
    lemma_alu(run, 7, m4, Alu::Cmp, Rax, Rdx);
    let m5 = operated(m4, Alu::Cmp, Rax, cap);
    law_comparisons_order(len, cap);
    lemma_jcc(
        run,
        8,
        m5,
        L,
        false,
        Hop::Forward(
            if wide {
                26
            } else {
                25
            },
        ),
    );
    let pc = 33 + w;
    assert(program[pc] == mov(Rax, Rsi));
    lemma_mov(run, pc, m5, Rax, Rsi);
    let m6 = m5.set(Rax, src);
    assert(part_of(copy_tail(), program, pc + 1));
    assert(copy_saves()[0] == Rsi && copy_saves()[1] == Rdi && copy_saves()[2] == Rbx);
    let after = lemma_frame_tail(run, pc + 1, m, m6, copy_saves(), 40);
    law_ends_alone(world, program, 0, m, Outcome::Returned(after));
    after
}

/// Growing behind the decision.
#[verifier::rlimit(40)]
proof fn lemma_grow(world: World, wide: bool, m: Machine, blocks: Seq<u64>) -> (end: (
    Machine,
    Seq<u64>,
))
    requires
        can_grow(world, m, blocks, wide),
        len_at(m.mem, m.regs[Rcx]) == cap_at(m.mem, m.regs[Rcx]),
    ensures
        ({
            let (after, left) = end;
            let cap = grown(cap_at(m.mem, m.regs[Rcx]) as int);
            let room = has_room(world, m.mem, blocks, payload_size(wide, cap));
            &&& room ==> copies(world, grow_program(wide), m, after, blocks, left, wide, cap)
            &&& !room ==> ends_in(world, grow_program(wide), 0, m, Outcome::Trapped(after))
        }),
{
    let program = grow_program(wide);
    let w = widening(wide).len() as int;
    let src = m.regs[Rcx];
    let len = len_at(m.mem, src);
    let cap = grown(cap_at(m.mem, src) as int);
    let size = payload_size(wide, cap);
    assert(program.len() == 24 + w + 7 + 3 + 5);
    let calling = lemma_grow_call(world, wide, m, blocks);
    lemma_at_the_call(world, m, calling, blocks, 72, size);
    let (out, left) = lemma_alloc_call(world, program, 19, calling, blocks);
    if has_room(world, m.mem, blocks, size) {
        let dst = out.regs[Rax];
        lemma_span_stays(
            world,
            m,
            calling,
            out,
            blocks,
            left,
            size,
            72,
            src as int,
            payload_size(wide, len as int),
        );
        law_word_of_bytes(out.mem, m.mem, src as int);
        let run2 = Run { world, program, start: 19, before: out };
        lemma_begin(run2);
        lemma_mov(run2, 19, out, Rdi, Rax);
        let n1 = out.set(Rdi, dst);
        assert(n1.regs[Rsi] == src && n1.regs[Rbx] == cap);
        assert(n1.address(world, at_d(Rsi, 0)) == src);
        lemma_load(run2, 20, n1, R10, at_d(Rsi, 0));
        let n2 = n1.set(R10, len);
        assert(n2.address(world, at_d(Rdi, 0)) == dst);
        lemma_store(run2, 21, n2, at_d(Rdi, 0), R10);
        let n3 = n2.store(Width::Quad, dst as int, len as int);
        assert(n3.address(world, at_d(Rdi, 8)) == dst + 8);
        lemma_store(run2, 22, n3, at_d(Rdi, 8), Rbx);
        let n4 = n3.store(Width::Quad, dst + 8, cap);
        law_word_keeps_others(n2.mem, dst as int, len, src as int);
        law_word_keeps_others(n3.mem, dst + 8, cap as u64, src as int);
        assert(n4.address(world, at_d(Rsi, 0)) == src);
        lemma_load(run2, 23, n4, Rbx, at_d(Rsi, 0));
        let n5 = n4.set(Rbx, len);
        let entries = widening(wide) + word_copy_loop_program();
        assert(part_of(entries, program, 24)) by {
            assert forall|i: int| 0 <= i < entries.len() implies #[trigger] entries[i] == program[24
                + i] by {}
        }
        let n6 = lemma_copy_entries(run2, 24, wide, m, calling, out, n5, blocks, left, cap);
        let pc = 24 + w + 7;
        lemma_mov(run2, pc, n6, Rax, Rdi);
        let n7 = n6.set(Rax, dst);
        lemma_jmp(run2, pc + 1, n7, false, Hop::Forward(2));
        assert(part_of(copy_tail(), program, pc + 3));
        assert(copy_saves()[0] == Rsi && copy_saves()[1] == Rdi && copy_saves()[2] == Rbx);
        let after = lemma_frame_tail(run2, pc + 3, m, n7, copy_saves(), 40);
        law_ends_alone(world, program, 19, out, Outcome::Returned(after));
        law_call(
            world,
            program,
            0,
            m,
            Symbol::HeapAlloc,
            19,
            calling,
            out,
            Outcome::Returned(after),
        );
        (after, left)
    } else {
        law_call_traps(world, program, 0, m, Symbol::HeapAlloc, 19, calling, out);
        (out, left)
    }
}

/// Growing a list with room left gives it back unchanged; growing a full one gives a fresh
/// list of the same elements with twice the capacity, or the initial one, and leaves the old
/// one as it is. Without room for that the routine traps.
pub proof fn law_list_grow(world: World, m: Machine, blocks: Seq<u64>) -> (end: (Machine, Seq<u64>))
    requires
        can_grow(world, m, blocks, false),
    ensures
        ({
            let (after, left) = end;
            let program = list_grow_program();
            let len = len_at(m.mem, m.regs[Rcx]);
            let cap = cap_at(m.mem, m.regs[Rcx]);
            let more = grown(cap as int);
            let room = has_room(world, m.mem, blocks, payload_size(false, more));
            &&& len < cap ==> gives_back(world, program, m, after)
            &&& len == cap && room ==> copies(
                world,
                program,
                m,
                after,
                blocks,
                left,
                false,
                more,
            )
            &&& len == cap && !room ==> ends_in(world, program, 0, m, Outcome::Trapped(after))
        }),
{
    assert(list_grow_program() =~= grow_program(false));
    if len_at(m.mem, m.regs[Rcx]) < cap_at(m.mem, m.regs[Rcx]) {
        (lemma_grow_same(world, false, m, blocks), blocks)
    } else {
        lemma_grow(world, false, m, blocks)
    }
}

/// Growing a map with room left gives it back unchanged; growing a full one gives a fresh map
/// of the same entries with twice the capacity, or the initial one, and leaves the old one as
/// it is. Without room for that the routine traps.
pub proof fn law_map_grow(world: World, m: Machine, blocks: Seq<u64>) -> (end: (Machine, Seq<u64>))
    requires
        can_grow(world, m, blocks, true),
    ensures
        ({
            let (after, left) = end;
            let program = map_grow_program();
            let len = len_at(m.mem, m.regs[Rcx]);
            let cap = cap_at(m.mem, m.regs[Rcx]);
            let more = grown(cap as int);
            let room = has_room(world, m.mem, blocks, payload_size(true, more));
            &&& len < cap ==> gives_back(world, program, m, after)
            &&& len == cap && room ==> copies(
                world,
                program,
                m,
                after,
                blocks,
                left,
                true,
                more,
            )
            &&& len == cap && !room ==> ends_in(world, program, 0, m, Outcome::Trapped(after))
        }),
{
    assert(map_grow_program() =~= grow_program(true));
    if len_at(m.mem, m.regs[Rcx]) < cap_at(m.mem, m.regs[Rcx]) {
        (lemma_grow_same(world, true, m, blocks), blocks)
    } else {
        lemma_grow(world, true, m, blocks)
    }
}

// Structs

/// Copying a struct gives a fresh one with the same fields, and the same count of them before
/// its first field; the source stays as it is, and without room the routine traps.
#[verifier::rlimit(40)]
pub proof fn law_struct_copy(world: World, m: Machine, blocks: Seq<u64>) -> (end: (
    Machine,
    Seq<u64>,
))
    requires
        can_build(world, m, blocks, 72),
        8 <= m.regs[Rcx],
        ({
            let base = m.regs[Rcx] - 8;
            let n = word_at(m.mem, base);
            &&& 8 + 8 * n <= u64::MAX / 2
            &&& span_safe(world, m, blocks, base, 8 + 8 * n, 72)
        }),
    ensures
        ({
            let (after, left) = end;
            let program = struct_copy_program();
            let src = m.regs[Rcx];
            let n = word_at(m.mem, src - 8) as int;
            let dst = after.regs[Rax];
            let room = has_room(world, m.mem, blocks, 8 + 8 * n);
            &&& room ==> {
                &&& ends_in(world, program, 0, m, Outcome::Returned(after))
                &&& came_back(m, after)
                &&& 8 <= dst
                &&& builds(world, m, after.mem, blocks, left, 8 + 8 * n, (dst - 8) as u64, 72)
                &&& word_at(after.mem, dst - 8) == n
                &&& words_copied(m.mem, after.mem, src as int, dst as int, n)
            }
            &&& !room ==> ends_in(world, program, 0, m, Outcome::Trapped(after))
        }),
{
    let program = struct_copy_program();
    let run = Run { world, program, start: 0, before: m };
    let src = m.regs[Rcx];
    let base = (src - 8) as u64;
    let top = m.regs[Rsp] as int;
    let n = word_at(m.mem, base as int);
    let size = 8 + 8 * n;
    assert(program.len() == 25);
    assert(part_of(copy_head(), program, 0));
    let m1 = lemma_frame_head(run, m, copy_saves(), 40);
    law_kept_bytes_keep_words(m.mem, m1.mem, top - 72, top, base as int);
    assert(m1.address(world, below(Rcx, 8)) == base);
    lemma_lea(run, 4, m1, Rsi, below(Rcx, 8));
    let m2 = m1.set(Rsi, base);
    assert(m2.address(world, at(Rsi)) == base);
    lemma_load(run, 5, m2, Rbx, at(Rsi));
    let m3 = m2.set(Rbx, n);
    lemma_mov(run, 6, m3, Rcx, Rbx);
    let m4 = m3.set(Rcx, n);
    lemma_powers();
    let m5 = lemma_shl(run, 7, m4, Rcx, 3, 8);
    lemma_alu_imm32(run, 8, m5, Alu::Add, Rcx, 8);
    let calling = operated(m5, Alu::Add, Rcx, 8);
    assert(calling.regs[Rcx] == size);
    lemma_call(run, 9, calling, Symbol::HeapAlloc);
    lemma_at_the_call(world, m, calling, blocks, 72, size);
    let (out, left) = lemma_alloc_call(world, program, 10, calling, blocks);
    if has_room(world, m.mem, blocks, size) {
        let dst = out.regs[Rax];
        lemma_span_stays(world, m, calling, out, blocks, left, size, 72, base as int, size);
        let run2 = Run { world, program, start: 10, before: out };
        lemma_begin(run2);
        lemma_mov(run2, 10, out, Rdi, Rax);
        let n1 = out.set(Rdi, dst);
        assert(n1.regs[Rsi] == base && n1.regs[Rbx] == n);
        let n2 = lemma_inc(run2, 11, n1, Rbx);
        let n3 = lemma_zero(run2, 12, n2, Rax);
        assert(n3.regs[Rbx] == n + 1);
        let n4 = lemma_copy_from(
            run2,
            13,
            0,
            index8(Rsi, Rax),
            index8(Rdi, Rax),
            n3,
            n3,
            0,
        );
        assert(n4.regs[Rdi] == dst);
        assert(n4.address(world, at_b(Rdi, 8)) == dst + 8);
        lemma_lea(run2, 19, n4, Rax, at_b(Rdi, 8));
        let n5 = n4.set(Rax, (dst + 8) as u64);
        lemma_built(world, m, calling, out, n5.mem, blocks, left, size, 72);
        assert forall|p: int| top - 24 <= p < top implies #[trigger] (n5.mem)(p) == (calling.mem)(
            p,
        ) by {
            assert((out.mem)(p) == (calling.mem)(p));
        }
        lemma_saved_stays(calling.mem, n5.mem, top, copy_saves(), m.regs);
        assert(part_of(copy_tail(), program, 20));
        assert(copy_saves()[0] == Rsi && copy_saves()[1] == Rdi && copy_saves()[2] == Rbx);
        let after = lemma_frame_tail(run2, 20, m, n5, copy_saves(), 40);
        law_ends_alone(world, program, 10, out, Outcome::Returned(after));
        law_call(
            world,
            program,
            0,
            m,
            Symbol::HeapAlloc,
            10,
            calling,
            out,
            Outcome::Returned(after),
        );
        assert forall|i: int| 0 <= i < n + 1 implies word_at(after.mem,
            #[trigger] item(dst as int, i))
            == word_at(m.mem, item(base as int, i)) by {
            law_word_of_bytes(out.mem, m.mem, item(base as int, i));
        }
        assert(item(dst as int, 0) == dst && item(base as int, 0) == base);
        assert forall|i: int| 0 <= i < n implies word_at(after.mem, #[trigger] item(dst + 8, i))
            == word_at(m.mem, item(src as int, i)) by {
            assert(item(dst as int, i + 1) == item(dst + 8, i));
            assert(item(base as int, i + 1) == item(src as int, i));
        }
        (after, left)
    } else {
        law_call_traps(world, program, 0, m, Symbol::HeapAlloc, 10, calling, out);
        (out, left)
    }
}

// Looking up

/// Where the `i`-th key of a map lies.
pub open spec fn key_at(map: u64, i: int) -> int {
    map + 16 + 16 * i
}

/// Whether no entry before the `i`-th has this key.
pub open spec fn no_key_before(mem: spec_fn(int) -> u8, map: u64, key: u64, i: int) -> bool {
    forall|j: int| 0 <= j < i ==> word_at(mem, #[trigger] key_at(map, j)) != key
}

/// The lookup from the `i`-th entry on.
proof fn lemma_find_from(run: Run, before: Machine, m: Machine, i: int) -> (after: Machine)
    requires
        run.program == map_find_program(),
        run.start == 0,
        run.before == before,
        run.at(2, m),
        m.mem == before.mem,
        m.regs[Rax] == i,
        m.regs[R10] == len_at(before.mem, before.regs[Rcx]),
        forall|reg: Reg|
            reg != Rax && reg != R10 && reg != R11 ==> #[trigger] m.regs[reg] == before.regs[reg],
        ({
            let map = before.regs[Rcx];
            let len = len_at(before.mem, map);
            &&& map + 16 + 16 * len < word_span()
            &&& 0 <= i <= len
            &&& no_key_before(before.mem, map, before.regs[Rdx], i)
        }),
    ensures
        returns_with(run.world, map_find_program(), before, after),
        came_back(before, after),
        after.mem == before.mem,
        ({
            let map = before.regs[Rcx];
            let key = before.regs[Rdx];
            let len = len_at(before.mem, map);
            let found = after.regs[Rax] as int;
            &&& 0 <= found <= len
            &&& no_key_before(before.mem, map, key, found)
            &&& found < len ==> word_at(before.mem, key_at(map, found)) == key
        }),
    decreases len_at(before.mem, before.regs[Rcx]) - i,
{
    let map = before.regs[Rcx];
    let key = before.regs[Rdx];
    let len = len_at(before.mem, map);
    assert(run.program.len() == 14);
    lemma_alu(run, 2, m, Alu::Cmp, Rax, R10);
    let m1 = operated(m, Alu::Cmp, Rax, len);
    law_comparisons_order(i as u64, len);
    lemma_jcc(run, 3, m1, Ge, false, Hop::Forward(9));
    if i >= len {
        lemma_mov(run, 12, m1, Rax, R10);
        let m2 = m1.set(Rax, len);
        lemma_ret(run, 13, m2);
        m2.set(Rsp, wrap(m2.regs[Rsp] + 8))
    } else {
        lemma_mov(run, 4, m1, R11, Rax);
        let m2 = m1.set(R11, i as u64);
        lemma_powers();
        let m3 = lemma_shl(run, 5, m2, R11, 4, 16);
        assert(m3.regs[R11] == 16 * i);
        assert(m3.address(run.world, index_d(Rcx, R11, 16)) == key_at(map, i));
        lemma_load(run, 6, m3, R11, index_d(Rcx, R11, 16));
        let k = word_at(before.mem, key_at(map, i));
        let m4 = m3.set(R11, k);
        lemma_alu(run, 7, m4, Alu::Cmp, R11, Rdx);
        let m5 = operated(m4, Alu::Cmp, R11, key);
        law_comparisons_order(k, key);
        lemma_jcc(run, 8, m5, E, true, Hop::Forward(3));
        if k == key {
            lemma_ret(run, 11, m5);
            m5.set(Rsp, wrap(m5.regs[Rsp] + 8))
        } else {
            let m6 = lemma_inc(run, 9, m5, Rax);
            lemma_jmp(run, 10, m6, false, Hop::Back(8));
            lemma_find_from(run, before, m6, i + 1)
        }
    }
}

/// Looking up a key gives the index of the first entry that has it, and the length of the
/// map when none has.
pub proof fn law_map_find(world: World, m: Machine) -> (after: Machine)
    requires
        m.regs[Rcx] + 16 + 16 * len_at(m.mem, m.regs[Rcx]) < word_span(),
    ensures
        returns_with(world, map_find_program(), m, after),
        came_back(m, after),
        after.mem == m.mem,
        ({
            let map = m.regs[Rcx];
            let key = m.regs[Rdx];
            let len = len_at(m.mem, map);
            let found = after.regs[Rax] as int;
            &&& 0 <= found <= len
            &&& no_key_before(m.mem, map, key, found)
            &&& found < len ==> word_at(m.mem, key_at(map, found)) == key
        }),
{
    let run = Run { world, program: map_find_program(), start: 0, before: m };
    lemma_begin(run);
    assert(m.address(world, at_d(Rcx, 0)) == m.regs[Rcx]);
    lemma_load(run, 0, m, R10, at_d(Rcx, 0));
    let m1 = m.set(R10, len_at(m.mem, m.regs[Rcx]));
    let m2 = lemma_zero(run, 1, m1, Rax);
    lemma_find_from(run, m, m2, 0)
}

} // verus!
