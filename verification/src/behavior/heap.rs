//! The reference-counted heap: what allocating and releasing do to the free list.
//!
//! A block starts with its size; behind that lies its reference count, or, while it is on
//! the free list, the link to the next free block. The payload comes sixteen bytes in.

use crate::behavior::guards::law_comparisons_order;
use crate::behavior::instructions::{
    lemma_alu, lemma_alu_imm32, lemma_alu_imm8, lemma_begin, lemma_dec_mem, lemma_jcc, lemma_jmp,
    lemma_jmp_symbol, lemma_lea, lemma_load, lemma_mov, lemma_ret, lemma_store, lemma_store_imm,
    lemma_test, lemma_ud2, operated, Run,
};
use crate::machine::{
    apart, comes_to, flags_of_bits, flags_of_difference, kept, law_ends_are_unique,
    law_word_keeps_bytes, law_word_keeps_others, law_word_reads_back, word_at, word_span, wrap,
    Flags, Machine, Outcome, World,
};
use crate::mnemonics::{at, at_b, below, rip};
use crate::runtime::HEAP_REGION_SIZE;
use crate::runtime::heap::{heap_alloc_program, rc_dec_program, rc_free_program};
use crate::symbols::Symbol;
use crate::x86::{Alu, Hop, Insn, Reg, Width};
use crate::x86::Cond::{B, Be, E, Ne};
use crate::x86::Reg::{R10, R11, R8, R9, Rax, Rcx, Rdx, Rsp};
use vstd::prelude::*;

verus! {

/// Whether a register is free for a called routine to change.
pub open spec fn volatile(reg: Reg) -> bool {
    reg == Rax || reg == Rcx || reg == Rdx || reg == R8 || reg == R9 || reg == R10 || reg == R11
}

/// Whether a routine came back as the calling convention asks: the stack as before the
/// call, and no register changed that the caller counts on.
pub open spec fn came_back(before: Machine, after: Machine) -> bool {
    &&& after.regs[Rsp] == wrap(before.regs[Rsp] + 8)
    &&& forall|reg: Reg|
        !volatile(reg) && reg != Rsp ==> #[trigger] after.regs[reg] == before.regs[reg]
}

/// Whether a routine returns with state `after`.
pub open spec fn returns_with(world: World, program: Seq<Insn>, m: Machine,
    after: Machine) -> bool {
    comes_to(world, program, 0, m, Outcome::Returned(after))
}

// The free list

/// Where the link to the `k`-th free block lies.
pub open spec fn link(head: int, blocks: Seq<u64>, k: int) -> int {
    if k == 0 {
        head
    } else {
        blocks[k - 1] + 8
    }
}

/// Whether a byte lies outside the word at `a`.
pub open spec fn outside(p: int, a: int) -> bool {
    p < a || a + 8 <= p
}

/// Whether the list that starts at `head` holds exactly these blocks.
pub open spec fn lists(mem: spec_fn(int) -> u8, head: int, blocks: Seq<u64>) -> bool {
    &&& forall|k: int|
        0 <= k < blocks.len() ==> word_at(mem, #[trigger] link(head, blocks, k)) == blocks[k]
    &&& forall|k: int| 0 <= k < blocks.len() ==> #[trigger] blocks[k] != 0
    &&& word_at(mem, link(head, blocks, blocks.len() as int)) == 0
}

/// Whether the headers of the blocks and the list's head share no byte, and no block runs
/// past the top of memory.
pub open spec fn separate(head: int, blocks: Seq<u64>) -> bool {
    &&& forall|k: int| 0 <= k < blocks.len() ==> #[trigger] blocks[k] + 16 < word_span()
    &&& forall|k: int|
        0 <= k < blocks.len() ==> apart(#[trigger] blocks[k] as int, head) && apart(
            blocks[k] + 8,
            head,
        )
    &&& forall|i: int, j: int|
        0 <= i < blocks.len() && 0 <= j < blocks.len() && i != j ==> {
            &&& apart(#[trigger] blocks[i] + 8, #[trigger] blocks[j] + 8)
            &&& apart(blocks[i] as int, blocks[j] + 8)
        }
}

/// Releasing a block: in arena mode memory stays as it is; else the block goes to the front
/// of the free list, and no word changes but its link and the list's head.
pub proof fn law_rc_free(world: World, m: Machine, blocks: Seq<u64>) -> (after: Machine)
    requires
        ({
            let head = (world.place)(Symbol::HeapFreeHead) as int;
            let block = (m.regs[Rcx] - 16) as u64;
            &&& m.regs[Rcx] > 16
            &&& lists(m.mem, head, blocks)
            &&& separate(head, seq![block] + blocks)
        }),
    ensures
        returns_with(world, rc_free_program(), m, after),
        came_back(m, after),
        ({
            let head = (world.place)(Symbol::HeapFreeHead) as int;
            let mode = word_at(m.mem, (world.place)(Symbol::AllocMode) as int);
            let block = (m.regs[Rcx] - 16) as u64;
            &&& mode != 0 ==> after.mem == m.mem
            &&& mode == 0 ==> lists(after.mem, head, seq![block] + blocks)
            &&& mode == 0 ==> forall|a: int|
                apart(a, head) && apart(a, block + 8) ==> #[trigger] word_at(after.mem, a)
                    == word_at(m.mem, a)
            &&& mode == 0 ==> forall|p: int|
                outside(p, head) && outside(p, block + 8)
                    ==> #[trigger] (after.mem)(p) == (m.mem)(p)
        }),
{
    let run = Run { world, program: rc_free_program(), start: 0, before: m };
    let mode_at = (world.place)(Symbol::AllocMode) as int;
    let head = (world.place)(Symbol::HeapFreeHead);
    let mode = word_at(m.mem, mode_at);
    let m1 = m.set(Rax, mode);
    let m2 = m1.flagged(flags_of_bits(Width::Quad, mode as int));
    lemma_begin(run);
    lemma_load(run, 0, m, Rax, rip(Symbol::AllocMode));
    lemma_test(run, 1, m1, Rax);
    lemma_jcc(run, 2, m2, E, true, Hop::Forward(2));
    if mode != 0 {
        lemma_ret(run, 3, m2);
        m2.set(Rsp, wrap(m2.regs[Rsp] + 8))
    } else {
        let block = (m.regs[Rcx] - 16) as u64;
        let all = seq![block] + blocks;
        assert(all[0] == block);
        assert(m2.address(world, below(Rcx, 16)) == block);
        let m3 = m2.set(Rax, block);
        let m4 = m3.set(R10, head);
        let old = word_at(m.mem, head as int);
        let m5 = m4.set(Rdx, old);
        assert(m5.address(world, at_b(Rax, 8)) == block + 8);
        let m6 = m5.store(Width::Quad, block + 8, old as int);
        let m7 = m6.store(Width::Quad, head as int, block as int);
        lemma_lea(run, 4, m2, Rax, below(Rcx, 16));
        lemma_lea(run, 5, m3, R10, rip(Symbol::HeapFreeHead));
        assert(m4.address(world, at(R10)) == head);
        lemma_load(run, 6, m4, Rdx, at(R10));
        lemma_store(run, 7, m5, at_b(Rax, 8), Rdx);
        assert(m6.address(world, at(R10)) == head);
        lemma_store(run, 8, m6, at(R10), Rax);
        lemma_ret(run, 9, m7);
        assert forall|a: int| apart(a, head as int)
            && apart(a, block + 8) implies #[trigger] word_at(
            m7.mem,
            a,
        ) == word_at(m.mem, a) by {
            law_word_keeps_others(m6.mem, head as int, block, a);
            law_word_keeps_others(m5.mem, block + 8, old, a);
        }
        assert forall|p: int|
            outside(p, head as int) && outside(p, block + 8) implies #[trigger] (m7.mem)(p) == (
        m.mem)(p) by {
            law_word_keeps_bytes(m6.mem, head as int, block, p);
            law_word_keeps_bytes(m5.mem, block + 8, old, p);
        }
        law_word_reads_back(m6.mem, head as int, block);
        law_word_keeps_others(m6.mem, head as int, block, block + 8);
        law_word_reads_back(m5.mem, block + 8, old);
        assert forall|k: int| 0 <= k < all.len() implies word_at(
            m7.mem,
            #[trigger] link(head as int, all, k),
        ) == all[k] by {
            if k == 1 {
                assert(link(head as int, blocks, 0) == head);
            }
            if k > 1 {
                assert(all[k - 1] == blocks[k - 2]);
                assert(link(head as int, blocks, k - 1) == blocks[k - 2] + 8);
                assert(apart(all[0] + 8, all[k - 1] + 8));
            }
        }
        let n = blocks.len() as int;
        if n > 0 {
            assert(all[n] == blocks[n - 1]);
            assert(apart(all[0] + 8, all[n] + 8));
        }
        assert(lists(m7.mem, head as int, all));
        m7.set(Rsp, wrap(m7.regs[Rsp] + 8))
    }
}

/// Dropping a reference: the count goes down by one; at zero the routine goes on to release
/// the block, with the payload still in `rcx`, else it returns.
pub proof fn law_rc_dec(world: World, m: Machine) -> (after: Machine)
    requires
        m.regs[Rcx] >= 8,
    ensures
        ({
            let count = word_at(m.mem, m.regs[Rcx] - 8);
            &&& word_at(after.mem, m.regs[Rcx] - 8) == wrap(count - 1)
            &&& forall|a: int|
                apart(a, m.regs[Rcx] - 8) ==> #[trigger] word_at(after.mem, a) == word_at(
                    m.mem,
                    a,
                )
            &&& kept(m.mem, after.mem, m.regs[Rcx] - 8, m.regs[Rcx] as int)
            &&& count == 1 ==> {
                &&& comes_to(
                    world,
                    rc_dec_program(),
                    0,
                    m,
                    Outcome::Left(Symbol::RcFree, after),
                )
                &&& after.regs == m.regs
            }
            &&& count != 1
                ==> returns_with(world, rc_dec_program(), m, after) && came_back(m, after)
        }),
{
    let run = Run { world, program: rc_dec_program(), start: 0, before: m };
    let cell = m.regs[Rcx] - 8;
    assert(m.address(world, below(Rcx, 8)) == cell);
    let count = word_at(m.mem, cell);
    law_comparisons_order(count, 1);
    let m1 = m.store(Width::Quad, cell, wrap(count - 1) as int).flagged(
        Flags { carry: m.flags.carry, ..flags_of_difference(Width::Quad, count as int, 1) },
    );
    lemma_begin(run);
    lemma_dec_mem(run, 0, m, below(Rcx, 8));
    law_word_reads_back(m.mem, cell, wrap(count - 1));
    assert forall|a: int| apart(a, cell) implies #[trigger] word_at(m1.mem, a) == word_at(
        m.mem,
        a,
    ) by {
        law_word_keeps_others(m.mem, cell, wrap(count - 1), a);
    }
    assert forall|p: int| p < cell
        || cell + 8 <= p implies #[trigger] (m1.mem)(p) == (m.mem)(p) by {
        law_word_keeps_bytes(m.mem, cell, wrap(count - 1), p);
    }
    lemma_jcc(run, 1, m1, Ne, true, Hop::Forward(2));
    if count == 1 {
        lemma_jmp_symbol(run, 2, m1, Symbol::RcFree);
        m1
    } else {
        lemma_ret(run, 3, m1);
        m1.set(Rsp, wrap(m1.regs[Rsp] + 8))
    }
}

// Allocating

/// The first block from `k` on that is large enough; the number of blocks when none is.
pub open spec fn first_fit(mem: spec_fn(int) -> u8, blocks: Seq<u64>, need: u64, k: int) -> int
    decreases blocks.len() - k,
{
    if k < 0 || k >= blocks.len() {
        blocks.len() as int
    } else if word_at(mem, blocks[k] as int) >= need {
        k
    } else {
        first_fit(mem, blocks, need, k + 1)
    }
}

/// The state of the scan at the `k`-th block.
pub open spec fn scanning(
    world: World,
    m: Machine,
    now: Machine,
    blocks: Seq<u64>,
    need: u64,
    k: int,
) -> bool {
    let head = (world.place)(Symbol::HeapFreeHead) as int;
    &&& now.mem == m.mem
    &&& now.regs[R8] == need
    &&& now.regs[R10] == link(head, blocks, k)
    &&& now.regs[R11] == word_at(m.mem, link(head, blocks, k))
    &&& now.regs[Rsp] == m.regs[Rsp]
    &&& forall|reg: Reg| !volatile(reg) ==> #[trigger] now.regs[reg] == m.regs[reg]
}

/// Where a fresh block starts: at the bump pointer, or at the region's base while nothing
/// was allocated yet.
pub open spec fn fresh_block(world: World, mem: spec_fn(int) -> u8) -> u64 {
    let next = word_at(mem, (world.place)(Symbol::HeapNext) as int);
    if next == 0 {
        (world.place)(Symbol::HeapBase)
    } else {
        next
    }
}

/// Where the heap region ends.
pub open spec fn region_end(world: World) -> int {
    (world.place)(Symbol::HeapBase) + HEAP_REGION_SIZE
}

/// `n` rounded up to a multiple of eight.
pub open spec fn rounded(n: int) -> int {
    (n + 7) / 8 * 8
}

/// What the allocator does when the `k`-th free block is the first that fits: it unlinks
/// that block, gives it a count of one, and returns its payload.
pub open spec fn reuses(
    world: World,
    m: Machine,
    after: Machine,
    blocks: Seq<u64>,
    k: int,
) -> bool {
    let head = (world.place)(Symbol::HeapFreeHead) as int;
    &&& after.regs[Rax] == blocks[k] + 16
    &&& word_at(after.mem, blocks[k] + 8) == 1
    &&& lists(after.mem, head, blocks.remove(k))
    &&& forall|a: int|
        apart(a, link(head, blocks, k)) && apart(a, blocks[k] + 8) ==> #[trigger] word_at(
            after.mem,
            a,
        ) == word_at(m.mem, a)
    &&& forall|p: int|
        outside(p, link(head, blocks, k)) && outside(p, blocks[k] + 8) ==> #[trigger] (after.mem)(p)
            == (m.mem)(p)
}

/// What the allocator does when no free block fits: it takes a fresh block, writes its size
/// and a count of one, moves the bump pointer behind it, and returns its payload.
pub open spec fn bumps(world: World, m: Machine, after: Machine, need: u64) -> bool {
    let next = (world.place)(Symbol::HeapNext) as int;
    let block = fresh_block(world, m.mem);
    &&& after.regs[Rax] == block + 16
    &&& word_at(after.mem, block as int) == need
    &&& word_at(after.mem, block + 8) == 1
    &&& word_at(after.mem, next) == rounded(block + need)
    &&& forall|a: int|
        apart(a, next) && apart(a, block as int) && apart(a, block + 8) ==> #[trigger] word_at(
            after.mem,
            a,
        ) == word_at(m.mem, a)
    &&& forall|p: int|
        outside(p, next) && outside(p, block as int) && outside(p, block + 8) ==> #[trigger] (
        after.mem)(p) == (m.mem)(p)
}

proof fn lemma_first_fit(mem: spec_fn(int) -> u8, blocks: Seq<u64>, need: u64, k: int)
    requires
        0 <= k <= blocks.len(),
    ensures
        k <= first_fit(mem, blocks, need, k) <= blocks.len(),
    decreases blocks.len() - k,
{
    if k < blocks.len() && word_at(mem, blocks[k] as int) < need {
        lemma_first_fit(mem, blocks, need, k + 1);
    }
}

/// From the `k`-th block on, the scan comes to the first block that fits, or to the end.
proof fn lemma_scan(
    run: Run,
    m: Machine,
    now: Machine,
    blocks: Seq<u64>,
    need: u64,
    k: int,
) -> (found: Machine)
    requires
        run.program == heap_alloc_program(),
        run.at(3, now),
        0 <= k <= blocks.len(),
        lists(m.mem, (run.world.place)(Symbol::HeapFreeHead) as int, blocks),
        separate((run.world.place)(Symbol::HeapFreeHead) as int, blocks),
        scanning(run.world, m, now, blocks, need, k),
    ensures
        ({
            let fit = first_fit(m.mem, blocks, need, k);
            &&& scanning(run.world, m, found, blocks, need, fit)
            &&& fit < blocks.len() ==> run.at(8, found)
            &&& fit == blocks.len() ==> run.at(16, found)
        }),
    decreases blocks.len() - k,
{
    let world = run.world;
    let head = (world.place)(Symbol::HeapFreeHead) as int;
    let block = now.regs[R11];
    let m1 = now.flagged(flags_of_bits(Width::Quad, block as int));
    lemma_test(run, 3, now, R11);
    lemma_jcc(run, 4, m1, E, false, Hop::Forward(12));
    if k == blocks.len() {
        m1
    } else {
        assert(word_at(m.mem, link(head, blocks, k)) == blocks[k]);
        assert(blocks[k] != 0);
        assert(blocks[k] + 16 < word_span());
        let size = word_at(m.mem, block as int);
        let m2 = m1.set(Rax, size);
        let m3 = m2.flagged(flags_of_difference(Width::Quad, size as int, need as int));
        assert(m1.address(world, at(R11)) == block);
        lemma_load(run, 5, m1, Rax, at(R11));
        lemma_alu(run, 6, m2, Alu::Cmp, Rax, R8);
        law_comparisons_order(size, need);
        lemma_jcc(run, 7, m3, B, false, Hop::Forward(6));
        if size >= need {
            m3
        } else {
            assert(m3.address(world, at_b(R11, 8)) == block + 8);
            let m4 = m3.set(R10, (block + 8) as u64);
            assert(m4.address(world, at_b(R11, 8)) == block + 8);
            let m5 = m4.set(R11, word_at(m.mem, block + 8));
            lemma_lea(run, 13, m3, R10, at_b(R11, 8));
            lemma_load(run, 14, m4, R11, at_b(R11, 8));
            lemma_jmp(run, 15, m5, false, Hop::Back(12));
            lemma_scan(run, m, m5, blocks, need, k + 1)
        }
    }
}

proof fn lemma_unlinked(
    mem: spec_fn(int) -> u8,
    after: spec_fn(int) -> u8,
    head: int,
    blocks: Seq<u64>,
    k: int,
)
    requires
        0 <= k < blocks.len(),
        lists(mem, head, blocks),
        separate(head, blocks),
        word_at(after, link(head, blocks, k)) == word_at(mem, blocks[k] + 8),
        forall|a: int|
            apart(a, link(head, blocks, k)) && apart(a, blocks[k] + 8) ==> #[trigger] word_at(
                after,
                a,
            ) == word_at(mem, a),
    ensures
        lists(after, head, blocks.remove(k)),
{
    let rest = blocks.remove(k);
    let n = rest.len() as int;
    assert(link(head, blocks, k + 1) == blocks[k] + 8);
    assert forall|i: int| 0 <= i < n implies rest[i] == (if i < k {
        blocks[i]
    } else {
        blocks[i + 1]
    }) by {}
    assert forall|i: int| 0 <= i <= n implies word_at(after,
        #[trigger] link(head, rest, i)) == (if i
        < k {
        word_at(mem, link(head, blocks, i))
    } else {
        word_at(mem, link(head, blocks, i + 1))
    }) by {
        let cell = link(head, rest, i);
        if i < k {
            assert(cell == link(head, blocks, i));
            if i > 0 {
                assert(apart(blocks[i - 1] + 8, blocks[k] + 8));
                assert(apart(blocks[i - 1] + 8, blocks[k - 1] + 8));
            } else {
                assert(apart(blocks[k] + 8, head));
                assert(apart(blocks[k - 1] + 8, head));
            }
        } else if i == k {
            assert(cell == link(head, blocks, k));
        } else {
            assert(rest[i - 1] == blocks[i]);
            assert(cell == link(head, blocks, i + 1));
            assert(apart(blocks[i] + 8, blocks[k] + 8));
            if k > 0 {
                assert(apart(blocks[i] + 8, blocks[k - 1] + 8));
            } else {
                assert(apart(blocks[i] + 8, head));
            }
        }
    }
    assert forall|i: int| 0 <= i < n implies word_at(after, #[trigger] link(head, rest, i))
        == rest[i] by {
        if i < k {
            assert(word_at(mem, link(head, blocks, i)) == blocks[i]);
        } else {
            assert(word_at(mem, link(head, blocks, i + 1)) == blocks[i + 1]);
        }
    }
    assert(word_at(after, link(head, rest, n)) == word_at(mem, link(head, blocks, n + 1)));
    assert forall|i: int| 0 <= i < n implies #[trigger] rest[i] != 0 by {
        if i < k {
            assert(blocks[i] != 0);
        } else {
            assert(blocks[i + 1] != 0);
        }
    }
}

/// The allocator: it reuses the first free block that is large enough for the payload and
/// its header; where there is none it takes a fresh block, and traps if that would run out
/// of the heap region.
#[verifier::rlimit(40)]
pub proof fn law_heap_alloc(world: World, m: Machine, blocks: Seq<u64>) -> (after: Machine)
    requires
        ({
            let head = (world.place)(Symbol::HeapFreeHead) as int;
            let next = (world.place)(Symbol::HeapNext) as int;
            let block = fresh_block(world, m.mem);
            &&& m.regs[Rcx] <= u64::MAX / 2
            &&& lists(m.mem, head, blocks)
            &&& separate(head, blocks)
            &&& region_end(world) <= u64::MAX / 2
            &&& block <= u64::MAX / 2 - 32
            &&& block + m.regs[Rcx] + 16 <= region_end(world)
                ==> apart(next, block as int) && apart(
                next,
                block + 8,
            )
        }),
    ensures
        ({
            let need = (m.regs[Rcx] + 16) as u64;
            let fit = first_fit(m.mem, blocks, need, 0);
            let room = fresh_block(world, m.mem) + need <= region_end(world);
            &&& fit < blocks.len() || room ==> {
                &&& returns_with(world, heap_alloc_program(), m, after)
                &&& came_back(m, after)
            }
            &&& fit < blocks.len() ==> reuses(world, m, after, blocks, fit)
            &&& fit == blocks.len() && room ==> bumps(world, m, after, need)
            &&& fit == blocks.len() && !room ==> comes_to(
                world,
                heap_alloc_program(),
                0,
                m,
                Outcome::Trapped(after),
            )
        }),
{
    let run = Run { world, program: heap_alloc_program(), start: 0, before: m };
    let head = (world.place)(Symbol::HeapFreeHead);
    let need = (m.regs[Rcx] + 16) as u64;
    assert(m.address(world, at_b(Rcx, 16)) == need);
    let m1 = m.set(R8, need);
    let m2 = m1.set(R10, head);
    assert(m2.address(world, at(R10)) == head);
    let m3 = m2.set(R11, word_at(m.mem, head as int));
    lemma_begin(run);
    lemma_lea(run, 0, m, R8, at_b(Rcx, 16));
    lemma_lea(run, 1, m1, R10, rip(Symbol::HeapFreeHead));
    lemma_load(run, 2, m2, R11, at(R10));
    let found = lemma_scan(run, m, m3, blocks, need, 0);
    lemma_first_fit(m.mem, blocks, need, 0);
    let fit = first_fit(m.mem, blocks, need, 0);
    if fit < blocks.len() {
        lemma_take(run, m, found, blocks, need, fit)
    } else {
        lemma_bump(run, m, found, need)
    }
}

/// Taking the `k`-th block off the list.
proof fn lemma_take(
    run: Run,
    m: Machine,
    found: Machine,
    blocks: Seq<u64>,
    need: u64,
    k: int,
) -> (after: Machine)
    requires
        run.program == heap_alloc_program(),
        run.start == 0,
        run.before == m,
        0 <= k < blocks.len(),
        lists(m.mem, (run.world.place)(Symbol::HeapFreeHead) as int, blocks),
        separate((run.world.place)(Symbol::HeapFreeHead) as int, blocks),
        scanning(run.world, m, found, blocks, need, k),
        run.at(8, found),
    ensures
        returns_with(run.world, heap_alloc_program(), m, after),
        came_back(m, after),
        reuses(run.world, m, after, blocks, k),
{
    let world = run.world;
    let head = (world.place)(Symbol::HeapFreeHead) as int;
    let cell = link(head, blocks, k);
    assert(word_at(m.mem, link(head, blocks, k)) == blocks[k]);
    let block = blocks[k];
    assert(blocks[k] + 16 < word_span());
    assert(apart(cell, block + 8)) by {
        if k > 0 {
            assert(apart(blocks[k - 1] + 8, blocks[k] + 8));
        }
    }
    let next = word_at(m.mem, block + 8);
    assert(found.address(world, at_b(R11, 8)) == block + 8);
    let m1 = found.set(Rdx, next);
    assert(m1.address(world, at(R10)) == cell);
    let m2 = m1.store(Width::Quad, cell, next as int);
    assert(m2.address(world, at_b(R11, 8)) == block + 8);
    let m3 = m2.store(Width::Quad, block + 8, 1);
    assert(m3.address(world, at_b(R11, 16)) == block + 16);
    let m4 = m3.set(Rax, (block + 16) as u64);
    lemma_load(run, 8, found, Rdx, at_b(R11, 8));
    lemma_store(run, 9, m1, at(R10), Rdx);
    lemma_store_imm(run, 10, m2, at_b(R11, 8), 1);
    lemma_lea(run, 11, m3, Rax, at_b(R11, 16));
    lemma_ret(run, 12, m4);
    law_word_reads_back(m2.mem, block + 8, 1);
    law_word_reads_back(m1.mem, cell, next);
    law_word_keeps_others(m2.mem, block + 8, 1, cell);
    assert forall|a: int| apart(a, cell) && apart(a, block + 8) implies #[trigger] word_at(
        m4.mem,
        a,
    ) == word_at(m.mem, a) by {
        law_word_keeps_others(m1.mem, cell, next, a);
        law_word_keeps_others(m2.mem, block + 8, 1, a);
    }
    assert forall|p: int| outside(p, cell) && outside(p, block + 8) implies #[trigger] (m4.mem)(p)
        == (m.mem)(p) by {
        law_word_keeps_bytes(m1.mem, cell, next, p);
        law_word_keeps_bytes(m2.mem, block + 8, 1, p);
    }
    lemma_unlinked(m.mem, m4.mem, head, blocks, k);
    m4.set(Rsp, wrap(m4.regs[Rsp] + 8))
}

/// Taking a fresh block.
proof fn lemma_bump(run: Run, m: Machine, found: Machine, need: u64) -> (after: Machine)
    requires
        run.program == heap_alloc_program(),
        run.start == 0,
        run.before == m,
        need <= u64::MAX / 2 + 16,
        found.mem == m.mem,
        found.regs[R8] == need,
        found.regs[Rsp] == m.regs[Rsp],
        forall|reg: Reg| !volatile(reg) ==> #[trigger] found.regs[reg] == m.regs[reg],
        run.at(16, found),
        region_end(run.world) <= u64::MAX / 2,
        fresh_block(run.world, m.mem) <= u64::MAX / 2 - 32,
        fresh_block(run.world, m.mem) + need <= region_end(run.world) ==> {
            let next = (run.world.place)(Symbol::HeapNext) as int;
            let block = fresh_block(run.world, m.mem);
            apart(next, block as int) && apart(next, block + 8)
        },
    ensures
        fresh_block(run.world, m.mem) + need <= region_end(run.world) ==> {
            &&& returns_with(run.world, heap_alloc_program(), m, after)
            &&& came_back(m, after)
            &&& bumps(run.world, m, after, need)
        },
        fresh_block(run.world, m.mem) + need > region_end(run.world) ==> comes_to(
            run.world,
            heap_alloc_program(),
            0,
            m,
            Outcome::Trapped(after),
        ),
{
    let world = run.world;
    let cell = (world.place)(Symbol::HeapNext) as int;
    let base = (world.place)(Symbol::HeapBase);
    let next = word_at(m.mem, cell);
    let block = fresh_block(world, m.mem);
    let m1 = found.set(Rax, next);
    let m2 = m1.flagged(flags_of_bits(Width::Quad, next as int));
    lemma_load(run, 16, found, Rax, rip(Symbol::HeapNext));
    lemma_test(run, 17, m1, Rax);
    lemma_jcc(run, 18, m2, Ne, true, Hop::Forward(2));
    let m3 = if next == 0 {
        m2.set(Rax, base)
    } else {
        m2
    };
    if next == 0 {
        lemma_lea(run, 19, m2, Rax, rip(Symbol::HeapBase));
    }
    assert(run.at(20, m3));
    assert(m3.regs[Rax] == block);
    let end = (block + need) as u64;
    let m4 = m3.set(R9, block);
    let m5 = operated(m4, Alu::Add, R9, need);
    assert(m5.regs[R9] == end);
    let m6 = m5.set(R11, base);
    let m7 = operated(m6, Alu::Add, R11, wrap(HEAP_REGION_SIZE as int));
    assert(m7.regs[R11] == region_end(world));
    let m8 = m7.flagged(flags_of_difference(Width::Quad, end as int, region_end(world)));
    lemma_mov(run, 20, m3, R9, Rax);
    lemma_alu(run, 21, m4, Alu::Add, R9, R8);
    lemma_lea(run, 22, m5, R11, rip(Symbol::HeapBase));
    lemma_alu_imm32(run, 23, m6, Alu::Add, R11, HEAP_REGION_SIZE);
    lemma_alu(run, 24, m7, Alu::Cmp, R9, R11);
    law_comparisons_order(end, region_end(world) as u64);
    lemma_jcc(run, 25, m8, Be, true, Hop::Forward(2));
    if end > region_end(world) {
        lemma_ud2(run, 26, m8);
        m8
    } else {
        lemma_bump_write(run, m, m8, need)
    }
}

/// Writing a fresh block's header and moving the bump pointer.
proof fn lemma_bump_write(run: Run, m: Machine, now: Machine, need: u64) -> (after: Machine)
    requires
        run.program == heap_alloc_program(),
        run.start == 0,
        run.before == m,
        now.mem == m.mem,
        now.regs[Rax] == fresh_block(run.world, m.mem),
        now.regs[R8] == need,
        now.regs[Rsp] == m.regs[Rsp],
        forall|reg: Reg| !volatile(reg) ==> #[trigger] now.regs[reg] == m.regs[reg],
        run.at(27, now),
        fresh_block(run.world, m.mem) + need <= u64::MAX / 2,
        fresh_block(run.world, m.mem) <= u64::MAX / 2 - 32,
        apart(
            (run.world.place)(Symbol::HeapNext) as int,
            fresh_block(run.world, m.mem) as int,
        ),
        apart(
            (run.world.place)(Symbol::HeapNext) as int,
            fresh_block(run.world, m.mem) + 8,
        ),
    ensures
        returns_with(run.world, heap_alloc_program(), m, after),
        came_back(m, after),
        bumps(run.world, m, after, need),
{
    let world = run.world;
    let cell = (world.place)(Symbol::HeapNext) as int;
    let block = fresh_block(world, m.mem);
    assert(now.address(world, at(Rax)) == block);
    let m1 = now.store(Width::Quad, block as int, need as int);
    assert(m1.address(world, at_b(Rax, 8)) == block + 8);
    let m2 = m1.store(Width::Quad, block + 8, 1);
    let m3 = m2.set(Rdx, block);
    let m4 = operated(m3, Alu::Add, Rdx, need);
    let m5 = operated(m4, Alu::Add, Rdx, 7);
    let m6 = operated(m5, Alu::And, Rdx, 0xFFFF_FFFF_FFFF_FFF8);
    lemma_store(run, 27, now, at(Rax), R8);
    lemma_store_imm(run, 28, m1, at_b(Rax, 8), 1);
    lemma_mov(run, 29, m2, Rdx, Rax);
    lemma_alu(run, 30, m3, Alu::Add, Rdx, R8);
    lemma_alu_imm8(run, 31, m4, Alu::Add, Rdx, 7);
    lemma_alu_imm8(run, 32, m5, Alu::And, Rdx, 0xF8);
    let end = m5.regs[Rdx];
    assert(end == block + need + 7);
    assert(end & 0xFFFF_FFFF_FFFF_FFF8 == end - end % 8) by (bit_vector);
    let top = m6.regs[Rdx];
    assert(top == rounded(block + need));
    let m7 = m6.store(Width::Quad, cell, top as int);
    let m8 = operated(m7, Alu::Add, Rax, 16);
    lemma_store(run, 33, m6, rip(Symbol::HeapNext), Rdx);
    lemma_alu_imm8(run, 34, m7, Alu::Add, Rax, 16);
    lemma_ret(run, 35, m8);
    law_word_reads_back(m6.mem, cell, top);
    law_word_keeps_others(m6.mem, cell, top, block as int);
    law_word_keeps_others(m6.mem, cell, top, block + 8);
    law_word_reads_back(m1.mem, block + 8, 1);
    law_word_keeps_others(m1.mem, block + 8, 1, block as int);
    law_word_reads_back(now.mem, block as int, need);
    assert forall|a: int|
        apart(a, cell) && apart(a, block as int) && apart(a, block + 8) implies #[trigger] word_at(
        m8.mem,
        a,
    ) == word_at(m.mem, a) by {
        law_word_keeps_others(m6.mem, cell, top, a);
        law_word_keeps_others(m1.mem, block + 8, 1, a);
        law_word_keeps_others(now.mem, block as int, need, a);
    }
    assert forall|p: int|
        outside(p, cell) && outside(p, block as int) && outside(p, block + 8) implies #[trigger] (
    m8.mem)(p) == (m.mem)(p) by {
        law_word_keeps_bytes(m6.mem, cell, top, p);
        law_word_keeps_bytes(m1.mem, block + 8, 1, p);
        law_word_keeps_bytes(now.mem, block as int, need, p);
    }
    m8.set(Rsp, wrap(m8.regs[Rsp] + 8))
}

/// A released block is reused first: the next allocation that it is large enough for gets
/// its payload, and leaves the free list as it was before the release.
pub proof fn law_released_block_is_reused(
    world: World,
    m: Machine,
    blocks: Seq<u64>,
    freed: Machine,
    again: Machine,
) -> (after: Machine)
    requires
        ({
            let head = (world.place)(Symbol::HeapFreeHead) as int;
            let next = (world.place)(Symbol::HeapNext) as int;
            let block = (m.regs[Rcx] - 16) as u64;
            let fresh = fresh_block(world, again.mem);
            &&& m.regs[Rcx] > 16
            &&& word_at(m.mem, (world.place)(Symbol::AllocMode) as int) == 0
            &&& lists(m.mem, head, blocks)
            &&& separate(head, seq![block] + blocks)
            &&& returns_with(world, rc_free_program(), m, freed)
            &&& again.mem == freed.mem
            &&& again.regs[Rcx] + 16 <= word_at(m.mem, block as int)
            &&& again.regs[Rcx] <= u64::MAX / 2
            &&& region_end(world) <= u64::MAX / 2
            &&& fresh <= u64::MAX / 2 - 32
            &&& fresh + again.regs[Rcx] + 16 <= region_end(world) ==> apart(next, fresh as int)
                && apart(next, fresh + 8)
        }),
    ensures
        returns_with(world, heap_alloc_program(), again, after),
        came_back(again, after),
        after.regs[Rax] == m.regs[Rcx],
        word_at(after.mem, m.regs[Rcx] - 8) == 1,
        lists(after.mem, (world.place)(Symbol::HeapFreeHead) as int, blocks),
{
    let head = (world.place)(Symbol::HeapFreeHead) as int;
    let block = (m.regs[Rcx] - 16) as u64;
    let all = seq![block] + blocks;
    let released = law_rc_free(world, m, blocks);
    law_ends_are_unique(
        world,
        rc_free_program(),
        0,
        m,
        Outcome::Returned(released),
        Outcome::Returned(freed),
    );
    let need = (again.regs[Rcx] + 16) as u64;
    assert(all[0] == block);
    assert(apart(block as int, head));
    assert(word_at(freed.mem, block as int) == word_at(m.mem, block as int));
    assert(first_fit(again.mem, all, need, 0) == 0);
    assert(all.remove(0) =~= blocks);
    law_heap_alloc(world, again, all)
}

} // verus!
