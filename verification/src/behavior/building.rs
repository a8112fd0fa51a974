//! Routines that build a block on the heap.

use crate::behavior::allocation::{
    allocated, block_of, block_size, has_room, heap_fits, idle, in_block, lemma_heap_stands,
    lemma_room_stands, span_held, spans_apart, spare,
};
use crate::behavior::heap::{came_back, volatile};
use crate::linking::{entered, returned_home};
use crate::machine::{
    kept, law_word_keeps_bytes, law_word_of_bytes, law_word_reads_back, word_at, word_span, wrap,
    Machine, World,
};
use crate::runtime::heap::heap_alloc_program;
use crate::symbols::Symbol;
use crate::x86::{Insn, Reg};
use crate::x86::Reg::{Rax, Rsp};
use vstd::prelude::*;

verus! {

/// What a routine that builds a block of `size` payload bytes leaves in memory: a block out
/// of the allocator's memory with a count of one, at most the block's rounded size taken off
/// the rest of the region, and every other byte as it was, but for `depth` bytes below the
/// stack.
pub open spec fn builds(
    world: World,
    m: Machine,
    after: spec_fn(int) -> u8,
    blocks: Seq<u64>,
    left: Seq<u64>,
    size: int,
    payload: u64,
    depth: int,
) -> bool {
    let block = block_of(payload);
    let top = m.regs[Rsp] as int;
    &&& heap_fits(world, after, left)
    &&& 16 < payload
    &&& block_size(after, block) >= size + 16
    &&& block + block_size(after, block) <= u64::MAX / 2
    &&& word_at(after, payload - 8) == 1
    &&& spare(world, m.mem) - (size + 23) <= spare(world, after)
    &&& forall|p: int| #[trigger]
        in_block(after, block, p) ==> idle(world, m.mem, blocks, p) && !idle(world, after, left, p)
    &&& forall|p: int| #[trigger] idle(world, after, left, p) ==> idle(world, m.mem, blocks, p)
    &&& forall|p: int|
        !idle(world, m.mem, blocks, p) && (p < top - depth || top <= p) ==> #[trigger] after(p)
            == (m.mem)(p)
}

/// Whether a building routine can run: the heap is in order, the allocator is linked, and
/// there are `depth` bytes below the stack that are not the allocator's.
pub open spec fn can_build(world: World, m: Machine, blocks: Seq<u64>, depth: int) -> bool {
    &&& (world.code)(Symbol::HeapAlloc) == heap_alloc_program()
    &&& heap_fits(world, m.mem, blocks)
    &&& depth <= m.regs[Rsp]
    &&& span_held(world, m.mem, blocks, m.regs[Rsp] - depth, depth)
}

/// The heap at the call of the allocator is the one the routine was entered with.
pub proof fn lemma_at_the_call(
    world: World,
    m: Machine,
    calling: Machine,
    blocks: Seq<u64>,
    depth: int,
    size: int,
)
    requires
        can_build(world, m, blocks, depth),
        kept(m.mem, calling.mem, m.regs[Rsp] - depth, m.regs[Rsp] as int),
        m.regs[Rsp] - depth + 8 <= calling.regs[Rsp] <= m.regs[Rsp],
    ensures
        heap_fits(world, calling.mem, blocks),
        spare(world, calling.mem) == spare(world, m.mem),
        forall|p: int| #[trigger]
            idle(world, calling.mem, blocks, p) == idle(world, m.mem, blocks, p),
        span_held(world, calling.mem, blocks, calling.regs[Rsp] - 8, 8),
        has_room(world, calling.mem, blocks, size) == has_room(world, m.mem, blocks, size),
{
    assert forall|p: int| #[trigger] idle(world, m.mem, blocks, p) implies (calling.mem)(p) == (
    m.mem)(p) by {}
    lemma_heap_stands(world, m.mem, calling.mem, blocks);
    lemma_room_stands(world, m.mem, calling.mem, blocks, size);
}

/// Whether a memory changed only in the `n` bytes from `a` and in the bytes from `low` up to
/// `high`.
pub open spec fn filled(
    before: spec_fn(int) -> u8,
    after: spec_fn(int) -> u8,
    a: int,
    n: int,
    low: int,
    high: int,
) -> bool {
    forall|p: int|
        (p < a || a + n <= p) && (p < low || high <= p) ==> #[trigger] after(p) == before(p)
}

/// What was allocated and then filled is what the routine built.
pub proof fn lemma_built(
    world: World,
    m: Machine,
    calling: Machine,
    out: Machine,
    after: spec_fn(int) -> u8,
    blocks: Seq<u64>,
    left: Seq<u64>,
    size: int,
    depth: int,
)
    requires
        can_build(world, m, blocks, depth),
        kept(m.mem, calling.mem, m.regs[Rsp] - depth, m.regs[Rsp] as int),
        m.regs[Rsp] - depth + 8 <= calling.regs[Rsp] <= m.regs[Rsp],
        allocated(world, calling, out, blocks, left, size),
        0 <= size,
        filled(
            out.mem,
            after,
            out.regs[Rax] as int,
            size,
            m.regs[Rsp] - depth,
            m.regs[Rsp] as int,
        ),
    ensures
        builds(world, m, after, blocks, left, size, out.regs[Rax], depth),
{
    let payload = out.regs[Rax];
    let block = block_of(payload);
    lemma_at_the_call(world, m, calling, blocks, depth, size);
    assert forall|p: int| #[trigger] idle(world, out.mem, left, p) implies after(p) == (out.mem)(
        p,
    ) by {
        if payload <= p < payload + size {
            assert(in_block(out.mem, block, p));
        }
        assert(idle(world, calling.mem, blocks, p));
        assert(idle(world, m.mem, blocks, p));
    }
    lemma_heap_stands(world, out.mem, after, left);
    assert forall|p: int| block <= p < payload implies #[trigger] after(p) == (out.mem)(p) by {
        assert(in_block(out.mem, block, p));
        assert(idle(world, calling.mem, blocks, p));
        assert(idle(world, m.mem, blocks, p));
    }
    law_word_of_bytes(after, out.mem, block as int);
    law_word_of_bytes(after, out.mem, payload - 8);
    assert forall|p: int| #[trigger] in_block(after, block, p) implies idle(
        world,
        m.mem,
        blocks,
        p,
    ) && !idle(world, after, left, p) by {
        assert(in_block(out.mem, block, p));
    }
    assert forall|p: int| #[trigger] idle(world, after, left, p) implies idle(
        world,
        m.mem,
        blocks,
        p,
    ) by {
        assert(idle(world, out.mem, left, p));
    }
    let top = m.regs[Rsp] as int;
    assert forall|p: int|
        !idle(world, m.mem, blocks, p) && (p < top - depth || top <= p) implies #[trigger] after(p)
        == (m.mem)(p) by {
        assert(!in_block(out.mem, block, p)) by {
            if in_block(out.mem, block, p) {
                assert(idle(world, calling.mem, blocks, p));
            }
        }
        assert((out.mem)(p) == (calling.mem)(p));
        assert((calling.mem)(p) == (m.mem)(p));
    }
}

/// Whether a span lies in memory, is not the allocator's, and lies apart from the `depth`
/// bytes below the stack.
pub open spec fn span_safe(
    world: World,
    m: Machine,
    blocks: Seq<u64>,
    a: int,
    n: int,
    depth: int,
) -> bool {
    &&& 0 <= a
    &&& a + n < word_span()
    &&& span_held(world, m.mem, blocks, a, n)
    &&& spans_apart(a, n, m.regs[Rsp] - depth, depth)
}

/// A safe span is not touched up to the call, nor by the allocator, and what was allocated
/// lies apart from it.
pub proof fn lemma_span_stays(
    world: World,
    m: Machine,
    calling: Machine,
    out: Machine,
    blocks: Seq<u64>,
    left: Seq<u64>,
    size: int,
    depth: int,
    a: int,
    n: int,
)
    requires
        can_build(world, m, blocks, depth),
        kept(m.mem, calling.mem, m.regs[Rsp] - depth, m.regs[Rsp] as int),
        m.regs[Rsp] - depth + 8 <= calling.regs[Rsp] <= m.regs[Rsp],
        allocated(world, calling, out, blocks, left, size),
        span_held(world, m.mem, blocks, a, n),
        0 < n,
        0 < size,
    ensures
        spans_apart(out.regs[Rax] as int, size, a, n),
        spans_apart(out.regs[Rax] as int, size, m.regs[Rsp] - depth, depth),
        spans_apart(a, n, m.regs[Rsp] - depth, depth) ==> forall|p: int|
            a <= p < a + n ==> #[trigger] (out.mem)(p) == (m.mem)(p),
        forall|p: int|
            calling.regs[Rsp] <= p < m.regs[Rsp] ==> #[trigger] (out.mem)(p) == (calling.mem)(p),
{
    let payload = out.regs[Rax] as int;
    let block = block_of(out.regs[Rax]);
    lemma_at_the_call(world, m, calling, blocks, depth, size);
    let q = if payload <= a {
        a
    } else {
        payload
    };
    assert(in_block(out.mem, block, q) ==> idle(world, calling.mem, blocks, q));
    assert(idle(world, calling.mem, blocks, q) == idle(world, m.mem, blocks, q));
    let low = m.regs[Rsp] - depth;
    let r = if payload <= low {
        low
    } else {
        payload
    };
    assert(in_block(out.mem, block, r) ==> idle(world, calling.mem, blocks, r));
    assert(idle(world, calling.mem, blocks, r) == idle(world, m.mem, blocks, r));
    assert forall|p: int| a <= p < a + n
        && spans_apart(a, n, m.regs[Rsp] - depth, depth) implies #[trigger] (
    out.mem)(p) == (m.mem)(p) by {
        assert(!idle(world, m.mem, blocks, p));
        assert(!idle(world, calling.mem, blocks, p));
    }
    assert forall|p: int| calling.regs[Rsp] <= p < m.regs[Rsp] implies #[trigger] (out.mem)(p) == (
    calling.mem)(p) by {
        assert(!idle(world, m.mem, blocks, p));
        assert(!idle(world, calling.mem, blocks, p));
    }
}

// Calling routines that build

/// A routine that is called with `inner` bytes to spare finds the heap its caller was entered
/// with.
pub proof fn lemma_enter(
    world: World,
    m: Machine,
    calling: Machine,
    program: Seq<Insn>,
    back: int,
    blocks: Seq<u64>,
    depth: int,
    inner: int,
    size: int,
)
    requires
        can_build(world, m, blocks, depth),
        kept(m.mem, calling.mem, m.regs[Rsp] - depth, m.regs[Rsp] as int),
        m.regs[Rsp] - depth + 8 + inner <= calling.regs[Rsp] <= m.regs[Rsp],
        0 <= inner,
    ensures
        ({
            let start = entered(world, program, back, calling);
            &&& can_build(world, start, blocks, inner)
            &&& spare(world, start.mem) == spare(world, m.mem)
            &&& forall|p: int| #[trigger]
                idle(world, start.mem, blocks, p) == idle(world, m.mem, blocks, p)
            &&& has_room(world, start.mem, blocks, size) == has_room(world, m.mem, blocks, size)
            &&& kept(m.mem, start.mem, m.regs[Rsp] - depth, m.regs[Rsp] as int)
            &&& kept(calling.mem, start.mem, calling.regs[Rsp] - 8, calling.regs[Rsp] as int)
            &&& start.regs[Rsp] == calling.regs[Rsp] - 8
            &&& forall|reg: Reg| reg != Rsp ==> #[trigger] start.regs[reg] == calling.regs[reg]
        }),
{
    let start = entered(world, program, back, calling);
    let at = calling.regs[Rsp] - 8;
    let site = (world.site)(program, back);
    assert(wrap(at) == at);
    assert forall|p: int| p < at || at + 8 <= p implies #[trigger] (start.mem)(p) == (calling.mem)(
        p,
    ) by {
        law_word_keeps_bytes(calling.mem, at, site, p);
    }
    assert forall|p: int| p < m.regs[Rsp] - depth || m.regs[Rsp] <= p implies #[trigger] (
    start.mem)(p) == (m.mem)(p) by {
        assert((calling.mem)(p) == (m.mem)(p));
    }
    assert forall|p: int| #[trigger] idle(world, m.mem, blocks,
        p) implies (start.mem)(p) == (m.mem)(
        p,
    ) by {}
    lemma_heap_stands(world, m.mem, start.mem, blocks);
    lemma_room_stands(world, m.mem, start.mem, blocks, size);
}

/// What a called routine built is what its caller built, and it returns to its caller.
pub proof fn lemma_leave(
    world: World,
    m: Machine,
    calling: Machine,
    out: Machine,
    program: Seq<Insn>,
    back: int,
    blocks: Seq<u64>,
    left: Seq<u64>,
    size: int,
    payload: u64,
    depth: int,
    inner: int,
)
    requires
        can_build(world, m, blocks, depth),
        kept(m.mem, calling.mem, m.regs[Rsp] - depth, m.regs[Rsp] as int),
        m.regs[Rsp] - depth + 8 + inner <= calling.regs[Rsp] <= m.regs[Rsp],
        0 <= inner,
        builds(
            world,
            entered(world, program, back, calling),
            out.mem,
            blocks,
            left,
            size,
            payload,
            inner,
        ),
        came_back(entered(world, program, back, calling), out),
    ensures
        builds(world, m, out.mem, blocks, left, size, payload, depth),
        returned_home(world, program, back, calling, out),
        out.regs[Rsp] == calling.regs[Rsp],
        forall|reg: Reg|
            !volatile(reg) && reg != Rsp ==> #[trigger] out.regs[reg] == calling.regs[reg],
        forall|p: int|
            calling.regs[Rsp] <= p < m.regs[Rsp] ==> #[trigger] (out.mem)(p) == (calling.mem)(p),
{
    let start = entered(world, program, back, calling);
    let at = calling.regs[Rsp] - 8;
    let site = (world.site)(program, back);
    let block = block_of(payload);
    lemma_enter(world, m, calling, program, back, blocks, depth, inner, size);
    assert(wrap(at) == at);
    law_word_reads_back(calling.mem, at, site);
    assert forall|p: int| at <= p < m.regs[Rsp] implies #[trigger] (out.mem)(p) == (start.mem)(p) by {
        assert(!idle(world, m.mem, blocks, p));
        assert(!idle(world, start.mem, blocks, p));
    }
    law_word_of_bytes(out.mem, start.mem, at);
    assert forall|p: int| calling.regs[Rsp] <= p < m.regs[Rsp] implies #[trigger] (out.mem)(p) == (
    calling.mem)(p) by {
        assert((start.mem)(p) == (calling.mem)(p));
    }
    assert forall|p: int| #[trigger] in_block(out.mem, block, p) implies idle(
        world,
        m.mem,
        blocks,
        p,
    ) && !idle(world, out.mem, left, p) by {
        assert(idle(world, start.mem, blocks, p));
    }
    assert forall|p: int| #[trigger] idle(world, out.mem, left, p) implies idle(
        world,
        m.mem,
        blocks,
        p,
    ) by {
        assert(idle(world, start.mem, blocks, p));
    }
    let top = m.regs[Rsp] as int;
    assert forall|p: int|
        !idle(world, m.mem, blocks, p)
            && (p < top - depth || top <= p) implies #[trigger] (out.mem)(
        p,
    ) == (m.mem)(p) by {
        assert(!idle(world, start.mem, blocks, p));
        assert((start.mem)(p) == (m.mem)(p));
    }
}

/// A span that is safe for a caller is safe for the routine it calls.
pub proof fn lemma_span_safe_inside(
    world: World,
    m: Machine,
    calling: Machine,
    program: Seq<Insn>,
    back: int,
    blocks: Seq<u64>,
    depth: int,
    inner: int,
    a: int,
    n: int,
)
    requires
        can_build(world, m, blocks, depth),
        kept(m.mem, calling.mem, m.regs[Rsp] - depth, m.regs[Rsp] as int),
        m.regs[Rsp] - depth + 8 + inner <= calling.regs[Rsp] <= m.regs[Rsp],
        0 <= inner,
        0 < n,
        span_safe(world, m, blocks, a, n, depth),
    ensures
        span_safe(world, entered(world, program, back, calling), blocks, a, n, inner),
        forall|p: int|
            a <= p < a + n
                ==> #[trigger] (entered(world, program, back, calling).mem)(p) == (m.mem)(
                p,
            ),
{
    lemma_enter(world, m, calling, program, back, blocks, depth, inner, 0);
}

} // verus!
