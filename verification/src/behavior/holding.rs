//! Blocks that a routine holds while it builds more.

use crate::behavior::allocation::{
    block_of, block_size, idle, in_block, in_use, lemma_heap_stands, span_held, spans_apart, spare,
};
use crate::behavior::building::{builds, can_build, span_safe};
use crate::behavior::counting::{count_of, mode_at};
use crate::behavior::joining::{lemma_building_takes, only_takes};
use crate::behavior::owning::{
    drop_safe, dropped, lemma_span_through_build, lemma_span_through_drop,
};
use crate::machine::{kept, law_word_of_bytes, Machine, World};
use crate::runtime::heap::{rc_dec_program, rc_free_program};
use crate::symbols::Symbol;
use crate::x86::Reg::Rsp;
use vstd::prelude::*;

verus! {

/// What a routine that holds blocks uses of the stack, and needs around it: `depth` bytes
/// below the stack and the word of the arena mode are not the allocator's.
pub open spec fn may_hold(world: World, m: Machine, blocks: Seq<u64>, depth: int) -> bool {
    &&& (world.code)(Symbol::RcDec) == rc_dec_program()
    &&& (world.code)(Symbol::RcFree) == rc_free_program()
    &&& can_build(world, m, blocks, depth)
    &&& 0 < depth
    &&& span_safe(world, m, blocks, mode_at(world), 8, depth)
}

/// Whether a block was taken from the allocator since the routine was entered, and has one
/// reference.
pub open spec fn held(
    world: World,
    m: Machine,
    mem: spec_fn(int) -> u8,
    blocks: Seq<u64>,
    left: Seq<u64>,
    r: u64,
) -> bool {
    let block = block_of(r);
    &&& 16 < r
    &&& in_use(world, mem, left, block)
    &&& count_of(mem, r) == 1
    &&& forall|p: int| #[trigger] in_block(mem, block, p) ==> idle(world, m.mem, blocks, p)
}

/// Whether these blocks are held, and share no byte.
pub open spec fn all_held(
    world: World,
    m: Machine,
    mem: spec_fn(int) -> u8,
    blocks: Seq<u64>,
    left: Seq<u64>,
    refs: Seq<u64>,
) -> bool {
    &&& forall|i: int|
        0 <= i < refs.len() ==> held(world, m, mem, blocks, left, #[trigger] refs[i])
    &&& forall|i: int, j: int|
        0 <= i < refs.len() && 0 <= j < refs.len() && i != j ==> spans_apart(
            block_of(#[trigger] refs[i]) as int,
            block_size(mem, block_of(refs[i])),
            block_of(#[trigger] refs[j]) as int,
            block_size(mem, block_of(refs[j])),
        )
}

/// Whether the bytes of these blocks are the same in two memories.
pub open spec fn same_blocks(
    before: spec_fn(int) -> u8,
    after: spec_fn(int) -> u8,
    refs: Seq<u64>,
) -> bool {
    forall|i: int, p: int|
        0 <= i < refs.len() && in_block(before, block_of(#[trigger] refs[i]), p)
            ==> #[trigger] after(p) == before(p)
}

/// A held block lies apart from the stack of the routine, and from any other span that was
/// not the allocator's when the routine was entered.
pub proof fn lemma_held_apart(
    world: World,
    m: Machine,
    mem: spec_fn(int) -> u8,
    blocks: Seq<u64>,
    left: Seq<u64>,
    r: u64,
    a: int,
    n: int,
)
    requires
        held(world, m, mem, blocks, left, r),
        span_held(world, m.mem, blocks, a, n),
        0 < n,
    ensures
        spans_apart(block_of(r) as int, block_size(mem, block_of(r)), a, n),
{
    let block = block_of(r);
    let q = if block <= a {
        a
    } else {
        block as int
    };
    assert(in_block(mem, block, q) ==> idle(world, m.mem, blocks, q));
}

/// A block whose bytes stay, and do not become the allocator's, stays held.
proof fn lemma_held_stays(
    world: World,
    m: Machine,
    before: spec_fn(int) -> u8,
    after: spec_fn(int) -> u8,
    blocks: Seq<u64>,
    left: Seq<u64>,
    least: Seq<u64>,
    r: u64,
)
    requires
        held(world, m, before, blocks, left, r),
        forall|p: int|
            block_of(r) <= p < block_of(r) + 16 ==> #[trigger] after(p) == before(p),
        forall|p: int|
            in_block(before, block_of(r), p) ==> !#[trigger] idle(world, after, least, p),
    ensures
        held(world, m, after, blocks, least, r),
        block_size(after, block_of(r)) == block_size(before, block_of(r)),
{
    let block = block_of(r);
    law_word_of_bytes(after, before, block as int);
    law_word_of_bytes(after, before, r - 8);
    assert forall|p: int| #[trigger] in_block(after, block, p) implies !idle(
        world,
        after,
        least,
        p,
    ) && idle(world, m.mem, blocks, p) by {
        assert(in_block(before, block, p));
    }
}

/// Building one block more: it is held too, and the others stay.
pub proof fn lemma_hold_built(
    world: World,
    m: Machine,
    now: spec_fn(int) -> u8,
    after: spec_fn(int) -> u8,
    blocks: Seq<u64>,
    left: Seq<u64>,
    least: Seq<u64>,
    refs: Seq<u64>,
    size: int,
    r: u64,
    depth: int,
)
    requires
        may_hold(world, m, blocks, depth),
        only_takes(world, m, now, blocks, left, depth),
        all_held(world, m, now, blocks, left, refs),
        builds(world, (Machine { mem: now, ..m }), after, left, least, size, r, depth),
        0 <= size,
    ensures
        only_takes(world, m, after, blocks, least, depth),
        all_held(world, m, after, blocks, least, refs.push(r)),
        same_blocks(now, after, refs),
{
    let base = Machine { mem: now, ..m };
    let top = m.regs[Rsp] as int;
    let more = refs.push(r);
    lemma_building_takes(world, m, now, after, blocks, left, least, size, r, depth);
    assert forall|p: int| #[trigger] in_block(after, block_of(r), p) implies idle(
        world,
        m.mem,
        blocks,
        p,
    ) by {
        assert(idle(world, now, left, p));
    }
    assert(held(world, m, after, blocks, least, r));
    assert forall|i: int| 0 <= i < refs.len() implies {
        let o = #[trigger] refs[i];
        &&& held(world, m, after, blocks, least, o)
        &&& block_size(after, block_of(o)) == block_size(now, block_of(o))
        &&& spans_apart(
            block_of(r) as int,
            block_size(after, block_of(r)),
            block_of(o) as int,
            block_size(now, block_of(o)),
        )
        &&& forall|p: int| in_block(now, block_of(o), p) ==> #[trigger] after(p) == now(p)
    } by {
        let o = refs[i];
        let block = block_of(o);
        let n = block_size(now, block);
        assert(held(world, m, now, blocks, left, o));
        lemma_held_apart(world, m, now, blocks, left, o, top - depth, depth);
        assert(span_held(world, now, left, block as int, n)) by {
            assert forall|p: int| block <= p < block + n implies !#[trigger] idle(
                world,
                now,
                left,
                p,
            ) by {
                assert(in_block(now, block, p));
            }
        }
        lemma_span_through_build(
            world,
            base,
            after,
            left,
            least,
            size,
            r,
            depth,
            block as int,
            n,
        );
        lemma_held_stays(world, m, now, after, blocks, left, least, o);
    }
    assert forall|i: int| 0 <= i < more.len() implies held(
        world,
        m,
        after,
        blocks,
        least,
        #[trigger] more[i],
    ) by {
        if i < refs.len() {
            assert(more[i] == refs[i]);
        }
    }
    assert forall|i: int, j: int|
        0 <= i < more.len() && 0 <= j < more.len() && i != j implies spans_apart(
        block_of(#[trigger] more[i]) as int,
        block_size(after, block_of(more[i])),
        block_of(#[trigger] more[j]) as int,
        block_size(after, block_of(more[j])),
    ) by {
        if i < refs.len() {
            assert(more[i] == refs[i]);
        }
        if j < refs.len() {
            assert(more[j] == refs[j]);
        }
    }
}

/// The last block can be dropped.
pub proof fn lemma_held_droppable(
    world: World,
    m: Machine,
    now: spec_fn(int) -> u8,
    blocks: Seq<u64>,
    left: Seq<u64>,
    r: u64,
    depth: int,
)
    requires
        may_hold(world, m, blocks, depth),
        only_takes(world, m, now, blocks, left, depth),
        held(world, m, now, blocks, left, r),
    ensures
        drop_safe(world, now, left, r, m.regs[Rsp] - depth, m.regs[Rsp] as int),
{
    let top = m.regs[Rsp] as int;
    lemma_held_apart(world, m, now, blocks, left, r, top - depth, depth);
    lemma_held_apart(world, m, now, blocks, left, r, mode_at(world), 8);
    assert forall|p: int| top - depth <= p < top implies !#[trigger] idle(world, now, left, p) by {
        assert(!idle(world, m.mem, blocks, p));
    }
    assert forall|p: int|
        mode_at(world) <= p < mode_at(world) + 8 implies !#[trigger] idle(world, now, left, p) by {
        assert(!idle(world, m.mem, blocks, p));
    }
}

/// Dropping the last block: the others stay.
#[verifier::rlimit(20)]
pub proof fn lemma_hold_dropped(
    world: World,
    m: Machine,
    now: spec_fn(int) -> u8,
    after: spec_fn(int) -> u8,
    blocks: Seq<u64>,
    left: Seq<u64>,
    least: Seq<u64>,
    refs: Seq<u64>,
    r: u64,
    depth: int,
)
    requires
        may_hold(world, m, blocks, depth),
        only_takes(world, m, now, blocks, left, depth),
        all_held(world, m, now, blocks, left, refs.push(r)),
        dropped(
            world,
            now,
            after,
            left,
            least,
            r,
            m.regs[Rsp] - depth,
            m.regs[Rsp] as int,
        ),
    ensures
        only_takes(world, m, after, blocks, least, depth),
        all_held(world, m, after, blocks, least, refs),
        same_blocks(now, after, refs),
{
    let top = m.regs[Rsp] as int;
    let low = top - depth;
    let more = refs.push(r);
    assert(more[refs.len() as int] == r);
    assert(held(world, m, now, blocks, left, r));
    lemma_held_droppable(world, m, now, blocks, left, r, depth);
    assert forall|p: int| #[trigger] idle(world, after, least, p) implies idle(
        world,
        m.mem,
        blocks,
        p,
    ) by {
        assert(idle(world, now, left, p) || in_block(now, block_of(r), p));
    }
    assert forall|p: int|
        !idle(world, m.mem, blocks, p) && (p < low || top <= p) implies #[trigger] after(p) == (
    m.mem)(p) by {
        assert(!idle(world, now, left, p));
        assert(!in_block(now, block_of(r), p));
        assert(now(p) == (m.mem)(p));
    }
    assert forall|i: int| 0 <= i < refs.len() implies {
        let o = #[trigger] refs[i];
        &&& held(world, m, after, blocks, least, o)
        &&& block_size(after, block_of(o)) == block_size(now, block_of(o))
        &&& forall|p: int| in_block(now, block_of(o), p) ==> #[trigger] after(p) == now(p)
    } by {
        let o = refs[i];
        let block = block_of(o);
        let n = block_size(now, block);
        assert(more[i] == o);
        assert(held(world, m, now, blocks, left, o));
        lemma_held_apart(world, m, now, blocks, left, o, low, depth);
        assert(spans_apart(
            block_of(more[refs.len() as int]) as int,
            block_size(now, block_of(more[refs.len() as int])),
            block_of(more[i]) as int,
            block_size(now, block_of(more[i])),
        ));
        assert(span_held(world, now, left, block as int, n)) by {
            assert forall|p: int| block <= p < block + n implies !#[trigger] idle(
                world,
                now,
                left,
                p,
            ) by {
                assert(in_block(now, block, p));
            }
        }
        lemma_span_through_drop(
            world,
            now,
            after,
            left,
            least,
            r,
            low,
            top,
            block as int,
            n,
        );
        lemma_held_stays(world, m, now, after, blocks, left, least, o);
    }
    assert forall|i: int, j: int|
        0 <= i < refs.len() && 0 <= j < refs.len() && i != j implies spans_apart(
        block_of(#[trigger] refs[i]) as int,
        block_size(after, block_of(refs[i])),
        block_of(#[trigger] refs[j]) as int,
        block_size(after, block_of(refs[j])),
    ) by {
        assert(more[i] == refs[i] && more[j] == refs[j]);
    }
}

/// A write to the payload of the first block, or to the stack of the routine: the heap is
/// as it was, and every block stays held.
#[verifier::rlimit(20)]
pub proof fn lemma_hold_written(
    world: World,
    m: Machine,
    now: spec_fn(int) -> u8,
    after: spec_fn(int) -> u8,
    blocks: Seq<u64>,
    left: Seq<u64>,
    refs: Seq<u64>,
    a: int,
    n: int,
    depth: int,
)
    requires
        may_hold(world, m, blocks, depth),
        only_takes(world, m, now, blocks, left, depth),
        all_held(world, m, now, blocks, left, refs),
        kept(now, after, a, a + n),
        ({
            ||| m.regs[Rsp] - depth <= a && a + n <= m.regs[Rsp]
            ||| {
                &&& 0 < refs.len()
                &&& refs[0] <= a
                &&& a + n <= block_of(refs[0]) + block_size(now, block_of(refs[0]))
            }
        }),
    ensures
        only_takes(world, m, after, blocks, left, depth),
        all_held(world, m, after, blocks, left, refs),
        spare(world, after) == spare(world, now),
        forall|i: int|
            0 <= i < refs.len() ==> block_size(after, block_of(#[trigger] refs[i])) == block_size(
                now,
                block_of(refs[i]),
            ),
        forall|i: int, p: int|
            0 < i < refs.len() && in_block(now, block_of(#[trigger] refs[i]), p)
                ==> #[trigger] after(p) == now(p),
{
    let top = m.regs[Rsp] as int;
    let low = top - depth;
    let stack = low <= a && a + n <= top;
    if 0 < refs.len() {
        assert(held(world, m, now, blocks, left, refs[0]));
    }
    assert forall|p: int| a <= p < a + n implies !#[trigger] idle(world, now, left, p) by {
        if stack {
            assert(!idle(world, m.mem, blocks, p));
        } else {
            assert(in_block(now, block_of(refs[0]), p));
        }
    }
    lemma_heap_stands(world, now, after, left);
    assert forall|p: int| #[trigger] idle(world, after, left, p) implies idle(
        world,
        m.mem,
        blocks,
        p,
    ) by {
        assert(idle(world, now, left, p));
    }
    assert forall|p: int|
        !idle(world, m.mem, blocks, p) && (p < low || top <= p) implies #[trigger] after(p) == (
    m.mem)(p) by {
        if a <= p < a + n {
            assert(in_block(now, block_of(refs[0]), p));
        }
        assert(now(p) == (m.mem)(p));
    }
    assert forall|i: int| 0 <= i < refs.len() implies {
        let o = #[trigger] refs[i];
        &&& held(world, m, after, blocks, left, o)
        &&& block_size(after, block_of(o)) == block_size(now, block_of(o))
        &&& forall|p: int|
            0 < i && in_block(now, block_of(o), p) ==> #[trigger] after(p) == now(p)
    } by {
        let o = refs[i];
        let block = block_of(o);
        assert(held(world, m, now, blocks, left, o));
        lemma_held_apart(world, m, now, blocks, left, o, low, depth);
        if i != 0 {
            assert(spans_apart(
                block_of(refs[0]) as int,
                block_size(now, block_of(refs[0])),
                block_of(refs[i]) as int,
                block_size(now, block_of(refs[i])),
            ));
        }
        assert forall|p: int| in_block(now, block, p) implies !#[trigger] idle(
            world,
            after,
            left,
            p,
        ) by {
            assert(!idle(world, now, left, p));
        }
        lemma_held_stays(world, m, now, after, blocks, left, left, o);
    }
}

/// A change of the routine's stack: every block is as it was.
pub proof fn lemma_hold_stack(
    world: World,
    m: Machine,
    now: spec_fn(int) -> u8,
    after: spec_fn(int) -> u8,
    blocks: Seq<u64>,
    left: Seq<u64>,
    refs: Seq<u64>,
    a: int,
    n: int,
    depth: int,
)
    requires
        may_hold(world, m, blocks, depth),
        only_takes(world, m, now, blocks, left, depth),
        all_held(world, m, now, blocks, left, refs),
        kept(now, after, a, a + n),
        m.regs[Rsp] - depth <= a,
        a + n <= m.regs[Rsp],
    ensures
        only_takes(world, m, after, blocks, left, depth),
        all_held(world, m, after, blocks, left, refs),
        spare(world, after) == spare(world, now),
        same_blocks(now, after, refs),
{
    lemma_hold_written(world, m, now, after, blocks, left, refs, a, n, depth);
    assert forall|i: int, p: int|
        0 <= i < refs.len()
            && in_block(now, block_of(#[trigger] refs[i]), p) implies #[trigger] after(
        p,
    ) == now(p) by {
        assert(held(world, m, now, blocks, left, refs[i]));
        lemma_held_apart(
            world,
            m,
            now,
            blocks,
            left,
            refs[i],
            m.regs[Rsp] - depth,
            depth,
        );
    }
}

/// The order of the last two blocks does not matter.
pub proof fn lemma_hold_swapped(
    world: World,
    m: Machine,
    mem: spec_fn(int) -> u8,
    blocks: Seq<u64>,
    left: Seq<u64>,
    refs: Seq<u64>,
    a: u64,
    b: u64,
)
    requires
        all_held(world, m, mem, blocks, left, refs.push(a).push(b)),
    ensures
        all_held(world, m, mem, blocks, left, refs.push(b).push(a)),
{
    let one = refs.push(a).push(b);
    let other = refs.push(b).push(a);
    let n = refs.len() as int;
    assert forall|i: int| 0 <= i < other.len() implies held(
        world,
        m,
        mem,
        blocks,
        left,
        #[trigger] other[i],
    ) by {
        let k = if i == n {
            n + 1
        } else if i == n + 1 {
            n
        } else {
            i
        };
        assert(one[k] == other[i]);
    }
    assert forall|i: int, j: int|
        0 <= i < other.len() && 0 <= j < other.len() && i != j implies spans_apart(
        block_of(#[trigger] other[i]) as int,
        block_size(mem, block_of(other[i])),
        block_of(#[trigger] other[j]) as int,
        block_size(mem, block_of(other[j])),
    ) by {
        let k = if i == n {
            n + 1
        } else if i == n + 1 {
            n
        } else {
            i
        };
        let l = if j == n {
            n + 1
        } else if j == n + 1 {
            n
        } else {
            j
        };
        assert(one[k] == other[i] && one[l] == other[j]);
    }
}

} // verus!
