//! Reference counts: what dropping a reference leaves.

use crate::behavior::allocation::{
    block_of, block_size, heap_fits, idle, in_block, in_use, law_release, lemma_heap_stands,
    span_held, spans_apart, spare,
};
use crate::behavior::heap::{came_back, law_rc_dec, volatile};
use crate::linking::{ends_in, entered, law_ends_alone, law_goes_on_to, returned_home};
use crate::machine::{
    kept, law_kept_bytes_keep_words, law_word_keeps_bytes, law_word_of_bytes, law_word_reads_back,
    word_at, wrap, Machine, Outcome, World,
};
use crate::runtime::heap::{rc_dec_program, rc_free_program};
use crate::symbols::Symbol;
use crate::x86::{Insn, Reg};
use crate::x86::Reg::{Rcx, Rsp};
use vstd::prelude::*;

verus! {

/// Whether memory is released block by block: not in arena mode.
pub open spec fn releases(world: World, mem: spec_fn(int) -> u8) -> bool {
    word_at(mem, mode_at(world)) == 0
}

/// Where the arena mode is kept.
pub open spec fn mode_at(world: World) -> int {
    (world.place)(Symbol::AllocMode) as int
}

/// The reference count of a payload.
pub open spec fn count_of(mem: spec_fn(int) -> u8, payload: u64) -> u64 {
    word_at(mem, payload - 8)
}

/// Whether a reference can be dropped: its block is in use, with a count that is not zero,
/// and apart from the word of the arena mode.
pub open spec fn can_drop(world: World, mem: spec_fn(int) -> u8, blocks: Seq<u64>,
    payload: u64) -> bool {
    let block = block_of(payload);
    &&& (world.code)(Symbol::RcFree) == rc_free_program()
    &&& heap_fits(world, mem, blocks)
    &&& 16 < payload
    &&& in_use(world, mem, blocks, block)
    &&& 0 < count_of(mem, payload)
    &&& spans_apart(block as int, block_size(mem, block), mode_at(world), 8)
}

/// What dropping a reference leaves: one reference less; the last one, when memory is
/// released block by block, gives the block back to the allocator.
pub open spec fn drops(
    world: World,
    before: spec_fn(int) -> u8,
    after: spec_fn(int) -> u8,
    blocks: Seq<u64>,
    left: Seq<u64>,
    payload: u64,
) -> bool {
    let block = block_of(payload);
    let last = count_of(before, payload) == 1 && releases(world, before);
    &&& heap_fits(world, after, left)
    &&& spare(world, after) == spare(world, before)
    &&& !last ==> {
        &&& left == blocks
        &&& count_of(after, payload) == count_of(before, payload) - 1
        &&& kept(before, after, payload - 8, payload as int)
        &&& forall|p: int| #[trigger] idle(world, after, left, p) == idle(world, before, blocks, p)
    }
    &&& last ==> {
        &&& left == seq![block] + blocks
        &&& forall|p: int| #[trigger]
            idle(world, after, left, p) == (idle(world, before, blocks, p) || in_block(
                before,
                block,
                p,
            ))
        &&& forall|p: int|
            !idle(world, before, blocks, p) && !in_block(before, block, p) ==> #[trigger] after(p)
                == before(p)
    }
}

/// Dropping a reference takes one off the count; the last one releases the block.
pub proof fn law_drop(world: World, m: Machine, blocks: Seq<u64>) -> (end: (Machine, Seq<u64>))
    requires
        can_drop(world, m.mem, blocks, m.regs[Rcx]),
    ensures
        ({
            let (after, left) = end;
            &&& ends_in(world, rc_dec_program(), 0, m, Outcome::Returned(after))
            &&& came_back(m, after)
            &&& drops(world, m.mem, after.mem, blocks, left, m.regs[Rcx])
        }),
{
    let payload = m.regs[Rcx];
    let block = block_of(payload);
    let count = count_of(m.mem, payload);
    let m1 = law_rc_dec(world, m);
    assert forall|p: int| #[trigger] idle(world, m.mem, blocks, p) implies (m1.mem)(p) == (m.mem)(
        p,
    ) by {
        if payload - 8 <= p < payload {
            assert(in_block(m.mem, block, p));
        }
    }
    lemma_heap_stands(world, m.mem, m1.mem, blocks);
    law_kept_bytes_keep_words(m.mem, m1.mem, payload - 8, payload as int, block as int);
    law_kept_bytes_keep_words(m.mem, m1.mem, payload - 8, payload as int, mode_at(world));
    if count == 1 {
        assert forall|p: int| #[trigger] in_block(m1.mem, block, p) implies !idle(
            world,
            m1.mem,
            blocks,
            p,
        ) by {
            assert(in_block(m.mem, block, p));
        }
        let after = law_release(world, m1, blocks);
        law_ends_alone(world, rc_free_program(), 0, m1, Outcome::Returned(after));
        law_goes_on_to(
            world,
            rc_dec_program(),
            0,
            m,
            Symbol::RcFree,
            m1,
            Outcome::Returned(after),
        );
        if releases(world, m.mem) {
            let more = seq![block] + blocks;
            assert forall|p: int| #[trigger]
                idle(world, after.mem, more, p) == (idle(world, m.mem, blocks, p) || in_block(
                    m.mem,
                    block,
                    p,
                )) by {
                assert(in_block(m.mem, block, p) == in_block(m1.mem, block, p));
            }
            assert forall|p: int|
                !idle(world, m.mem, blocks, p) && !in_block(m.mem, block, p) implies #[trigger] (
            after.mem)(p) == (m.mem)(p) by {
                assert(!in_block(m1.mem, block, p));
                assert((m1.mem)(p) == (m.mem)(p));
            }
            (after, more)
        } else {
            (after, blocks)
        }
    } else {
        law_ends_alone(world, rc_dec_program(), 0, m, Outcome::Returned(m1));
        (m1, blocks)
    }
}

/// What a drop leaves alone: everything that is neither the allocator's nor in the block.
pub proof fn lemma_drop_leaves(
    world: World,
    before: spec_fn(int) -> u8,
    after: spec_fn(int) -> u8,
    blocks: Seq<u64>,
    left: Seq<u64>,
    payload: u64,
)
    requires
        can_drop(world, before, blocks, payload),
        drops(world, before, after, blocks, left, payload),
    ensures
        forall|p: int|
            !idle(world, before, blocks, p) && !in_block(before, block_of(payload), p)
                ==> #[trigger] after(
                p,
            ) == before(p) && !idle(world, after, left, p),
        forall|p: int|
            idle(world, before, blocks, p) ==> #[trigger] idle(world, after, left, p),
{
    let block = block_of(payload);
    assert forall|p: int|
        !idle(world, before, blocks, p) && !in_block(before, block, p) implies #[trigger] after(p)
        == before(p) && !idle(world, after, left, p) by {
        if payload - 8 <= p < payload {
            assert(in_block(before, block, p));
        }
    }
}

/// Calling the routine that drops a reference.
pub proof fn lemma_drop_call(
    world: World,
    program: Seq<Insn>,
    back: int,
    calling: Machine,
    blocks: Seq<u64>,
) -> (end: (Machine, Seq<u64>))
    requires
        can_drop(world, calling.mem, blocks, calling.regs[Rcx]),
        8 <= calling.regs[Rsp],
        span_held(world, calling.mem, blocks, calling.regs[Rsp] - 8, 8),
        spans_apart(
            block_of(calling.regs[Rcx]) as int,
            block_size(calling.mem, block_of(calling.regs[Rcx])),
            calling.regs[Rsp] - 8,
            8,
        ),
        spans_apart(mode_at(world), 8, calling.regs[Rsp] - 8, 8),
    ensures
        ({
            let (out, left) = end;
            let start = entered(world, program, back, calling);
            let payload = calling.regs[Rcx];
            &&& ends_in(world, rc_dec_program(), 0, start, Outcome::Returned(out))
            &&& returned_home(world, program, back, calling, out)
            &&& out.regs[Rsp] == calling.regs[Rsp]
            &&& forall|reg: Reg|
                !volatile(reg) && reg != Rsp ==> #[trigger] out.regs[reg] == calling.regs[reg]
            &&& kept(calling.mem, start.mem, calling.regs[Rsp] - 8, calling.regs[Rsp] as int)
            &&& can_drop(world, start.mem, blocks, payload)
            &&& forall|p: int| #[trigger]
                idle(world, start.mem, blocks, p) == idle(world, calling.mem, blocks, p)
            &&& spare(world, start.mem) == spare(world, calling.mem)
            &&& releases(world, start.mem) == releases(world, calling.mem)
            &&& count_of(start.mem, payload) == count_of(calling.mem, payload)
            &&& drops(world, start.mem, out.mem, blocks, left, payload)
        }),
{
    let start = entered(world, program, back, calling);
    let top = calling.regs[Rsp] as int;
    let at = top - 8;
    let site = (world.site)(program, back);
    let payload = calling.regs[Rcx];
    let block = block_of(payload);
    assert(wrap(at) == at);
    assert forall|p: int| p < at
        || top <= p implies #[trigger] (start.mem)(p) == (calling.mem)(p) by {
        law_word_keeps_bytes(calling.mem, at, site, p);
    }
    lemma_heap_stands(world, calling.mem, start.mem, blocks);
    law_kept_bytes_keep_words(calling.mem, start.mem, at, top, block as int);
    law_kept_bytes_keep_words(calling.mem, start.mem, at, top, payload - 8);
    law_kept_bytes_keep_words(calling.mem, start.mem, at, top, mode_at(world));
    assert forall|p: int| #[trigger] in_block(start.mem, block, p) implies !idle(
        world,
        start.mem,
        blocks,
        p,
    ) by {
        assert(in_block(calling.mem, block, p));
    }
    let (out, left) = law_drop(world, start, blocks);
    lemma_drop_leaves(world, start.mem, out.mem, blocks, left, payload);
    law_word_reads_back(calling.mem, at, site);
    assert forall|p: int| at <= p < top implies #[trigger] (out.mem)(p) == (start.mem)(p) by {
        assert(!idle(world, calling.mem, blocks, p));
        assert(!idle(world, start.mem, blocks, p));
        assert(!in_block(start.mem, block, p));
    }
    law_word_of_bytes(out.mem, start.mem, at);
    (out, left)
}

} // verus!
