//! Dropping many references: a list of strings with its strings.

use crate::behavior::allocation::{
    block_of, block_size, heap_fits, idle, in_block, lemma_heap_stands, span_held, spans_apart,
    spare,
};
use crate::behavior::counting::{count_of, mode_at, releases};
use crate::behavior::guards::law_comparisons_order;
use crate::behavior::heap::{came_back, volatile};
use crate::behavior::instructions::{
    lemma_alu, lemma_begin, lemma_call, lemma_inc, lemma_jcc, lemma_jmp, lemma_load, lemma_mov,
    lemma_zero_d, operated, Run,
};
use crate::behavior::owning::{drop_safe, dropped, lemma_drop_from};
use crate::behavior::routines::{
    among, frame_head, frame_tail, lemma_frame_head, lemma_frame_tail, lemma_saved_stays, saved,
};
use crate::linking::{ends_in, law_call, law_ends_alone, law_runs_into};
use crate::machine::{
    law_kept_bytes_keep_words, law_word_of_bytes, part_of, word_at, Machine, Outcome, World,
};
use crate::mnemonics::{at_b, index8_d};
use crate::runtime::heap::drop_string_array_program;
use crate::symbols::Symbol;
use crate::x86::{Alu, Hop, Reg};
use crate::x86::Cond::Ae;
use crate::x86::Reg::{Rbx, Rcx, Rdi, Rsi, Rsp};
use vstd::prelude::*;

verus! {

/// How often a reference occurs.
pub open spec fn times(refs: Seq<u64>, r: u64) -> nat
    decreases refs.len(),
{
    if refs.len() == 0 {
        0
    } else {
        times(refs.drop_last(), r) + (if refs.last() == r {
            1nat
        } else {
            0nat
        })
    }
}

proof fn lemma_times_take(refs: Seq<u64>, i: int, r: u64)
    requires
        0 <= i < refs.len(),
    ensures
        times(refs.take(i + 1), r) == times(refs.take(i), r) + (if refs[i] == r {
            1nat
        } else {
            0nat
        }),
{
    assert(refs.take(i + 1).drop_last() =~= refs.take(i));
}

proof fn lemma_times_grow(refs: Seq<u64>, i: int, k: int, r: u64)
    requires
        0 <= i <= k <= refs.len(),
    ensures
        times(refs.take(i), r) <= times(refs.take(k), r),
    decreases k - i,
{
    if i < k {
        lemma_times_grow(refs, i, k - 1, r);
        lemma_times_take(refs, k - 1, r);
    }
}

/// What occurs at position `i` occurs once more than before it.
proof fn lemma_times_left(refs: Seq<u64>, i: int)
    requires
        0 <= i < refs.len(),
    ensures
        times(refs.take(i), refs[i]) < times(refs, refs[i]),
{
    lemma_times_take(refs, i, refs[i]);
    lemma_times_grow(refs, i + 1, refs.len() as int, refs[i]);
    assert(refs.take(refs.len() as int) =~= refs);
}

/// Whether two references have the same block, or blocks that share no byte.
pub open spec fn blocks_apart(mem: spec_fn(int) -> u8, a: u64, b: u64) -> bool {
    a == b || spans_apart(
        block_of(a) as int,
        block_size(mem, block_of(a)),
        block_of(b) as int,
        block_size(mem, block_of(b)),
    )
}

/// Whether these references can be dropped one after the other: each counts as often as it
/// occurs, at least.
pub open spec fn refs_safe(
    world: World,
    mem: spec_fn(int) -> u8,
    blocks: Seq<u64>,
    refs: Seq<u64>,
    low: int,
    high: int,
) -> bool {
    &&& forall|i: int|
        0 <= i < refs.len() ==> drop_safe(world, mem, blocks, #[trigger] refs[i], low, high)
    &&& forall|i: int|
        0 <= i < refs.len() ==> times(refs, #[trigger] refs[i]) <= count_of(mem, refs[i])
    &&& forall|i: int, j: int|
        0 <= i < refs.len() && 0 <= j < refs.len() ==> blocks_apart(
            mem,
            #[trigger] refs[i],
            #[trigger] refs[j],
        )
}

/// Whether a byte lies in a block whose last reference was dropped.
pub open spec fn gone(world: World, mem: spec_fn(int) -> u8, refs: Seq<u64>, p: int) -> bool {
    releases(world, mem) && exists|j: int|
        0 <= j < refs.len() && times(refs, refs[j]) == count_of(mem, refs[j])
            && #[trigger] in_block(
            mem,
            block_of(refs[j]),
            p,
        )
}

/// Whether a byte belongs to the count of one of the references.
pub open spec fn counted(refs: Seq<u64>, p: int) -> bool {
    exists|j: int| 0 <= j < refs.len() && (#[trigger] refs[j]) - 8 <= p < refs[j]
}

/// What dropping these references leaves, but for the bytes of the stack from `low` up to
/// `high`: blocks whose last reference went are the allocator's, the others count less.
pub open spec fn dropped_each(
    world: World,
    before: spec_fn(int) -> u8,
    after: spec_fn(int) -> u8,
    blocks: Seq<u64>,
    left: Seq<u64>,
    refs: Seq<u64>,
    low: int,
    high: int,
) -> bool {
    &&& heap_fits(world, after, left)
    &&& spare(world, after) == spare(world, before)
    &&& forall|p: int| #[trigger]
        idle(world, after, left, p) == (idle(world, before, blocks, p) || gone(
            world,
            before,
            refs,
            p,
        ))
    &&& forall|p: int|
        !idle(world, before, blocks, p) && !gone(world, before, refs, p) && !counted(refs, p) && (p
            < low || high <= p) ==> #[trigger] after(p) == before(p)
    &&& forall|j: int|
        0 <= j < refs.len() && (times(refs, refs[j]) < count_of(before, refs[j]) || !releases(
            world,
            before,
        )) ==> count_of(after, #[trigger] refs[j]) == count_of(before, refs[j]) - times(
            refs,
            refs[j],
        )
}

/// A block that was not released yet is as it was, but for its count.
proof fn lemma_block_stands(
    world: World,
    before: spec_fn(int) -> u8,
    now: spec_fn(int) -> u8,
    blocks: Seq<u64>,
    left: Seq<u64>,
    refs: Seq<u64>,
    i: int,
    k: int,
    low: int,
    high: int,
)
    requires
        refs_safe(world, before, blocks, refs, low, high),
        0 <= i <= refs.len(),
        0 <= k < refs.len(),
        dropped_each(world, before, now, blocks, left, refs.take(i), low, high),
        times(refs.take(i), refs[k]) < count_of(before, refs[k]) || !releases(world, before),
    ensures
        forall|p: int|
            in_block(before, block_of(refs[k]), p) ==> !gone(world, before, refs.take(i), p)
                && !#[trigger] idle(world, now, left, p),
        forall|p: int|
            in_block(before, block_of(refs[k]), p) && (p < refs[k] - 8 || refs[k] <= p)
                ==> #[trigger] now(p) == before(p),
        block_size(now, block_of(refs[k])) == block_size(before, block_of(refs[k])),
{
    let some = refs.take(i);
    let r = refs[k];
    let block = block_of(r);
    assert(drop_safe(world, before, blocks, r, low, high));
    assert forall|p: int| in_block(before, block, p) implies !gone(world, before, some, p)
        && !#[trigger] idle(world, now, left, p) by {
        if gone(world, before, some, p) {
            let j = choose|j: int|
                0 <= j < some.len() && times(some, some[j]) == count_of(before, some[j])
                    && #[trigger] in_block(before, block_of(some[j]), p);
            assert(some[j] == refs[j]);
            assert(blocks_apart(before, refs[j], refs[k]));
        }
        assert(!idle(world, before, blocks, p));
    }
    assert forall|p: int| in_block(before, block, p)
        && (p < r - 8 || r <= p) implies #[trigger] now(
        p,
    ) == before(p) by {
        assert(!idle(world, now, left, p));
        assert(!idle(world, before, blocks, p));
        if counted(some, p) {
            let j = choose|j: int| 0 <= j < some.len() && (#[trigger] some[j]) - 8 <= p < some[j];
            assert(some[j] == refs[j]);
            assert(blocks_apart(before, refs[j], refs[k]));
            assert(drop_safe(world, before, blocks, refs[j], low, high));
            assert(in_block(before, block_of(refs[j]), p));
        }
    }
    assert forall|p: int| block <= p < block + 8 implies #[trigger] now(p) == before(p) by {
        assert(in_block(before, block, p));
    }
    law_word_of_bytes(now, before, block as int);
}

/// A span that is not the allocator's nor in one of the blocks is not touched.
proof fn lemma_span_stands(
    world: World,
    before: spec_fn(int) -> u8,
    now: spec_fn(int) -> u8,
    blocks: Seq<u64>,
    left: Seq<u64>,
    refs: Seq<u64>,
    i: int,
    low: int,
    high: int,
    a: int,
    n: int,
)
    requires
        refs_safe(world, before, blocks, refs, low, high),
        0 <= i <= refs.len(),
        dropped_each(world, before, now, blocks, left, refs.take(i), low, high),
        span_held(world, before, blocks, a, n),
        forall|k: int|
            0 <= k < refs.len() ==> spans_apart(
                block_of(#[trigger] refs[k]) as int,
                block_size(before, block_of(refs[k])),
                a,
                n,
            ),
    ensures
        span_held(world, now, left, a, n),
        spans_apart(a, n, low, high - low) ==> forall|p: int|
            a <= p < a + n ==> #[trigger] now(p) == before(p),
{
    let some = refs.take(i);
    assert forall|p: int| a <= p < a + n implies !gone(world, before, some, p) && !counted(some, p)
        && !#[trigger] idle(world, before, blocks, p) by {
        if gone(world, before, some, p) {
            let j = choose|j: int|
                0 <= j < some.len() && times(some, some[j]) == count_of(before, some[j])
                    && #[trigger] in_block(before, block_of(some[j]), p);
            assert(some[j] == refs[j]);
        }
        if counted(some, p) {
            let j = choose|j: int| 0 <= j < some.len() && (#[trigger] some[j]) - 8 <= p < some[j];
            assert(some[j] == refs[j]);
            assert(drop_safe(world, before, blocks, refs[j], low, high));
        }
    }
    assert forall|p: int| a <= p < a + n implies !#[trigger] idle(world, now, left, p) by {
        assert(!idle(world, before, blocks, p));
    }
    assert forall|p: int| a <= p < a + n
        && spans_apart(a, n, low, high - low) implies #[trigger] now(
        p,
    ) == before(p) by {
        assert(!idle(world, before, blocks, p));
    }
}

/// The next reference can be dropped.
#[verifier::rlimit(20)]
proof fn lemma_next_safe(
    world: World,
    before: spec_fn(int) -> u8,
    now: spec_fn(int) -> u8,
    blocks: Seq<u64>,
    left: Seq<u64>,
    refs: Seq<u64>,
    i: int,
    low: int,
    high: int,
)
    requires
        low < high,
        refs_safe(world, before, blocks, refs, low, high),
        0 <= i < refs.len(),
        dropped_each(world, before, now, blocks, left, refs.take(i), low, high),
    ensures
        drop_safe(world, now, left, refs[i], low, high),
        block_size(now, block_of(refs[i])) == block_size(before, block_of(refs[i])),
        count_of(now, refs[i]) == count_of(before, refs[i]) - times(refs.take(i), refs[i]),
        releases(world, now) == releases(world, before),
{
    let some = refs.take(i);
    let r = refs[i];
    let block = block_of(r);
    lemma_times_left(refs, i);
    assert(drop_safe(world, before, blocks, r, low, high));
    lemma_block_stands(world, before, now, blocks, left, refs, i, i, low, high);
    assert forall|k: int| 0 <= k < refs.len() implies spans_apart(
        block_of(#[trigger] refs[k]) as int,
        block_size(before, block_of(refs[k])),
        mode_at(world),
        8,
    ) && spans_apart(
        block_of(refs[k]) as int,
        block_size(before, block_of(refs[k])),
        low,
        high - low,
    ) by {
        assert(drop_safe(world, before, blocks, refs[k], low, high));
    }
    let mode = mode_at(world);
    lemma_span_stands(world, before, now, blocks, left, refs, i, low, high, mode, 8);
    lemma_span_stands(world, before, now, blocks, left, refs, i, low, high, low, high - low);
    law_word_of_bytes(now, before, mode);
    if times(some, r) > 0 {
        let j = lemma_occurs(some, r);
        assert(count_of(now, some[j]) == count_of(before, r) - times(some, r));
    } else {
        assert forall|p: int| r - 8 <= p < r implies #[trigger] now(p) == before(p) by {
            assert(in_block(before, block, p));
            assert(!idle(world, now, left, p));
            assert(!idle(world, before, blocks, p));
            if counted(some, p) {
                let j = choose|j: int|
                    0 <= j < some.len() && (#[trigger] some[j]) - 8 <= p < some[j];
                assert(some[j] == refs[j]);
                lemma_occurs_counts(some, j);
                assert(blocks_apart(before, refs[j], refs[i]));
                assert(drop_safe(world, before, blocks, refs[j], low, high));
                assert(in_block(before, block_of(refs[j]), p));
            }
        }
        law_word_of_bytes(now, before, r - 8);
    }
    assert forall|p: int| #[trigger] in_block(now, block, p) implies !idle(world, now, left, p) by {
        assert(in_block(before, block, p));
    }
}

proof fn lemma_occurs(refs: Seq<u64>, r: u64) -> (j: int)
    requires
        times(refs, r) > 0,
    ensures
        0 <= j < refs.len(),
        refs[j] == r,
    decreases refs.len(),
{
    if refs.last() == r {
        refs.len() - 1
    } else {
        lemma_occurs(refs.drop_last(), r)
    }
}

proof fn lemma_occurs_counts(refs: Seq<u64>, j: int)
    requires
        0 <= j < refs.len(),
    ensures
        times(refs, refs[j]) > 0,
{
    lemma_times_left(refs, j);
}

/// One reference more.
#[verifier::rlimit(40)]
proof fn lemma_one_more(
    world: World,
    before: spec_fn(int) -> u8,
    now: spec_fn(int) -> u8,
    next: spec_fn(int) -> u8,
    blocks: Seq<u64>,
    left: Seq<u64>,
    least: Seq<u64>,
    refs: Seq<u64>,
    i: int,
    low: int,
    high: int,
)
    requires
        low < high,
        refs_safe(world, before, blocks, refs, low, high),
        0 <= i < refs.len(),
        dropped_each(world, before, now, blocks, left, refs.take(i), low, high),
        dropped(world, now, next, left, least, refs[i], low, high),
    ensures
        dropped_each(world, before, next, blocks, least, refs.take(i + 1), low, high),
{
    let some = refs.take(i);
    let more = refs.take(i + 1);
    let r = refs[i];
    let block = block_of(r);
    let last = count_of(now, r) == 1 && releases(world, now);
    lemma_next_safe(world, before, now, blocks, left, refs, i, low, high);
    lemma_times_left(refs, i);
    lemma_times_take(refs, i, r);
    assert(more[i] == r);
    assert(times(more, r) <= count_of(before, r)) by {
        lemma_times_grow(refs, i + 1, refs.len() as int, r);
        assert(refs.take(refs.len() as int) =~= refs);
    }
    assert forall|p: int| gone(world, before, more, p) == (#[trigger] gone(world, before, some, p)
        || (last && in_block(before, block, p))) by {
        if gone(world, before, more, p) {
            let j = choose|j: int|
                0 <= j < more.len() && times(more, more[j]) == count_of(before, more[j])
                    && #[trigger] in_block(before, block_of(more[j]), p);
            lemma_times_take(refs, i, more[j]);
            if more[j] != r {
                assert(some[j] == more[j]);
                assert(in_block(before, block_of(some[j]), p));
            }
        }
        if gone(world, before, some, p) {
            let j = choose|j: int|
                0 <= j < some.len() && times(some, some[j]) == count_of(before, some[j])
                    && #[trigger] in_block(before, block_of(some[j]), p);
            assert(some[j] == more[j] && some[j] == refs[j]);
            lemma_times_take(refs, i, some[j]);
            assert(in_block(before, block_of(more[j]), p));
        }
        if last && in_block(before, block, p) {
            assert(in_block(before, block_of(more[i]), p));
        }
    }
    assert forall|p: int| in_block(now, block, p) == in_block(before, block, p) by {}
    assert forall|p: int| #[trigger]
        idle(world, next, least, p) == (idle(world, before, blocks, p) || gone(
            world,
            before,
            more,
            p,
        )) by {
        assert(gone(world, before, some, p) || !gone(world, before, some, p));
        assert(idle(world, now, left, p) == (idle(world, before, blocks, p) || gone(
            world,
            before,
            some,
            p,
        )));
        assert(in_block(now, block, p) == in_block(before, block, p));
    }
    assert forall|p: int|
        !idle(world, before, blocks, p) && !gone(world, before, more, p) && !counted(more, p) && (p
            < low || high <= p) implies #[trigger] next(p) == before(p) by {
        assert(!gone(world, before, some, p));
        assert(!counted(some, p)) by {
            if counted(some, p) {
                let j = choose|j: int|
                    0 <= j < some.len() && (#[trigger] some[j]) - 8 <= p < some[j];
                assert(more[j] == some[j]);
            }
        }
        assert(now(p) == before(p));
        assert(!(more[i] - 8 <= p < more[i]));
        assert(!idle(world, now, left, p));
    }
    assert forall|j: int|
        0 <= j < more.len() && (times(more, more[j]) < count_of(before, more[j]) || !releases(
            world,
            before,
        )) implies count_of(next, #[trigger] more[j]) == count_of(before, more[j]) - times(
        more,
        more[j],
    ) by {
        lemma_times_take(refs, i, more[j]);
        if more[j] == r {
            assert(!last);
        } else {
            let o = more[j];
            assert(some[j] == o && refs[j] == o);
            assert(count_of(now, some[j]) == count_of(before, o) - times(some, o));
            assert(blocks_apart(before, refs[j], refs[i]));
            assert(drop_safe(world, before, blocks, refs[j], low, high));
            lemma_block_stands(world, before, now, blocks, left, refs, i, j, low, high);
            assert forall|p: int| o - 8 <= p < o implies #[trigger] next(p) == now(p) by {
                assert(in_block(before, block_of(o), p));
                assert(!idle(world, now, left, p));
            }
            law_word_of_bytes(next, now, o - 8);
        }
    }
}

// A list of strings

/// The elements of a list.
pub open spec fn list_items(mem: spec_fn(int) -> u8, list: u64) -> Seq<u64> {
    Seq::new(word_at(mem, list as int) as nat, |i: int| word_at(mem, list + 16 + 8 * i))
}

/// The references that go with a list of strings: its elements, and the list.
pub open spec fn with_elements(mem: spec_fn(int) -> u8, list: u64) -> Seq<u64> {
    list_items(mem, list).push(list)
}

/// The registers that `drop_string_array` saves.
pub open spec fn array_saves() -> Seq<Reg> {
    seq![Rbx, Rsi, Rdi]
}

/// Whether a list of strings can be dropped.
pub open spec fn can_drop_array(world: World, m: Machine, blocks: Seq<u64>) -> bool {
    let list = m.regs[Rcx];
    let top = m.regs[Rsp] as int;
    &&& 64 <= top
    &&& refs_safe(world, m.mem, blocks, with_elements(m.mem, list), top - 64, top)
    &&& 32 + 8 * word_at(m.mem, list as int) <= block_size(m.mem, block_of(list))
}

/// The state of the routine when `i` references are dropped.
spec fn array_state(
    world: World,
    m: Machine,
    now: Machine,
    blocks: Seq<u64>,
    left: Seq<u64>,
    i: int,
) -> bool {
    let list = m.regs[Rcx];
    let top = m.regs[Rsp] as int;
    let refs = with_elements(m.mem, list);
    &&& 0 <= i <= refs.len()
    &&& now.regs[Rsp] == top - 56
    &&& now.regs[Rbx] == list
    &&& now.regs[Rdi] == refs.len() - 1
    &&& saved(now.mem, top, array_saves(), m.regs)
    &&& dropped_each(world, m.mem, now.mem, blocks, left, refs.take(i), top - 64, top)
    &&& forall|reg: Reg|
        !volatile(reg) && reg != Rsp && !among(reg, array_saves()) ==> #[trigger] now.regs[reg]
            == m.regs[reg]
}

/// The end: the list itself, and the return.
proof fn lemma_array_end(
    world: World,
    m: Machine,
    now: Machine,
    blocks: Seq<u64>,
    left: Seq<u64>,
) -> (end: (Machine, Seq<u64>))
    requires
        can_drop_array(world, m, blocks),
        array_state(world, m, now, blocks, left, word_at(m.mem, m.regs[Rcx] as int) as int),
    ensures
        ({
            let (after, least) = end;
            let top = m.regs[Rsp] as int;
            let refs = with_elements(m.mem, m.regs[Rcx]);
            &&& ends_in(world, drop_string_array_program(), 13, now, Outcome::Returned(after))
            &&& came_back(m, after)
            &&& dropped_each(world, m.mem, after.mem, blocks, least, refs, top - 64, top)
        }),
{
    let program = drop_string_array_program();
    let run = Run { world, program, start: 13, before: now };
    let list = m.regs[Rcx];
    let top = m.regs[Rsp] as int;
    let refs = with_elements(m.mem, list);
    let n = refs.len() - 1;
    let regs = array_saves();
    assert(regs[0] == Rbx && regs[1] == Rsi && regs[2] == Rdi);
    assert(program.len() == 20);
    lemma_begin(run);
    lemma_mov(run, 13, now, Rcx, Rbx);
    let calling = now.set(Rcx, list);
    lemma_call(run, 14, calling, Symbol::RcDec);
    assert(refs[n] == list);
    lemma_next_safe(world, m.mem, now.mem, blocks, left, refs, n, top - 64, top);
    let (out, least) = lemma_drop_from(
        world,
        now.mem,
        calling,
        program,
        15,
        left,
        top - 64,
        top,
    );
    lemma_one_more(
        world,
        m.mem,
        now.mem,
        out.mem,
        blocks,
        left,
        least,
        refs,
        n,
        top - 64,
        top,
    );
    assert(refs.take(n + 1) =~= refs);
    let run2 = Run { world, program, start: 15, before: out };
    lemma_begin(run2);
    lemma_saved_stays(now.mem, out.mem, top, regs, m.regs);
    assert(part_of(frame_tail(regs, 32), program, 15));
    let after = lemma_frame_tail(run2, 15, m, out, regs, 32);
    law_ends_alone(world, program, 15, out, Outcome::Returned(after));
    law_call(world, program, 13, now, Symbol::RcDec, 15, calling, out, Outcome::Returned(after));
    (after, least)
}

/// The loop, when `i` elements are dropped.
proof fn lemma_array_loop(
    world: World,
    m: Machine,
    now: Machine,
    blocks: Seq<u64>,
    left: Seq<u64>,
    i: int,
) -> (end: (Machine, Seq<u64>))
    requires
        can_drop_array(world, m, blocks),
        array_state(world, m, now, blocks, left, i),
        i <= word_at(m.mem, m.regs[Rcx] as int),
        now.regs[Rsi] == i,
    ensures
        ({
            let (after, least) = end;
            let top = m.regs[Rsp] as int;
            let refs = with_elements(m.mem, m.regs[Rcx]);
            &&& ends_in(world, drop_string_array_program(), 7, now, Outcome::Returned(after))
            &&& came_back(m, after)
            &&& dropped_each(world, m.mem, after.mem, blocks, least, refs, top - 64, top)
        }),
    decreases word_at(m.mem, m.regs[Rcx] as int) - i,
{
    let program = drop_string_array_program();
    let run = Run { world, program, start: 7, before: now };
    let list = m.regs[Rcx];
    let top = m.regs[Rsp] as int;
    let refs = with_elements(m.mem, list);
    let n = word_at(m.mem, list as int);
    assert(program.len() == 20);
    lemma_begin(run);
    lemma_alu(run, 7, now, Alu::Cmp, Rsi, Rdi);
    let m1 = operated(now, Alu::Cmp, Rsi, n);
    law_comparisons_order(i as u64, n);
    lemma_jcc(run, 8, m1, Ae, false, Hop::Forward(5));
    if i == n {
        let (after, least) = lemma_array_end(world, m, m1, blocks, left);
        law_runs_into(world, program, 7, now, 13, m1, Outcome::Returned(after));
        (after, least)
    } else {
        let r = refs[i];
        assert(r == word_at(m.mem, list + 16 + 8 * i));
        assert(word_at(now.mem, list + 16 + 8 * i) == r) by {
            assert(refs[n as int] == list);
            assert(drop_safe(world, m.mem, blocks, refs[n as int], top - 64, top));
            lemma_times_left(refs, n as int);
            lemma_times_grow(refs, i, n as int, list);
            lemma_block_stands(
                world,
                m.mem,
                now.mem,
                blocks,
                left,
                refs,
                i,
                n as int,
                top - 64,
                top,
            );
            assert forall|p: int| list + 16 + 8 * i <= p < list + 24 + 8 * i implies #[trigger] (
            now.mem)(p) == (m.mem)(p) by {
                assert(in_block(m.mem, block_of(list), p));
            }
            law_word_of_bytes(now.mem, m.mem, list + 16 + 8 * i);
        }
        assert(drop_safe(world, m.mem, blocks, refs[n as int], top - 64, top));
        assert(refs[n as int] == list);
        assert(m1.address(world, index8_d(Rbx, Rsi, 16)) == list + 16 + 8 * i);
        lemma_load(run, 9, m1, Rcx, index8_d(Rbx, Rsi, 16));
        let calling = m1.set(Rcx, r);
        lemma_call(run, 10, calling, Symbol::RcDec);
        lemma_next_safe(world, m.mem, now.mem, blocks, left, refs, i, top - 64, top);
        let (out, least) = lemma_drop_from(
            world,
            now.mem,
            calling,
            program,
            11,
            left,
            top - 64,
            top,
        );
        lemma_one_more(
            world,
            m.mem,
            now.mem,
            out.mem,
            blocks,
            left,
            least,
            refs,
            i,
            top - 64,
            top,
        );
        let run2 = Run { world, program, start: 11, before: out };
        lemma_begin(run2);
        let n1 = lemma_inc(run2, 11, out, Rsi);
        lemma_jmp(run2, 12, n1, false, Hop::Back(5));
        lemma_saved_stays(now.mem, out.mem, top, array_saves(), m.regs);
        assert(array_saves()[1] == Rsi && array_saves()[0] == Rbx && array_saves()[2] == Rdi);
        let (after, none_left) = lemma_array_loop(world, m, n1, blocks, least, i + 1);
        law_runs_into(world, program, 11, out, 7, n1, Outcome::Returned(after));
        law_call(
            world,
            program,
            7,
            now,
            Symbol::RcDec,
            11,
            calling,
            out,
            Outcome::Returned(after),
        );
        (after, none_left)
    }
}

/// `drop_string_array` drops each string of a list, and then the list.
pub proof fn law_drop_string_array(world: World, m: Machine, blocks: Seq<u64>) -> (end: (
    Machine,
    Seq<u64>,
))
    requires
        can_drop_array(world, m, blocks),
    ensures
        ({
            let (after, left) = end;
            let top = m.regs[Rsp] as int;
            let refs = with_elements(m.mem, m.regs[Rcx]);
            &&& ends_in(world, drop_string_array_program(), 0, m, Outcome::Returned(after))
            &&& came_back(m, after)
            &&& dropped_each(world, m.mem, after.mem, blocks, left, refs, top - 64, top)
        }),
{
    let program = drop_string_array_program();
    let run = Run { world, program, start: 0, before: m };
    let regs = array_saves();
    let list = m.regs[Rcx];
    let top = m.regs[Rsp] as int;
    let refs = with_elements(m.mem, list);
    let n = word_at(m.mem, list as int);
    assert(program.len() == 20);
    assert(regs[0] == Rbx && regs[1] == Rsi && regs[2] == Rdi);
    assert(refs[n as int] == list);
    assert(drop_safe(world, m.mem, blocks, refs[n as int], top - 64, top));
    assert(part_of(frame_head(regs, 32), program, 0));
    let m1 = lemma_frame_head(run, m, regs, 32);
    lemma_mov(run, 4, m1, Rbx, Rcx);
    let m2 = m1.set(Rbx, list);
    assert(m2.address(world, at_b(Rbx, 0)) == list);
    law_kept_bytes_keep_words(m.mem, m1.mem, top - 24, top, list as int);
    lemma_load(run, 5, m2, Rdi, at_b(Rbx, 0));
    let m3 = m2.set(Rdi, n);
    let m4 = lemma_zero_d(run, 6, m3, Rsi);
    assert(refs.take(0) =~= Seq::empty());
    assert forall|p: int| #[trigger] idle(world, m.mem, blocks, p) implies (m4.mem)(p) == (m.mem)(
        p,
    ) by {}
    lemma_heap_stands(world, m.mem, m4.mem, blocks);
    let (after, left) = lemma_array_loop(world, m, m4, blocks, blocks, 0);
    law_runs_into(world, program, 0, m, 7, m4, Outcome::Returned(after));
    (after, left)
}

} // verus!
