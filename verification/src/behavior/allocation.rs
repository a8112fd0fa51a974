//! The heap as its users see it: which memory is the allocator's, what an allocation hands
//! out and what a release gives back.

use crate::behavior::heap::{
    bumps, came_back, first_fit, fresh_block, law_heap_alloc, law_rc_free, link, lists, outside,
    region_end, returns_with, reuses, rounded, separate, volatile,
};
use crate::linking::{ends_in, entered, law_ends_alone, returned_home};
use crate::machine::{
    apart, comes_to, law_word_keeps_bytes, law_word_of_bytes, law_word_reads_back, word_at,
    word_span, wrap, Machine, Outcome, World,
};
use crate::runtime::heap::{heap_alloc_program, rc_free_program};
use crate::symbols::Symbol;
use crate::x86::Reg::{Rax, Rcx, Rsp};
use crate::x86::{Insn, Reg};
use vstd::prelude::*;

verus! {

/// The bytes of a block, header and all.
pub open spec fn block_size(mem: spec_fn(int) -> u8, block: u64) -> int {
    word_at(mem, block as int) as int
}

/// Whether a byte lies in a block.
pub open spec fn in_block(mem: spec_fn(int) -> u8, block: u64, p: int) -> bool {
    block <= p < block + block_size(mem, block)
}

/// Whether the spans of `n` bytes from `a` and of `k` bytes from `b` share no byte.
pub open spec fn spans_apart(a: int, n: int, b: int, k: int) -> bool {
    a + n <= b || b + k <= a
}

/// Where the list of free blocks starts.
pub open spec fn head_at(world: World) -> int {
    (world.place)(Symbol::HeapFreeHead) as int
}

/// Where the bump pointer lies.
pub open spec fn next_at(world: World) -> int {
    (world.place)(Symbol::HeapNext) as int
}

/// Whether a span lies apart from the part of the region that was never handed out.
pub open spec fn apart_from_rest(world: World, mem: spec_fn(int) -> u8, a: int, n: int) -> bool {
    let fresh = fresh_block(world, mem) as int;
    fresh >= region_end(world) || spans_apart(a, n, fresh, region_end(world) - fresh)
}

/// Whether a byte is the allocator's: its two words, the free blocks, and the part of the
/// region that was never handed out.
pub open spec fn idle(world: World, mem: spec_fn(int) -> u8, blocks: Seq<u64>, p: int) -> bool {
    ||| head_at(world) <= p < head_at(world) + 8
    ||| next_at(world) <= p < next_at(world) + 8
    ||| exists|k: int| 0 <= k < blocks.len() && #[trigger] in_block(mem, blocks[k], p)
    ||| fresh_block(world, mem) <= p < region_end(world)
}

/// Whether a free block is one: it holds its header, it lies in memory, and apart from the
/// rest of the allocator's memory.
pub open spec fn block_fits(world: World, mem: spec_fn(int) -> u8, block: u64) -> bool {
    let size = block_size(mem, block);
    &&& block != 0
    &&& 16 <= size
    &&& block + size <= u64::MAX / 2
    &&& spans_apart(block as int, size, head_at(world), 8)
    &&& spans_apart(block as int, size, next_at(world), 8)
    &&& apart_from_rest(world, mem, block as int, size)
}

/// The state of the heap between calls: the free list holds these blocks, and nothing of the
/// allocator's memory overlaps.
pub open spec fn heap_fits(world: World, mem: spec_fn(int) -> u8, blocks: Seq<u64>) -> bool {
    &&& lists(mem, head_at(world), blocks)
    &&& 0 < (world.place)(Symbol::HeapBase)
    &&& region_end(world) <= u64::MAX / 2 - 64
    &&& fresh_block(world, mem) <= region_end(world) + 7
    &&& spans_apart(head_at(world), 8, next_at(world), 8)
    &&& apart_from_rest(world, mem, head_at(world), 8)
    &&& apart_from_rest(world, mem, next_at(world), 8)
    &&& forall|k: int| 0 <= k < blocks.len() ==> block_fits(world, mem, #[trigger] blocks[k])
    &&& forall|i: int, j: int|
        0 <= i < blocks.len() && 0 <= j < blocks.len() && i != j ==> spans_apart(
            #[trigger] blocks[i] as int,
            block_size(mem, blocks[i]),
            #[trigger] blocks[j] as int,
            block_size(mem, blocks[j]),
        )
}

/// Whether a payload of `size` bytes can be allocated: a free block or the rest of the
/// region holds it with its header.
pub open spec fn has_room(world: World, mem: spec_fn(int) -> u8, blocks: Seq<u64>,
    size: int) -> bool {
    ||| exists|k: int| 0 <= k < blocks.len() && block_size(mem, #[trigger] blocks[k]) >= size + 16
    ||| fresh_block(world, mem) + size + 16 <= region_end(world)
}

/// The bytes of the region that were never handed out.
pub open spec fn spare(world: World, mem: spec_fn(int) -> u8) -> int {
    region_end(world) - fresh_block(world, mem)
}

/// The block behind a payload.
pub open spec fn block_of(payload: u64) -> u64 {
    (payload - 16) as u64
}

/// What an allocation of `size` bytes leaves: a block with a count of one whose bytes were
/// the allocator's and are no more, at most the block's rounded size taken off the rest of
/// the region, and every byte that was not the allocator's as it was.
pub open spec fn allocates(
    world: World,
    before: spec_fn(int) -> u8,
    after: spec_fn(int) -> u8,
    blocks: Seq<u64>,
    left: Seq<u64>,
    size: int,
    payload: u64,
) -> bool {
    let block = block_of(payload);
    &&& heap_fits(world, after, left)
    &&& 16 < payload
    &&& block_size(after, block) >= size + 16
    &&& block + block_size(after, block) <= u64::MAX / 2
    &&& word_at(after, payload - 8) == 1
    &&& spare(world, before) - (size + 23) <= spare(world, after)
    &&& forall|p: int| #[trigger]
        in_block(after, block, p) ==> idle(world, before, blocks, p) && !idle(world, after, left, p)
    &&& forall|p: int| #[trigger] idle(world, after, left, p) ==> idle(world, before, blocks, p)
    &&& forall|p: int| !idle(world, before, blocks, p) ==> #[trigger] after(p) == before(p)
}

proof fn lemma_first_fit_is_room(mem: spec_fn(int) -> u8, blocks: Seq<u64>, need: u64, k: int)
    requires
        0 <= k <= blocks.len(),
    ensures
        ({
            let fit = first_fit(mem, blocks, need, k);
            &&& k <= fit <= blocks.len()
            &&& fit < blocks.len() ==> block_size(mem, blocks[fit]) >= need
            &&& fit == blocks.len() ==> forall|j: int|
                k <= j < blocks.len() ==> block_size(mem, #[trigger] blocks[j]) < need
        }),
    decreases blocks.len() - k,
{
    if k < blocks.len() && word_at(mem, blocks[k] as int) < need {
        lemma_first_fit_is_room(mem, blocks, need, k + 1);
    }
}

proof fn lemma_fits_separate(world: World, mem: spec_fn(int) -> u8, blocks: Seq<u64>)
    requires
        heap_fits(world, mem, blocks),
    ensures
        separate(head_at(world), blocks),
{
    assert forall|k: int| 0 <= k < blocks.len() implies #[trigger] blocks[k] + 16 < word_span() by {
        assert(block_fits(world, mem, blocks[k]));
    }
    assert forall|k: int| 0 <= k < blocks.len() implies apart(
        #[trigger] blocks[k] as int,
        head_at(world),
    ) && apart(blocks[k] + 8, head_at(world)) by {
        assert(block_fits(world, mem, blocks[k]));
    }
    assert forall|i: int, j: int| 0 <= i < blocks.len() && 0 <= j < blocks.len() && i != j implies {
        &&& apart(#[trigger] blocks[i] + 8, #[trigger] blocks[j] + 8)
        &&& apart(blocks[i] as int, blocks[j] + 8)
    } by {
        assert(block_fits(world, mem, blocks[i]) && block_fits(world, mem, blocks[j]));
    }
}

/// Reusing a free block keeps the heap in order.
#[verifier::rlimit(40)]
proof fn lemma_reuse_allocates(world: World, m: Machine, after: Machine, blocks: Seq<u64>, k: int,
    size: int)
    requires
        heap_fits(world, m.mem, blocks),
        0 <= k < blocks.len(),
        0 <= size,
        block_size(m.mem, blocks[k]) >= size + 16,
        reuses(world, m, after, blocks, k),
    ensures
        allocates(world, m.mem, after.mem, blocks, blocks.remove(k), size, after.regs[Rax]),
{
    let head = head_at(world);
    let next = next_at(world);
    let left = blocks.remove(k);
    let block = blocks[k];
    let cell = link(head, blocks, k);
    assert(block_fits(world, m.mem, block));
    if k > 0 {
        assert(block_fits(world, m.mem, blocks[k - 1]));
        assert(spans_apart(
            blocks[k - 1] as int,
            block_size(m.mem, blocks[k - 1]),
            blocks[k] as int,
            block_size(m.mem, blocks[k]),
        ));
    }
    assert(word_at(after.mem, next) == word_at(m.mem, next));
    assert(fresh_block(world, after.mem) == fresh_block(world, m.mem));
    assert(block_size(after.mem, block) == block_size(m.mem, block));
    assert(block_of(after.regs[Rax]) == block);
    assert forall|j: int| 0 <= j < left.len() implies block_size(after.mem, #[trigger] left[j])
        == block_size(m.mem, left[j]) by {
        let i = if j < k {
            j
        } else {
            j + 1
        };
        assert(left[j] == blocks[i]);
        assert(block_fits(world, m.mem, blocks[i]));
        assert(spans_apart(
            blocks[i] as int,
            block_size(m.mem, blocks[i]),
            blocks[k] as int,
            block_size(m.mem, blocks[k]),
        ));
        if k > 0 && i != k - 1 {
            assert(spans_apart(
                blocks[i] as int,
                block_size(m.mem, blocks[i]),
                blocks[k - 1] as int,
                block_size(m.mem, blocks[k - 1]),
            ));
        }
    }
    assert forall|j: int| 0 <= j < left.len() implies block_fits(
        world,
        after.mem,
        #[trigger] left[j],
    ) by {
        let i = if j < k {
            j
        } else {
            j + 1
        };
        assert(left[j] == blocks[i]);
        assert(block_fits(world, m.mem, blocks[i]));
    }
    assert forall|i: int, j: int| 0 <= i < left.len() && 0 <= j < left.len()
        && i != j implies spans_apart(
        #[trigger] left[i] as int,
        block_size(after.mem, left[i]),
        #[trigger] left[j] as int,
        block_size(after.mem, left[j]),
    ) by {
        let a = if i < k {
            i
        } else {
            i + 1
        };
        let b = if j < k {
            j
        } else {
            j + 1
        };
        assert(left[i] == blocks[a] && left[j] == blocks[b]);
    }
    assert forall|p: int| #[trigger] idle(world, after.mem, left, p) implies idle(
        world,
        m.mem,
        blocks,
        p,
    ) by {
        if exists|j: int| 0 <= j < left.len() && #[trigger] in_block(after.mem, left[j], p) {
            let j = choose|j: int| 0 <= j < left.len()
                && #[trigger] in_block(after.mem, left[j], p);
            let i = if j < k {
                j
            } else {
                j + 1
            };
            assert(left[j] == blocks[i]);
            assert(in_block(m.mem, blocks[i], p));
        }
    }
    assert forall|p: int| #[trigger] in_block(after.mem, block, p) implies idle(
        world,
        m.mem,
        blocks,
        p,
    ) && !idle(world, after.mem, left, p) by {
        assert(in_block(m.mem, blocks[k], p));
        if exists|j: int| 0 <= j < left.len() && #[trigger] in_block(after.mem, left[j], p) {
            let j = choose|j: int| 0 <= j < left.len()
                && #[trigger] in_block(after.mem, left[j], p);
            let i = if j < k {
                j
            } else {
                j + 1
            };
            assert(left[j] == blocks[i]);
            assert(spans_apart(
                blocks[i] as int,
                block_size(m.mem, blocks[i]),
                blocks[k] as int,
                block_size(m.mem, blocks[k]),
            ));
        }
    }
    assert forall|p: int| !idle(world, m.mem, blocks,
        p) implies #[trigger] (after.mem)(p) == (m.mem)(
        p,
    ) by {
        assert(!in_block(m.mem, blocks[k], p));
        if k > 0 {
            assert(!in_block(m.mem, blocks[k - 1], p));
        }
        assert(outside(p, cell) && outside(p, block + 8));
    }
}

/// Taking a fresh block keeps the heap in order.
#[verifier::rlimit(40)]
proof fn lemma_bump_allocates(world: World, m: Machine, after: Machine, blocks: Seq<u64>, size: int)
    requires
        heap_fits(world, m.mem, blocks),
        0 <= size,
        fresh_block(world, m.mem) + size + 16 <= region_end(world),
        bumps(world, m, after, (size + 16) as u64),
    ensures
        allocates(world, m.mem, after.mem, blocks, blocks, size, after.regs[Rax]),
{
    let head = head_at(world);
    let next = next_at(world);
    let block = fresh_block(world, m.mem);
    let need = size + 16;
    assert(word_at(after.mem, next) == rounded(block + need));
    assert(fresh_block(world, after.mem) == rounded(block + need));
    assert(block_of(after.regs[Rax]) == block);
    assert(block_size(after.mem, block) == need);
    assert(word_at(after.mem, head) == word_at(m.mem, head));
    assert forall|j: int| 0 <= j < blocks.len() implies block_size(after.mem, #[trigger] blocks[j])
        == block_size(m.mem, blocks[j]) && word_at(after.mem, blocks[j] + 8) == word_at(
        m.mem,
        blocks[j] + 8,
    ) && block_fits(world, after.mem, blocks[j]) by {
        assert(block_fits(world, m.mem, blocks[j]));
    }
    assert(lists(after.mem, head, blocks)) by {
        assert forall|k: int| 0 <= k < blocks.len() implies word_at(
            after.mem,
            #[trigger] link(head, blocks, k),
        ) == blocks[k] by {
            assert(word_at(m.mem, link(head, blocks, k)) == blocks[k]);
            if k > 0 {
                assert(word_at(after.mem, blocks[k - 1] + 8) == word_at(m.mem, blocks[k - 1] + 8));
            }
        }
        let n = blocks.len() as int;
        if n > 0 {
            assert(word_at(after.mem, blocks[n - 1] + 8) == word_at(m.mem, blocks[n - 1] + 8));
        }
        assert(word_at(after.mem, link(head, blocks, n)) == 0);
    }
    assert forall|p: int| #[trigger] idle(world, after.mem, blocks, p) implies idle(
        world,
        m.mem,
        blocks,
        p,
    ) by {
        if exists|j: int| 0 <= j < blocks.len() && #[trigger] in_block(after.mem, blocks[j], p) {
            let j = choose|j: int|
                0 <= j < blocks.len() && #[trigger] in_block(after.mem, blocks[j], p);
            assert(in_block(m.mem, blocks[j], p));
        }
    }
    assert forall|p: int| #[trigger] in_block(after.mem, block, p) implies idle(
        world,
        m.mem,
        blocks,
        p,
    ) && !idle(world, after.mem, blocks, p) by {
        if exists|j: int| 0 <= j < blocks.len() && #[trigger] in_block(after.mem, blocks[j], p) {
            let j = choose|j: int|
                0 <= j < blocks.len() && #[trigger] in_block(after.mem, blocks[j], p);
            assert(block_fits(world, m.mem, blocks[j]));
        }
    }
}

/// An allocation hands out memory that was the allocator's and from then on is not, and
/// changes nothing that others hold; it traps exactly when there is no room.
pub proof fn law_allocation(world: World, m: Machine,
    blocks: Seq<u64>) -> (end: (Machine, Seq<u64>))
    requires
        heap_fits(world, m.mem, blocks),
        m.regs[Rcx] <= u64::MAX / 2,
    ensures
        ({
            let (after, left) = end;
            let room = has_room(world, m.mem, blocks, m.regs[Rcx] as int);
            &&& room ==> {
                &&& returns_with(world, heap_alloc_program(), m, after)
                &&& came_back(m, after)
                &&& allocates(
                    world,
                    m.mem,
                    after.mem,
                    blocks,
                    left,
                    m.regs[Rcx] as int,
                    after.regs[Rax],
                )
            }
            &&& !room ==> comes_to(world, heap_alloc_program(), 0, m, Outcome::Trapped(after))
        }),
{
    let size = m.regs[Rcx] as int;
    let need = (size + 16) as u64;
    lemma_fits_separate(world, m.mem, blocks);
    let after = law_heap_alloc(world, m, blocks);
    let fit = first_fit(m.mem, blocks, need, 0);
    lemma_first_fit_is_room(m.mem, blocks, need, 0);
    if fit < blocks.len() {
        lemma_reuse_allocates(world, m, after, blocks, fit, size);
        (after, blocks.remove(fit))
    } else {
        if fresh_block(world, m.mem) + need <= region_end(world) {
            lemma_bump_allocates(world, m, after, blocks, size);
        }
        (after, blocks)
    }
}

// Releasing

/// Whether a block is in use: it holds its header, and none of its bytes is the
/// allocator's.
pub open spec fn in_use(world: World, mem: spec_fn(int) -> u8, blocks: Seq<u64>,
    block: u64) -> bool {
    &&& block != 0
    &&& 16 <= block_size(mem, block)
    &&& block + block_size(mem, block) <= u64::MAX / 2
    &&& forall|p: int| #[trigger] in_block(mem, block, p) ==> !idle(world, mem, blocks, p)
}

/// A block in use lies apart from the allocator's memory.
proof fn lemma_in_use_fits(world: World, mem: spec_fn(int) -> u8, blocks: Seq<u64>, block: u64)
    requires
        heap_fits(world, mem, blocks),
        in_use(world, mem, blocks, block),
    ensures
        block_fits(world, mem, block),
        forall|k: int|
            0 <= k < blocks.len() ==> spans_apart(
                #[trigger] blocks[k] as int,
                block_size(mem, blocks[k]),
                block as int,
                block_size(mem, block),
            ),
{
    let head = head_at(world);
    let next = next_at(world);
    let fresh = fresh_block(world, mem) as int;
    let a = if block <= head {
        head
    } else {
        block as int
    };
    let b = if block <= next {
        next
    } else {
        block as int
    };
    let c = if block <= fresh {
        fresh
    } else {
        block as int
    };
    assert(in_block(mem, block, a) ==> !idle(world, mem, blocks, a));
    assert(in_block(mem, block, b) ==> !idle(world, mem, blocks, b));
    assert(in_block(mem, block, c) ==> !idle(world, mem, blocks, c));
    assert forall|k: int| 0 <= k < blocks.len() implies spans_apart(
        #[trigger] blocks[k] as int,
        block_size(mem, blocks[k]),
        block as int,
        block_size(mem, block),
    ) by {
        assert(block_fits(world, mem, blocks[k]));
        let d = if block <= blocks[k] {
            blocks[k] as int
        } else {
            block as int
        };
        assert(in_block(mem, blocks[k], d) ==> idle(world, mem, blocks, d));
        assert(in_block(mem, block, d) ==> !idle(world, mem, blocks, d));
    }
}

/// A release gives a block back: in arena mode memory stays as it is; else the block's
/// bytes become the allocator's, and nothing that others hold changes.
#[verifier::rlimit(40)]
pub proof fn law_release(world: World, m: Machine, blocks: Seq<u64>) -> (after: Machine)
    requires
        heap_fits(world, m.mem, blocks),
        16 < m.regs[Rcx],
        in_use(world, m.mem, blocks, block_of(m.regs[Rcx])),
    ensures
        returns_with(world, rc_free_program(), m, after),
        came_back(m, after),
        ({
            let block = block_of(m.regs[Rcx]);
            let more = seq![block] + blocks;
            let mode = word_at(m.mem, (world.place)(Symbol::AllocMode) as int);
            &&& mode != 0 ==> after.mem == m.mem
            &&& mode == 0 ==> {
                &&& heap_fits(world, after.mem, more)
                &&& spare(world, after.mem) == spare(world, m.mem)
                &&& forall|p: int| #[trigger]
                    idle(world, after.mem, more, p) == (idle(world, m.mem, blocks, p) || in_block(
                        m.mem,
                        block,
                        p,
                    ))
                &&& forall|p: int|
                    !idle(world, m.mem, blocks, p) && !in_block(m.mem, block, p) ==> #[trigger] (
                    after.mem)(p) == (m.mem)(p)
            }
        }),
{
    let head = head_at(world);
    let next = next_at(world);
    let block = block_of(m.regs[Rcx]);
    let more = seq![block] + blocks;
    let mode = word_at(m.mem, (world.place)(Symbol::AllocMode) as int);
    lemma_fits_separate(world, m.mem, blocks);
    lemma_in_use_fits(world, m.mem, blocks, block);
    assert forall|k: int| 0 <= k < more.len() implies block_fits(world, m.mem,
        #[trigger] more[k]) by {
        if k > 0 {
            assert(more[k] == blocks[k - 1]);
        }
    }
    assert forall|i: int, j: int| 0 <= i < more.len() && 0 <= j < more.len()
        && i != j implies spans_apart(
        #[trigger] more[i] as int,
        block_size(m.mem, more[i]),
        #[trigger] more[j] as int,
        block_size(m.mem, more[j]),
    ) by {
        if i > 0 {
            assert(more[i] == blocks[i - 1]);
        }
        if j > 0 {
            assert(more[j] == blocks[j - 1]);
        }
    }
    assert(separate(head, more)) by {
        assert forall|k: int| 0 <= k < more.len() implies #[trigger] more[k] + 16 < word_span() by {
            assert(block_fits(world, m.mem, more[k]));
        }
        assert forall|k: int| 0 <= k < more.len() implies apart(#[trigger] more[k] as int, head)
            && apart(more[k] + 8, head) by {
            assert(block_fits(world, m.mem, more[k]));
        }
        assert forall|i: int, j: int| 0 <= i < more.len() && 0 <= j < more.len() && i != j implies {
            &&& apart(#[trigger] more[i] + 8, #[trigger] more[j] + 8)
            &&& apart(more[i] as int, more[j] + 8)
        } by {
            assert(block_fits(world, m.mem, more[i]) && block_fits(world, m.mem, more[j]));
        }
    }
    let after = law_rc_free(world, m, blocks);
    if mode == 0 {
        assert(word_at(after.mem, next) == word_at(m.mem, next));
        assert(fresh_block(world, after.mem) == fresh_block(world, m.mem));
        assert forall|k: int| 0 <= k < more.len() implies block_size(after.mem, #[trigger] more[k])
            == block_size(m.mem, more[k]) && block_fits(world, after.mem, more[k]) by {
            assert(block_fits(world, m.mem, more[k]));
            assert(more[0] == block);
            if k > 0 {
                assert(spans_apart(
                    more[k] as int,
                    block_size(m.mem, more[k]),
                    more[0] as int,
                    block_size(m.mem, more[0]),
                ));
            }
        }
        assert forall|p: int| #[trigger]
            idle(world, after.mem, more, p) == (idle(world, m.mem, blocks, p) || in_block(
                m.mem,
                block,
                p,
            )) by {
            assert(more[0] == block);
            if in_block(m.mem, block, p) {
                assert(in_block(after.mem, more[0], p));
            }
            if exists|k: int| 0 <= k < blocks.len() && #[trigger] in_block(m.mem, blocks[k], p) {
                let k = choose|k: int|
                    0 <= k < blocks.len() && #[trigger] in_block(m.mem, blocks[k], p);
                assert(more[k + 1] == blocks[k]);
                assert(in_block(after.mem, more[k + 1], p));
            }
            if exists|k: int| 0 <= k < more.len() && #[trigger] in_block(after.mem, more[k], p) {
                let k = choose|k: int|
                    0 <= k < more.len() && #[trigger] in_block(after.mem, more[k], p);
                if k > 0 {
                    assert(more[k] == blocks[k - 1]);
                    assert(in_block(m.mem, blocks[k - 1], p));
                }
            }
        }
    }
    after
}

// Calling the allocator

/// A change of memory that is not the allocator's leaves the heap as it is.
pub proof fn lemma_heap_stands(
    world: World,
    before: spec_fn(int) -> u8,
    after: spec_fn(int) -> u8,
    blocks: Seq<u64>,
)
    requires
        heap_fits(world, before, blocks),
        forall|p: int| #[trigger] idle(world, before, blocks, p) ==> after(p) == before(p),
    ensures
        heap_fits(world, after, blocks),
        spare(world, after) == spare(world, before),
        forall|p: int| #[trigger] idle(world, after, blocks, p) == idle(world, before, blocks, p),
{
    let head = head_at(world);
    let next = next_at(world);
    assert(word_at(after, head) == word_at(before, head)) by {
        lemma_idle_word(world, before, after, blocks, head);
    }
    assert(word_at(after, next) == word_at(before, next)) by {
        lemma_idle_word(world, before, after, blocks, next);
    }
    assert forall|k: int| 0 <= k < blocks.len() implies block_size(after, #[trigger] blocks[k])
        == block_size(before, blocks[k]) && word_at(after, blocks[k] + 8) == word_at(
        before,
        blocks[k] + 8,
    ) && block_fits(world, after, blocks[k]) by {
        let block = blocks[k];
        assert(block_fits(world, before, block));
        assert forall|p: int| block <= p < block + 16 implies #[trigger] idle(
            world,
            before,
            blocks,
            p,
        ) by {
            assert(in_block(before, blocks[k], p));
        }
        lemma_idle_word(world, before, after, blocks, block as int);
        lemma_idle_word(world, before, after, blocks, block + 8);
    }
    assert(lists(after, head, blocks)) by {
        assert forall|k: int| 0 <= k < blocks.len() implies word_at(
            after,
            #[trigger] link(head, blocks, k),
        ) == blocks[k] by {
            assert(word_at(before, link(head, blocks, k)) == blocks[k]);
            if k > 0 {
                assert(word_at(after, blocks[k - 1] + 8) == word_at(before, blocks[k - 1] + 8));
            }
        }
        let n = blocks.len() as int;
        if n > 0 {
            assert(word_at(after, blocks[n - 1] + 8) == word_at(before, blocks[n - 1] + 8));
        }
    }
    assert forall|p: int| #[trigger] idle(world, after, blocks, p) == idle(
        world,
        before,
        blocks,
        p,
    ) by {
        assert forall|k: int| 0 <= k < blocks.len() implies #[trigger] in_block(
            after,
            blocks[k],
            p,
        ) == in_block(before, blocks[k], p) by {}
        if exists|k: int| 0 <= k < blocks.len() && #[trigger] in_block(before, blocks[k], p) {
            let k = choose|k: int| 0 <= k < blocks.len()
                && #[trigger] in_block(before, blocks[k], p);
            assert(in_block(after, blocks[k], p));
        }
    }
}

proof fn lemma_idle_word(
    world: World,
    before: spec_fn(int) -> u8,
    after: spec_fn(int) -> u8,
    blocks: Seq<u64>,
    a: int,
)
    requires
        forall|p: int| #[trigger] idle(world, before, blocks, p) ==> after(p) == before(p),
        forall|p: int| a <= p < a + 8 ==> #[trigger] idle(world, before, blocks, p),
    ensures
        word_at(after, a) == word_at(before, a),
{
    assert forall|p: int| a <= p < a + 8 implies #[trigger] after(p) == before(p) by {
        assert(idle(world, before, blocks, p));
    }
    law_word_of_bytes(after, before, a);
}

/// Whether none of the `n` bytes from `a` is the allocator's.
pub open spec fn span_held(
    world: World,
    mem: spec_fn(int) -> u8,
    blocks: Seq<u64>,
    a: int,
    n: int,
) -> bool {
    forall|p: int| a <= p < a + n ==> !#[trigger] idle(world, mem, blocks, p)
}

/// What a call of the allocator for `size` bytes leaves to its caller: the registers it
/// counts on, a block out of the allocator's memory, and every other byte as it was, but for
/// the word below the stack.
pub open spec fn allocated(
    world: World,
    calling: Machine,
    out: Machine,
    blocks: Seq<u64>,
    left: Seq<u64>,
    size: int,
) -> bool {
    let payload = out.regs[Rax];
    let block = block_of(payload);
    let top = calling.regs[Rsp] as int;
    &&& out.regs[Rsp] == top
    &&& forall|reg: Reg|
        !volatile(reg) && reg != Rsp ==> #[trigger] out.regs[reg] == calling.regs[reg]
    &&& heap_fits(world, out.mem, left)
    &&& 16 < payload
    &&& block_size(out.mem, block) >= size + 16
    &&& block + block_size(out.mem, block) <= u64::MAX / 2
    &&& word_at(out.mem, payload - 8) == 1
    &&& spare(world, calling.mem) - (size + 23) <= spare(world, out.mem)
    &&& forall|p: int| #[trigger]
        in_block(out.mem, block, p) ==> idle(world, calling.mem, blocks, p) && !idle(
            world,
            out.mem,
            left,
            p,
        )
    &&& forall|p: int| #[trigger]
        idle(world, out.mem, left, p) ==> idle(world, calling.mem, blocks, p)
    &&& forall|p: int|
        !idle(world, calling.mem, blocks, p) && (p < top - 8 || top <= p) ==> #[trigger] (out.mem)(
            p,
        ) == (calling.mem)(p)
}

/// Calling the allocator.
pub proof fn lemma_alloc_call(
    world: World,
    program: Seq<Insn>,
    back: int,
    calling: Machine,
    blocks: Seq<u64>,
) -> (end: (Machine, Seq<u64>))
    requires
        (world.code)(Symbol::HeapAlloc) == heap_alloc_program(),
        heap_fits(world, calling.mem, blocks),
        calling.regs[Rcx] <= u64::MAX / 2,
        8 <= calling.regs[Rsp],
        span_held(world, calling.mem, blocks, calling.regs[Rsp] - 8, 8),
    ensures
        ({
            let (out, left) = end;
            let size = calling.regs[Rcx] as int;
            let start = entered(world, program, back, calling);
            let room = has_room(world, calling.mem, blocks, size);
            &&& room ==> {
                &&& ends_in(world, heap_alloc_program(), 0, start, Outcome::Returned(out))
                &&& returned_home(world, program, back, calling, out)
                &&& allocated(world, calling, out, blocks, left, size)
            }
            &&& !room ==> ends_in(world, heap_alloc_program(), 0, start, Outcome::Trapped(out))
        }),
{
    let start = entered(world, program, back, calling);
    let top = calling.regs[Rsp] as int;
    let at = top - 8;
    let site = (world.site)(program, back);
    let size = calling.regs[Rcx] as int;
    assert(wrap(top - 8) == at);
    assert forall|p: int| p < at
        || top <= p implies #[trigger] (start.mem)(p) == (calling.mem)(p) by {
        law_word_keeps_bytes(calling.mem, at, site, p);
    }
    lemma_heap_stands(world, calling.mem, start.mem, blocks);
    lemma_room_stands(world, calling.mem, start.mem, blocks, size);
    let (out, left) = law_allocation(world, start, blocks);
    if has_room(world, calling.mem, blocks, size) {
        law_ends_alone(world, heap_alloc_program(), 0, start, Outcome::Returned(out));
        law_word_reads_back(calling.mem, at, site);
        law_word_of_bytes(out.mem, start.mem, at);
    } else {
        law_ends_alone(world, heap_alloc_program(), 0, start, Outcome::Trapped(out));
    }
    (out, left)
}

pub proof fn lemma_room_stands(
    world: World,
    before: spec_fn(int) -> u8,
    after: spec_fn(int) -> u8,
    blocks: Seq<u64>,
    size: int,
)
    requires
        heap_fits(world, before, blocks),
        forall|p: int| #[trigger] idle(world, before, blocks, p) ==> after(p) == before(p),
    ensures
        has_room(world, after, blocks, size) == has_room(world, before, blocks, size),
{
    let next = next_at(world);
    lemma_idle_word(world, before, after, blocks, next);
    assert forall|k: int| 0 <= k < blocks.len() implies block_size(after, #[trigger] blocks[k])
        == block_size(before, blocks[k]) by {
        let block = blocks[k];
        assert(block_fits(world, before, block));
        assert forall|p: int| block <= p < block + 8 implies #[trigger] idle(
            world,
            before,
            blocks,
            p,
        ) by {
            assert(in_block(before, blocks[k], p));
        }
        lemma_idle_word(world, before, after, blocks, block as int);
    }
    if has_room(world, before, blocks, size) && fresh_block(world, before) + size + 16 > region_end(
        world,
    ) {
        let k = choose|k: int|
            0 <= k < blocks.len() && block_size(before, #[trigger] blocks[k]) >= size + 16;
        assert(block_size(after, blocks[k]) >= size + 16);
    }
}

} // verus!
