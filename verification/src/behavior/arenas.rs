//! Arenas: a function that allocates in one leaves the heap as it found it.

use crate::arena::{
    arena_reset_emission, carry_emission, carry_out_emission, enter_program, restore_mode_program,
    rewind_program, seed_program, word_count,
};
use crate::assembler::{assembled, contained, law_programs_assemble_in_sequence};
use crate::behavior::instructions::{
    lemma_begin, lemma_jcc, lemma_lea, lemma_load, lemma_mov, lemma_part, lemma_set_d, lemma_store,
    lemma_test, Run,
};
use crate::context::NativeCtx;
use crate::emission::Emission;
use crate::machine::{
    apart, flags_of_bits, flows, law_ends_are_unique, law_word_keeps_others, law_word_reads_back,
    part_of, word_at, word_span, Machine, Outcome, World,
};
use crate::mnemonics::{at_d, frame, lea, load, mov, rip, store};
use crate::symbols::Symbol;
use crate::x86::Cond::Ne;
use crate::x86::Reg::{R10, Rax, Rbp, Rdx};
use crate::x86::{Hop, Insn, Reg, Width};
use vstd::prelude::*;

verus! {

/// The word that a symbol names.
pub open spec fn cell(world: World, m: Machine, symbol: Symbol) -> u64 {
    word_at(m.mem, (world.place)(symbol) as int)
}

/// The word in a frame slot.
pub open spec fn slot_word(world: World, m: Machine, slot: i32) -> u64 {
    word_at(m.mem, m.address(world, frame(slot)))
}

/// Whether the two slots of an arena and the two cells of the heap share no byte.
pub open spec fn arena_apart(world: World, m: Machine, mark: i32, saved_mode: i32) -> bool {
    let mark_at = m.address(world, frame(mark));
    let mode_at = m.address(world, frame(saved_mode));
    let next = (world.place)(Symbol::HeapNext) as int;
    let flag = (world.place)(Symbol::AllocMode) as int;
    &&& apart(mark_at, mode_at)
    &&& apart(mark_at, next)
    &&& apart(mark_at, flag)
    &&& apart(mode_at, next)
    &&& apart(mode_at, flag)
    &&& apart(next, flag)
}

/// Entering an arena keeps the bump pointer and the arena mode in their slots, sets the
/// mode, and changes no other word and no register but `rax`.
pub proof fn law_arena_entry(
    world: World,
    mark: i32,
    saved_mode: i32,
    m: Machine,
) -> (after: Machine)
    requires
        arena_apart(world, m, mark, saved_mode),
    ensures
        flows(world, enter_program(mark, saved_mode), m, after),
        slot_word(world, after, mark) == cell(world, m, Symbol::HeapNext),
        slot_word(world, after, saved_mode) == cell(world, m, Symbol::AllocMode),
        cell(world, after, Symbol::HeapNext) == cell(world, m, Symbol::HeapNext),
        cell(world, after, Symbol::AllocMode) == 1,
        after.regs == m.regs.insert(Rax, 1),
        after.xmms == m.xmms,
        forall|a: int|
            apart(a, m.address(world, frame(mark))) && apart(
                a,
                m.address(world, frame(saved_mode)),
            ) && apart(a, (world.place)(Symbol::AllocMode) as int) ==> #[trigger] word_at(
                after.mem,
                a,
            ) == word_at(m.mem, a),
{
    let run = Run { world, program: enter_program(mark, saved_mode), start: 0, before: m };
    let mark_at = m.address(world, frame(mark));
    let mode_at = m.address(world, frame(saved_mode));
    let next_at = (world.place)(Symbol::HeapNext) as int;
    let flag_at = (world.place)(Symbol::AllocMode) as int;
    let next = word_at(m.mem, next_at);
    let mode = word_at(m.mem, flag_at);
    let m1 = m.set(Rax, next);
    let m2 = m1.store(Width::Quad, mark_at, next as int);
    let m3 = m2.set(Rax, mode);
    let m4 = m3.store(Width::Quad, mode_at, mode as int);
    let m5 = m4.set(Rax, 1);
    let m6 = m5.store(Width::Quad, flag_at, 1);
    lemma_begin(run);
    lemma_load(run, 0, m, Rax, rip(Symbol::HeapNext));
    assert(m1.address(world, frame(mark)) == mark_at);
    lemma_store(run, 1, m1, frame(mark), Rax);
    law_word_keeps_others(m1.mem, mark_at, next, flag_at);
    lemma_load(run, 2, m2, Rax, rip(Symbol::AllocMode));
    assert(m3.address(world, frame(saved_mode)) == mode_at);
    lemma_store(run, 3, m3, frame(saved_mode), Rax);
    lemma_set_d(run, 4, m4, Rax, 1);
    lemma_store(run, 5, m5, rip(Symbol::AllocMode), Rax);
    assert(m6.address(world, frame(mark)) == mark_at);
    assert(m6.address(world, frame(saved_mode)) == mode_at);
    law_word_reads_back(m5.mem, flag_at, 1);
    law_word_keeps_others(m5.mem, flag_at, 1, mark_at);
    law_word_keeps_others(m5.mem, flag_at, 1, mode_at);
    law_word_keeps_others(m5.mem, flag_at, 1, next_at);
    law_word_reads_back(m3.mem, mode_at, mode);
    law_word_keeps_others(m3.mem, mode_at, mode, mark_at);
    law_word_keeps_others(m3.mem, mode_at, mode, next_at);
    law_word_reads_back(m1.mem, mark_at, next);
    law_word_keeps_others(m1.mem, mark_at, next, next_at);
    assert forall|a: int|
        apart(a, mark_at) && apart(a, mode_at) && apart(a, flag_at) implies #[trigger] word_at(
        m6.mem,
        a,
    ) == word_at(m.mem, a) by {
        law_word_keeps_others(m5.mem, flag_at, 1, a);
        law_word_keeps_others(m3.mem, mode_at, mode, a);
        law_word_keeps_others(m1.mem, mark_at, next, a);
    }
    assert(m6.regs =~= m.regs.insert(Rax, 1));
    m6
}

/// Leaving an arena: the rewind and the restored mode.
pub open spec fn leave_arena_program(mark: i32, saved_mode: i32) -> Seq<Insn> {
    rewind_program(mark) + restore_mode_program(saved_mode)
}

/// A return that carries nothing out of its arena runs the leaving program.
pub proof fn law_arena_reset_is_the_leaving_program(ctx: NativeCtx)
    requires
        ctx.is_arena,
        !ctx.promotes_closure_return,
    ensures
        arena_reset_emission(ctx, None) == Emission::of_program(
            leave_arena_program(ctx.arena_mark_slot, ctx.arena_saved_mode_slot),
        ),
{
    law_programs_assemble_in_sequence(
        rewind_program(ctx.arena_mark_slot),
        restore_mode_program(ctx.arena_saved_mode_slot),
    );
}

/// Leaving an arena sets the bump pointer and the arena mode to what their slots hold, and
/// changes no other word and no register but `r10`: the function's value stays in place.
pub proof fn law_arena_leaving(
    world: World,
    mark: i32,
    saved_mode: i32,
    m: Machine,
) -> (after: Machine)
    requires
        arena_apart(world, m, mark, saved_mode),
    ensures
        flows(world, leave_arena_program(mark, saved_mode), m, after),
        cell(world, after, Symbol::HeapNext) == slot_word(world, m, mark),
        cell(world, after, Symbol::AllocMode) == slot_word(world, m, saved_mode),
        after.regs == m.regs.insert(R10, after.regs[R10]),
        after.xmms == m.xmms,
        forall|a: int|
            apart(a, (world.place)(Symbol::HeapNext) as int) && apart(
                a,
                (world.place)(Symbol::AllocMode) as int,
            ) ==> #[trigger] word_at(after.mem, a) == word_at(m.mem, a),
{
    let run = Run { world, program: leave_arena_program(mark, saved_mode), start: 0, before: m };
    let mark_at = m.address(world, frame(mark));
    let mode_at = m.address(world, frame(saved_mode));
    let next_at = (world.place)(Symbol::HeapNext) as int;
    let flag_at = (world.place)(Symbol::AllocMode) as int;
    let next = word_at(m.mem, mark_at);
    let mode = word_at(m.mem, mode_at);
    let m1 = m.set(R10, next);
    let m2 = m1.store(Width::Quad, next_at, next as int);
    let m3 = m2.set(R10, mode);
    let m4 = m3.store(Width::Quad, flag_at, mode as int);
    lemma_begin(run);
    lemma_load(run, 0, m, R10, frame(mark));
    lemma_store(run, 1, m1, rip(Symbol::HeapNext), R10);
    assert(m2.address(world, frame(saved_mode)) == mode_at);
    law_word_keeps_others(m1.mem, next_at, next, mode_at);
    lemma_load(run, 2, m2, R10, frame(saved_mode));
    lemma_store(run, 3, m3, rip(Symbol::AllocMode), R10);
    law_word_reads_back(m3.mem, flag_at, mode);
    law_word_keeps_others(m3.mem, flag_at, mode, next_at);
    law_word_reads_back(m1.mem, next_at, next);
    assert forall|a: int| apart(a, next_at) && apart(a, flag_at) implies #[trigger] word_at(
        m4.mem,
        a,
    ) == word_at(m.mem, a) by {
        law_word_keeps_others(m3.mem, flag_at, mode, a);
        law_word_keeps_others(m1.mem, next_at, next, a);
    }
    assert(m4.regs =~= m.regs.insert(R10, mode));
    m4
}

/// A call of an arena function leaves the bump pointer and the arena mode as it found them,
/// whatever the body does that keeps the frame pointer and the arena's two slots.
pub proof fn law_arena_calls_restore_the_heap(
    world: World,
    mark: i32,
    saved_mode: i32,
    m: Machine,
    entered: Machine,
    done: Machine,
    left: Machine,
)
    requires
        arena_apart(world, m, mark, saved_mode),
        flows(world, enter_program(mark, saved_mode), m, entered),
        done.regs[Rbp] == m.regs[Rbp],
        slot_word(world, done, mark) == slot_word(world, entered, mark),
        slot_word(world, done, saved_mode) == slot_word(world, entered, saved_mode),
        flows(world, leave_arena_program(mark, saved_mode), done, left),
    ensures
        cell(world, left, Symbol::HeapNext) == cell(world, m, Symbol::HeapNext),
        cell(world, left, Symbol::AllocMode) == cell(world, m, Symbol::AllocMode),
        left.regs[Rax] == done.regs[Rax],
        left.xmms == done.xmms,
{
    let after = law_arena_entry(world, mark, saved_mode, m);
    let entry = enter_program(mark, saved_mode);
    law_ends_are_unique(
        world,
        entry,
        0,
        m,
        Outcome::At(entry.len() as int, after),
        Outcome::At(entry.len() as int, entered),
    );
    let end = law_arena_leaving(world, mark, saved_mode, done);
    let leaving = leave_arena_program(mark, saved_mode);
    law_ends_are_unique(
        world,
        leaving,
        0,
        done,
        Outcome::At(leaving.len() as int, end),
        Outcome::At(leaving.len() as int, left),
    );
}

/// Seeding leaves a bump pointer that was set, and points an unset one at the region.
pub proof fn law_arena_seed(world: World, m: Machine) -> (after: Machine)
    ensures
        flows(world, seed_program(), m, after),
        ({
            let next = cell(world, m, Symbol::HeapNext);
            cell(world, after, Symbol::HeapNext) == if next == 0 {
                (world.place)(Symbol::HeapBase)
            } else {
                next
            }
        }),
        after.regs == m.regs.insert(Rax, after.regs[Rax]),
        forall|a: int|
            apart(a, (world.place)(Symbol::HeapNext) as int) ==> #[trigger] word_at(after.mem, a)
                == word_at(m.mem, a),
{
    let run = Run { world, program: seed_program(), start: 0, before: m };
    let next_at = (world.place)(Symbol::HeapNext) as int;
    let next = word_at(m.mem, next_at);
    let m1 = m.set(Rax, next);
    let m2 = m1.flagged(flags_of_bits(Width::Quad, next as int));
    lemma_begin(run);
    lemma_load(run, 0, m, Rax, rip(Symbol::HeapNext));
    lemma_test(run, 1, m1, Rax);
    lemma_jcc(run, 2, m2, Ne, true, Hop::Forward(2));
    let m3 = if next == 0 {
        m2.set(Rax, (world.place)(Symbol::HeapBase))
    } else {
        m2
    };
    if next == 0 {
        lemma_lea(run, 3, m2, Rax, rip(Symbol::HeapBase));
    }
    let seeded = m3.regs[Rax];
    let m4 = m3.store(Width::Quad, next_at, seeded as int);
    lemma_store(run, 4, m3, rip(Symbol::HeapNext), Rax);
    law_word_reads_back(m3.mem, next_at, seeded);
    assert forall|a: int| apart(a, next_at) implies #[trigger] word_at(m4.mem, a) == word_at(
        m.mem,
        a,
    ) by {
        law_word_keeps_others(m3.mem, next_at, seeded, a);
    }
    assert(m4.regs =~= m.regs.insert(Rax, seeded));
    m4
}

// Carrying a block out

/// The instructions that copy the words from `k` on of the `n` at `rax` down to `r10`.
pub open spec fn carry_program(k: int, n: int) -> Seq<Insn>
    decreases n - k,
{
    if k >= n {
        seq![]
    } else {
        seq![load(Rdx, at_d(Rax, (8 * k) as i32)), store(at_d(R10, (8 * k) as i32), Rdx)]
            + carry_program(k + 1, n)
    }
}

/// The instructions that carry a block of `size` bytes out of the arena.
pub open spec fn carry_out_program(mark: i32, size: i32) -> Seq<Insn> {
    seq![load(R10, frame(mark))] + (carry_program(0, word_count(size)) + seq![
        mov(Rax, R10),
        lea(R10, at_d(R10, size)),
        store(rip(Symbol::HeapNext), R10),
    ])
}

proof fn lemma_carry_is_straight(k: int, n: int)
    ensures
        forall|i: int|
            0 <= i < carry_program(k, n).len() ==> (#[trigger] carry_program(
                k,
                n,
            )[i]).jump_distance() == 0,
        contained(carry_program(k, n)),
    decreases n - k,
{
    if k < n {
        lemma_carry_is_straight(k + 1, n);
        let first = seq![
            load(Rdx, at_d(Rax, (8 * k) as i32)),
            store(at_d(R10, (8 * k) as i32), Rdx),
        ];
        let rest = carry_program(k + 1, n);
        assert forall|i: int| 0 <= i < carry_program(k, n).len() implies (
        #[trigger] carry_program(k, n)[i]).jump_distance() == 0 by {
            if i < 2 {
                assert(carry_program(k, n)[i] == first[i]);
            } else {
                assert(carry_program(k, n)[i] == rest[i - 2]);
            }
        }
    }
}

proof fn lemma_carry_assembles(k: int, n: int)
    ensures
        carry_emission(k, n) == Emission::of_program(carry_program(k, n)),
    decreases n - k,
{
    if k < n {
        lemma_carry_assembles(k + 1, n);
        lemma_carry_is_straight(k + 1, n);
        law_programs_assemble_in_sequence(
            seq![load(Rdx, at_d(Rax, (8 * k) as i32)), store(at_d(R10, (8 * k) as i32), Rdx)],
            carry_program(k + 1, n),
        );
    } else {
        reveal(assembled);
    }
}

/// The emitted copy of a returned closure is this program.
pub proof fn law_carry_out_is_the_program(mark: i32, size: i32)
    ensures
        carry_out_emission(mark, size) == Emission::of_program(carry_out_program(mark, size)),
{
    let n = word_count(size);
    let first = seq![load(R10, frame(mark))];
    let last = seq![
        mov(Rax, R10),
        lea(R10, at_d(R10, size)),
        store(rip(Symbol::HeapNext), R10),
    ];
    lemma_carry_assembles(0, n);
    lemma_carry_is_straight(0, n);
    law_programs_assemble_in_sequence(carry_program(0, n), last);
    assert(contained(carry_program(0, n) + last)) by {
        let both = carry_program(0, n) + last;
        assert forall|i: int| 0 <= i < both.len() implies 0 <= i + (
        #[trigger] both[i]).jump_distance() <= both.len() by {
            if i < carry_program(0, n).len() {
                assert(both[i] == carry_program(0, n)[i]);
            } else {
                assert(both[i] == last[i - carry_program(0, n).len()]);
            }
        }
    }
    law_programs_assemble_in_sequence(first, carry_program(0, n) + last);
}

/// Copying the words from `k` on.
proof fn lemma_carry(world: World, m: Machine, k: int, n: int) -> (after: Machine)
    requires
        0 <= k <= n <= 0x0FFF_FFFF,
        m.regs[R10] <= m.regs[Rax],
        m.regs[Rax] + 8 * n < word_span(),
    ensures
        flows(world, carry_program(k, n), m, after),
        forall|reg: Reg| reg != Rdx ==> #[trigger] after.regs[reg] == m.regs[reg],
        forall|j: int|
            k <= j < n ==> #[trigger] word_at(after.mem, m.regs[R10] + 8 * j) == word_at(
                m.mem,
                m.regs[Rax] + 8 * j,
            ),
        forall|a: int|
            a + 8 <= m.regs[R10] + 8 * k || a >= m.regs[R10] + 8 * n ==> #[trigger] word_at(
                after.mem,
                a,
            ) == word_at(m.mem, a),
    decreases n - k,
{
    let program = carry_program(k, n);
    let run = Run { world, program, start: 0, before: m };
    lemma_begin(run);
    if k == n {
        m
    } else {
        let first = seq![
            load(Rdx, at_d(Rax, (8 * k) as i32)),
            store(at_d(R10, (8 * k) as i32), Rdx),
        ];
        let rest = carry_program(k + 1, n);
        assert(program[0] == first[0]);
        assert(program[1] == first[1]);
        let from = m.regs[Rax] + 8 * k;
        let to = m.regs[R10] + 8 * k;
        assert(m.address(world, at_d(Rax, (8 * k) as i32)) == from);
        let v = word_at(m.mem, from);
        let m1 = m.set(Rdx, v);
        assert(m1.address(world, at_d(R10, (8 * k) as i32)) == to);
        let m2 = m1.store(Width::Quad, to, v as int);
        lemma_load(run, 0, m, Rdx, at_d(Rax, (8 * k) as i32));
        lemma_store(run, 1, m1, at_d(R10, (8 * k) as i32), Rdx);
        let after = lemma_carry(world, m2, k + 1, n);
        assert(part_of(rest, program, 2));
        lemma_part(run, 2, m2, rest, after);
        law_word_reads_back(m1.mem, to, v);
        assert forall|j: int| k <= j < n implies #[trigger] word_at(after.mem, m.regs[R10] + 8 * j)
            == word_at(m.mem, m.regs[Rax] + 8 * j) by {
            if j > k {
                law_word_keeps_others(m1.mem, to, v, m.regs[Rax] + 8 * j);
            }
        }
        assert forall|a: int|
            a + 8 <= m.regs[R10] + 8 * k || a >= m.regs[R10] + 8 * n implies #[trigger] word_at(
            after.mem,
            a,
        ) == word_at(m.mem, a) by {
            law_word_keeps_others(m1.mem, to, v, a);
        }
        after
    }
}

/// A returned closure is carried out of its arena: its words move down to the mark, `rax`
/// points at them, and the bump pointer stays right behind them, so the rewind does not
/// free it.
pub proof fn law_carry_out(world: World, mark: i32, size: i32, m: Machine) -> (after: Machine)
    requires
        ({
            let to = slot_word(world, m, mark);
            let next = (world.place)(Symbol::HeapNext) as int;
            &&& 0 <= size <= 0x7FFF_FFF0
            &&& size % 8 == 0
            &&& to <= m.regs[Rax]
            &&& m.regs[Rax] + size < word_span()
            &&& next + 8 <= to || next >= to + size
        }),
    ensures
        ({
            let to = slot_word(world, m, mark);
            &&& flows(world, carry_out_program(mark, size), m, after)
            &&& after.regs[Rax] == to
            &&& cell(world, after, Symbol::HeapNext) == to + size
            &&& forall|j: int|
                0 <= j < word_count(size) ==> #[trigger] word_at(after.mem, to + 8 * j) == word_at(
                    m.mem,
                    m.regs[Rax] + 8 * j,
                )
        }),
{
    let program = carry_out_program(mark, size);
    let run = Run { world, program, start: 0, before: m };
    let n = word_count(size);
    let copy = carry_program(0, n);
    let to = slot_word(world, m, mark);
    let next_at = (world.place)(Symbol::HeapNext) as int;
    let m1 = m.set(R10, to);
    assert(8 * n == size);
    lemma_begin(run);
    assert(program[0] == load(R10, frame(mark)));
    lemma_load(run, 0, m, R10, frame(mark));
    let m2 = lemma_carry(world, m1, 0, n);
    assert(part_of(copy, program, 1));
    lemma_part(run, 1, m1, copy, m2);
    let at = 1 + copy.len() as int;
    let last = seq![
        mov(Rax, R10),
        lea(R10, at_d(R10, size)),
        store(rip(Symbol::HeapNext), R10),
    ];
    assert(program[at] == last[0]);
    assert(program[at + 1] == last[1]);
    assert(program[at + 2] == last[2]);
    let m3 = m2.set(Rax, to);
    assert(m3.address(world, at_d(R10, size)) == to + size);
    let m4 = m3.set(R10, (to + size) as u64);
    let m5 = m4.store(Width::Quad, next_at, to + size);
    lemma_mov(run, at, m2, Rax, R10);
    lemma_lea(run, at + 1, m3, R10, at_d(R10, size));
    lemma_store(run, at + 2, m4, rip(Symbol::HeapNext), R10);
    law_word_reads_back(m4.mem, next_at, (to + size) as u64);
    assert forall|j: int| 0 <= j < n implies #[trigger] word_at(m5.mem, to + 8 * j) == word_at(
        m.mem,
        m.regs[Rax] + 8 * j,
    ) by {
        law_word_keeps_others(m4.mem, next_at, (to + size) as u64, to + 8 * j);
        assert(word_at(m2.mem, m1.regs[R10] + 8 * j) == word_at(m1.mem, m1.regs[Rax] + 8 * j));
    }
    m5
}

} // verus!
