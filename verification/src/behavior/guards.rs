//! Index checks trap exactly when an index is outside its array.

use crate::behavior::instructions::{
    lemma_alu_imm32, lemma_alu_imm8, lemma_alu_load, lemma_begin, lemma_jcc, lemma_jmp, lemma_load,
    lemma_ud2, Run,
};
use crate::machine::{
    comes_to, flags_of_difference, flows, law_parts_run_alike, part_of, signed, word_at, word_span,
    Machine, Outcome, World,
};
use crate::mnemonics::frame;
use crate::vectorize::{bounds_check, bounds_check_against_slot, loop_bounds_guard};
use crate::x86::{Alu, Cond, Hop, Insn, Width};
use crate::x86::Cond::{Ae, B, G, L};
use crate::x86::Reg::Rax;
use vstd::prelude::*;

verus! {

/// Whether a program traps, with memory as it was.
pub open spec fn traps(world: World, program: Seq<Insn>, m: Machine) -> bool {
    exists|after: Machine|
        {
            &&& #[trigger] comes_to(world, program, 0, m, Outcome::Trapped(after))
            &&& after.mem == m.mem
        }
}

/// A comparison orders two words, as unsigned and as signed numbers.
pub proof fn law_comparisons_order(a: u64, b: u64)
    ensures
        ({
            let flags = flags_of_difference(Width::Quad, a as int, b as int);
            &&& flags.holds(Cond::E) == (a == b)
            &&& flags.holds(Cond::Ne) == (a != b)
            &&& flags.holds(Cond::B) == (a < b)
            &&& flags.holds(Cond::Ae) == (a >= b)
            &&& flags.holds(Cond::Be) == (a <= b)
            &&& flags.holds(Cond::A) == (a > b)
            &&& flags.holds(Cond::L) == (signed(a) < signed(b))
            &&& flags.holds(Cond::Ge) == (signed(a) >= signed(b))
            &&& flags.holds(Cond::Le) == (signed(a) <= signed(b))
            &&& flags.holds(Cond::G) == (signed(a) > signed(b))
        }),
{
    if a >= b {
        assert((a - b) % word_span() == a - b);
    } else {
        assert((a - b) % word_span() == a - b + word_span());
    }
}

/// A check against a static length lets an index through, with only the flags changed, when
/// it lies in `0..len`, and traps on any other.
pub proof fn law_bounds_check(world: World, len: i64, m: Machine)
    requires
        0 <= len <= i32::MAX,
    ensures
        0 <= signed(m.regs[Rax]) < len ==> exists|after: Machine|
            {
                &&& #[trigger] flows(world, bounds_check(len), m, after)
                &&& after.regs == m.regs
                &&& after.mem == m.mem
                &&& after.xmms == m.xmms
            },
        !(0 <= signed(m.regs[Rax]) < len) ==> traps(world, bounds_check(len), m),
{
    let run = Run { world, program: bounds_check(len), start: 0, before: m };
    let index = m.regs[Rax];
    let m1 = m.flagged(flags_of_difference(Width::Quad, index as int, len as int));
    law_comparisons_order(index, len as u64);
    lemma_begin(run);
    lemma_alu_imm32(run, 0, m, Alu::Cmp, Rax, len as i32);
    lemma_jcc(run, 1, m1, B, true, Hop::Forward(2));
    if index < len {
        assert(flows(world, run.program, m, m1));
    } else {
        lemma_ud2(run, 2, m1);
    }
}

/// A check against a length in a frame slot does the same.
pub proof fn law_bounds_check_against_slot(world: World, len_slot: i32, m: Machine)
    requires
        0 <= signed(word_at(m.mem, m.address(world, frame(len_slot)))),
    ensures
        ({
            let len = signed(word_at(m.mem, m.address(world, frame(len_slot))));
            let program = bounds_check_against_slot(len_slot);
            &&& 0 <= signed(m.regs[Rax]) < len ==> exists|after: Machine|
                {
                    &&& #[trigger] flows(world, program, m, after)
                    &&& after.regs == m.regs
                    &&& after.mem == m.mem
                    &&& after.xmms == m.xmms
                }
            &&& !(0 <= signed(m.regs[Rax]) < len) ==> traps(world, program, m)
        }),
{
    let run = Run { world, program: bounds_check_against_slot(len_slot), start: 0, before: m };
    let index = m.regs[Rax];
    let len = word_at(m.mem, m.address(world, frame(len_slot)));
    let m1 = m.flagged(flags_of_difference(Width::Quad, index as int, len as int));
    law_comparisons_order(index, len);
    lemma_begin(run);
    lemma_alu_load(run, 0, m, Alu::Cmp, Rax, frame(len_slot));
    lemma_jcc(run, 1, m1, B, true, Hop::Forward(2));
    if index < len {
        assert(flows(world, run.program, m, m1));
    } else {
        lemma_ud2(run, 2, m1);
    }
}

/// The guard before a vectorized loop lets a range through, with only `rax` and the flags
/// changed, when it is empty or lies inside the array, and traps on any other.
pub proof fn law_loop_bounds_guard(
    world: World,
    i_slot: i32,
    end_slot: i32,
    len: i64,
    m: Machine,
)
    requires
        0 <= len <= i32::MAX,
    ensures
        ({
            let first = signed(word_at(m.mem, m.address(world, frame(i_slot))));
            let last = signed(word_at(m.mem, m.address(world, frame(end_slot))));
            let program = loop_bounds_guard(i_slot, end_slot, len);
            let inside = first > last || (0 <= first && last < len);
            &&& inside ==> exists|after: Machine|
                {
                    &&& #[trigger] flows(world, program, m, after)
                    &&& after.regs == m.regs.insert(Rax, after.regs[Rax])
                    &&& after.mem == m.mem
                    &&& after.xmms == m.xmms
                }
            &&& !inside ==> traps(world, program, m)
        }),
{
    let run = Run {
        world,
        program: loop_bounds_guard(i_slot, end_slot, len),
        start: 0,
        before: m,
    };
    let first = word_at(m.mem, m.address(world, frame(i_slot)));
    let last = word_at(m.mem, m.address(world, frame(end_slot)));
    let m1 = m.set(Rax, first);
    let m2 = m1.flagged(flags_of_difference(Width::Quad, first as int, last as int));
    law_comparisons_order(first, last);
    law_comparisons_order(first, 0);
    law_comparisons_order(last, len as u64);
    lemma_begin(run);
    lemma_load(run, 0, m, Rax, frame(i_slot));
    assert(m1.address(world, frame(end_slot)) == m.address(world, frame(end_slot)));
    lemma_alu_load(run, 1, m1, Alu::Cmp, Rax, frame(end_slot));
    lemma_jcc(run, 2, m2, G, false, Hop::Forward(8));
    if signed(first) > signed(last) {
        assert(flows(world, run.program, m, m2));
    } else {
        let m3 = m2.flagged(flags_of_difference(Width::Quad, first as int, 0));
        lemma_alu_imm8(run, 3, m2, Alu::Cmp, Rax, 0);
        lemma_jcc(run, 4, m3, L, false, Hop::Forward(5));
        if signed(first) < 0 {
            lemma_ud2(run, 9, m3);
        } else {
            let m4 = m3.set(Rax, last);
            let m5 = m4.flagged(flags_of_difference(Width::Quad, last as int, len as int));
            assert(m3.address(world, frame(end_slot)) == m.address(world, frame(end_slot)));
            lemma_load(run, 5, m3, Rax, frame(end_slot));
            lemma_alu_imm32(run, 6, m4, Alu::Cmp, Rax, len as i32);
            lemma_jcc(run, 7, m5, Ae, false, Hop::Forward(2));
            if last >= len {
                lemma_ud2(run, 9, m5);
            } else {
                lemma_jmp(run, 8, m5, false, Hop::Forward(2));
                assert(m5.regs =~= m.regs.insert(Rax, last));
                assert(flows(world, run.program, m, m5));
            }
        }
    }
}

/// A program that starts with the guard traps as the guard does.
pub proof fn law_guarded_programs_trap(
    world: World,
    i_slot: i32,
    end_slot: i32,
    len: i64,
    program: Seq<Insn>,
    m: Machine,
)
    requires
        0 <= len <= i32::MAX,
        part_of(loop_bounds_guard(i_slot, end_slot, len), program, 0),
        ({
            let first = signed(word_at(m.mem, m.address(world, frame(i_slot))));
            let last = signed(word_at(m.mem, m.address(world, frame(end_slot))));
            first <= last && (first < 0 || len <= last)
        }),
    ensures
        traps(world, program, m),
{
    let guard = loop_bounds_guard(i_slot, end_slot, len);
    law_loop_bounds_guard(world, i_slot, end_slot, len, m);
    let end = choose|after: Machine|
        {
            &&& #[trigger] comes_to(world, guard, 0, m, Outcome::Trapped(after))
            &&& after.mem == m.mem
        };
    law_parts_run_alike(world, guard, program, 0, 0, m, Outcome::Trapped(end));
}

} // verus!
