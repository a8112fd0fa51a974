//! Frames: a function gives its caller back the stack and the registers it borrowed.

use crate::arena::{epilogue_emission, leave_program, restore_emission, sub_rsp_program};
use crate::assembler::{assembled, contained, law_programs_assemble_in_sequence};
use crate::behavior::instructions::{
    lemma_alu_imm32, lemma_alu_imm8, lemma_begin, lemma_load, lemma_mov, lemma_part, lemma_pop,
    lemma_push, lemma_ret, lemma_store, operated, Run,
};
use crate::emission::Emission;
use crate::function::{open_program, spill_emission};
use crate::machine::{
    apart, comes_to, flows, law_ends_are_unique, law_word_keeps_others, law_word_reads_back,
    part_of, word_at, word_span, wrap, Machine, Outcome, World,
};
use crate::mnemonics::{frame, load, store};
use crate::x86::Reg::{Rbp, Rsp};
use crate::x86::{Alu, Insn, Reg, Width};
use vstd::prelude::*;

verus! {

/// The instructions that keep the registers from `k` on in their slots.
pub open spec fn spill_program(saved: Seq<(Reg, i32)>, k: int) -> Seq<Insn>
    decreases saved.len() - k,
{
    if k < 0 || k >= saved.len() {
        seq![]
    } else {
        seq![store(frame(saved[k].1), saved[k].0)] + spill_program(saved, k + 1)
    }
}

/// The instructions that take the registers from `k` on back out of their slots.
pub open spec fn restore_program(saved: Seq<(Reg, i32)>, k: int) -> Seq<Insn>
    decreases saved.len() - k,
{
    if k < 0 || k >= saved.len() {
        seq![]
    } else {
        seq![load(saved[k].0, frame(saved[k].1))] + restore_program(saved, k + 1)
    }
}

proof fn lemma_spills_are_straight(saved: Seq<(Reg, i32)>, k: int)
    ensures
        contained(spill_program(saved, k)),
        contained(restore_program(saved, k)),
        forall|i: int|
            0 <= i < spill_program(saved, k).len() ==> (#[trigger] spill_program(
                saved,
                k,
            )[i]).jump_distance() == 0,
        forall|i: int|
            0 <= i < restore_program(saved, k).len() ==> (#[trigger] restore_program(
                saved,
                k,
            )[i]).jump_distance() == 0,
    decreases saved.len() - k,
{
    if 0 <= k < saved.len() {
        lemma_spills_are_straight(saved, k + 1);
        let spill = spill_program(saved, k);
        let restore = restore_program(saved, k);
        assert forall|i: int| 0 <= i < spill.len() implies (
        #[trigger] spill[i]).jump_distance() == 0 by {
            if i > 0 {
                assert(spill[i] == spill_program(saved, k + 1)[i - 1]);
            }
        }
        assert forall|i: int| 0 <= i < restore.len() implies (
        #[trigger] restore[i]).jump_distance() == 0 by {
            if i > 0 {
                assert(restore[i] == restore_program(saved, k + 1)[i - 1]);
            }
        }
    }
}

/// What is emitted to keep and to restore registers is these programs.
pub proof fn law_saved_registers_assemble(saved: Seq<(Reg, i32)>, k: int)
    ensures
        spill_emission(saved, k) == Emission::of_program(spill_program(saved, k)),
        restore_emission(saved, k) == Emission::of_program(restore_program(saved, k)),
    decreases saved.len() - k,
{
    if 0 <= k < saved.len() {
        law_saved_registers_assemble(saved, k + 1);
        lemma_spills_are_straight(saved, k + 1);
        law_programs_assemble_in_sequence(
            seq![store(frame(saved[k].1), saved[k].0)],
            spill_program(saved, k + 1),
        );
        law_programs_assemble_in_sequence(
            seq![load(saved[k].0, frame(saved[k].1))],
            restore_program(saved, k + 1),
        );
    } else {
        reveal(assembled);
    }
}

/// The epilogue as one program.
pub open spec fn epilogue_program(frame_size: i32, saved: Seq<(Reg, i32)>) -> Seq<Insn> {
    restore_program(saved, 0) + leave_program(frame_size)
}

/// What is emitted as the epilogue is this program.
pub proof fn law_epilogue_assembles(frame_size: i32, saved: Seq<(Reg, i32)>)
    ensures
        epilogue_emission(frame_size, saved) == Emission::of_program(
            epilogue_program(frame_size, saved),
        ),
{
    law_saved_registers_assemble(saved, 0);
    lemma_spills_are_straight(saved, 0);
    law_programs_assemble_in_sequence(restore_program(saved, 0), leave_program(frame_size));
}

/// Where the word of a slot lies, below the frame pointer `base`.
pub open spec fn slot_at(base: u64, slot: i32) -> int {
    wrap(base - slot) as int
}

/// Whether the saved registers are different ones, none of them the stack or the frame
/// pointer, with slots that share no byte with each other or with the caller's frame
/// pointer at `base`.
pub open spec fn saved_apart(base: u64, saved: Seq<(Reg, i32)>) -> bool {
    &&& forall|k: int|
        0 <= k < saved.len() ==> (#[trigger] saved[k]).0 != Rbp && saved[k].0 != Rsp && apart(
            slot_at(base, saved[k].1),
            base as int,
        )
    &&& forall|i: int, j: int|
        0 <= i < saved.len() && 0 <= j < saved.len() && i != j ==> (#[trigger] saved[i]).0 != (
        #[trigger] saved[j]).0 && apart(slot_at(base, saved[i].1), slot_at(base, saved[j].1))
}

/// Whether the slots hold what the registers of `m` hold.
pub open spec fn slots_hold(
    mem: spec_fn(int) -> u8,
    base: u64,
    saved: Seq<(Reg, i32)>,
    m: Machine,
) -> bool {
    forall|k: int|
        0 <= k < saved.len() ==> word_at(mem, slot_at(base, (#[trigger] saved[k]).1))
            == m.regs[saved[k].0]
}

/// Keeping the registers from `k` on.
proof fn lemma_spills(world: World, m: Machine, saved: Seq<(Reg, i32)>, k: int) -> (after: Machine)
    requires
        0 <= k <= saved.len(),
        saved_apart(m.regs[Rbp], saved),
    ensures
        flows(world, spill_program(saved, k), m, after),
        after.regs == m.regs,
        after.xmms == m.xmms,
        forall|j: int|
            k <= j < saved.len() ==> word_at(
                after.mem,
                slot_at(m.regs[Rbp], (#[trigger] saved[j]).1),
            ) == m.regs[saved[j].0],
        forall|a: int|
            (forall|j: int|
                k <= j < saved.len() ==> apart(
                    a,
                    slot_at(m.regs[Rbp], (#[trigger] saved[j]).1),
                )) ==> #[trigger] word_at(after.mem, a) == word_at(m.mem, a),
    decreases saved.len() - k,
{
    let program = spill_program(saved, k);
    let run = Run { world, program, start: 0, before: m };
    lemma_begin(run);
    if k == saved.len() {
        m
    } else {
        let at = slot_at(m.regs[Rbp], saved[k].1);
        let v = m.regs[saved[k].0];
        let m1 = m.store(Width::Quad, at, v as int);
        let rest = spill_program(saved, k + 1);
        assert(m.address(world, frame(saved[k].1)) == at);
        assert(program[0] == store(frame(saved[k].1), saved[k].0));
        lemma_store(run, 0, m, frame(saved[k].1), saved[k].0);
        let after = lemma_spills(world, m1, saved, k + 1);
        assert(part_of(rest, program, 1));
        lemma_part(run, 1, m1, rest, after);
        law_word_reads_back(m.mem, at, v);
        assert(word_at(after.mem, at) == word_at(m1.mem, at)) by {
            assert forall|j: int| k + 1 <= j < saved.len() implies apart(
                at,
                slot_at(m1.regs[Rbp], (#[trigger] saved[j]).1),
            ) by {
                assert(saved[k].0 != saved[j].0);
            }
        }
        assert forall|a: int|
            (forall|j: int|
                k <= j < saved.len() ==> apart(
                    a,
                    slot_at(m.regs[Rbp], (#[trigger] saved[j]).1),
                )) implies #[trigger] word_at(after.mem, a) == word_at(m.mem, a) by {
            assert(apart(a, slot_at(m.regs[Rbp], saved[k].1)));
            law_word_keeps_others(m.mem, at, v, a);
            assert(forall|j: int|
                k + 1 <= j < saved.len() ==> apart(
                    a,
                    slot_at(m1.regs[Rbp], (#[trigger] saved[j]).1),
                ));
        }
        after
    }
}

/// Taking the registers from `k` on back.
proof fn lemma_restores(world: World, m: Machine, saved: Seq<(Reg, i32)>,
    k: int) -> (after: Machine)
    requires
        0 <= k <= saved.len(),
        saved_apart(m.regs[Rbp], saved),
    ensures
        flows(world, restore_program(saved, k), m, after),
        after.mem == m.mem,
        after.xmms == m.xmms,
        forall|j: int|
            k <= j < saved.len() ==> after.regs[(#[trigger] saved[j]).0] == word_at(
                m.mem,
                slot_at(m.regs[Rbp], saved[j].1),
            ),
        forall|reg: Reg|
            (forall|j: int| k <= j < saved.len() ==> (#[trigger] saved[j]).0 != reg)
                ==> #[trigger] after.regs[reg] == m.regs[reg],
    decreases saved.len() - k,
{
    let program = restore_program(saved, k);
    let run = Run { world, program, start: 0, before: m };
    lemma_begin(run);
    if k == saved.len() {
        m
    } else {
        let at = slot_at(m.regs[Rbp], saved[k].1);
        let reg = saved[k].0;
        assert(reg != Rbp);
        let m1 = m.set(reg, word_at(m.mem, at));
        let rest = restore_program(saved, k + 1);
        assert(m.address(world, frame(saved[k].1)) == at);
        assert(program[0] == load(saved[k].0, frame(saved[k].1)));
        lemma_load(run, 0, m, reg, frame(saved[k].1));
        let after = lemma_restores(world, m1, saved, k + 1);
        assert(part_of(rest, program, 1));
        lemma_part(run, 1, m1, rest, after);
        assert(after.regs[reg] == m1.regs[reg]) by {
            assert forall|j: int| k + 1 <= j < saved.len() implies (#[trigger] saved[j]).0
                != reg by {
                assert(saved[k].0 != saved[j].0);
            }
        }
        assert forall|other: Reg|
            (forall|j: int| k <= j < saved.len() ==> (#[trigger] saved[j]).0 != other) implies (
        #[trigger] after.regs[other]) == m.regs[other] by {
            assert(saved[k].0 != other);
            assert(forall|j: int| k + 1 <= j < saved.len() ==> (#[trigger] saved[j]).0 != other);
        }
        after
    }
}

/// The program that opens a frame: the caller's frame pointer, the new one, the stack, the
/// saved registers.
pub open spec fn prologue_program(frame_size: i32, saved: Seq<(Reg, i32)>) -> Seq<Insn> {
    open_program() + (sub_rsp_program(frame_size) + spill_program(saved, 0))
}

/// What is emitted first in a function is this program.
pub proof fn law_prologue_assembles(frame_size: i32, saved: Seq<(Reg, i32)>)
    ensures
        Emission::of_program(open_program()).then_emit(
            Emission::of_program(sub_rsp_program(frame_size)).then_emit(
                spill_emission(saved, 0),
            ),
        ) == Emission::of_program(prologue_program(frame_size, saved)),
{
    let rest = sub_rsp_program(frame_size) + spill_program(saved, 0);
    law_saved_registers_assemble(saved, 0);
    lemma_spills_are_straight(saved, 0);
    law_programs_assemble_in_sequence(sub_rsp_program(frame_size), spill_program(saved, 0));
    assert forall|i: int| 0 <= i < rest.len() implies 0 <= i + (
    #[trigger] rest[i]).jump_distance() <= rest.len() by {
        let n = sub_rsp_program(frame_size).len() as int;
        if i < n {
            assert(rest[i] == sub_rsp_program(frame_size)[i]);
        } else {
            assert(rest[i] == spill_program(saved, 0)[i - n]);
        }
    }
    law_programs_assemble_in_sequence(open_program(), rest);
}

/// Opening a frame: the frame pointer stands where the caller's was pushed, the stack
/// pointer the frame's size below it, and the slots hold the saved registers.
pub proof fn law_prologue(
    world: World,
    frame_size: i32,
    saved: Seq<(Reg, i32)>,
    m: Machine,
) -> (after: Machine)
    requires
        frame_size >= 0,
        m.regs[Rsp] >= 8,
        saved_apart((m.regs[Rsp] - 8) as u64, saved),
    ensures
        flows(world, prologue_program(frame_size, saved), m, after),
        after.regs == m.regs.insert(Rbp, (m.regs[Rsp] - 8) as u64).insert(
            Rsp,
            wrap(m.regs[Rsp] - 8 - frame_size),
        ),
        word_at(after.mem, m.regs[Rsp] - 8) == m.regs[Rbp],
        slots_hold(after.mem, (m.regs[Rsp] - 8) as u64, saved, m),
{
    let program = prologue_program(frame_size, saved);
    let run = Run { world, program, start: 0, before: m };
    let base = (m.regs[Rsp] - 8) as u64;
    let m1 = m.store(Width::Quad, base as int, m.regs[Rbp] as int).set(Rsp, base);
    let m2 = m1.set(Rbp, base);
    lemma_begin(run);
    assert(program[0] == open_program()[0]);
    assert(program[1] == open_program()[1]);
    lemma_push(run, 0, m, Rbp);
    lemma_mov(run, 1, m1, Rbp, Rsp);
    let reserve = sub_rsp_program(frame_size);
    let at = 2 + reserve.len() as int;
    let m3 = if frame_size == 0 {
        m2
    } else {
        operated(m2, Alu::Sub, Rsp, frame_size as u64)
    };
    if frame_size != 0 {
        assert(program[2] == reserve[0]);
        if frame_size <= 127 {
            lemma_alu_imm8(run, 2, m2, Alu::Sub, Rsp, frame_size as u8);
        } else {
            lemma_alu_imm32(run, 2, m2, Alu::Sub, Rsp, frame_size);
        }
    }
    assert(run.at(at, m3));
    let spills = spill_program(saved, 0);
    let after = lemma_spills(world, m3, saved, 0);
    assert(part_of(spills, program, at));
    lemma_part(run, at, m3, spills, after);
    law_word_reads_back(m.mem, base as int, m.regs[Rbp]);
    assert(word_at(after.mem, base as int) == word_at(m3.mem, base as int));
    assert(after.regs =~= m.regs.insert(Rbp, base).insert(Rsp, wrap(base - frame_size)));
    assert(slots_hold(after.mem, base, saved, m)) by {
        assert forall|k: int| 0 <= k < saved.len() implies word_at(
            after.mem,
            slot_at(base, (#[trigger] saved[k]).1),
        ) == m.regs[saved[k].0] by {
            assert(saved[k].0 != Rbp && saved[k].0 != Rsp);
            assert(m3.regs[saved[k].0] == m.regs[saved[k].0]);
        }
    }
    after
}

/// Closing a frame: the saved registers come out of their slots, the frame and the stack
/// pointer are the caller's again, and the function returns.
pub proof fn law_epilogue(
    world: World,
    frame_size: i32,
    saved: Seq<(Reg, i32)>,
    m: Machine,
) -> (after: Machine)
    requires
        frame_size >= 0,
        m.regs[Rsp] == wrap(m.regs[Rbp] - frame_size),
        m.regs[Rbp] + 16 < word_span(),
        saved_apart(m.regs[Rbp], saved),
    ensures
        comes_to(world, epilogue_program(frame_size, saved), 0, m, Outcome::Returned(after)),
        after.mem == m.mem,
        after.xmms == m.xmms,
        after.regs[Rbp] == word_at(m.mem, m.regs[Rbp] as int),
        after.regs[Rsp] == m.regs[Rbp] + 16,
        forall|k: int|
            0 <= k < saved.len() ==> after.regs[(#[trigger] saved[k]).0] == word_at(
                m.mem,
                slot_at(m.regs[Rbp], saved[k].1),
            ),
        forall|reg: Reg|
            reg != Rbp && reg != Rsp && (forall|k: int|
                0 <= k < saved.len() ==> (#[trigger] saved[k]).0 != reg)
                ==> #[trigger] after.regs[reg] == m.regs[reg],
{
    let program = epilogue_program(frame_size, saved);
    let run = Run { world, program, start: 0, before: m };
    let base = m.regs[Rbp];
    let restores = restore_program(saved, 0);
    let leave = leave_program(frame_size);
    let n = restores.len() as int;
    let m1 = lemma_restores(world, m, saved, 0);
    assert(m1.regs[Rbp] == base);
    assert(m1.regs[Rsp] == m.regs[Rsp]);
    lemma_begin(run);
    assert(part_of(restores, program, 0));
    lemma_part(run, 0, m, restores, m1);
    assert forall|i: int| 0 <= i < leave.len() implies program[n + i] == #[trigger] leave[i] by {}
    let m2 = if frame_size == 0 {
        m1
    } else {
        operated(m1, Alu::Add, Rsp, frame_size as u64)
    };
    let l = leave.len() - 2;
    if frame_size != 0 {
        assert(program[n] == leave[0]);
        if frame_size <= 127 {
            lemma_alu_imm8(run, n, m1, Alu::Add, Rsp, frame_size as u8);
        } else {
            lemma_alu_imm32(run, n, m1, Alu::Add, Rsp, frame_size);
        }
    }
    assert(run.at(n + l, m2));
    assert(m2.regs[Rsp] == base) by {
        if base >= frame_size {
            assert(wrap(base - frame_size) == base - frame_size);
        } else {
            assert(wrap(base - frame_size) == base - frame_size + word_span());
        }
    }
    assert(program[n + l] == leave[l]);
    assert(program[n + l + 1] == leave[l + 1]);
    let m3 = m2.set(Rsp, (base + 8) as u64).set(Rbp, word_at(m.mem, base as int));
    lemma_pop(run, n + l, m2, Rbp);
    lemma_ret(run, n + l + 1, m3);
    let after = m3.set(Rsp, wrap(m3.regs[Rsp] + 8));
    assert forall|k: int| 0 <= k < saved.len() implies after.regs[(#[trigger] saved[k]).0]
        == word_at(m.mem, slot_at(base, saved[k].1)) by {
        assert(saved[k].0 != Rbp && saved[k].0 != Rsp);
    }
    after
}

/// A call gives the caller its stack, its frame pointer and the saved registers back,
/// whatever the body does that keeps the frame pointer, the stack pointer, the pushed frame
/// pointer and the slots.
pub proof fn law_calls_keep_the_callers_registers(
    world: World,
    frame_size: i32,
    saved: Seq<(Reg, i32)>,
    m: Machine,
    opened: Machine,
    done: Machine,
    back: Machine,
)
    requires
        frame_size >= 0,
        8 <= m.regs[Rsp],
        m.regs[Rsp] + 8 < word_span(),
        saved_apart((m.regs[Rsp] - 8) as u64, saved),
        flows(world, prologue_program(frame_size, saved), m, opened),
        done.regs[Rbp] == opened.regs[Rbp],
        done.regs[Rsp] == opened.regs[Rsp],
        word_at(done.mem, opened.regs[Rbp] as int) == word_at(
            opened.mem,
            opened.regs[Rbp] as int,
        ),
        forall|k: int|
            0 <= k < saved.len() ==> word_at(
                done.mem,
                slot_at(opened.regs[Rbp], (#[trigger] saved[k]).1),
            ) == word_at(opened.mem, slot_at(opened.regs[Rbp], saved[k].1)),
        comes_to(world, epilogue_program(frame_size, saved), 0, done, Outcome::Returned(back)),
    ensures
        back.regs[Rsp] == m.regs[Rsp] + 8,
        back.regs[Rbp] == m.regs[Rbp],
        forall|k: int|
            0 <= k < saved.len() ==> back.regs[(#[trigger] saved[k]).0] == m.regs[saved[k].0],
        back.mem == done.mem,
        back.xmms == done.xmms,
{
    let entry = prologue_program(frame_size, saved);
    let after = law_prologue(world, frame_size, saved, m);
    law_ends_are_unique(
        world,
        entry,
        0,
        m,
        Outcome::At(entry.len() as int, after),
        Outcome::At(entry.len() as int, opened),
    );
    let end = law_epilogue(world, frame_size, saved, done);
    law_ends_are_unique(
        world,
        epilogue_program(frame_size, saved),
        0,
        done,
        Outcome::Returned(end),
        Outcome::Returned(back),
    );
}

} // verus!
