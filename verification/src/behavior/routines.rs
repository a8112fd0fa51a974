//! What the routines of the runtime have in common: saved registers and the stack.

use crate::behavior::heap::{came_back, volatile};
use crate::behavior::instructions::{
    lemma_alu_imm8, lemma_begin, lemma_pop, lemma_push, lemma_ret, operated, Run,
};
use crate::machine::{
    kept, law_kept_bytes_keep_words, law_word_keeps_bytes, law_word_of_bytes, law_word_reads_back,
    part_of, word_at, wrap, Machine, Outcome,
};
use crate::mnemonics::alu_imm8;
use crate::x86::{Alu, Insn, Reg, Width};
use crate::x86::Reg::{R12, R13, R14, R15, Rbp, Rbx, Rdi, Rsi, Rsp};
use vstd::prelude::*;

verus! {

/// The registers besides the stack pointer that a caller counts on.
pub open spec fn kept_registers() -> Seq<Reg> {
    seq![Rbx, Rbp, Rsi, Rdi, R12, R13, R14, R15]
}

/// The program that saves registers on the stack.
pub open spec fn saving(regs: Seq<Reg>) -> Seq<Insn> {
    Seq::new(regs.len(), |i: int| Insn::Push(regs[i]))
}

/// The program that restores them, last saved first.
pub open spec fn restoring(regs: Seq<Reg>) -> Seq<Insn> {
    Seq::new(regs.len(), |i: int| Insn::Pop(regs[regs.len() - 1 - i]))
}

/// Whether the words below `top` hold the values of registers, first register first.
pub open spec fn saved(mem: spec_fn(int) -> u8, top: int, regs: Seq<Reg>, values: Map<Reg,
    u64>) -> bool {
    forall|i: int| 0 <= i < regs.len()
        ==> word_at(mem, top - 8 * (i + 1)) == values[#[trigger] regs[i]]
}

/// Saving registers from the `k`-th on.
proof fn lemma_save_from(run: Run, pc: int, m0: Machine, m: Machine, regs: Seq<Reg>,
    k: int) -> (after:
    Machine)
    requires
        part_of(saving(regs), run.program, pc),
        run.at(pc + k, m),
        0 <= k <= regs.len(),
        forall|i: int| 0 <= i < regs.len() ==> #[trigger] regs[i] != Rsp,
        8 * regs.len() <= m0.regs[Rsp],
        m.regs[Rsp] == m0.regs[Rsp] - 8 * k,
        forall|reg: Reg| reg != Rsp ==> #[trigger] m.regs[reg] == m0.regs[reg],
        m.xmms == m0.xmms,
        kept(m0.mem, m.mem, m0.regs[Rsp] - 8 * k, m0.regs[Rsp] as int),
        saved(m.mem, m0.regs[Rsp] as int, regs.take(k), m0.regs),
    ensures
        run.at(pc + regs.len(), after),
        after.regs[Rsp] == m0.regs[Rsp] - 8 * regs.len(),
        forall|reg: Reg| reg != Rsp ==> #[trigger] after.regs[reg] == m0.regs[reg],
        after.xmms == m0.xmms,
        kept(m0.mem, after.mem, m0.regs[Rsp] - 8 * regs.len(), m0.regs[Rsp] as int),
        saved(after.mem, m0.regs[Rsp] as int, regs, m0.regs),
    decreases regs.len() - k,
{
    let top = m0.regs[Rsp] as int;
    if k == regs.len() {
        assert(regs.take(k) =~= regs);
        m
    } else {
        let reg = regs[k];
        let part = saving(regs);
        assert(run.program[pc + k] == part[k]);
        lemma_push(run, pc + k, m, reg);
        let at = top - 8 * (k + 1);
        assert(wrap(m.regs[Rsp] - 8) == at);
        let v = m0.regs[reg];
        assert(m.regs[reg] == v);
        let m1 = m.store(Width::Quad, at, v as int).set(Rsp, at as u64);
        assert forall|p: int| p < at || top <= p implies #[trigger] (m1.mem)(p) == (m0.mem)(p) by {
            law_word_keeps_bytes(m.mem, at, v, p);
        }
        assert(kept(m.mem, m1.mem, at, at + 8)) by {
            assert forall|p: int| p < at || at + 8 <= p implies #[trigger] (m1.mem)(p) == (m.mem)(
                p,
            ) by {
                law_word_keeps_bytes(m.mem, at, v, p);
            }
        }
        law_word_reads_back(m.mem, at, v);
        let more = regs.take(k + 1);
        assert forall|i: int| 0 <= i < more.len() implies word_at(m1.mem, top - 8 * (i + 1))
            == m0.regs[#[trigger] more[i]] by {
            if i < k {
                assert(regs.take(k)[i] == more[i]);
                law_kept_bytes_keep_words(m.mem, m1.mem, at, at + 8, top - 8 * (i + 1));
            }
        }
        lemma_save_from(run, pc, m0, m1, regs, k + 1)
    }
}

/// Saving registers.
pub proof fn lemma_save(run: Run, pc: int, m: Machine, regs: Seq<Reg>) -> (after: Machine)
    requires
        part_of(saving(regs), run.program, pc),
        run.at(pc, m),
        forall|i: int| 0 <= i < regs.len() ==> #[trigger] regs[i] != Rsp,
        8 * regs.len() <= m.regs[Rsp],
    ensures
        run.at(pc + regs.len(), after),
        after.regs[Rsp] == m.regs[Rsp] - 8 * regs.len(),
        forall|reg: Reg| reg != Rsp ==> #[trigger] after.regs[reg] == m.regs[reg],
        after.xmms == m.xmms,
        kept(m.mem, after.mem, m.regs[Rsp] - 8 * regs.len(), m.regs[Rsp] as int),
        saved(after.mem, m.regs[Rsp] as int, regs, m.regs),
{
    lemma_save_from(run, pc, m, m, regs, 0)
}

/// Whether a register is one of these.
pub open spec fn among(reg: Reg, regs: Seq<Reg>) -> bool {
    exists|i: int| 0 <= i < regs.len() && #[trigger] regs[i] == reg
}

/// Restoring registers after `k` of them are back.
proof fn lemma_restore_from(
    run: Run,
    pc: int,
    values: Map<Reg, u64>,
    m0: Machine,
    m: Machine,
    regs: Seq<Reg>,
    k: int,
) -> (after: Machine)
    requires
        part_of(restoring(regs), run.program, pc),
        run.at(pc + k, m),
        0 <= k <= regs.len(),
        forall|i: int| 0 <= i < regs.len() ==> #[trigger] regs[i] != Rsp,
        regs.no_duplicates(),
        m0.regs[Rsp] + 8 * regs.len() <= u64::MAX,
        saved(m0.mem, m0.regs[Rsp] + 8 * regs.len(), regs, values),
        m.mem == m0.mem,
        m.xmms == m0.xmms,
        m.regs[Rsp] == m0.regs[Rsp] + 8 * k,
        forall|i: int| regs.len() - k <= i < regs.len()
            ==> m.regs[#[trigger] regs[i]] == values[regs[i]],
        forall|reg: Reg| reg != Rsp && !among(reg, regs) ==> #[trigger] m.regs[reg] == m0.regs[reg],
    ensures
        run.at(pc + regs.len(), after),
        after.mem == m0.mem,
        after.xmms == m0.xmms,
        after.regs[Rsp] == m0.regs[Rsp] + 8 * regs.len(),
        forall|i: int| 0 <= i < regs.len() ==> after.regs[#[trigger] regs[i]] == values[regs[i]],
        forall|reg: Reg|
            reg != Rsp && !among(reg, regs) ==> #[trigger] after.regs[reg] == m0.regs[reg],
    decreases regs.len() - k,
{
    if k == regs.len() {
        m
    } else {
        let j = regs.len() - 1 - k;
        let reg = regs[j];
        let part = restoring(regs);
        assert(run.program[pc + k] == part[k]);
        lemma_pop(run, pc + k, m, reg);
        let at = m.regs[Rsp] as int;
        assert(at == m0.regs[Rsp] + 8 * regs.len() - 8 * (j + 1));
        let m1 = m.set(Rsp, wrap(at + 8)).set(reg, word_at(m.mem, at));
        assert(word_at(m.mem, at) == values[reg]);
        assert(among(reg, regs));
        lemma_restore_from(run, pc, values, m0, m1, regs, k + 1)
    }
}

/// Restoring registers that were saved when a routine started, and returning.
pub proof fn lemma_restore(run: Run, pc: int, before: Machine, m: Machine,
    regs: Seq<Reg>) -> (after:
    Machine)
    requires
        part_of(restoring(regs), run.program, pc),
        pc + regs.len() < run.program.len(),
        run.program[pc + regs.len()] == Insn::Ret,
        run.at(pc, m),
        forall|i: int| 0 <= i < regs.len() ==> #[trigger] regs[i] != Rsp,
        regs.no_duplicates(),
        m.regs[Rsp] + 8 * regs.len() == before.regs[Rsp],
        saved(m.mem, before.regs[Rsp] as int, regs, before.regs),
        forall|reg: Reg|
            !volatile(reg) && reg != Rsp && !among(reg, regs) ==> #[trigger] m.regs[reg]
                == before.regs[reg],
    ensures
        run.ends(Outcome::Returned(after)),
        came_back(before, after),
        after.mem == m.mem,
        forall|reg: Reg|
            volatile(reg) && !among(reg, regs) ==> #[trigger] after.regs[reg] == m.regs[reg],
{
    let m1 = lemma_restore_from(run, pc, before.regs, m, m, regs, 0);
    lemma_ret(run, pc + regs.len(), m1);
    m1.set(Rsp, wrap(m1.regs[Rsp] + 8))
}

/// Saved registers stay where their bytes stay.
pub proof fn lemma_saved_stays(
    before: spec_fn(int) -> u8,
    after: spec_fn(int) -> u8,
    top: int,
    regs: Seq<Reg>,
    values: Map<Reg, u64>,
)
    requires
        saved(before, top, regs, values),
        forall|p: int| top - 8 * regs.len() <= p < top ==> #[trigger] after(p) == before(p),
    ensures
        saved(after, top, regs, values),
{
    assert forall|i: int| 0 <= i < regs.len() implies word_at(after, top - 8 * (i + 1))
        == values[#[trigger] regs[i]] by {
        law_word_of_bytes(after, before, top - 8 * (i + 1));
    }
}

/// What a routine starts with that saves registers and reserves `local` bytes.
pub open spec fn frame_head(regs: Seq<Reg>, local: u8) -> Seq<Insn> {
    saving(regs) + seq![alu_imm8(Alu::Sub, Rsp, local)]
}

/// What it ends with.
pub open spec fn frame_tail(regs: Seq<Reg>, local: u8) -> Seq<Insn> {
    seq![alu_imm8(Alu::Add, Rsp, local)] + restoring(regs) + seq![Insn::Ret]
}

/// Saving registers and reserving `local` bytes.
pub proof fn lemma_frame_head(run: Run, m: Machine, regs: Seq<Reg>, local: u8) -> (after: Machine)
    requires
        part_of(frame_head(regs, local), run.program, 0),
        run.start == 0,
        run.before == m,
        local < 128,
        8 * regs.len() + local <= m.regs[Rsp],
        forall|i: int| 0 <= i < regs.len() ==> #[trigger] regs[i] != Rsp,
    ensures
        run.at(regs.len() as int + 1, after),
        after.regs[Rsp] == m.regs[Rsp] - 8 * regs.len() - local,
        forall|reg: Reg| reg != Rsp ==> #[trigger] after.regs[reg] == m.regs[reg],
        kept(m.mem, after.mem, m.regs[Rsp] - 8 * regs.len(), m.regs[Rsp] as int),
        saved(after.mem, m.regs[Rsp] as int, regs, m.regs),
{
    let head = frame_head(regs, local);
    let saves = saving(regs);
    let n = regs.len() as int;
    assert forall|i: int| 0 <= i < n implies #[trigger] saves[i] == run.program[i] by {
        assert(head[i] == saves[i]);
    }
    assert(run.program[n] == head[n]);
    lemma_begin(run);
    assert(part_of(saves, run.program, 0));
    let m1 = lemma_save(run, 0, m, regs);
    lemma_alu_imm8(run, n, m1, Alu::Sub, Rsp, local);
    operated(m1, Alu::Sub, Rsp, local as u64)
}

/// Giving the bytes back, restoring the registers and returning.
pub proof fn lemma_frame_tail(
    run: Run,
    pc: int,
    m: Machine,
    done: Machine,
    regs: Seq<Reg>,
    local: u8,
) -> (after: Machine)
    requires
        part_of(frame_tail(regs, local), run.program, pc),
        run.at(pc, done),
        local < 128,
        done.regs[Rsp] == m.regs[Rsp] - 8 * regs.len() - local,
        forall|i: int| 0 <= i < regs.len() ==> #[trigger] regs[i] != Rsp && !volatile(regs[i]),
        regs.no_duplicates(),
        saved(done.mem, m.regs[Rsp] as int, regs, m.regs),
        forall|reg: Reg|
            !volatile(reg) && reg != Rsp && !among(reg, regs) ==> #[trigger] done.regs[reg]
                == m.regs[reg],
    ensures
        run.ends(Outcome::Returned(after)),
        came_back(m, after),
        after.mem == done.mem,
        forall|reg: Reg| volatile(reg) ==> #[trigger] after.regs[reg] == done.regs[reg],
{
    let tail = frame_tail(regs, local);
    let pops = restoring(regs);
    let n = regs.len() as int;
    assert(run.program[pc] == tail[0]);
    assert forall|i: int| 0 <= i < n implies #[trigger] pops[i] == run.program[pc + 1 + i] by {
        assert(tail[1 + i] == pops[i]);
    }
    assert(run.program[pc + 1 + n] == tail[1 + n]);
    lemma_alu_imm8(run, pc, done, Alu::Add, Rsp, local);
    let m1 = operated(done, Alu::Add, Rsp, local as u64);
    lemma_restore(run, pc + 1, m, m1, regs)
}

} // verus!
