//! How a program starts and ends, and how a function finds its arguments.

use crate::behavior::instructions::{
    lemma_alu_imm8, lemma_begin, lemma_call, lemma_load, lemma_mov, lemma_mov_d, lemma_set_d,
    lemma_store, lemma_zero_d, operated, Run,
};
use crate::entry::{freestanding_stub_program, windows_stub_program, EntryStub, PlatformAbi};
use crate::function::{arg_reg, word_param_program};
use crate::machine::{
    comes_to, flows, kept, law_word_keeps_bytes, law_word_reads_back, with_word, word_at, word_span,
    Machine, Outcome, World,
};
use crate::mnemonics::{at_d, frame};
use crate::symbols::Symbol;
use crate::x86::{Alu, Insn, Reg, Width};
use crate::x86::Reg::{Rax, Rbp, Rcx, Rdi, Rdx, Rsp, R8, R9};
use vstd::prelude::*;

verus! {

/// The exit code of a program whose `main` came back in this state: the low half of its
/// result, or zero when it has none.
pub open spec fn exit_code(stub: EntryStub, out: Machine) -> u64 {
    match stub {
        EntryStub::MainVoid => 0,
        _ => (out.regs[Rax] % 0x1_0000_0000) as u64,
    }
}

/// The entry stub calls `main` with the shadow space reserved.
pub proof fn law_windows_stub_calls_main(world: World, m: Machine, stub: EntryStub)
    requires
        stub.emits(),
        40 <= m.regs[Rsp],
    ensures
        exists|calling: Machine|
            {
                &&& #[trigger] comes_to(
                    world,
                    windows_stub_program(stub),
                    0,
                    m,
                    Outcome::Called(Symbol::Main, 2, calling),
                )
                &&& calling.regs == m.regs.insert(Rsp, (m.regs[Rsp] - 40) as u64)
                &&& calling.mem == m.mem
            },
{
    let program = windows_stub_program(stub);
    let run = Run { world, program, start: 0, before: m };
    assert(program.len() == 5);
    lemma_begin(run);
    lemma_alu_imm8(run, 0, m, Alu::Sub, Rsp, 40);
    let calling = operated(m, Alu::Sub, Rsp, 40);
    lemma_call(run, 1, calling, Symbol::Main);
    assert(comes_to(world, program, 0, m, Outcome::Called(Symbol::Main, 2, calling)));
}

/// When `main` has come back, the entry stub ends the process with its exit code: it hands
/// it to the system in `ecx`.
pub proof fn law_windows_stub_exits(world: World, out: Machine, stub: EntryStub)
    requires
        stub.emits(),
    ensures
        exists|calling: Machine|
            {
                &&& #[trigger] comes_to(
                    world,
                    windows_stub_program(stub),
                    2,
                    out,
                    Outcome::Called(Symbol::ExitProcess, 4, calling),
                )
                &&& calling.regs == out.regs.insert(Rcx, exit_code(stub, out))
                &&& calling.mem == out.mem
            },
{
    let program = windows_stub_program(stub);
    let run = Run { world, program, start: 2, before: out };
    assert(program.len() == 5);
    lemma_begin(run);
    let calling = match stub {
        EntryStub::MainVoid => lemma_zero_d(run, 2, out, Rcx),
        _ => {
            lemma_mov_d(run, 2, out, Rcx, Rax);
            out.set(Rcx, exit_code(stub, out))
        },
    };
    lemma_call(run, 3, calling, Symbol::ExitProcess);
    assert(comes_to(
        world,
        program,
        2,
        out,
        Outcome::Called(Symbol::ExitProcess, 4, calling),
    ));
}

/// When `main` has come back, the freestanding stub is about to make the system call that
/// ends the process, with the exit code in `edi` and the number of the call in `eax`.
pub proof fn law_freestanding_stub_exits(
    world: World,
    out: Machine,
    stub: EntryStub,
    abi: PlatformAbi,
)
    requires
        stub.emits(),
        0 <= abi.exit_call(),
    ensures
        freestanding_stub_program(stub, abi)[4] == Insn::Syscall,
        exists|last: Machine|
            {
                &&& #[trigger] comes_to(
                    world,
                    freestanding_stub_program(stub, abi),
                    2,
                    out,
                    Outcome::At(4, last),
                )
                &&& last.regs == out.regs.insert(Rdi, exit_code(stub, out)).insert(
                    Rax,
                    abi.exit_call() as u64,
                )
                &&& last.mem == out.mem
            },
{
    let program = freestanding_stub_program(stub, abi);
    let run = Run { world, program, start: 2, before: out };
    assert(program.len() == 6);
    lemma_begin(run);
    let m1 = match stub {
        EntryStub::MainVoid => lemma_zero_d(run, 2, out, Rdi),
        _ => {
            lemma_mov_d(run, 2, out, Rdi, Rax);
            out.set(Rdi, exit_code(stub, out))
        },
    };
    lemma_set_d(run, 3, m1, Rax, abi.exit_call());
    let last = m1.set(Rax, abi.exit_call() as u64);
    assert(comes_to(world, program, 2, out, Outcome::At(4, last)));
}

// Arguments

/// The argument at `position` of a function whose frame is set up: one of the first four in
/// its register, a later one above the frame, the return address and the shadow space.
pub open spec fn argument(m: Machine, position: usize) -> u64 {
    if position >= 4 {
        word_at(m.mem, m.regs[Rbp] + 48 + 8 * (position - 4))
    } else {
        m.regs[seq![Rcx, Rdx, R8, R9][position as int]]
    }
}

/// A word parameter is kept where its local lives: in its register, or in its slot of the
/// frame.
pub proof fn law_word_param(
    world: World,
    m: Machine,
    slot: i32,
    position: usize,
    promoted: Option<Reg>,
) -> (after: Machine)
    requires
        position < 0x800_0000,
        m.regs[Rbp] + 48 + 8 * position < word_span(),
        0 <= slot <= m.regs[Rbp],
    ensures
        ({
            let program = word_param_program(slot, position, promoted);
            &&& flows(world, program, m, after)
            &&& match promoted {
                Some(reg) => {
                    &&& after.regs[reg] == argument(m, position)
                    &&& after.mem == m.mem
                    &&& forall|other: Reg|
                        other != reg && other != Rax ==> #[trigger] after.regs[other]
                            == m.regs[other]
                },
                None => {
                    &&& word_at(after.mem, m.regs[Rbp] - slot) == argument(m, position)
                    &&& kept(m.mem, after.mem, m.regs[Rbp] - slot, m.regs[Rbp] - slot + 8)
                    &&& forall|other: Reg|
                        other != Rax ==> #[trigger] after.regs[other] == m.regs[other]
                },
            }
        }),
{
    let program = word_param_program(slot, position, promoted);
    let run = Run { world, program, start: 0, before: m };
    let value = argument(m, position);
    let at = m.regs[Rbp] - slot;
    lemma_begin(run);
    let disp = 48i32.wrapping_add((position as i32).wrapping_sub(4).wrapping_mul(8));
    if position >= 4 {
        assert(disp == 48 + 8 * (position - 4));
        assert(m.address(world, at_d(Rbp, disp)) == m.regs[Rbp] + disp);
        lemma_load(run, 0, m, Rax, at_d(Rbp, disp));
        let m1 = m.set(Rax, value);
        match promoted {
            Some(reg) => {
                lemma_mov(run, 1, m1, reg, Rax);
                m1.set(reg, value)
            },
            None => {
                assert(m1.address(world, frame(slot)) == at);
                lemma_store(run, 1, m1, frame(slot), Rax);
                lemma_word_put(m.mem, at, value);
                m1.store(Width::Quad, at, value as int)
            },
        }
    } else {
        match promoted {
            Some(reg) => {
                lemma_mov(run, 0, m, reg, arg_reg(position));
                m.set(reg, value)
            },
            None => {
                assert(m.address(world, frame(slot)) == at);
                lemma_store(run, 0, m, frame(slot), arg_reg(position));
                lemma_word_put(m.mem, at, value);
                m.store(Width::Quad, at, value as int)
            },
        }
    }
}

proof fn lemma_word_put(mem: spec_fn(int) -> u8, at: int, value: u64)
    ensures
        word_at(with_word(mem, at, value), at) == value,
        kept(mem, with_word(mem, at, value), at, at + 8),
{
    law_word_reads_back(mem, at, value);
    assert forall|p: int| p < at || at + 8 <= p implies #[trigger] with_word(mem, at, value)(p)
        == mem(p) by {
        law_word_keeps_bytes(mem, at, value, p);
    }
}

} // verus!
