//! Single instructions of a running program.
//!
//! Each lemma takes a program that has come to an instruction of one form one step further.

use crate::machine::{
    comes_to, copied, effect, extended_byte, flags_of_bits, flags_of_difference, flags_of_sum,
    floated, flows, law_one_step, law_parts_run_alike, law_running_on, law_then_step, number_at,
    packed, part_of, power2, signed, step, with_byte, with_number, word_at, word_span, wrap, Flags,
    Machine, Outcome, World,
};
use crate::mnemonics::{
    alu, alu_acc, alu_acc_b, alu_b, alu_d, alu_imm32, alu_imm32_d, alu_imm8, alu_imm8_b, alu_imm8_d,
    alu_load, cmov, imul, imul_imm8, lea, lea_d, load, load_b, mov, mov_b, mov_d, mov_imm, movzx,
    movzx_load, set_d, set_q, set_w, shift, shift_d, shift_one, store, store_b, store_d, store_imm,
    store_imm_b, store_imm_d, store_w, test_imm_d, test_rr, test_rr_b, unary,
};
use crate::symbols::Symbol;
use crate::x86::{Alu, Cond, FloatWidth, Hop, Insn, Mem, Reg, Rm, Shift, Sse, Unary, Width, Xmm};
use crate::x86::Reg::{Rax, Rbx, Rcx, Rdi, Rdx, Rsi, Rsp};
use vstd::prelude::*;

verus! {

/// Where a program has come to.
pub struct Run {
    pub world: World,
    pub program: Seq<Insn>,
    pub start: int,
    pub before: Machine,
}

impl Run {
    /// Whether the program has come to position `pc` with state `m`.
    pub open spec fn at(self, pc: int, m: Machine) -> bool {
        comes_to(self.world, self.program, self.start, self.before, Outcome::At(pc, m))
    }

    /// Whether it ends in `outcome`.
    pub open spec fn ends(self, outcome: Outcome) -> bool {
        comes_to(self.world, self.program, self.start, self.before, outcome)
    }
}

/// The beginning of a run.
pub proof fn lemma_begin(run: Run)
    ensures
        run.at(run.start, run.before),
{
    law_one_step(run.world, run.program, run.start, run.before);
}

/// A part of the program, run from where the program has come to.
pub proof fn lemma_part(run: Run, pc: int, m: Machine, part: Seq<Insn>, after: Machine)
    requires
        run.at(pc, m),
        part_of(part, run.program, pc),
        flows(run.world, part, m, after),
    ensures
        run.at(pc + part.len(), after),
{
    law_parts_run_alike(
        run.world,
        part,
        run.program,
        pc,
        0,
        m,
        Outcome::At(part.len() as int, after),
    );
    law_running_on(
        run.world,
        run.program,
        run.start,
        run.before,
        pc,
        m,
        Outcome::At(pc + part.len(), after),
    );
}

/// `mov dst, [mem]`
pub proof fn lemma_load(run: Run, pc: int, m: Machine, dst: Reg, mem: Mem)
    requires
        run.at(pc, m),
        0 <= pc < run.program.len(),
        run.program[pc] == load(dst, mem),
    ensures
        run.at(pc + 1, m.set(dst, word_at(m.mem, m.address(run.world, mem)))),
{
    reveal(effect);
    reveal(step);
    law_then_step(run.world, run.program, run.start, run.before, pc, m);
}

/// `mov [mem], src`
pub proof fn lemma_store(run: Run, pc: int, m: Machine, mem: Mem, src: Reg)
    requires
        run.at(pc, m),
        0 <= pc < run.program.len(),
        run.program[pc] == store(mem, src),
    ensures
        run.at(pc + 1, m.store(Width::Quad, m.address(run.world, mem), m.regs[src] as int)),
{
    reveal(effect);
    reveal(step);
    law_then_step(run.world, run.program, run.start, run.before, pc, m);
}

/// `mov qword [mem], imm`, of an immediate that is not negative
pub proof fn lemma_store_imm(run: Run, pc: int, m: Machine, mem: Mem, imm: i32)
    requires
        run.at(pc, m),
        0 <= pc < run.program.len(),
        run.program[pc] == store_imm(mem, imm),
        0 <= imm,
    ensures
        run.at(pc + 1, m.store(Width::Quad, m.address(run.world, mem), imm as int)),
{
    reveal(effect);
    reveal(step);
    law_then_step(run.world, run.program, run.start, run.before, pc, m);
}

/// `mov r32, imm`, of an immediate that is not negative
pub proof fn lemma_set_d(run: Run, pc: int, m: Machine, dst: Reg, imm: i32)
    requires
        run.at(pc, m),
        0 <= pc < run.program.len(),
        run.program[pc] == set_d(dst, imm),
        0 <= imm,
    ensures
        run.at(pc + 1, m.set(dst, imm as u64)),
{
    reveal(effect);
    reveal(step);
    law_then_step(run.world, run.program, run.start, run.before, pc, m);
}

/// `mov dst, src`
pub proof fn lemma_mov(run: Run, pc: int, m: Machine, dst: Reg, src: Reg)
    requires
        run.at(pc, m),
        0 <= pc < run.program.len(),
        run.program[pc] == mov(dst, src),
    ensures
        run.at(pc + 1, m.set(dst, m.regs[src])),
{
    reveal(effect);
    reveal(step);
    law_then_step(run.world, run.program, run.start, run.before, pc, m);
}

/// `lea dst, [mem]`
pub proof fn lemma_lea(run: Run, pc: int, m: Machine, dst: Reg, mem: Mem)
    requires
        run.at(pc, m),
        0 <= pc < run.program.len(),
        run.program[pc] == lea(dst, mem),
    ensures
        run.at(pc + 1, m.set(dst, m.address(run.world, mem) as u64)),
        0 <= m.address(run.world, mem) < word_span(),
{
    reveal(effect);
    reveal(step);
    law_then_step(run.world, run.program, run.start, run.before, pc, m);
}

/// A register after an operation with `right`, and the flags.
pub open spec fn operated(m: Machine, op: Alu, reg: Reg, right: u64) -> Machine {
    let left = m.regs[reg];
    match op {
        Alu::Add => m.set(reg, wrap(left + right)).flagged(
            flags_of_sum(Width::Quad, left as int, right as int),
        ),
        Alu::Sub => m.set(reg, wrap(left - right)).flagged(
            flags_of_difference(Width::Quad, left as int, right as int),
        ),
        Alu::Cmp => m.flagged(flags_of_difference(Width::Quad, left as int, right as int)),
        Alu::And => m.set(reg, left & right).flagged(
            flags_of_bits(Width::Quad, (left & right) as int),
        ),
        Alu::Or => m.set(reg, left | right).flagged(
            flags_of_bits(Width::Quad, (left | right) as int),
        ),
        Alu::Xor => m.set(reg, left ^ right).flagged(
            flags_of_bits(Width::Quad, (left ^ right) as int),
        ),
    }
}

proof fn lemma_operated(world: World, m: Machine, op: Alu, reg: Reg, right: u64)
    ensures
        m.computed(world, op, Width::Quad, Rm::Reg(reg), right as int) == operated(
            m,
            op,
            reg,
            right,
        ),
{
    let left = m.regs[reg];
    assert(m.read(world, Width::Quad, Rm::Reg(reg)) == left);
    match op {
        Alu::Add => {
            assert(wrap(left + right) == (left + right) % word_span());
        },
        Alu::Sub => {
            assert(wrap(left - right) == (left - right) % word_span());
        },
        _ => {},
    }
}

/// `op dst, src`
pub proof fn lemma_alu(run: Run, pc: int, m: Machine, op: Alu, dst: Reg, src: Reg)
    requires
        run.at(pc, m),
        0 <= pc < run.program.len(),
        run.program[pc] == alu(op, dst, src),
    ensures
        run.at(pc + 1, operated(m, op, dst, m.regs[src])),
{
    lemma_operated(run.world, m, op, dst, m.regs[src]);
    assert(m.get(Width::Quad, src) == m.regs[src]);
    reveal(effect);
    reveal(step);
    law_then_step(run.world, run.program, run.start, run.before, pc, m);
}

/// `op dst, [mem]`
pub proof fn lemma_alu_load(run: Run, pc: int, m: Machine, op: Alu, dst: Reg, mem: Mem)
    requires
        run.at(pc, m),
        0 <= pc < run.program.len(),
        run.program[pc] == alu_load(op, dst, mem),
    ensures
        run.at(pc + 1, operated(m, op, dst, word_at(m.mem, m.address(run.world, mem)))),
{
    lemma_operated(run.world, m, op, dst, word_at(m.mem, m.address(run.world, mem)));
    reveal(effect);
    reveal(step);
    law_then_step(run.world, run.program, run.start, run.before, pc, m);
}

/// `op dst, imm8`
pub proof fn lemma_alu_imm8(run: Run, pc: int, m: Machine, op: Alu, dst: Reg, imm: u8)
    requires
        run.at(pc, m),
        0 <= pc < run.program.len(),
        run.program[pc] == alu_imm8(op, dst, imm),
    ensures
        run.at(pc + 1, operated(m, op, dst, extended_byte(Width::Quad, imm) as u64)),
{
    lemma_operated(run.world, m, op, dst, extended_byte(Width::Quad, imm) as u64);
    reveal(effect);
    reveal(step);
    law_then_step(run.world, run.program, run.start, run.before, pc, m);
}

/// `op dst, imm32`
pub proof fn lemma_alu_imm32(run: Run, pc: int, m: Machine, op: Alu, dst: Reg, imm: i32)
    requires
        run.at(pc, m),
        0 <= pc < run.program.len(),
        run.program[pc] == alu_imm32(op, dst, imm) || (dst == Rax && run.program[pc] == alu_acc(
            op,
            imm,
        )),
    ensures
        run.at(pc + 1, operated(m, op, dst, wrap(imm as int))),
{
    lemma_operated(run.world, m, op, dst, wrap(imm as int));
    reveal(effect);
    reveal(step);
    law_then_step(run.world, run.program, run.start, run.before, pc, m);
}

/// `test reg, reg`
pub proof fn lemma_test(run: Run, pc: int, m: Machine, reg: Reg)
    requires
        run.at(pc, m),
        0 <= pc < run.program.len(),
        run.program[pc] == test_rr(reg, reg),
    ensures
        run.at(pc + 1, m.flagged(flags_of_bits(Width::Quad, m.regs[reg] as int))),
{
    reveal(effect);
    reveal(step);
    let v = m.regs[reg];
    assert(v & v == v) by (bit_vector);
    law_then_step(run.world, run.program, run.start, run.before, pc, m);
}

/// `dec qword [mem]`
pub proof fn lemma_dec_mem(run: Run, pc: int, m: Machine, mem: Mem)
    requires
        run.at(pc, m),
        0 <= pc < run.program.len(),
        run.program[pc] == (Insn::Unary { op: Unary::Dec, rm: Rm::Mem(mem) }),
    ensures
        ({
            let a = m.address(run.world, mem);
            let v = word_at(m.mem, a);
            run.at(
                pc + 1,
                m.store(Width::Quad, a, wrap(v - 1) as int).flagged(
                    Flags {
                        carry: m.flags.carry,
                        ..flags_of_difference(Width::Quad, v as int, 1)
                    },
                ),
            )
        }),
{
    reveal(effect);
    reveal(step);
    law_then_step(run.world, run.program, run.start, run.before, pc, m);
}

/// `push reg`
pub proof fn lemma_push(run: Run, pc: int, m: Machine, reg: Reg)
    requires
        run.at(pc, m),
        0 <= pc < run.program.len(),
        run.program[pc] == Insn::Push(reg),
    ensures
        ({
            let top = wrap(m.regs[Rsp] - 8);
            run.at(pc + 1, m.store(Width::Quad, top as int, m.regs[reg] as int).set(Rsp, top))
        }),
{
    reveal(effect);
    reveal(step);
    law_then_step(run.world, run.program, run.start, run.before, pc, m);
}

/// `pop reg`
pub proof fn lemma_pop(run: Run, pc: int, m: Machine, reg: Reg)
    requires
        run.at(pc, m),
        0 <= pc < run.program.len(),
        run.program[pc] == Insn::Pop(reg),
    ensures
        run.at(
            pc + 1,
            m.set(Rsp, wrap(m.regs[Rsp] + 8)).set(reg, word_at(m.mem, m.regs[Rsp] as int)),
        ),
{
    reveal(effect);
    reveal(step);
    law_then_step(run.world, run.program, run.start, run.before, pc, m);
}

/// A conditional jump
pub proof fn lemma_jcc(run: Run, pc: int, m: Machine, cond: Cond, short: bool, to: Hop)
    requires
        run.at(pc, m),
        0 <= pc < run.program.len(),
        run.program[pc] == (Insn::Jcc { cond, short, to }),
    ensures
        m.flags.holds(cond) ==> run.at(pc + to.distance(), m),
        !m.flags.holds(cond) ==> run.at(pc + 1, m),
{
    reveal(step);
    law_then_step(run.world, run.program, run.start, run.before, pc, m);
}

/// A jump
pub proof fn lemma_jmp(run: Run, pc: int, m: Machine, short: bool, to: Hop)
    requires
        run.at(pc, m),
        0 <= pc < run.program.len(),
        run.program[pc] == (Insn::Jmp { short, to }),
    ensures
        run.at(pc + to.distance(), m),
{
    reveal(step);
    law_then_step(run.world, run.program, run.start, run.before, pc, m);
}

/// `ret`
pub proof fn lemma_ret(run: Run, pc: int, m: Machine)
    requires
        run.at(pc, m),
        0 <= pc < run.program.len(),
        run.program[pc] == Insn::Ret,
    ensures
        run.ends(Outcome::Returned(m.set(Rsp, wrap(m.regs[Rsp] + 8)))),
{
    reveal(step);
    law_then_step(run.world, run.program, run.start, run.before, pc, m);
}

/// `ud2`
pub proof fn lemma_ud2(run: Run, pc: int, m: Machine)
    requires
        run.at(pc, m),
        0 <= pc < run.program.len(),
        run.program[pc] == Insn::Ud2,
    ensures
        run.ends(Outcome::Trapped(m)),
{
    reveal(step);
    law_then_step(run.world, run.program, run.start, run.before, pc, m);
}

/// `jmp symbol`
pub proof fn lemma_jmp_symbol(run: Run, pc: int, m: Machine, symbol: Symbol)
    requires
        run.at(pc, m),
        0 <= pc < run.program.len(),
        run.program[pc] == Insn::JmpSymbol(symbol),
    ensures
        run.ends(Outcome::Left(symbol, m)),
{
    reveal(step);
    law_then_step(run.world, run.program, run.start, run.before, pc, m);
}

/// An SSE instruction between registers
pub proof fn lemma_sse(run: Run, pc: int, m: Machine, op: Sse, dst: Xmm, src: Xmm)
    requires
        run.at(pc, m),
        0 <= pc < run.program.len(),
        run.program[pc] == (Insn::SseRr { op, dst, src }),
        packed(op, m.xmms[dst], m.xmms[src]) is Some,
    ensures
        run.at(pc + 1, m.set_lanes(dst, packed(op, m.xmms[dst], m.xmms[src])->0)),
{
    reveal(effect);
    reveal(step);
    law_then_step(run.world, run.program, run.start, run.before, pc, m);
}

/// `movsd` or `movss` from memory
pub proof fn lemma_float_load(run: Run, pc: int, m: Machine, width: FloatWidth, xmm: Xmm, mem: Mem)
    requires
        run.at(pc, m),
        0 <= pc < run.program.len(),
        run.program[pc] == (Insn::MovsLoad { width, xmm, mem }),
    ensures
        run.at(
            pc + 1,
            m.set_lanes(
                xmm,
                (
                    match width {
                        FloatWidth::F64 => word_at(m.mem, m.address(run.world, mem)),
                        FloatWidth::F32 => number_at(m.mem, m.address(run.world, mem), 4) as u64,
                    },
                    0,
                ),
            ),
        ),
{
    reveal(effect);
    reveal(step);
    law_then_step(run.world, run.program, run.start, run.before, pc, m);
}

/// `movsd` to memory
pub proof fn lemma_double_store(run: Run, pc: int, m: Machine, mem: Mem, xmm: Xmm)
    requires
        run.at(pc, m),
        0 <= pc < run.program.len(),
        run.program[pc] == (Insn::MovsStore { width: FloatWidth::F64, mem, xmm }),
    ensures
        run.at(
            pc + 1,
            m.store(Width::Quad, m.address(run.world, mem), m.xmms[xmm].0 as int),
        ),
{
    reveal(effect);
    reveal(step);
    law_then_step(run.world, run.program, run.start, run.before, pc, m);
}

/// Floating-point arithmetic between vector registers
pub proof fn lemma_floated(run: Run, pc: int, m: Machine, op: Sse, dst: Xmm, src: Xmm)
    requires
        run.at(pc, m),
        0 <= pc < run.program.len(),
        run.program[pc] == (Insn::SseRr { op, dst, src }),
        packed(op, m.xmms[dst], m.xmms[src]) is None,
    ensures
        run.at(pc + 1, m.set_lanes(dst, floated(run.world, op, m.xmms[dst], m.xmms[src]))),
{
    reveal(effect);
    reveal(step);
    law_then_step(run.world, run.program, run.start, run.before, pc, m);
}

/// `movdqu xmm, [mem]`
pub proof fn lemma_movdqu_load(run: Run, pc: int, m: Machine, xmm: Xmm, mem: Mem)
    requires
        run.at(pc, m),
        0 <= pc < run.program.len(),
        run.program[pc] == (Insn::MovdquLoad { xmm, mem }),
    ensures
        ({
            let a = m.address(run.world, mem);
            run.at(pc + 1, m.set_lanes(xmm, (word_at(m.mem, a), word_at(m.mem, a + 8))))
        }),
{
    reveal(effect);
    reveal(step);
    law_then_step(run.world, run.program, run.start, run.before, pc, m);
}

/// `movdqu [mem], xmm`
pub proof fn lemma_movdqu_store(run: Run, pc: int, m: Machine, mem: Mem, xmm: Xmm)
    requires
        run.at(pc, m),
        0 <= pc < run.program.len(),
        run.program[pc] == (Insn::MovdquStore { mem, xmm }),
    ensures
        ({
            let a = m.address(run.world, mem);
            run.at(
                pc + 1,
                m.store(Width::Quad, a, m.xmms[xmm].0 as int).store(
                    Width::Quad,
                    a + 8,
                    m.xmms[xmm].1 as int,
                ),
            )
        }),
{
    reveal(effect);
    reveal(step);
    law_then_step(run.world, run.program, run.start, run.before, pc, m);
}

/// `movq reg, xmm`
pub proof fn lemma_movq(run: Run, pc: int, m: Machine, dst: Reg, src: Xmm)
    requires
        run.at(pc, m),
        0 <= pc < run.program.len(),
        run.program[pc] == (Insn::MovqFromXmm { dst, src }),
    ensures
        run.at(pc + 1, m.set(dst, m.xmms[src].0)),
{
    reveal(effect);
    reveal(step);
    law_then_step(run.world, run.program, run.start, run.before, pc, m);
}

/// `psrldq xmm, 8`
pub proof fn lemma_psrldq(run: Run, pc: int, m: Machine, xmm: Xmm)
    requires
        run.at(pc, m),
        0 <= pc < run.program.len(),
        run.program[pc] == (Insn::Psrldq { xmm, amount: 8 }),
    ensures
        run.at(pc + 1, m.set_lanes(xmm, (m.xmms[xmm].1, 0))),
{
    reveal(effect);
    reveal(step);
    law_then_step(run.world, run.program, run.start, run.before, pc, m);
}

/// `mov reg, imm64`
pub proof fn lemma_set_q(run: Run, pc: int, m: Machine, dst: Reg, imm: i64)
    requires
        run.at(pc, m),
        0 <= pc < run.program.len(),
        run.program[pc] == set_q(dst, imm),
    ensures
        run.at(pc + 1, m.set(dst, wrap(imm as int))),
{
    reveal(effect);
    reveal(step);
    law_then_step(run.world, run.program, run.start, run.before, pc, m);
}

/// `movq xmm, reg`
pub proof fn lemma_movq_to(run: Run, pc: int, m: Machine, dst: Xmm, src: Reg)
    requires
        run.at(pc, m),
        0 <= pc < run.program.len(),
        run.program[pc] == (Insn::MovqToXmm { dst, src }),
    ensures
        run.at(pc + 1, m.set_lanes(dst, (m.regs[src], 0))),
{
    reveal(effect);
    reveal(step);
    law_then_step(run.world, run.program, run.start, run.before, pc, m);
}

/// `cmov dst, src`
pub proof fn lemma_cmov(run: Run, pc: int, m: Machine, cond: Cond, dst: Reg, src: Reg)
    requires
        run.at(pc, m),
        0 <= pc < run.program.len(),
        run.program[pc] == cmov(cond, dst, src),
    ensures
        m.flags.holds(cond) ==> run.at(pc + 1, m.set(dst, m.regs[src])),
        !m.flags.holds(cond) ==> run.at(pc + 1, m),
{
    reveal(effect);
    reveal(step);
    assert(m.read(run.world, Width::Quad, Rm::Reg(src)) == m.regs[src]);
    law_then_step(run.world, run.program, run.start, run.before, pc, m);
}

/// `cpuid`
pub proof fn lemma_cpuid(run: Run, pc: int, m: Machine)
    requires
        run.at(pc, m),
        0 <= pc < run.program.len(),
        run.program[pc] == Insn::Cpuid,
    ensures
        ({
            let (a, b, c, d) = (run.world.features)(m.regs[Rax]);
            run.at(
                pc + 1,
                m.set(Rax, a as u64).set(Rbx, b as u64).set(Rcx, c as u64).set(Rdx, d as u64),
            )
        }),
{
    reveal(effect);
    reveal(step);
    law_then_step(run.world, run.program, run.start, run.before, pc, m);
}

/// `mov dst, src` of 32 bits
pub proof fn lemma_mov_d(run: Run, pc: int, m: Machine, dst: Reg, src: Reg)
    requires
        run.at(pc, m),
        0 <= pc < run.program.len(),
        run.program[pc] == mov_d(dst, src),
    ensures
        run.at(pc + 1, m.set(dst, m.regs[src] % 0x1_0000_0000)),
{
    reveal(effect);
    reveal(step);
    law_then_step(run.world, run.program, run.start, run.before, pc, m);
}

/// `test r32, imm`, of an immediate that is not negative
pub proof fn lemma_test_imm_d(run: Run, pc: int, m: Machine, reg: Reg, imm: i32)
    requires
        run.at(pc, m),
        0 <= pc < run.program.len(),
        run.program[pc] == test_imm_d(reg, imm),
        0 <= imm,
    ensures
        run.at(
            pc + 1,
            m.flagged(
                flags_of_bits(
                    Width::Long,
                    ((m.regs[reg] % 0x1_0000_0000) as u64 & imm as u64) as int,
                ),
            ),
        ),
{
    reveal(effect);
    reveal(step);
    law_then_step(run.world, run.program, run.start, run.before, pc, m);
}

/// `test eax, imm`, of an immediate that is not negative
pub proof fn lemma_test_acc(run: Run, pc: int, m: Machine, imm: i32)
    requires
        run.at(pc, m),
        0 <= pc < run.program.len(),
        run.program[pc] == (Insn::TestAcc { imm }),
        0 <= imm,
    ensures
        run.at(
            pc + 1,
            m.flagged(
                flags_of_bits(
                    Width::Long,
                    (((m.regs[Rax] % 0x1_0000_0000) as u64) & (imm as u64)) as int,
                ),
            ),
        ),
{
    reveal(effect);
    reveal(step);
    law_then_step(run.world, run.program, run.start, run.before, pc, m);
}

/// `mov r8, [mem]`: the low byte is the one in memory.
pub proof fn lemma_load_b(run: Run, pc: int, m: Machine, dst: Reg, mem: Mem) -> (after: Machine)
    requires
        run.at(pc, m),
        0 <= pc < run.program.len(),
        run.program[pc] == load_b(dst, mem),
    ensures
        run.at(pc + 1, after),
        after.regs == m.regs.insert(dst, after.regs[dst]),
        after.regs[dst] % 256 == (m.mem)(m.address(run.world, mem)),
        after.mem == m.mem,
        after.xmms == m.xmms,
{
    reveal(effect);
    reveal(step);
    reveal_with_fuel(number_at, 2);
    law_then_step(run.world, run.program, run.start, run.before, pc, m);
    let byte = (m.mem)(m.address(run.world, mem));
    let old = m.regs[dst];
    assert((old - old % 256 + byte) % 256 == byte as int);
    m.put(Width::Byte, dst, byte as int)
}

/// `movzx r32, byte [mem]`
pub proof fn lemma_movzx_load(run: Run, pc: int, m: Machine, dst: Reg, mem: Mem)
    requires
        run.at(pc, m),
        0 <= pc < run.program.len(),
        run.program[pc] == movzx_load(dst, mem),
    ensures
        run.at(pc + 1, m.set(dst, (m.mem)(m.address(run.world, mem)) as u64)),
{
    reveal(effect);
    reveal(step);
    reveal_with_fuel(number_at, 2);
    law_then_step(run.world, run.program, run.start, run.before, pc, m);
}

/// `cmp` of two low bytes
pub proof fn lemma_compare_b(run: Run, pc: int, m: Machine, a: Reg, b: Reg)
    requires
        run.at(pc, m),
        0 <= pc < run.program.len(),
        run.program[pc] == alu_b(Alu::Cmp, a, b),
    ensures
        run.at(
            pc + 1,
            m.flagged(
                flags_of_difference(
                    Width::Byte,
                    m.regs[a] as int % 256,
                    m.regs[b] as int % 256,
                ),
            ),
        ),
{
    reveal(effect);
    reveal(step);
    law_then_step(run.world, run.program, run.start, run.before, pc, m);
}

/// `cmp` of a low byte with a constant
pub proof fn lemma_compare_imm_b(run: Run, pc: int, m: Machine, a: Reg, imm: u8)
    requires
        run.at(pc, m),
        0 <= pc < run.program.len(),
        run.program[pc] == alu_imm8_b(Alu::Cmp, a, imm),
    ensures
        run.at(
            pc + 1,
            m.flagged(flags_of_difference(Width::Byte, m.regs[a] as int % 256, imm as int)),
        ),
{
    reveal(effect);
    reveal(step);
    law_then_step(run.world, run.program, run.start, run.before, pc, m);
}

/// `and` of a low byte with a constant
#[verifier::spinoff_prover]
#[verifier::rlimit(30)]
pub proof fn lemma_and_imm_b(run: Run, pc: int, m: Machine, dst: Reg, imm: u8) -> (after: Machine)
    requires
        run.at(pc, m),
        0 <= pc < run.program.len(),
        run.program[pc] == alu_imm8_b(Alu::And, dst, imm),
    ensures
        run.at(pc + 1, after),
        after.regs == m.regs.insert(dst, after.regs[dst]),
        after.regs[dst] % 256 == ((m.regs[dst] % 256) as u8) & imm,
        after.mem == m.mem,
        after.xmms == m.xmms,
{
    reveal(effect);
    reveal(step);
    law_then_step(run.world, run.program, run.start, run.before, pc, m);
    let old = m.regs[dst];
    let low = (old % 256) as u8;
    let result = (low as u64) & (imm as u64);
    assert((low as u64) & (imm as u64) == (low & imm) as u64) by (bit_vector);
    assert((old - old % 256 + result) % 256 == result as int);
    m.put(Width::Byte, dst, result as int).flagged(flags_of_bits(Width::Byte, result as int))
}

/// `inc reg`; what it does to the flags is left out.
pub proof fn lemma_inc(run: Run, pc: int, m: Machine, reg: Reg) -> (after: Machine)
    requires
        run.at(pc, m),
        0 <= pc < run.program.len(),
        run.program[pc] == unary(Unary::Inc, reg),
    ensures
        run.at(pc + 1, after),
        after.regs == m.regs.insert(reg, wrap(m.regs[reg] + 1)),
        after.mem == m.mem,
        after.xmms == m.xmms,
{
    reveal(effect);
    reveal(step);
    law_then_step(run.world, run.program, run.start, run.before, pc, m);
    let v = m.regs[reg];
    assert(m.read(run.world, Width::Quad, Rm::Reg(reg)) == v);
    m.set(reg, wrap(v + 1)).flagged(
        Flags { carry: m.flags.carry, ..flags_of_sum(Width::Quad, v as int, 1) },
    )
}

/// `xor reg, reg`: the register is zero.
pub proof fn lemma_zero(run: Run, pc: int, m: Machine, reg: Reg) -> (after: Machine)
    requires
        run.at(pc, m),
        0 <= pc < run.program.len(),
        run.program[pc] == alu(Alu::Xor, reg, reg),
    ensures
        run.at(pc + 1, after),
        after.regs == m.regs.insert(reg, 0),
        after.mem == m.mem,
        after.xmms == m.xmms,
{
    let v = m.regs[reg];
    assert(v ^ v == 0) by (bit_vector);
    lemma_alu(run, pc, m, Alu::Xor, reg, reg);
    operated(m, Alu::Xor, reg, v)
}

/// `mov reg, imm32`
pub proof fn lemma_mov_imm(run: Run, pc: int, m: Machine, dst: Reg, imm: i32)
    requires
        run.at(pc, m),
        0 <= pc < run.program.len(),
        run.program[pc] == mov_imm(dst, imm),
    ensures
        run.at(pc + 1, m.set(dst, wrap(imm as int))),
{
    reveal(effect);
    reveal(step);
    law_then_step(run.world, run.program, run.start, run.before, pc, m);
}

/// `call symbol`
pub proof fn lemma_call(run: Run, pc: int, m: Machine, symbol: Symbol)
    requires
        run.at(pc, m),
        0 <= pc < run.program.len(),
        run.program[pc] == Insn::Call(symbol),
    ensures
        run.ends(Outcome::Called(symbol, pc + 1, m)),
{
    reveal(step);
    law_then_step(run.world, run.program, run.start, run.before, pc, m);
}

/// `call reg`
pub proof fn lemma_call_reg(run: Run, pc: int, m: Machine, reg: Reg)
    requires
        run.at(pc, m),
        0 <= pc < run.program.len(),
        run.program[pc] == Insn::CallReg(reg),
    ensures
        run.ends(Outcome::Called((run.world.routine)(m.regs[reg]), pc + 1, m)),
{
    reveal(step);
    law_then_step(run.world, run.program, run.start, run.before, pc, m);
}


/// `shl reg, amount`, where `factor` is that power of two; what it does to the flags is left
/// out.
pub proof fn lemma_shl(run: Run, pc: int, m: Machine, reg: Reg, amount: u8, factor: int) -> (after:
    Machine)
    requires
        amount < 64,
        power2(amount as nat) == factor,
        run.at(pc, m),
        0 <= pc < run.program.len(),
        run.program[pc] == shift(Shift::Shl, reg, amount) || (amount == 1 && run.program[pc]
            == shift_one(Shift::Shl, reg)),
    ensures
        run.at(pc + 1, after),
        after.regs == m.regs.insert(reg, wrap(m.regs[reg] * factor)),
        after.mem == m.mem,
        after.xmms == m.xmms,
{
    reveal(effect);
    reveal(step);
    let v = m.regs[reg];
    assert(m.read(run.world, Width::Quad, Rm::Reg(reg)) == v);
    assert(v * power2(amount as nat) == v * factor);
    assert((v * factor) % word_span() == wrap(v * factor));
    law_then_step(run.world, run.program, run.start, run.before, pc, m);
    m.shifted(run.world, Shift::Shl, Width::Quad, Rm::Reg(reg), amount as nat)
}

/// The powers of two that code shifts by.
pub proof fn lemma_powers()
    ensures
        power2(1) == 2,
        power2(3) == 8,
        power2(4) == 16,
        power2(6) == 64,
        power2(12) == 4096,
        power2(18) == 262144,
{
    reveal_with_fuel(power2, 19);
}

/// `rep movsb`
pub proof fn lemma_rep_movsb(run: Run, pc: int, m: Machine) -> (after: Machine)
    requires
        run.at(pc, m),
        0 <= pc < run.program.len(),
        run.program[pc] == Insn::RepMovsb,
    ensures
        run.at(pc + 1, after),
        after.regs == m.regs.insert(Rsi, wrap(m.regs[Rsi] + m.regs[Rcx])).insert(
            Rdi,
            wrap(m.regs[Rdi] + m.regs[Rcx]),
        ).insert(Rcx, 0),
        after.mem == copied(
            m.mem,
            m.regs[Rsi] as int,
            m.regs[Rdi] as int,
            m.regs[Rcx] as nat,
        ),
        after.xmms == m.xmms,
{
    reveal(effect);
    reveal(step);
    law_then_step(run.world, run.program, run.start, run.before, pc, m);
    let n = m.regs[Rcx];
    (Machine {
        mem: copied(m.mem, m.regs[Rsi] as int, m.regs[Rdi] as int, n as nat),
        ..m
    }).set(Rsi, wrap(m.regs[Rsi] + n)).set(Rdi, wrap(m.regs[Rdi] + n)).set(Rcx, 0)
}

/// `mov byte [mem], imm`
pub proof fn lemma_store_imm_b(run: Run, pc: int, m: Machine, mem: Mem, imm: u8)
    requires
        run.at(pc, m),
        0 <= pc < run.program.len(),
        run.program[pc] == store_imm_b(mem, imm as i32),
    ensures
        run.at(
            pc + 1,
            (Machine { mem: with_byte(m.mem, m.address(run.world, mem), imm), ..m }),
        ),
{
    reveal(effect);
    reveal(step);
    reveal_with_fuel(with_number, 2);
    law_then_step(run.world, run.program, run.start, run.before, pc, m);
}

/// `mov [mem], r8`
pub proof fn lemma_store_b(run: Run, pc: int, m: Machine, mem: Mem, src: Reg)
    requires
        run.at(pc, m),
        0 <= pc < run.program.len(),
        run.program[pc] == store_b(mem, src),
    ensures
        run.at(
            pc + 1,
            (Machine {
                mem: with_byte(
                    m.mem,
                    m.address(run.world, mem),
                    (m.regs[src] % 256) as u8,
                ),
                ..m
            }),
        ),
{
    reveal(effect);
    reveal(step);
    reveal_with_fuel(with_number, 2);
    law_then_step(run.world, run.program, run.start, run.before, pc, m);
    let v = m.regs[src] as int % 256;
    assert(v % 256 == v);
}

/// `lea r32, [mem]`
pub proof fn lemma_lea_d(run: Run, pc: int, m: Machine, dst: Reg, mem: Mem)
    requires
        run.at(pc, m),
        0 <= pc < run.program.len(),
        run.program[pc] == lea_d(dst, mem),
    ensures
        run.at(pc + 1, m.set(dst, (m.address(run.world, mem) % 0x1_0000_0000) as u64)),
{
    reveal(effect);
    reveal(step);
    law_then_step(run.world, run.program, run.start, run.before, pc, m);
}

/// `cmp r32, imm8`, of a constant below 128
pub proof fn lemma_compare_imm_d(run: Run, pc: int, m: Machine, a: Reg, imm: u8)
    requires
        run.at(pc, m),
        0 <= pc < run.program.len(),
        run.program[pc] == alu_imm8_d(Alu::Cmp, a, imm),
        imm < 128,
    ensures
        run.at(
            pc + 1,
            m.flagged(
                flags_of_difference(
                    Width::Long,
                    m.regs[a] as int % 0x1_0000_0000,
                    imm as int,
                ),
            ),
        ),
{
    reveal(effect);
    reveal(step);
    law_then_step(run.world, run.program, run.start, run.before, pc, m);
}

/// `add r32, imm8` or `sub r32, imm8`, of a constant below 128, where the result is not
/// negative; what it does to the flags is left out.
pub proof fn lemma_move_d(run: Run, pc: int, m: Machine, op: Alu, dst: Reg,
    imm: u8) -> (after: Machine)
    requires
        run.at(pc, m),
        0 <= pc < run.program.len(),
        run.program[pc] == alu_imm8_d(op, dst, imm),
        imm < 128,
        op == Alu::Add || (op == Alu::Sub && imm <= m.regs[dst]),
        m.regs[dst] < 0x1000_0000,
    ensures
        run.at(pc + 1, after),
        after.regs == m.regs.insert(
            dst,
            if op == Alu::Add {
                (m.regs[dst] + imm) as u64
            } else {
                (m.regs[dst] - imm) as u64
            },
        ),
        after.mem == m.mem,
        after.xmms == m.xmms,
{
    reveal(effect);
    reveal(step);
    law_then_step(run.world, run.program, run.start, run.before, pc, m);
    m.computed(run.world, op, Width::Long, Rm::Reg(dst), imm as int)
}

/// `test` of a low byte with itself
pub proof fn lemma_test_b(run: Run, pc: int, m: Machine, reg: Reg)
    requires
        run.at(pc, m),
        0 <= pc < run.program.len(),
        run.program[pc] == test_rr_b(reg, reg),
    ensures
        run.at(pc + 1, m.flagged(flags_of_bits(Width::Byte, m.regs[reg] as int % 256))),
{
    reveal(effect);
    reveal(step);
    law_then_step(run.world, run.program, run.start, run.before, pc, m);
    let v = (m.regs[reg] % 256) as u64;
    assert(v & v == v) by (bit_vector);
}

/// `mov` of a low byte: the rest of the register is left out.
pub proof fn lemma_mov_b(run: Run, pc: int, m: Machine, dst: Reg, src: Reg) -> (after: Machine)
    requires
        run.at(pc, m),
        0 <= pc < run.program.len(),
        run.program[pc] == mov_b(dst, src),
    ensures
        run.at(pc + 1, after),
        after.regs == m.regs.insert(dst, after.regs[dst]),
        after.regs[dst] % 256 == m.regs[src] % 256,
        after.mem == m.mem,
        after.xmms == m.xmms,
{
    reveal(effect);
    reveal(step);
    law_then_step(run.world, run.program, run.start, run.before, pc, m);
    let old = m.regs[dst];
    let byte = m.regs[src] as int % 256;
    assert((old - old % 256 + byte) % 256 == byte);
    m.put(Width::Byte, dst, byte)
}

/// `imul dst, src`; what it does to the flags is left out.
pub proof fn lemma_imul(run: Run, pc: int, m: Machine, dst: Reg, src: Reg) -> (after: Machine)
    requires
        run.at(pc, m),
        0 <= pc < run.program.len(),
        run.program[pc] == imul(dst, src),
    ensures
        run.at(pc + 1, after),
        after.regs == m.regs.insert(dst, wrap(signed(m.regs[dst]) * signed(m.regs[src]))),
        after.mem == m.mem,
        after.xmms == m.xmms,
{
    reveal(effect);
    reveal(step);
    assert(m.read(run.world, Width::Quad, Rm::Reg(src)) == m.regs[src]);
    law_then_step(run.world, run.program, run.start, run.before, pc, m);
    m.multiplied(run.world, dst, m.regs[dst], signed(m.regs[src]))
}

/// `dec reg`; what it does to the flags is left out.
pub proof fn lemma_dec(run: Run, pc: int, m: Machine, reg: Reg) -> (after: Machine)
    requires
        run.at(pc, m),
        0 <= pc < run.program.len(),
        run.program[pc] == unary(Unary::Dec, reg),
    ensures
        run.at(pc + 1, after),
        after.regs == m.regs.insert(reg, wrap(m.regs[reg] - 1)),
        after.mem == m.mem,
        after.xmms == m.xmms,
{
    reveal(effect);
    reveal(step);
    law_then_step(run.world, run.program, run.start, run.before, pc, m);
    let v = m.regs[reg];
    assert(m.read(run.world, Width::Quad, Rm::Reg(reg)) == v);
    m.set(reg, wrap(v - 1)).flagged(
        Flags { carry: m.flags.carry, ..flags_of_difference(Width::Quad, v as int, 1) },
    )
}

/// `cmp r32, imm32`, of a constant that is not negative
pub proof fn lemma_compare_imm32_d(run: Run, pc: int, m: Machine, a: Reg, imm: i32)
    requires
        run.at(pc, m),
        0 <= pc < run.program.len(),
        run.program[pc] == alu_imm32_d(Alu::Cmp, a, imm),
        0 <= imm,
    ensures
        run.at(
            pc + 1,
            m.flagged(
                flags_of_difference(
                    Width::Long,
                    m.regs[a] as int % 0x1_0000_0000,
                    imm as int,
                ),
            ),
        ),
{
    reveal(effect);
    reveal(step);
    law_then_step(run.world, run.program, run.start, run.before, pc, m);
}

/// `and r32, imm8`, of a constant below 128; what it does to the flags is left out.
pub proof fn lemma_and_d(run: Run, pc: int, m: Machine, dst: Reg, imm: u8) -> (after: Machine)
    requires
        run.at(pc, m),
        0 <= pc < run.program.len(),
        run.program[pc] == alu_imm8_d(Alu::And, dst, imm),
        imm < 128,
        m.regs[dst] < 0x1_0000_0000,
    ensures
        run.at(pc + 1, after),
        after.regs == m.regs.insert(dst, m.regs[dst] & (imm as u64)),
        after.mem == m.mem,
        after.xmms == m.xmms,
{
    reveal(effect);
    reveal(step);
    law_then_step(run.world, run.program, run.start, run.before, pc, m);
    assert(m.read(run.world, Width::Long, Rm::Reg(dst)) == m.regs[dst]);
    m.computed(run.world, Alu::And, Width::Long, Rm::Reg(dst), imm as int)
}

/// `or r32, r32`; what it does to the flags is left out.
pub proof fn lemma_or_d(run: Run, pc: int, m: Machine, dst: Reg, src: Reg) -> (after: Machine)
    requires
        run.at(pc, m),
        0 <= pc < run.program.len(),
        run.program[pc] == alu_d(Alu::Or, dst, src),
        m.regs[dst] < 0x1_0000_0000,
        m.regs[src] < 0x1_0000_0000,
    ensures
        run.at(pc + 1, after),
        after.regs == m.regs.insert(dst, m.regs[dst] | m.regs[src]),
        after.mem == m.mem,
        after.xmms == m.xmms,
{
    reveal(effect);
    reveal(step);
    law_then_step(run.world, run.program, run.start, run.before, pc, m);
    assert(m.read(run.world, Width::Long, Rm::Reg(dst)) == m.regs[dst]);
    assert(m.get(Width::Long, src) == m.regs[src]);
    m.computed(run.world, Alu::Or, Width::Long, Rm::Reg(dst), m.regs[src] as int)
}

/// `shl r32, amount`, where `factor` is that power of two and nothing is shifted out; what it
/// does to the flags is left out.
pub proof fn lemma_shl_d(run: Run, pc: int, m: Machine, reg: Reg, amount: u8,
    factor: int) -> (after:
    Machine)
    requires
        amount < 32,
        power2(amount as nat) == factor,
        run.at(pc, m),
        0 <= pc < run.program.len(),
        run.program[pc] == shift_d(Shift::Shl, reg, amount),
        m.regs[reg] < 0x1_0000_0000,
        0 <= m.regs[reg] * factor < 0x1_0000_0000,
    ensures
        run.at(pc + 1, after),
        after.regs == m.regs.insert(reg, (m.regs[reg] * factor) as u64),
        after.mem == m.mem,
        after.xmms == m.xmms,
{
    reveal(effect);
    reveal(step);
    let v = m.regs[reg];
    assert(m.read(run.world, Width::Long, Rm::Reg(reg)) == v);
    assert(v * power2(amount as nat) == v * factor);
    law_then_step(run.world, run.program, run.start, run.before, pc, m);
    m.shifted(run.world, Shift::Shl, Width::Long, Rm::Reg(reg), amount as nat)
}

/// `or` of a low byte with a constant
#[verifier::spinoff_prover]
#[verifier::rlimit(30)]
pub proof fn lemma_or_imm_b(run: Run, pc: int, m: Machine, dst: Reg, imm: u8) -> (after: Machine)
    requires
        run.at(pc, m),
        0 <= pc < run.program.len(),
        run.program[pc] == alu_imm8_b(Alu::Or, dst, imm),
    ensures
        run.at(pc + 1, after),
        after.regs == m.regs.insert(dst, after.regs[dst]),
        after.regs[dst] % 256 == ((m.regs[dst] % 256) as u8) | imm,
        after.mem == m.mem,
        after.xmms == m.xmms,
{
    reveal(effect);
    reveal(step);
    law_then_step(run.world, run.program, run.start, run.before, pc, m);
    let old = m.regs[dst];
    let low = (old % 256) as u8;
    let result = (low as u64) | (imm as u64);
    assert((low as u64) | (imm as u64) == (low | imm) as u64) by (bit_vector);
    assert((old - old % 256 + result) % 256 == result as int);
    m.put(Width::Byte, dst, result as int).flagged(flags_of_bits(Width::Byte, result as int))
}

/// `shr reg, amount`, where `factor` is that power of two; what it does to the flags is left
/// out.
pub proof fn lemma_shr(run: Run, pc: int, m: Machine, reg: Reg, amount: u8, factor: int) -> (after:
    Machine)
    requires
        amount < 64,
        power2(amount as nat) == factor,
        0 < factor,
        run.at(pc, m),
        0 <= pc < run.program.len(),
        run.program[pc] == shift(Shift::Shr, reg, amount),
    ensures
        run.at(pc + 1, after),
        after.regs == m.regs.insert(reg, (m.regs[reg] as int / factor) as u64),
        after.mem == m.mem,
        after.xmms == m.xmms,
{
    reveal(effect);
    reveal(step);
    let v = m.regs[reg];
    assert(m.read(run.world, Width::Quad, Rm::Reg(reg)) == v);
    assert(v as int / power2(amount as nat) == v as int / factor);
    law_then_step(run.world, run.program, run.start, run.before, pc, m);
    m.shifted(run.world, Shift::Shr, Width::Quad, Rm::Reg(reg), amount as nat)
}

/// `mov [mem], r32`
pub proof fn lemma_store_d(run: Run, pc: int, m: Machine, mem: Mem, src: Reg)
    requires
        run.at(pc, m),
        0 <= pc < run.program.len(),
        run.program[pc] == store_d(mem, src),
    ensures
        run.at(
            pc + 1,
            (Machine {
                mem: with_number(
                    m.mem,
                    m.address(run.world, mem),
                    4,
                    m.regs[src] as int % 0x1_0000_0000,
                ),
                ..m
            }),
        ),
{
    reveal(effect);
    reveal(step);
    law_then_step(run.world, run.program, run.start, run.before, pc, m);
}

/// `mov [mem], r16`
pub proof fn lemma_store_w(run: Run, pc: int, m: Machine, mem: Mem, src: Reg)
    requires
        run.at(pc, m),
        0 <= pc < run.program.len(),
        run.program[pc] == store_w(mem, src),
    ensures
        run.at(
            pc + 1,
            (Machine {
                mem: with_number(
                    m.mem,
                    m.address(run.world, mem),
                    2,
                    m.regs[src] as int % 0x1_0000,
                ),
                ..m
            }),
        ),
{
    reveal(effect);
    reveal(step);
    law_then_step(run.world, run.program, run.start, run.before, pc, m);
}

/// `mov dword [mem], imm`, of an immediate that is not negative
pub proof fn lemma_store_imm_d(run: Run, pc: int, m: Machine, mem: Mem, imm: i32)
    requires
        run.at(pc, m),
        0 <= pc < run.program.len(),
        run.program[pc] == store_imm_d(mem, imm),
        0 <= imm,
    ensures
        run.at(
            pc + 1,
            (Machine {
                mem: with_number(m.mem, m.address(run.world, mem), 4, imm as int),
                ..m
            }),
        ),
{
    reveal(effect);
    reveal(step);
    law_then_step(run.world, run.program, run.start, run.before, pc, m);
}

/// `mov r16, imm`: the rest of the register is left out.
pub proof fn lemma_set_w(run: Run, pc: int, m: Machine, dst: Reg, imm: u16) -> (after: Machine)
    requires
        run.at(pc, m),
        0 <= pc < run.program.len(),
        run.program[pc] == set_w(dst, imm),
    ensures
        run.at(pc + 1, after),
        after.regs == m.regs.insert(dst, after.regs[dst]),
        after.regs[dst] % 0x1_0000 == imm,
        after.mem == m.mem,
        after.xmms == m.xmms,
{
    reveal(effect);
    reveal(step);
    law_then_step(run.world, run.program, run.start, run.before, pc, m);
    let old = m.regs[dst];
    assert((old - old % 0x1_0000 + imm) % 0x1_0000 == imm as int);
    m.put(Width::Word, dst, imm as int)
}

/// `cmp al, imm`, of an immediate that is not negative
pub proof fn lemma_compare_al(run: Run, pc: int, m: Machine, imm: i32)
    requires
        run.at(pc, m),
        0 <= pc < run.program.len(),
        run.program[pc] == alu_acc_b(Alu::Cmp, imm),
        0 <= imm < 256,
    ensures
        run.at(
            pc + 1,
            m.flagged(flags_of_difference(Width::Byte, m.regs[Rax] as int % 256, imm as int)),
        ),
{
    reveal(effect);
    reveal(step);
    law_then_step(run.world, run.program, run.start, run.before, pc, m);
}

/// `sub al, imm`, of an immediate that is not negative, when the rest of `rax` is zero; what
/// it does to the flags is left out.
pub proof fn lemma_sub_al(run: Run, pc: int, m: Machine, imm: i32) -> (after: Machine)
    requires
        run.at(pc, m),
        0 <= pc < run.program.len(),
        run.program[pc] == alu_acc_b(Alu::Sub, imm),
        0 <= imm < 256,
        m.regs[Rax] < 256,
    ensures
        run.at(pc + 1, after),
        after.regs == m.regs.insert(Rax, ((m.regs[Rax] - imm) % 256) as u64),
        after.mem == m.mem,
        after.xmms == m.xmms,
{
    reveal(effect);
    reveal(step);
    law_then_step(run.world, run.program, run.start, run.before, pc, m);
    m.computed(run.world, Alu::Sub, Width::Byte, Rm::Reg(Rax), imm as int)
}

/// `movzx r32, r8`
pub proof fn lemma_movzx(run: Run, pc: int, m: Machine, dst: Reg, src: Reg)
    requires
        run.at(pc, m),
        0 <= pc < run.program.len(),
        run.program[pc] == movzx(dst, src),
    ensures
        run.at(pc + 1, m.set(dst, (m.regs[src] % 256) as u64)),
{
    reveal(effect);
    reveal(step);
    law_then_step(run.world, run.program, run.start, run.before, pc, m);
}

/// `imul dst, src, imm8`, of a constant below 128
pub proof fn lemma_imul_imm8(run: Run, pc: int, m: Machine, dst: Reg, src: Reg, imm: u8)
    requires
        run.at(pc, m),
        0 <= pc < run.program.len(),
        run.program[pc] == imul_imm8(dst, src, imm),
        imm < 128,
    ensures
        run.at(pc + 1, m.multiplied(run.world, dst, m.regs[src], imm as int)),
{
    reveal(effect);
    reveal(step);
    assert(m.read(run.world, Width::Quad, Rm::Reg(src)) == m.regs[src]);
    law_then_step(run.world, run.program, run.start, run.before, pc, m);
}

/// `xor r32, r32` of a register with itself: the register is zero.
pub proof fn lemma_zero_d(run: Run, pc: int, m: Machine, reg: Reg) -> (after: Machine)
    requires
        run.at(pc, m),
        0 <= pc < run.program.len(),
        run.program[pc] == alu_d(Alu::Xor, reg, reg),
    ensures
        run.at(pc + 1, after),
        after.regs == m.regs.insert(reg, 0),
        after.mem == m.mem,
        after.xmms == m.xmms,
{
    reveal(effect);
    reveal(step);
    law_then_step(run.world, run.program, run.start, run.before, pc, m);
    let v = (m.regs[reg] % 0x1_0000_0000) as u64;
    assert(v ^ v == 0) by (bit_vector);
    m.computed(run.world, Alu::Xor, Width::Long, Rm::Reg(reg), v as int)
}

/// `div reg`, of a number that `rax` holds alone; the flags are left undefined.
pub proof fn lemma_div(run: Run, pc: int, m: Machine, reg: Reg)
    requires
        run.at(pc, m),
        0 <= pc < run.program.len(),
        run.program[pc] == unary(Unary::Div, reg),
        m.regs[Rdx] == 0,
        m.regs[reg] != 0,
    ensures
        run.at(
            pc + 1,
            m.set(Rax, (m.regs[Rax] / m.regs[reg]) as u64).set(
                Rdx,
                (m.regs[Rax] % m.regs[reg]) as u64,
            ).flagged((run.world.undefined)(m)),
        ),
{
    reveal(effect);
    reveal(step);
    let v = m.regs[reg] as int;
    let a = m.regs[Rax] as int;
    assert(m.read(run.world, Width::Quad, Rm::Reg(reg)) == v);
    assert(a / v <= a) by (nonlinear_arith)
        requires
            0 <= a,
            1 <= v,
    ;
    law_then_step(run.world, run.program, run.start, run.before, pc, m);
}

/// `neg reg`; what it does to the flags is left out.
pub proof fn lemma_neg(run: Run, pc: int, m: Machine, reg: Reg) -> (after: Machine)
    requires
        run.at(pc, m),
        0 <= pc < run.program.len(),
        run.program[pc] == unary(Unary::Neg, reg),
    ensures
        run.at(pc + 1, after),
        after.regs == m.regs.insert(reg, wrap(-m.regs[reg])),
        after.mem == m.mem,
        after.xmms == m.xmms,
{
    reveal(effect);
    reveal(step);
    law_then_step(run.world, run.program, run.start, run.before, pc, m);
    let v = m.regs[reg];
    assert(m.read(run.world, Width::Quad, Rm::Reg(reg)) == v);
    m.set(reg, wrap(-v)).flagged(flags_of_difference(Width::Quad, 0, v as int))
}

/// `add` of a constant to a low byte, when nothing is carried out of it
pub proof fn lemma_add_imm_b(run: Run, pc: int, m: Machine, dst: Reg, imm: u8) -> (after: Machine)
    requires
        run.at(pc, m),
        0 <= pc < run.program.len(),
        run.program[pc] == alu_imm8_b(Alu::Add, dst, imm),
        m.regs[dst] % 256 + imm < 256,
    ensures
        run.at(pc + 1, after),
        after.regs == m.regs.insert(dst, after.regs[dst]),
        after.regs[dst] % 256 == m.regs[dst] % 256 + imm,
        after.mem == m.mem,
        after.xmms == m.xmms,
{
    reveal(effect);
    reveal(step);
    law_then_step(run.world, run.program, run.start, run.before, pc, m);
    let old = m.regs[dst] as int;
    let sum = old % 256 + imm;
    assert((old - old % 256 + sum) % 256 == sum);
    m.computed(run.world, Alu::Add, Width::Byte, Rm::Reg(dst), imm as int)
}

} // verus!
