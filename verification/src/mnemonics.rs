//! Short names for the instruction forms the listings use. A suffix gives the
//! operand width: none for 64 bits, `_d` for 32, `_w` for 16 and `_b` for 8. On a
//! memory operand it gives the width of the displacement instead: none, `_b` for
//! 8 bits, `_d` for 32.

use crate::symbols::Symbol;
use crate::x86::{
    Alu, Cond, Disp, FloatWidth, Hop, Insn, Mem, Reg, Rm, Scale, Shift, Unary, Width, Xmm,
};
use vstd::prelude::*;

verus! {

/// `[base]`
#[verifier::allow_in_spec]
pub fn at(base: Reg) -> Mem
    returns
        (Mem::Base { base, disp: Disp::Zero }),
{
    Mem::Base { base, disp: Disp::Zero }
}

/// `[base + disp8]`
#[verifier::allow_in_spec]
pub fn at_b(base: Reg, disp: i8) -> Mem
    returns
        (Mem::Base { base, disp: Disp::Byte(disp) }),
{
    Mem::Base { base, disp: Disp::Byte(disp) }
}

/// `[base + disp32]`
#[verifier::allow_in_spec]
pub fn at_d(base: Reg, disp: i32) -> Mem
    returns
        (Mem::Base { base, disp: Disp::Long(disp) }),
{
    Mem::Base { base, disp: Disp::Long(disp) }
}

/// `[base + index]`
#[verifier::allow_in_spec]
pub fn index(base: Reg, index: Reg) -> Mem
    returns
        (Mem::Indexed { base, index, scale: Scale::One, disp: Disp::Zero }),
{
    Mem::Indexed { base, index, scale: Scale::One, disp: Disp::Zero }
}

/// `[base + index + disp8]`
#[verifier::allow_in_spec]
pub fn index_b(base: Reg, index: Reg, disp: i8) -> Mem
    returns
        (Mem::Indexed { base, index, scale: Scale::One, disp: Disp::Byte(disp) }),
{
    Mem::Indexed { base, index, scale: Scale::One, disp: Disp::Byte(disp) }
}

/// `[base + index + disp32]`
#[verifier::allow_in_spec]
pub fn index_d(base: Reg, index: Reg, disp: i32) -> Mem
    returns
        (Mem::Indexed { base, index, scale: Scale::One, disp: Disp::Long(disp) }),
{
    Mem::Indexed { base, index, scale: Scale::One, disp: Disp::Long(disp) }
}

/// `[base + 8 * index]`
#[verifier::allow_in_spec]
pub fn index8(base: Reg, index: Reg) -> Mem
    returns
        (Mem::Indexed { base, index, scale: Scale::Eight, disp: Disp::Zero }),
{
    Mem::Indexed { base, index, scale: Scale::Eight, disp: Disp::Zero }
}

/// `[base + 8 * index + disp32]`
#[verifier::allow_in_spec]
pub fn index8_d(base: Reg, index: Reg, disp: i32) -> Mem
    returns
        (Mem::Indexed { base, index, scale: Scale::Eight, disp: Disp::Long(disp) }),
{
    Mem::Indexed { base, index, scale: Scale::Eight, disp: Disp::Long(disp) }
}

/// `[8 * index + disp32]`
#[verifier::allow_in_spec]
pub fn scaled8(index: Reg, disp: i32) -> Mem
    returns
        (Mem::Scaled { index, scale: Scale::Eight, disp }),
{
    Mem::Scaled { index, scale: Scale::Eight, disp }
}

/// `[rip + symbol]`
#[verifier::allow_in_spec]
pub fn rip(symbol: Symbol) -> Mem
    returns
        (Mem::Rip(symbol)),
{
    Mem::Rip(symbol)
}

/// `mov dst, src`
#[verifier::allow_in_spec]
pub fn mov(dst: Reg, src: Reg) -> Insn
    returns
        (Insn::Mov { width: Width::Quad, rm: Rm::Reg(dst), reg: src }),
{
    Insn::Mov { width: Width::Quad, rm: Rm::Reg(dst), reg: src }
}

/// `mov dst, src`
#[verifier::allow_in_spec]
pub fn mov_d(dst: Reg, src: Reg) -> Insn
    returns
        (Insn::Mov { width: Width::Long, rm: Rm::Reg(dst), reg: src }),
{
    Insn::Mov { width: Width::Long, rm: Rm::Reg(dst), reg: src }
}

/// `mov dst, src`
#[verifier::allow_in_spec]
pub fn mov_b(dst: Reg, src: Reg) -> Insn
    returns
        (Insn::Mov { width: Width::Byte, rm: Rm::Reg(dst), reg: src }),
{
    Insn::Mov { width: Width::Byte, rm: Rm::Reg(dst), reg: src }
}

/// `mov dst, mem`
#[verifier::allow_in_spec]
pub fn load(dst: Reg, mem: Mem) -> Insn
    returns
        (Insn::MovLoad { width: Width::Quad, reg: dst, mem }),
{
    Insn::MovLoad { width: Width::Quad, reg: dst, mem }
}

/// `mov dst, mem`
#[verifier::allow_in_spec]
pub fn load_b(dst: Reg, mem: Mem) -> Insn
    returns
        (Insn::MovLoad { width: Width::Byte, reg: dst, mem }),
{
    Insn::MovLoad { width: Width::Byte, reg: dst, mem }
}

/// `mov mem, src`
#[verifier::allow_in_spec]
pub fn store(mem: Mem, src: Reg) -> Insn
    returns
        (Insn::Mov { width: Width::Quad, rm: Rm::Mem(mem), reg: src }),
{
    Insn::Mov { width: Width::Quad, rm: Rm::Mem(mem), reg: src }
}

/// `mov mem, src`
#[verifier::allow_in_spec]
pub fn store_d(mem: Mem, src: Reg) -> Insn
    returns
        (Insn::Mov { width: Width::Long, rm: Rm::Mem(mem), reg: src }),
{
    Insn::Mov { width: Width::Long, rm: Rm::Mem(mem), reg: src }
}

/// `mov mem, src`
#[verifier::allow_in_spec]
pub fn store_w(mem: Mem, src: Reg) -> Insn
    returns
        (Insn::Mov { width: Width::Word, rm: Rm::Mem(mem), reg: src }),
{
    Insn::Mov { width: Width::Word, rm: Rm::Mem(mem), reg: src }
}

/// `mov mem, src`
#[verifier::allow_in_spec]
pub fn store_b(mem: Mem, src: Reg) -> Insn
    returns
        (Insn::Mov { width: Width::Byte, rm: Rm::Mem(mem), reg: src }),
{
    Insn::Mov { width: Width::Byte, rm: Rm::Mem(mem), reg: src }
}

/// `mov dst, imm32`, sign-extended
#[verifier::allow_in_spec]
pub fn mov_imm(dst: Reg, imm: i32) -> Insn
    returns
        (Insn::MovImm { width: Width::Quad, rm: Rm::Reg(dst), imm }),
{
    Insn::MovImm { width: Width::Quad, rm: Rm::Reg(dst), imm }
}

/// `mov mem, imm`
#[verifier::allow_in_spec]
pub fn store_imm(mem: Mem, imm: i32) -> Insn
    returns
        (Insn::MovImm { width: Width::Quad, rm: Rm::Mem(mem), imm }),
{
    Insn::MovImm { width: Width::Quad, rm: Rm::Mem(mem), imm }
}

/// `mov mem, imm`
#[verifier::allow_in_spec]
pub fn store_imm_d(mem: Mem, imm: i32) -> Insn
    returns
        (Insn::MovImm { width: Width::Long, rm: Rm::Mem(mem), imm }),
{
    Insn::MovImm { width: Width::Long, rm: Rm::Mem(mem), imm }
}

/// `mov mem, imm`
#[verifier::allow_in_spec]
pub fn store_imm_b(mem: Mem, imm: i32) -> Insn
    returns
        (Insn::MovImm { width: Width::Byte, rm: Rm::Mem(mem), imm }),
{
    Insn::MovImm { width: Width::Byte, rm: Rm::Mem(mem), imm }
}

/// `mov r16, imm16`
#[verifier::allow_in_spec]
pub fn set_w(dst: Reg, imm: u16) -> Insn
    returns
        (Insn::MovImm16 { reg: dst, imm }),
{
    Insn::MovImm16 { reg: dst, imm }
}

/// `mov r32, imm32`
#[verifier::allow_in_spec]
pub fn set_d(dst: Reg, imm: i32) -> Insn
    returns
        (Insn::MovImm32 { reg: dst, imm }),
{
    Insn::MovImm32 { reg: dst, imm }
}

/// `mov r64, imm64`
#[verifier::allow_in_spec]
pub fn set_q(dst: Reg, imm: i64) -> Insn
    returns
        (Insn::MovImm64 { reg: dst, imm }),
{
    Insn::MovImm64 { reg: dst, imm }
}

/// `movzx dst32, src8`
#[verifier::allow_in_spec]
pub fn movzx(dst: Reg, src: Reg) -> Insn
    returns
        (Insn::Movzx { reg: dst, rm: Rm::Reg(src) }),
{
    Insn::Movzx { reg: dst, rm: Rm::Reg(src) }
}

/// `movzx dst32, byte mem`
#[verifier::allow_in_spec]
pub fn movzx_load(dst: Reg, mem: Mem) -> Insn
    returns
        (Insn::Movzx { reg: dst, rm: Rm::Mem(mem) }),
{
    Insn::Movzx { reg: dst, rm: Rm::Mem(mem) }
}

/// `lea dst, mem`
#[verifier::allow_in_spec]
pub fn lea(dst: Reg, mem: Mem) -> Insn
    returns
        (Insn::Lea { width: Width::Quad, reg: dst, mem }),
{
    Insn::Lea { width: Width::Quad, reg: dst, mem }
}

/// `lea dst, mem`
#[verifier::allow_in_spec]
pub fn lea_d(dst: Reg, mem: Mem) -> Insn
    returns
        (Insn::Lea { width: Width::Long, reg: dst, mem }),
{
    Insn::Lea { width: Width::Long, reg: dst, mem }
}

/// `op dst, src`
#[verifier::allow_in_spec]
pub fn alu(op: Alu, dst: Reg, src: Reg) -> Insn
    returns
        (Insn::Alu { op, width: Width::Quad, rm: Rm::Reg(dst), reg: src }),
{
    Insn::Alu { op, width: Width::Quad, rm: Rm::Reg(dst), reg: src }
}

/// `op dst, src`
#[verifier::allow_in_spec]
pub fn alu_d(op: Alu, dst: Reg, src: Reg) -> Insn
    returns
        (Insn::Alu { op, width: Width::Long, rm: Rm::Reg(dst), reg: src }),
{
    Insn::Alu { op, width: Width::Long, rm: Rm::Reg(dst), reg: src }
}

/// `op dst, src`
#[verifier::allow_in_spec]
pub fn alu_b(op: Alu, dst: Reg, src: Reg) -> Insn
    returns
        (Insn::Alu { op, width: Width::Byte, rm: Rm::Reg(dst), reg: src }),
{
    Insn::Alu { op, width: Width::Byte, rm: Rm::Reg(dst), reg: src }
}

/// `op mem, src`
#[verifier::allow_in_spec]
pub fn alu_store(op: Alu, mem: Mem, src: Reg) -> Insn
    returns
        (Insn::Alu { op, width: Width::Quad, rm: Rm::Mem(mem), reg: src }),
{
    Insn::Alu { op, width: Width::Quad, rm: Rm::Mem(mem), reg: src }
}

/// `op dst, mem`
#[verifier::allow_in_spec]
pub fn alu_load(op: Alu, dst: Reg, mem: Mem) -> Insn
    returns
        (Insn::AluLoad { op, width: Width::Quad, reg: dst, mem }),
{
    Insn::AluLoad { op, width: Width::Quad, reg: dst, mem }
}

/// `op dst, imm8`
#[verifier::allow_in_spec]
pub fn alu_imm8(op: Alu, dst: Reg, imm: u8) -> Insn
    returns
        (Insn::AluImm8 { op, width: Width::Quad, rm: Rm::Reg(dst), imm }),
{
    Insn::AluImm8 { op, width: Width::Quad, rm: Rm::Reg(dst), imm }
}

/// `op dst, imm8`
#[verifier::allow_in_spec]
pub fn alu_imm8_d(op: Alu, dst: Reg, imm: u8) -> Insn
    returns
        (Insn::AluImm8 { op, width: Width::Long, rm: Rm::Reg(dst), imm }),
{
    Insn::AluImm8 { op, width: Width::Long, rm: Rm::Reg(dst), imm }
}

/// `op dst, imm8`
#[verifier::allow_in_spec]
pub fn alu_imm8_b(op: Alu, dst: Reg, imm: u8) -> Insn
    returns
        (Insn::AluImm8 { op, width: Width::Byte, rm: Rm::Reg(dst), imm }),
{
    Insn::AluImm8 { op, width: Width::Byte, rm: Rm::Reg(dst), imm }
}

/// `op dst, imm32`
#[verifier::allow_in_spec]
pub fn alu_imm32(op: Alu, dst: Reg, imm: i32) -> Insn
    returns
        (Insn::AluImm32 { op, width: Width::Quad, rm: Rm::Reg(dst), imm }),
{
    Insn::AluImm32 { op, width: Width::Quad, rm: Rm::Reg(dst), imm }
}

/// `op dst, imm32`
#[verifier::allow_in_spec]
pub fn alu_imm32_d(op: Alu, dst: Reg, imm: i32) -> Insn
    returns
        (Insn::AluImm32 { op, width: Width::Long, rm: Rm::Reg(dst), imm }),
{
    Insn::AluImm32 { op, width: Width::Long, rm: Rm::Reg(dst), imm }
}

/// `op mem, imm32`
#[verifier::allow_in_spec]
pub fn alu_imm32_mem(op: Alu, mem: Mem, imm: i32) -> Insn
    returns
        (Insn::AluImm32 { op, width: Width::Quad, rm: Rm::Mem(mem), imm }),
{
    Insn::AluImm32 { op, width: Width::Quad, rm: Rm::Mem(mem), imm }
}

/// `op al, imm8`
#[verifier::allow_in_spec]
pub fn alu_acc_b(op: Alu, imm: i32) -> Insn
    returns
        (Insn::AluAcc { op, width: Width::Byte, imm }),
{
    Insn::AluAcc { op, width: Width::Byte, imm }
}

/// `op rax, imm32`
#[verifier::allow_in_spec]
pub fn alu_acc(op: Alu, imm: i32) -> Insn
    returns
        (Insn::AluAcc { op, width: Width::Quad, imm }),
{
    Insn::AluAcc { op, width: Width::Quad, imm }
}

/// `test a, b`
#[verifier::allow_in_spec]
pub fn test_rr(a: Reg, b: Reg) -> Insn
    returns
        (Insn::Test { width: Width::Quad, rm: Rm::Reg(a), reg: b }),
{
    Insn::Test { width: Width::Quad, rm: Rm::Reg(a), reg: b }
}

/// `test a, b`
#[verifier::allow_in_spec]
pub fn test_rr_b(a: Reg, b: Reg) -> Insn
    returns
        (Insn::Test { width: Width::Byte, rm: Rm::Reg(a), reg: b }),
{
    Insn::Test { width: Width::Byte, rm: Rm::Reg(a), reg: b }
}

/// `test r32, imm32`
#[verifier::allow_in_spec]
pub fn test_imm_d(a: Reg, imm: i32) -> Insn
    returns
        (Insn::TestImm { width: Width::Long, rm: Rm::Reg(a), imm }),
{
    Insn::TestImm { width: Width::Long, rm: Rm::Reg(a), imm }
}

/// `inc`, `dec`, `neg` or `div` of a register
#[verifier::allow_in_spec]
pub fn unary(op: Unary, dst: Reg) -> Insn
    returns
        (Insn::Unary { op, rm: Rm::Reg(dst) }),
{
    Insn::Unary { op, rm: Rm::Reg(dst) }
}

/// `inc`, `dec`, `neg` or `div` of a memory word
#[verifier::allow_in_spec]
pub fn unary_mem(op: Unary, mem: Mem) -> Insn
    returns
        (Insn::Unary { op, rm: Rm::Mem(mem) }),
{
    Insn::Unary { op, rm: Rm::Mem(mem) }
}

/// `imul dst, src`
#[verifier::allow_in_spec]
pub fn imul(dst: Reg, src: Reg) -> Insn
    returns
        (Insn::Imul { reg: dst, rm: Rm::Reg(src) }),
{
    Insn::Imul { reg: dst, rm: Rm::Reg(src) }
}

/// `imul dst, src, imm8`
#[verifier::allow_in_spec]
pub fn imul_imm8(dst: Reg, src: Reg, imm: u8) -> Insn
    returns
        (Insn::ImulImm8 { reg: dst, rm: Rm::Reg(src), imm }),
{
    Insn::ImulImm8 { reg: dst, rm: Rm::Reg(src), imm }
}

/// `imul dst, src, imm32`
#[verifier::allow_in_spec]
pub fn imul_imm32(dst: Reg, src: Reg, imm: i32) -> Insn
    returns
        (Insn::ImulImm32 { reg: dst, rm: Rm::Reg(src), imm }),
{
    Insn::ImulImm32 { reg: dst, rm: Rm::Reg(src), imm }
}

/// `shl` or `shr` by a constant
#[verifier::allow_in_spec]
pub fn shift(op: Shift, dst: Reg, amount: u8) -> Insn
    returns
        (Insn::ShiftImm { op, width: Width::Quad, rm: Rm::Reg(dst), amount }),
{
    Insn::ShiftImm { op, width: Width::Quad, rm: Rm::Reg(dst), amount }
}

/// `shl` or `shr` by a constant
#[verifier::allow_in_spec]
pub fn shift_d(op: Shift, dst: Reg, amount: u8) -> Insn
    returns
        (Insn::ShiftImm { op, width: Width::Long, rm: Rm::Reg(dst), amount }),
{
    Insn::ShiftImm { op, width: Width::Long, rm: Rm::Reg(dst), amount }
}

/// `shl` or `shr` by one
#[verifier::allow_in_spec]
pub fn shift_one(op: Shift, dst: Reg) -> Insn
    returns
        (Insn::ShiftOne { op, rm: Rm::Reg(dst) }),
{
    Insn::ShiftOne { op, rm: Rm::Reg(dst) }
}

/// `cmovcc dst, src`
#[verifier::allow_in_spec]
pub fn cmov(cond: Cond, dst: Reg, src: Reg) -> Insn
    returns
        (Insn::Cmov { cond, reg: dst, rm: Rm::Reg(src) }),
{
    Insn::Cmov { cond, reg: dst, rm: Rm::Reg(src) }
}

/// `call symbol`
#[verifier::allow_in_spec]
pub fn call(symbol: Symbol) -> Insn
    returns
        (Insn::Call(symbol)),
{
    Insn::Call(symbol)
}

/// `jmp symbol`
#[verifier::allow_in_spec]
pub fn jmp_symbol(symbol: Symbol) -> Insn
    returns
        (Insn::JmpSymbol(symbol)),
{
    Insn::JmpSymbol(symbol)
}

/// `jmp` to the instruction `to` places further on
#[verifier::allow_in_spec]
pub fn jmp(to: u16) -> Insn
    returns
        (Insn::Jmp { short: false, to: Hop::Forward(to) }),
{
    Insn::Jmp { short: false, to: Hop::Forward(to) }
}

/// `jmp` to the instruction `to` places back
#[verifier::allow_in_spec]
pub fn jmp_back(to: u16) -> Insn
    returns
        (Insn::Jmp { short: false, to: Hop::Back(to) }),
{
    Insn::Jmp { short: false, to: Hop::Back(to) }
}

/// `jmp` back with an 8-bit field
#[verifier::allow_in_spec]
pub fn jmp_short_back(to: u16) -> Insn
    returns
        (Insn::Jmp { short: true, to: Hop::Back(to) }),
{
    Insn::Jmp { short: true, to: Hop::Back(to) }
}

/// `jcc` to the instruction `to` places further on
#[verifier::allow_in_spec]
pub fn jcc(cond: Cond, to: u16) -> Insn
    returns
        (Insn::Jcc { cond, short: false, to: Hop::Forward(to) }),
{
    Insn::Jcc { cond, short: false, to: Hop::Forward(to) }
}

/// `jcc` forward with an 8-bit field
#[verifier::allow_in_spec]
pub fn jcc_short(cond: Cond, to: u16) -> Insn
    returns
        (Insn::Jcc { cond, short: true, to: Hop::Forward(to) }),
{
    Insn::Jcc { cond, short: true, to: Hop::Forward(to) }
}

/// `[base - disp8]`
#[verifier::allow_in_spec]
pub fn below(base: Reg, distance: u8) -> Mem
    returns
        (Mem::Base { base, disp: Disp::Minus(distance) }),
{
    Mem::Base { base, disp: Disp::Minus(distance) }
}

/// `[base + index - disp8]`
#[verifier::allow_in_spec]
pub fn index_below(base: Reg, index: Reg, distance: u8) -> Mem
    returns
        (Mem::Indexed { base, index, scale: Scale::One, disp: Disp::Minus(distance) }),
{
    Mem::Indexed { base, index, scale: Scale::One, disp: Disp::Minus(distance) }
}

/// `jcc` to the instruction `to` places back
#[verifier::allow_in_spec]
pub fn jcc_back(cond: Cond, to: u16) -> Insn
    returns
        (Insn::Jcc { cond, short: false, to: Hop::Back(to) }),
{
    Insn::Jcc { cond, short: false, to: Hop::Back(to) }
}

/// `[rbp - slot]`, the frame word `slot` bytes below the frame pointer.
#[verifier::allow_in_spec]
pub fn frame(slot: i32) -> Mem
    returns
        (Mem::Base { base: Reg::Rbp, disp: Disp::Below(slot) }),
{
    Mem::Base { base: Reg::Rbp, disp: Disp::Below(slot) }
}

/// Loads the frame word `slot` into `rax`.
#[verifier::allow_in_spec]
pub fn load_local(slot: i32) -> Insn
    returns
        (Insn::MovLoad { width: Width::Quad, reg: Reg::Rax, mem: frame(slot) }),
{
    Insn::MovLoad { width: Width::Quad, reg: Reg::Rax, mem: frame(slot) }
}

/// Stores `rax` into the frame word `slot`.
#[verifier::allow_in_spec]
pub fn store_local(slot: i32) -> Insn
    returns
        (Insn::Mov { width: Width::Quad, rm: Rm::Mem(frame(slot)), reg: Reg::Rax }),
{
    Insn::Mov { width: Width::Quad, rm: Rm::Mem(frame(slot)), reg: Reg::Rax }
}

/// Loads the float in the frame word `slot` into `xmm0`.
#[verifier::allow_in_spec]
pub fn load_float_local(slot: i32, width: FloatWidth) -> Insn
    returns
        (Insn::MovsLoad { width, xmm: Xmm::Xmm0, mem: frame(slot) }),
{
    Insn::MovsLoad { width, xmm: Xmm::Xmm0, mem: frame(slot) }
}

/// Stores `xmm0` into the frame word `slot`.
#[verifier::allow_in_spec]
pub fn store_float_local(slot: i32, width: FloatWidth) -> Insn
    returns
        (Insn::MovsStore { width, mem: frame(slot), xmm: Xmm::Xmm0 }),
{
    Insn::MovsStore { width, mem: frame(slot), xmm: Xmm::Xmm0 }
}

} // verus!
