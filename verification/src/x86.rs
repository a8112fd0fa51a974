//! The x86-64 instruction subset the backend emits, and its machine encoding.
//!
//! An [`Insn`] names an instruction; [`Insn::encoding`] gives its bytes. A jump
//! names its target by a distance counted in instructions, so it has bytes only
//! inside a program: see the `assembler` module.

use crate::bytes::{
    le16, le32, le64, lemma_le32_periodic, low_byte, push_all, push_i32, push_i64, push_i8,
        push_u16,
};
use crate::symbols::Symbol;
use vstd::prelude::*;

verus! {

/// The general-purpose registers, in encoding order.
#[derive(Clone, Copy, PartialEq, Eq, Structural, Debug)]
pub enum Reg {
    Rax,
    Rcx,
    Rdx,
    Rbx,
    Rsp,
    Rbp,
    Rsi,
    Rdi,
    R8,
    R9,
    R10,
    R11,
    R12,
    R13,
    R14,
    R15,
}

impl Reg {
    /// The register's encoding number, `0..=15`.
    pub open spec fn index(self) -> int {
        match self {
            Reg::Rax => 0,
            Reg::Rcx => 1,
            Reg::Rdx => 2,
            Reg::Rbx => 3,
            Reg::Rsp => 4,
            Reg::Rbp => 5,
            Reg::Rsi => 6,
            Reg::Rdi => 7,
            Reg::R8 => 8,
            Reg::R9 => 9,
            Reg::R10 => 10,
            Reg::R11 => 11,
            Reg::R12 => 12,
            Reg::R13 => 13,
            Reg::R14 => 14,
            Reg::R15 => 15,
        }
    }

    /// The register's encoding number.
    pub fn number(self) -> (n: u8)
        ensures
            n == self.index(),
            n < 16,
    {
        match self {
            Reg::Rax => 0,
            Reg::Rcx => 1,
            Reg::Rdx => 2,
            Reg::Rbx => 3,
            Reg::Rsp => 4,
            Reg::Rbp => 5,
            Reg::Rsi => 6,
            Reg::Rdi => 7,
            Reg::R8 => 8,
            Reg::R9 => 9,
            Reg::R10 => 10,
            Reg::R11 => 11,
            Reg::R12 => 12,
            Reg::R13 => 13,
            Reg::R14 => 14,
            Reg::R15 => 15,
        }
    }
}

/// The SSE registers the backend uses.
#[derive(Clone, Copy, PartialEq, Eq, Structural, Debug)]
pub enum Xmm {
    Xmm0,
    Xmm1,
    Xmm2,
    Xmm3,
}

impl Xmm {
    /// The register's encoding number.
    pub open spec fn index(self) -> int {
        match self {
            Xmm::Xmm0 => 0,
            Xmm::Xmm1 => 1,
            Xmm::Xmm2 => 2,
            Xmm::Xmm3 => 3,
        }
    }

    /// The register's encoding number.
    pub fn number(self) -> (n: u8)
        ensures
            n == self.index(),
            n < 4,
    {
        match self {
            Xmm::Xmm0 => 0,
            Xmm::Xmm1 => 1,
            Xmm::Xmm2 => 2,
            Xmm::Xmm3 => 3,
        }
    }
}

/// A displacement, in the width it is encoded with.
#[derive(Clone, Copy, PartialEq, Eq, Structural, Debug)]
pub enum Disp {
    Zero,
    /// An 8-bit displacement.
    Byte(i8),
    /// The 8-bit displacement that is the negative of the given distance.
    Minus(u8),
    Long(i32),
    /// The 32-bit displacement that is the negative of the given distance.
    Below(i32),
}

impl Disp {
    /// The displacement's value.
    pub open spec fn value(self) -> int {
        match self {
            Disp::Zero => 0,
            Disp::Byte(d) => d as int,
            Disp::Minus(d) => -d,
            Disp::Long(d) => d as int,
            Disp::Below(d) => -d,
        }
    }

    /// The `mod` field that announces the displacement's width.
    pub open spec fn mode(self) -> int {
        match self {
            Disp::Zero => 0,
            Disp::Byte(_) => 1,
            Disp::Minus(_) => 1,
            Disp::Long(_) => 2,
            Disp::Below(_) => 2,
        }
    }

    /// The displacement's bytes.
    pub open spec fn field(self) -> Seq<u8> {
        match self {
            Disp::Zero => seq![],
            Disp::Byte(d) => seq![low_byte(d as int)],
            Disp::Minus(d) => seq![low_byte(-d)],
            Disp::Long(d) => le32(d as int),
            Disp::Below(d) => le32(-d),
        }
    }

    fn mode_bits(self) -> (m: u8)
        ensures
            m == self.mode(),
            m < 3,
    {
        match self {
            Disp::Zero => 0,
            Disp::Byte(_) => 1,
            Disp::Minus(_) => 1,
            Disp::Long(_) => 2,
            Disp::Below(_) => 2,
        }
    }

    fn emit(self, out: &mut Vec<u8>)
        ensures
            final(out)@ == old(out)@ + self.field(),
    {
        match self {
            Disp::Zero => {},
            Disp::Byte(d) => push_i8(out, d),
            Disp::Minus(d) => {
                let byte: u8 = if d == 0 {
                    0
                } else {
                    (256 - d as i32) as u8
                };
                out.push(byte);
            },
            Disp::Long(d) => push_i32(out, d),
            Disp::Below(d) => {
                if d == i32::MIN {
                    proof {
                        lemma_le32_periodic(d as int, 1);
                        assert(-d == d + 0x1_0000_0000);
                    }
                    push_i32(out, d);
                } else {
                    push_i32(out, -d);
                }
            },
        }
    }
}

/// An index register's scale.
#[derive(Clone, Copy, PartialEq, Eq, Structural, Debug)]
pub enum Scale {
    One,
    Eight,
}

impl Scale {
    /// The two scale bits of a SIB byte.
    pub open spec fn bits(self) -> int {
        match self {
            Scale::One => 0,
            Scale::Eight => 3,
        }
    }

    /// What the index register is multiplied by.
    pub open spec fn factor(self) -> int {
        match self {
            Scale::One => 1,
            Scale::Eight => 8,
        }
    }

    fn exec_bits(self) -> (n: u8)
        ensures
            n == self.bits(),
            n < 4,
    {
        match self {
            Scale::One => 0,
            Scale::Eight => 3,
        }
    }
}

/// A memory operand.
#[allow(inconsistent_fields)]
#[derive(Clone, Copy, PartialEq, Eq, Structural, Debug)]
pub enum Mem {
    /// `[base + disp]`
    Base { base: Reg, disp: Disp },
    /// `[base + index * scale + disp]`
    Indexed { base: Reg, index: Reg, scale: Scale, disp: Disp },
    /// `[index * scale + disp]`
    Scaled { index: Reg, scale: Scale, disp: i32 },
    /// `[rip + symbol]`: a zero field that the linker fills in.
    Rip(Symbol),
}

/// A register-or-memory operand.
#[derive(Clone, Copy, PartialEq, Eq, Structural, Debug)]
pub enum Rm {
    Reg(Reg),
    Mem(Mem),
}

/// An operand width in bytes: one, two, four or eight.
#[derive(Clone, Copy, PartialEq, Eq, Structural, Debug)]
pub enum Width {
    Byte,
    Word,
    Long,
    Quad,
}

/// The two-operand arithmetic group.
#[derive(Clone, Copy, PartialEq, Eq, Structural, Debug)]
pub enum Alu {
    Add,
    Or,
    And,
    Sub,
    Xor,
    Cmp,
}

impl Alu {
    /// The operation's number in the group: its opcode base is eight times this,
    /// and it is the opcode extension of the immediate forms.
    pub open spec fn ext(self) -> int {
        match self {
            Alu::Add => 0,
            Alu::Or => 1,
            Alu::And => 4,
            Alu::Sub => 5,
            Alu::Xor => 6,
            Alu::Cmp => 7,
        }
    }

    fn exec_ext(self) -> (n: u8)
        ensures
            n == self.ext(),
            n < 8,
    {
        match self {
            Alu::Add => 0,
            Alu::Or => 1,
            Alu::And => 4,
            Alu::Sub => 5,
            Alu::Xor => 6,
            Alu::Cmp => 7,
        }
    }
}

/// The one-operand 64-bit instructions.
#[derive(Clone, Copy, PartialEq, Eq, Structural, Debug)]
pub enum Unary {
    Inc,
    Dec,
    Neg,
    Div,
}

impl Unary {
    /// The opcode and its extension.
    pub open spec fn opcode(self) -> (u8, int) {
        match self {
            Unary::Inc => (0xFF, 0),
            Unary::Dec => (0xFF, 1),
            Unary::Neg => (0xF7, 3),
            Unary::Div => (0xF7, 6),
        }
    }

    fn exec_opcode(self) -> (r: (u8, u8))
        ensures
            r.0 == self.opcode().0,
            r.1 == self.opcode().1,
            r.1 < 8,
    {
        match self {
            Unary::Inc => (0xFF, 0),
            Unary::Dec => (0xFF, 1),
            Unary::Neg => (0xF7, 3),
            Unary::Div => (0xF7, 6),
        }
    }
}

/// The shift instructions.
#[derive(Clone, Copy, PartialEq, Eq, Structural, Debug)]
pub enum Shift {
    Shl,
    Shr,
}

impl Shift {
    /// The opcode extension.
    pub open spec fn ext(self) -> int {
        match self {
            Shift::Shl => 4,
            Shift::Shr => 5,
        }
    }

    fn exec_ext(self) -> (n: u8)
        ensures
            n == self.ext(),
            n < 8,
    {
        match self {
            Shift::Shl => 4,
            Shift::Shr => 5,
        }
    }
}

/// Branch and conditional-move conditions.
#[derive(Clone, Copy, PartialEq, Eq, Structural, Debug)]
pub enum Cond {
    O,
    B,
    Ae,
    E,
    Ne,
    Be,
    A,
    S,
    L,
    Ge,
    Le,
    G,
}

impl Cond {
    /// The condition's encoding number.
    pub open spec fn code(self) -> int {
        match self {
            Cond::O => 0x0,
            Cond::B => 0x2,
            Cond::Ae => 0x3,
            Cond::E => 0x4,
            Cond::Ne => 0x5,
            Cond::Be => 0x6,
            Cond::A => 0x7,
            Cond::S => 0x8,
            Cond::L => 0xC,
            Cond::Ge => 0xD,
            Cond::Le => 0xE,
            Cond::G => 0xF,
        }
    }

    /// The condition's encoding number.
    pub fn number(self) -> (n: u8)
        ensures
            n == self.code(),
            n < 16,
    {
        match self {
            Cond::O => 0x0,
            Cond::B => 0x2,
            Cond::Ae => 0x3,
            Cond::E => 0x4,
            Cond::Ne => 0x5,
            Cond::Be => 0x6,
            Cond::A => 0x7,
            Cond::S => 0x8,
            Cond::L => 0xC,
            Cond::Ge => 0xD,
            Cond::Le => 0xE,
            Cond::G => 0xF,
        }
    }
}

/// A jump's target, counted in instructions from the jump itself.
#[derive(Clone, Copy, PartialEq, Eq, Structural, Debug)]
pub enum Hop {
    Forward(u16),
    Back(u16),
}

impl Hop {
    /// The signed distance.
    pub open spec fn distance(self) -> int {
        match self {
            Hop::Forward(n) => n as int,
            Hop::Back(n) => -n,
        }
    }

    /// The signed distance.
    pub fn exec_distance(self) -> (d: i64)
        ensures
            d == self.distance(),
            -0x1_0000 < d < 0x1_0000,
    {
        match self {
            Hop::Forward(n) => n as i64,
            Hop::Back(n) => -(n as i64),
        }
    }
}

/// The scalar float widths.
#[derive(Clone, Copy, PartialEq, Eq, Structural, Debug)]
pub enum FloatWidth {
    F32,
    F64,
}

/// Register-to-register SSE instructions.
#[derive(Clone, Copy, PartialEq, Eq, Structural, Debug)]
pub enum Sse {
    Paddq,
    Psubq,
    Pand,
    Pandn,
    Por,
    Pxor,
    Pcmpeqd,
    Pcmpgtq,
    Punpcklqdq,
    Movdqa,
    Movapd,
    Unpckhpd,
    Addpd,
    Subpd,
    Mulpd,
    /// A scalar operation on the low lane.
    Scalar(FloatWidth, ScalarOp),
}

/// Scalar SSE arithmetic.
#[derive(Clone, Copy, PartialEq, Eq, Structural, Debug)]
pub enum ScalarOp {
    Plus,
    Minus,
    Times,
    Over,
}

impl ScalarOp {
    /// The last opcode byte.
    pub open spec fn opcode(self) -> u8 {
        match self {
            ScalarOp::Plus => 0x58,
            ScalarOp::Times => 0x59,
            ScalarOp::Minus => 0x5C,
            ScalarOp::Over => 0x5E,
        }
    }

    fn exec_opcode(self) -> (n: u8)
        ensures
            n == self.opcode(),
    {
        match self {
            ScalarOp::Plus => 0x58,
            ScalarOp::Times => 0x59,
            ScalarOp::Minus => 0x5C,
            ScalarOp::Over => 0x5E,
        }
    }
}

impl FloatWidth {
    /// The mandatory prefix of the scalar instructions of this width.
    pub open spec fn prefix(self) -> u8 {
        match self {
            FloatWidth::F32 => 0xF3,
            FloatWidth::F64 => 0xF2,
        }
    }

    fn exec_prefix(self) -> (n: u8)
        ensures
            n == self.prefix(),
    {
        match self {
            FloatWidth::F32 => 0xF3,
            FloatWidth::F64 => 0xF2,
        }
    }
}

impl Sse {
    /// The bytes before the ModRM byte.
    pub open spec fn opcode(self) -> Seq<u8> {
        match self {
            Sse::Paddq => seq![0x66, 0x0F, 0xD4],
            Sse::Psubq => seq![0x66, 0x0F, 0xFB],
            Sse::Pand => seq![0x66, 0x0F, 0xDB],
            Sse::Pandn => seq![0x66, 0x0F, 0xDF],
            Sse::Por => seq![0x66, 0x0F, 0xEB],
            Sse::Pxor => seq![0x66, 0x0F, 0xEF],
            Sse::Pcmpeqd => seq![0x66, 0x0F, 0x76],
            Sse::Pcmpgtq => seq![0x66, 0x0F, 0x38, 0x37],
            Sse::Punpcklqdq => seq![0x66, 0x0F, 0x6C],
            Sse::Movdqa => seq![0x66, 0x0F, 0x6F],
            Sse::Movapd => seq![0x66, 0x0F, 0x28],
            Sse::Unpckhpd => seq![0x66, 0x0F, 0x15],
            Sse::Addpd => seq![0x66, 0x0F, 0x58],
            Sse::Subpd => seq![0x66, 0x0F, 0x5C],
            Sse::Mulpd => seq![0x66, 0x0F, 0x59],
            Sse::Scalar(width, op) => seq![width.prefix(), 0x0F, op.opcode()],
        }
    }

    fn exec_opcode(self) -> (v: Vec<u8>)
        ensures
            v@ == self.opcode(),
    {
        match self {
            Sse::Paddq => vec![0x66, 0x0F, 0xD4],
            Sse::Psubq => vec![0x66, 0x0F, 0xFB],
            Sse::Pand => vec![0x66, 0x0F, 0xDB],
            Sse::Pandn => vec![0x66, 0x0F, 0xDF],
            Sse::Por => vec![0x66, 0x0F, 0xEB],
            Sse::Pxor => vec![0x66, 0x0F, 0xEF],
            Sse::Pcmpeqd => vec![0x66, 0x0F, 0x76],
            Sse::Pcmpgtq => vec![0x66, 0x0F, 0x38, 0x37],
            Sse::Punpcklqdq => vec![0x66, 0x0F, 0x6C],
            Sse::Movdqa => vec![0x66, 0x0F, 0x6F],
            Sse::Movapd => vec![0x66, 0x0F, 0x28],
            Sse::Unpckhpd => vec![0x66, 0x0F, 0x15],
            Sse::Addpd => vec![0x66, 0x0F, 0x58],
            Sse::Subpd => vec![0x66, 0x0F, 0x5C],
            Sse::Mulpd => vec![0x66, 0x0F, 0x59],
            Sse::Scalar(width, op) => vec![width.exec_prefix(), 0x0F, op.exec_opcode()],
        }
    }
}

/// One instruction.
#[allow(inconsistent_fields)]
#[derive(Clone, Copy, PartialEq, Eq, Structural, Debug)]
pub enum Insn {
    Push(Reg),
    Pop(Reg),
    Ret,
    Ud2,
    Int3,
    Cpuid,
    Syscall,
    /// `rep movsb`
    RepMovsb,
    /// `mov rm, reg`
    Mov { width: Width, rm: Rm, reg: Reg },
    /// `mov reg, mem`
    MovLoad { width: Width, reg: Reg, mem: Mem },
    /// `mov rm, imm`: one immediate byte at byte width, else a sign-extended
    /// 32-bit immediate.
    MovImm { width: Width, rm: Rm, imm: i32 },
    /// `mov r16, imm16`
    MovImm16 { reg: Reg, imm: u16 },
    /// `mov r32, imm32`
    MovImm32 { reg: Reg, imm: i32 },
    /// `mov r64, imm64`
    MovImm64 { reg: Reg, imm: i64 },
    /// `movzx r32, rm8`
    Movzx { reg: Reg, rm: Rm },
    /// `lea reg, mem`
    Lea { width: Width, reg: Reg, mem: Mem },
    /// `op rm, reg`
    Alu { op: Alu, width: Width, rm: Rm, reg: Reg },
    /// `op reg, mem`
    AluLoad { op: Alu, width: Width, reg: Reg, mem: Mem },
    /// `op rm, imm8`: the immediate byte, sign-extended to the operand width
    AluImm8 { op: Alu, width: Width, rm: Rm, imm: u8 },
    /// `op rm, imm32` (sign-extended)
    AluImm32 { op: Alu, width: Width, rm: Rm, imm: i32 },
    /// `op al, imm8` at byte width, else `op (r|e)ax, imm32`
    AluAcc { op: Alu, width: Width, imm: i32 },
    /// `test rm, reg`
    Test { width: Width, rm: Rm, reg: Reg },
    /// `test rm, imm32`
    TestImm { width: Width, rm: Rm, imm: i32 },
    /// `test eax, imm32`
    TestAcc { imm: i32 },
    /// A one-operand 64-bit instruction.
    Unary { op: Unary, rm: Rm },
    /// `imul r64, rm64`
    Imul { reg: Reg, rm: Rm },
    /// `imul r64, rm64, imm8` (sign-extended)
    ImulImm8 { reg: Reg, rm: Rm, imm: u8 },
    /// `imul r64, rm64, imm32`
    ImulImm32 { reg: Reg, rm: Rm, imm: i32 },
    /// `shl`/`shr rm, imm8`
    ShiftImm { op: Shift, width: Width, rm: Rm, amount: u8 },
    /// `shl`/`shr rm64, 1`
    ShiftOne { op: Shift, rm: Rm },
    /// `cmovcc r64, rm64`
    Cmov { cond: Cond, reg: Reg, rm: Rm },
    /// A jump within the program, with an 8-bit field when `short`, else a 32-bit
    /// one.
    Jmp { short: bool, to: Hop },
    /// A conditional jump.
    Jcc { cond: Cond, short: bool, to: Hop },
    /// `call symbol`
    Call(Symbol),
    /// `jmp symbol`
    JmpSymbol(Symbol),
    /// `call r64`
    CallReg(Reg),
    /// An SSE instruction `op dst, src`.
    SseRr { op: Sse, dst: Xmm, src: Xmm },
    /// `movq r64, xmm`
    MovqFromXmm { dst: Reg, src: Xmm },
    /// `movq xmm, r64`
    MovqToXmm { dst: Xmm, src: Reg },
    /// `psrldq xmm, imm8`
    Psrldq { xmm: Xmm, amount: u8 },
    /// `movdqu xmm, mem`
    MovdquLoad { xmm: Xmm, mem: Mem },
    /// `movdqu mem, xmm`
    MovdquStore { mem: Mem, xmm: Xmm },
    /// `movsd`/`movss xmm, mem`
    MovsLoad { width: FloatWidth, xmm: Xmm, mem: Mem },
    /// `movsd`/`movss mem, xmm`
    MovsStore { width: FloatWidth, mem: Mem, xmm: Xmm },
}

// Encoding

/// The REX prefix for a 64-bit flag and the register numbers in the `reg`,
/// index and base positions; none when it would carry no bit.
pub open spec fn rex(wide: bool, reg: int, index: int, base: int) -> Seq<u8> {
    let bits = (if wide {
        8int
    } else {
        0int
    }) + 4 * (reg / 8) + 2 * (index / 8) + base / 8;
    if bits == 0 {
        seq![]
    } else {
        seq![(0x40 + bits) as u8]
    }
}

/// A ModRM or SIB byte from its three fields.
pub open spec fn modrm(mode: int, middle: int, low: int) -> u8 {
    (mode * 64 + (middle % 8) * 8 + low % 8) as u8
}

/// The displacement form that can stand beside `base`: a base numbered 5 modulo 8
/// has no form without displacement bytes.
pub open spec fn encodable(base: Reg, disp: Disp) -> Disp {
    if disp == Disp::Zero && base.index() % 8 == 5 {
        Disp::Byte(0)
    } else {
        disp
    }
}

impl Mem {
    /// The number of the index register, `0` when there is none.
    pub open spec fn index_number(self) -> int {
        match self {
            Mem::Indexed { index, .. } => index.index(),
            Mem::Scaled { index, .. } => index.index(),
            _ => 0,
        }
    }

    /// The number of the base register, `0` when there is none.
    pub open spec fn base_number(self) -> int {
        match self {
            Mem::Base { base, .. } => base.index(),
            Mem::Indexed { base, .. } => base.index(),
            _ => 0,
        }
    }

    /// The ModRM byte, SIB byte and displacement for this operand beside the
    /// register or opcode extension `reg`.
    pub open spec fn operand(self, reg: int) -> Seq<u8> {
        match self {
            Mem::Base { base, disp } => if base.index() % 8 == 4 {
                seq![modrm(disp.mode(), reg, 4), modrm(0, 4, 4)] + disp.field()
            } else {
                seq![modrm(encodable(base, disp).mode(), reg, base.index())] + encodable(
                    base,
                    disp,
                ).field()
            },
            Mem::Indexed { base, index, scale, disp } => seq![
                modrm(encodable(base, disp).mode(), reg, 4),
                modrm(scale.bits(), index.index(), base.index()),
            ] + encodable(base, disp).field(),
            Mem::Scaled { index, scale, disp } => seq![
                modrm(0, reg, 4),
                modrm(scale.bits(), index.index(), 5),
            ] + le32(disp as int),
            Mem::Rip(_) => seq![modrm(0, reg, 5), 0u8, 0u8, 0u8, 0u8],
        }
    }
}

impl Rm {
    /// See [`Mem::index_number`].
    pub open spec fn index_number(self) -> int {
        match self {
            Rm::Reg(_) => 0,
            Rm::Mem(mem) => mem.index_number(),
        }
    }

    /// See [`Mem::base_number`].
    pub open spec fn base_number(self) -> int {
        match self {
            Rm::Reg(reg) => reg.index(),
            Rm::Mem(mem) => mem.base_number(),
        }
    }

    /// See [`Mem::operand`].
    pub open spec fn operand(self, reg: int) -> Seq<u8> {
        match self {
            Rm::Reg(r) => seq![modrm(3, reg, r.index())],
            Rm::Mem(mem) => mem.operand(reg),
        }
    }
}

/// An opcode: one byte, or one byte behind the `0F` escape.
#[derive(Clone, Copy, PartialEq, Eq, Structural, Debug)]
pub enum Opcode {
    One(u8),
    Two(u8),
}

impl Opcode {
    /// The opcode's bytes.
    pub open spec fn field(self) -> Seq<u8> {
        match self {
            Opcode::One(byte) => seq![byte],
            Opcode::Two(byte) => seq![0x0F, byte],
        }
    }
}

/// A byte that may be absent.
pub open spec fn optional_byte(byte: Option<u8>) -> Seq<u8> {
    match byte {
        Some(b) => seq![b],
        None => seq![],
    }
}

/// An instruction with a ModRM operand: mandatory prefix, REX, opcode, operand.
#[verifier::opaque]
pub open spec fn rm_form(prefix: Option<u8>, wide: bool, opcode: Opcode, reg: int, rm: Rm) -> Seq<
    u8,
> {
    optional_byte(prefix) + rex(wide, reg, rm.index_number(), rm.base_number()) + opcode.field()
        + rm.operand(reg)
}

/// The operand-size prefix of a width.
pub open spec fn size_prefix(width: Width) -> Option<u8> {
    if width == Width::Word {
        Some(0x66)
    } else {
        None
    }
}

/// The opcode of a width: `base` at byte width, else `base + 1`.
pub open spec fn sized(base: int, width: Width) -> u8 {
    if width == Width::Byte {
        base as u8
    } else {
        (base + 1) as u8
    }
}

/// An instruction `opcode rm` of operand width `width` whose opcode comes in a
/// byte form and, one above it, a wide form.
pub open spec fn sized_form(base: int, width: Width, reg: int, rm: Rm) -> Seq<u8> {
    rm_form(size_prefix(width), width == Width::Quad, Opcode::One(sized(base, width)), reg, rm)
}

impl Insn {
    /// Whether this is a jump within its program.
    pub open spec fn is_jump(self) -> bool {
        self is Jmp || self is Jcc
    }

    /// The distance of a jump's target, in instructions.
    pub open spec fn jump_distance(self) -> int {
        match self {
            Insn::Jmp { to, .. } => to.distance(),
            Insn::Jcc { to, .. } => to.distance(),
            _ => 0,
        }
    }

    /// The encoding of an instruction other than a jump within its program;
    /// fields the linker fills in are zero.
    pub open spec fn encoding(self) -> Seq<u8> {
        match self {
            Insn::Push(reg) => rex(false, 0, 0, reg.index()).push((0x50 + reg.index() % 8) as u8),
            Insn::Pop(reg) => rex(false, 0, 0, reg.index()).push((0x58 + reg.index() % 8) as u8),
            Insn::Ret => seq![0xC3],
            Insn::Ud2 => seq![0x0F, 0x0B],
            Insn::Int3 => seq![0xCC],
            Insn::Cpuid => seq![0x0F, 0xA2],
            Insn::Syscall => seq![0x0F, 0x05],
            Insn::RepMovsb => seq![0xF3, 0xA4],
            Insn::Mov { width, rm, reg } => sized_form(0x88, width, reg.index(), rm),
            Insn::MovLoad { width, reg, mem } => sized_form(
                0x8A,
                width,
                reg.index(),
                Rm::Mem(mem),
            ),
            Insn::MovImm { width, rm, imm } => sized_form(0xC6, width, 0, rm) + (if width
                == Width::Byte {
                seq![low_byte(imm as int)]
            } else {
                le32(imm as int)
            }),
            Insn::MovImm16 { reg, imm } => seq![0x66u8] + rex(false, 0, 0, reg.index()) + seq![
                (0xB8 + reg.index() % 8) as u8,
            ] + le16(imm as int),
            Insn::MovImm32 { reg, imm } => rex(false, 0, 0, reg.index()) + seq![
                (0xB8 + reg.index() % 8) as u8,
            ] + le32(imm as int),
            Insn::MovImm64 { reg, imm } => rex(true, 0, 0, reg.index()) + seq![
                (0xB8 + reg.index() % 8) as u8,
            ] + le64(imm as int),
            Insn::Movzx { reg, rm } => rm_form(
                None,
                false,
                Opcode::Two(0xB6),
                reg.index(),
                rm,
            ),
            Insn::Lea { width, reg, mem } => rm_form(
                size_prefix(width),
                width == Width::Quad,
                Opcode::One(0x8D),
                reg.index(),
                Rm::Mem(mem),
            ),
            Insn::Alu { op, width, rm, reg } => sized_form(8 * op.ext(), width, reg.index(), rm),
            Insn::AluLoad { op, width, reg, mem } => sized_form(
                8 * op.ext() + 2,
                width,
                reg.index(),
                Rm::Mem(mem),
            ),
            Insn::AluImm8 { op, width, rm, imm } => rm_form(
                size_prefix(width),
                width == Width::Quad,
                Opcode::One(
                    if width == Width::Byte {
                        0x80
                    } else {
                        0x83
                    },
                ),
                op.ext(),
                rm,
            ).push(imm),
            Insn::AluImm32 { op, width, rm, imm } => rm_form(
                size_prefix(width),
                width == Width::Quad,
                Opcode::One(0x81),
                op.ext(),
                rm,
            ) + le32(imm as int),
            Insn::AluAcc { op, width, imm } => optional_byte(size_prefix(width)) + rex(
                width == Width::Quad,
                0,
                0,
                0,
            ) + seq![sized(8 * op.ext() + 4, width)] + (if width == Width::Byte {
                seq![low_byte(imm as int)]
            } else {
                le32(imm as int)
            }),
            Insn::Test { width, rm, reg } => sized_form(0x84, width, reg.index(), rm),
            Insn::TestImm { width, rm, imm } => rm_form(
                size_prefix(width),
                width == Width::Quad,
                Opcode::One(0xF7),
                0,
                rm,
            ) + le32(imm as int),
            Insn::TestAcc { imm } => seq![0xA9u8] + le32(imm as int),
            Insn::Unary { op, rm } => rm_form(
                None,
                true,
                Opcode::One(op.opcode().0),
                op.opcode().1,
                rm,
            ),
            Insn::Imul { reg, rm } => rm_form(None, true, Opcode::Two(0xAF), reg.index(), rm),
            Insn::ImulImm8 { reg, rm, imm } => rm_form(
                None,
                true,
                Opcode::One(0x6B),
                reg.index(),
                rm,
            ).push(imm),
            Insn::ImulImm32 { reg, rm, imm } =>
                rm_form(None, true, Opcode::One(0x69), reg.index(), rm)
                + le32(imm as int),
            Insn::ShiftImm { op, width, rm, amount } => rm_form(
                size_prefix(width),
                width == Width::Quad,
                Opcode::One(0xC1),
                op.ext(),
                rm,
            ).push(amount),
            Insn::ShiftOne { op, rm } => rm_form(None, true, Opcode::One(0xD1), op.ext(), rm),
            Insn::Cmov { cond, reg, rm } => rm_form(
                None,
                true,
                Opcode::Two((0x40 + cond.code()) as u8),
                reg.index(),
                rm,
            ),
            Insn::Jmp { .. } => seq![],
            Insn::Jcc { .. } => seq![],
            Insn::Call(_) => seq![0xE8, 0, 0, 0, 0],
            Insn::JmpSymbol(_) => seq![0xE9, 0, 0, 0, 0],
            Insn::CallReg(reg) => rm_form(None, false, Opcode::One(0xFF), 2, Rm::Reg(reg)),
            Insn::SseRr { op, dst, src } => op.opcode().push(modrm(3, dst.index(), src.index())),
            Insn::MovqFromXmm { dst, src } => rm_form(
                Some(0x66),
                true,
                Opcode::Two(0x7E),
                src.index(),
                Rm::Reg(dst),
            ),
            Insn::MovqToXmm { dst, src } => rm_form(
                Some(0x66),
                true,
                Opcode::Two(0x6E),
                dst.index(),
                Rm::Reg(src),
            ),
            Insn::Psrldq { xmm, amount } => seq![
                0x66,
                0x0F,
                0x73,
                modrm(3, 3, xmm.index()),
                amount,
            ],
            Insn::MovdquLoad { xmm, mem } => rm_form(
                Some(0xF3),
                false,
                Opcode::Two(0x6F),
                xmm.index(),
                Rm::Mem(mem),
            ),
            Insn::MovdquStore { mem, xmm } => rm_form(
                Some(0xF3),
                false,
                Opcode::Two(0x7F),
                xmm.index(),
                Rm::Mem(mem),
            ),
            Insn::MovsLoad { width, xmm, mem } => rm_form(
                Some(width.prefix()),
                false,
                Opcode::Two(0x10),
                xmm.index(),
                Rm::Mem(mem),
            ),
            Insn::MovsStore { width, mem, xmm } => rm_form(
                Some(width.prefix()),
                false,
                Opcode::Two(0x11),
                xmm.index(),
                Rm::Mem(mem),
            ),
        }
    }

    /// The memory operand, where the instruction has one.
    pub open spec fn memory(self) -> Option<Mem> {
        match self {
            Insn::Mov { rm: Rm::Mem(mem), .. } => Some(mem),
            Insn::MovLoad { mem, .. } => Some(mem),
            Insn::MovImm { rm: Rm::Mem(mem), .. } => Some(mem),
            Insn::Movzx { rm: Rm::Mem(mem), .. } => Some(mem),
            Insn::Lea { mem, .. } => Some(mem),
            Insn::Alu { rm: Rm::Mem(mem), .. } => Some(mem),
            Insn::AluLoad { mem, .. } => Some(mem),
            Insn::AluImm8 { rm: Rm::Mem(mem), .. } => Some(mem),
            Insn::AluImm32 { rm: Rm::Mem(mem), .. } => Some(mem),
            Insn::Test { rm: Rm::Mem(mem), .. } => Some(mem),
            Insn::TestImm { rm: Rm::Mem(mem), .. } => Some(mem),
            Insn::Unary { rm: Rm::Mem(mem), .. } => Some(mem),
            Insn::Imul { rm: Rm::Mem(mem), .. } => Some(mem),
            Insn::ImulImm8 { rm: Rm::Mem(mem), .. } => Some(mem),
            Insn::ImulImm32 { rm: Rm::Mem(mem), .. } => Some(mem),
            Insn::ShiftImm { rm: Rm::Mem(mem), .. } => Some(mem),
            Insn::ShiftOne { rm: Rm::Mem(mem), .. } => Some(mem),
            Insn::Cmov { rm: Rm::Mem(mem), .. } => Some(mem),
            Insn::MovdquLoad { mem, .. } => Some(mem),
            Insn::MovdquStore { mem, .. } => Some(mem),
            Insn::MovsLoad { mem, .. } => Some(mem),
            Insn::MovsStore { mem, .. } => Some(mem),
            _ => None,
        }
    }

    /// How many immediate bytes follow the operand.
    pub open spec fn immediate_len(self) -> int {
        match self {
            Insn::MovImm { width, .. } => if width == Width::Byte {
                1
            } else {
                4
            },
            Insn::AluImm8 { .. } => 1,
            Insn::AluImm32 { .. } => 4,
            Insn::TestImm { .. } => 4,
            Insn::ImulImm8 { .. } => 1,
            Insn::ImulImm32 { .. } => 4,
            Insn::ShiftImm { .. } => 1,
            _ => 0,
        }
    }

    /// The symbol a 4-byte relative field of the encoding refers to, if any.
    pub open spec fn reference(self) -> Option<Symbol> {
        match self {
            Insn::Call(symbol) => Some(symbol),
            Insn::JmpSymbol(symbol) => Some(symbol),
            _ => match self.memory() {
                Some(Mem::Rip(symbol)) => Some(symbol),
                _ => None,
            },
        }
    }
}

// Emission

fn exec_encodable(base: Reg, disp: Disp) -> (d: Disp)
    ensures
        d == encodable(base, disp),
{
    if disp == Disp::Zero && base.number() % 8 == 5 {
        Disp::Byte(0)
    } else {
        disp
    }
}

fn exec_modrm(mode: u8, middle: u8, low: u8) -> (byte: u8)
    requires
        mode < 4,
    ensures
        byte == modrm(mode as int, middle as int, low as int),
{
    mode * 64 + (middle % 8) * 8 + low % 8
}

fn emit_rex(out: &mut Vec<u8>, wide: bool, reg: u8, index: u8, base: u8)
    requires
        reg < 16,
        index < 16,
        base < 16,
    ensures
        final(out)@ == old(out)@ + rex(wide, reg as int, index as int, base as int),
{
    let wide_bit: u8 = if wide {
        8
    } else {
        0
    };
    let bits: u8 = wide_bit + 4 * (reg / 8) + 2 * (index / 8) + base / 8;
    if bits != 0 {
        out.push(0x40 + bits);
    }
}

impl Mem {
    fn exec_index_number(self) -> (n: u8)
        ensures
            n == self.index_number(),
            n < 16,
    {
        match self {
            Mem::Indexed { index, .. } => index.number(),
            Mem::Scaled { index, .. } => index.number(),
            _ => 0,
        }
    }

    fn exec_base_number(self) -> (n: u8)
        ensures
            n == self.base_number(),
            n < 16,
    {
        match self {
            Mem::Base { base, .. } => base.number(),
            Mem::Indexed { base, .. } => base.number(),
            _ => 0,
        }
    }

    fn emit_operand(self, out: &mut Vec<u8>, reg: u8)
        ensures
            final(out)@ == old(out)@ + self.operand(reg as int),
    {
        match self {
            Mem::Base { base, disp } => {
                if base.number() % 8 == 4 {
                    out.push(exec_modrm(disp.mode_bits(), reg, 4));
                    out.push(exec_modrm(0, 4, 4));
                    disp.emit(out);
                } else {
                    let fitted = exec_encodable(base, disp);
                    out.push(exec_modrm(fitted.mode_bits(), reg, base.number()));
                    fitted.emit(out);
                }
            },
            Mem::Indexed { base, index, scale, disp } => {
                let fitted = exec_encodable(base, disp);
                out.push(exec_modrm(fitted.mode_bits(), reg, 4));
                out.push(exec_modrm(scale.exec_bits(), index.number(), base.number()));
                fitted.emit(out);
            },
            Mem::Scaled { index, scale, disp } => {
                out.push(exec_modrm(0, reg, 4));
                out.push(exec_modrm(scale.exec_bits(), index.number(), 5));
                push_i32(out, disp);
            },
            Mem::Rip(_) => {
                out.push(exec_modrm(0, reg, 5));
                out.push(0);
                out.push(0);
                out.push(0);
                out.push(0);
            },
        }
    }
}

impl Rm {
    fn exec_index_number(self) -> (n: u8)
        ensures
            n == self.index_number(),
            n < 16,
    {
        match self {
            Rm::Reg(_) => 0,
            Rm::Mem(mem) => mem.exec_index_number(),
        }
    }

    fn exec_base_number(self) -> (n: u8)
        ensures
            n == self.base_number(),
            n < 16,
    {
        match self {
            Rm::Reg(reg) => reg.number(),
            Rm::Mem(mem) => mem.exec_base_number(),
        }
    }

    fn emit_operand(self, out: &mut Vec<u8>, reg: u8)
        ensures
            final(out)@ == old(out)@ + self.operand(reg as int),
    {
        match self {
            Rm::Reg(r) => {
                out.push(exec_modrm(3, reg, r.number()));
            },
            Rm::Mem(mem) => mem.emit_operand(out, reg),
        }
    }
}

fn emit_rm_form(
    out: &mut Vec<u8>,
    prefix: Option<u8>,
    wide: bool,
    opcode: Opcode,
    reg: u8,
    rm: Rm,
)
    requires
        reg < 16,
    ensures
        final(out)@ == old(out)@ + rm_form(prefix, wide, opcode, reg as int, rm),
{
    reveal(rm_form);
    push_optional(out, prefix);
    emit_rex(out, wide, reg, rm.exec_index_number(), rm.exec_base_number());
    match opcode {
        Opcode::One(byte) => out.push(byte),
        Opcode::Two(byte) => {
            out.push(0x0F);
            out.push(byte);
        },
    }
    rm.emit_operand(out, reg);
}

fn push_optional(out: &mut Vec<u8>, byte: Option<u8>)
    ensures
        final(out)@ == old(out)@ + optional_byte(byte),
{
    match byte {
        Some(b) => out.push(b),
        None => {},
    }
}

fn exec_size_prefix(width: Width) -> (prefix: Option<u8>)
    ensures
        prefix == size_prefix(width),
{
    if width == Width::Word {
        Some(0x66)
    } else {
        None
    }
}

fn exec_sized(base: u8, width: Width) -> (opcode: u8)
    requires
        base < 255,
    ensures
        opcode == sized(base as int, width),
{
    if width == Width::Byte {
        base
    } else {
        base + 1
    }
}

fn emit_sized_form(out: &mut Vec<u8>, base: u8, width: Width, reg: u8, rm: Rm)
    requires
        reg < 16,
        base < 255,
    ensures
        final(out)@ == old(out)@ + sized_form(base as int, width, reg as int, rm),
{
    emit_rm_form(
        out,
        exec_size_prefix(width),
        width == Width::Quad,
        Opcode::One(exec_sized(base, width)),
        reg,
        rm,
    );
}

/// Appends `imm` in the immediate width of `width`: one byte, or four.
fn emit_immediate(out: &mut Vec<u8>, width: Width, imm: i32)
    ensures
        final(out)@ == old(out)@ + (if width == Width::Byte {
            seq![low_byte(imm as int)]
        } else {
            le32(imm as int)
        }),
{
    if width == Width::Byte {
        let folded: i32 = imm % 256;
        let byte: u8 = if folded >= 0 {
            folded as u8
        } else {
            (folded + 256) as u8
        };
        out.push(byte);
    } else {
        push_i32(out, imm);
    }
}

impl Insn {
    /// Appends the encoding of an instruction other than a jump within its
    /// program.
    pub fn emit(self, out: &mut Vec<u8>)
        ensures
            final(out)@ == old(out)@ + self.encoding(),
    {
        match self {
            Insn::Push(reg) => {
                emit_rex(out, false, 0, 0, reg.number());
                out.push(0x50 + reg.number() % 8);
            },
            Insn::Pop(reg) => {
                emit_rex(out, false, 0, 0, reg.number());
                out.push(0x58 + reg.number() % 8);
            },
            Insn::Ret => out.push(0xC3),
            Insn::Ud2 => {
                out.push(0x0F);
                out.push(0x0B);
            },
            Insn::Int3 => out.push(0xCC),
            Insn::Cpuid => {
                out.push(0x0F);
                out.push(0xA2);
            },
            Insn::Syscall => {
                out.push(0x0F);
                out.push(0x05);
            },
            Insn::RepMovsb => {
                out.push(0xF3);
                out.push(0xA4);
            },
            Insn::Jmp { .. } => {},
            Insn::Jcc { .. } => {},
            Insn::Call(_) => {
                out.push(0xE8);
                push_i32(out, 0);
            },
            Insn::JmpSymbol(_) => {
                out.push(0xE9);
                push_i32(out, 0);
            },
            Insn::CallReg(reg) =>
                emit_rm_form(out, None, false, Opcode::One(0xFF), 2, Rm::Reg(reg)),
            Insn::Mov { .. } | Insn::MovLoad { .. } | Insn::MovImm { .. } | Insn::MovImm16 { .. }
            | Insn::MovImm32 { .. } | Insn::MovImm64 { .. } | Insn::Movzx { .. }
            | Insn::Lea { .. } => self.emit_move(out),
            Insn::Alu { .. } | Insn::AluLoad { .. } | Insn::AluImm8 { .. } | Insn::AluImm32 { .. }
            | Insn::AluAcc { .. } | Insn::Test { .. } | Insn::TestImm { .. }
            | Insn::TestAcc { .. } => self.emit_alu(out),
            Insn::Unary { .. } | Insn::Imul { .. } | Insn::ImulImm8 { .. }
            | Insn::ImulImm32 { .. } | Insn::ShiftImm { .. } | Insn::ShiftOne { .. }
            | Insn::Cmov { .. } => self.emit_arith(out),
            Insn::SseRr { .. } | Insn::MovqFromXmm { .. } | Insn::MovqToXmm { .. }
            | Insn::Psrldq { .. } | Insn::MovdquLoad { .. } | Insn::MovdquStore { .. }
            | Insn::MovsLoad { .. } | Insn::MovsStore { .. } => self.emit_sse(out),
        }
    }

    fn emit_move(self, out: &mut Vec<u8>)
        requires
            self is Mov || self is MovLoad || self is MovImm || self is MovImm16 || self
                is MovImm32 || self is MovImm64 || self is Movzx || self is Lea,
        ensures
            final(out)@ == old(out)@ + self.encoding(),
    {
        match self {
            Insn::Mov { width, rm, reg } => emit_sized_form(out, 0x88, width, reg.number(), rm),
            Insn::MovLoad { width, reg, mem } => emit_sized_form(
                out,
                0x8A,
                width,
                reg.number(),
                Rm::Mem(mem),
            ),
            Insn::MovImm { width, rm, imm } => {
                emit_sized_form(out, 0xC6, width, 0, rm);
                emit_immediate(out, width, imm);
            },
            Insn::MovImm16 { reg, imm } => {
                out.push(0x66);
                emit_rex(out, false, 0, 0, reg.number());
                out.push(0xB8 + reg.number() % 8);
                push_u16(out, imm);
            },
            Insn::MovImm32 { reg, imm } => {
                emit_rex(out, false, 0, 0, reg.number());
                out.push(0xB8 + reg.number() % 8);
                push_i32(out, imm);
            },
            Insn::MovImm64 { reg, imm } => {
                emit_rex(out, true, 0, 0, reg.number());
                out.push(0xB8 + reg.number() % 8);
                push_i64(out, imm);
            },
            Insn::Movzx { reg, rm } => emit_rm_form(
                out,
                None,
                false,
                Opcode::Two(0xB6),
                reg.number(),
                rm,
            ),
            Insn::Lea { width, reg, mem } => emit_rm_form(
                out,
                exec_size_prefix(width),
                width == Width::Quad,
                Opcode::One(0x8D),
                reg.number(),
                Rm::Mem(mem),
            ),
            _ => {},
        }
    }

    fn emit_alu(self, out: &mut Vec<u8>)
        requires
            self is Alu || self is AluLoad || self is AluImm8 || self is AluImm32 || self
                is AluAcc || self is Test || self is TestImm || self is TestAcc,
        ensures
            final(out)@ == old(out)@ + self.encoding(),
    {
        match self {
            Insn::Alu { op, width, rm, reg } => emit_sized_form(
                out,
                8 * op.exec_ext(),
                width,
                reg.number(),
                rm,
            ),
            Insn::AluLoad { op, width, reg, mem } => emit_sized_form(
                out,
                8 * op.exec_ext() + 2,
                width,
                reg.number(),
                Rm::Mem(mem),
            ),
            Insn::AluImm8 { op, width, rm, imm } => {
                let opcode: u8 = if width == Width::Byte {
                    0x80
                } else {
                    0x83
                };
                emit_rm_form(
                    out,
                    exec_size_prefix(width),
                    width == Width::Quad,
                    Opcode::One(opcode),
                    op.exec_ext(),
                    rm,
                );
                out.push(imm);
            },
            Insn::AluImm32 { op, width, rm, imm } => {
                emit_rm_form(
                    out,
                    exec_size_prefix(width),
                    width == Width::Quad,
                    Opcode::One(0x81),
                    op.exec_ext(),
                    rm,
                );
                push_i32(out, imm);
            },
            Insn::AluAcc { op, width, imm } => {
                push_optional(out, exec_size_prefix(width));
                emit_rex(out, width == Width::Quad, 0, 0, 0);
                out.push(exec_sized(8 * op.exec_ext() + 4, width));
                emit_immediate(out, width, imm);
            },
            Insn::Test { width, rm, reg } => emit_sized_form(out, 0x84, width, reg.number(), rm),
            Insn::TestImm { width, rm, imm } => {
                emit_rm_form(
                    out,
                    exec_size_prefix(width),
                    width == Width::Quad,
                    Opcode::One(0xF7),
                    0,
                    rm,
                );
                push_i32(out, imm);
            },
            Insn::TestAcc { imm } => {
                out.push(0xA9);
                push_i32(out, imm);
            },
            _ => {},
        }
    }

    fn emit_arith(self, out: &mut Vec<u8>)
        requires
            self is Unary || self is Imul || self is ImulImm8 || self is ImulImm32 || self
                is ShiftImm || self is ShiftOne || self is Cmov,
        ensures
            final(out)@ == old(out)@ + self.encoding(),
    {
        match self {
            Insn::Unary { op, rm } => {
                let (opcode, ext): (u8, u8) = op.exec_opcode();
                emit_rm_form(out, None, true, Opcode::One(opcode), ext, rm);
            },
            Insn::Imul { reg, rm } => emit_rm_form(
                out,
                None,
                true,
                Opcode::Two(0xAF),
                reg.number(),
                rm,
            ),
            Insn::ImulImm8 { reg, rm, imm } => {
                emit_rm_form(out, None, true, Opcode::One(0x6B), reg.number(), rm);
                out.push(imm);
            },
            Insn::ImulImm32 { reg, rm, imm } => {
                emit_rm_form(out, None, true, Opcode::One(0x69), reg.number(), rm);
                push_i32(out, imm);
            },
            Insn::ShiftImm { op, width, rm, amount } => {
                emit_rm_form(
                    out,
                    exec_size_prefix(width),
                    width == Width::Quad,
                    Opcode::One(0xC1),
                    op.exec_ext(),
                    rm,
                );
                out.push(amount);
            },
            Insn::ShiftOne { op, rm } => emit_rm_form(
                out,
                None,
                true,
                Opcode::One(0xD1),
                op.exec_ext(),
                rm,
            ),
            Insn::Cmov { cond, reg, rm } => emit_rm_form(
                out,
                None,
                true,
                Opcode::Two(0x40 + cond.number()),
                reg.number(),
                rm,
            ),
            _ => {},
        }
    }

    fn emit_sse(self, out: &mut Vec<u8>)
        requires
            self is SseRr || self is MovqFromXmm || self is MovqToXmm || self is Psrldq || self
                is MovdquLoad || self is MovdquStore || self is MovsLoad || self is MovsStore,
        ensures
            final(out)@ == old(out)@ + self.encoding(),
    {
        match self {
            Insn::SseRr { op, dst, src } => {
                push_all(out, &op.exec_opcode());
                out.push(exec_modrm(3, dst.number(), src.number()));
            },
            Insn::MovqFromXmm { dst, src } => emit_rm_form(
                out,
                Some(0x66),
                true,
                Opcode::Two(0x7E),
                src.number(),
                Rm::Reg(dst),
            ),
            Insn::MovqToXmm { dst, src } => emit_rm_form(
                out,
                Some(0x66),
                true,
                Opcode::Two(0x6E),
                dst.number(),
                Rm::Reg(src),
            ),
            Insn::Psrldq { xmm, amount } => {
                out.push(0x66);
                out.push(0x0F);
                out.push(0x73);
                out.push(exec_modrm(3, 3, xmm.number()));
                out.push(amount);
            },
            Insn::MovdquLoad { xmm, mem } => emit_rm_form(
                out,
                Some(0xF3),
                false,
                Opcode::Two(0x6F),
                xmm.number(),
                Rm::Mem(mem),
            ),
            Insn::MovdquStore { mem, xmm } => emit_rm_form(
                out,
                Some(0xF3),
                false,
                Opcode::Two(0x7F),
                xmm.number(),
                Rm::Mem(mem),
            ),
            Insn::MovsLoad { width, xmm, mem } => emit_rm_form(
                out,
                Some(width.exec_prefix()),
                false,
                Opcode::Two(0x10),
                xmm.number(),
                Rm::Mem(mem),
            ),
            Insn::MovsStore { width, mem, xmm } => emit_rm_form(
                out,
                Some(width.exec_prefix()),
                false,
                Opcode::Two(0x11),
                xmm.number(),
                Rm::Mem(mem),
            ),
            _ => {},
        }
    }
}

} // verus!
