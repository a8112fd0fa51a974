//! Reading machine code.
//!
//! The decoder follows the opcode tables of the processor's manual, byte by byte: an optional
//! legacy prefix, an optional REX prefix, the opcode with its escapes, the ModRM and SIB bytes,
//! the displacement and the immediate. It knows nothing of how code is emitted. What is emitted
//! reads back as the operation, the width and the operands that were meant.

use crate::bytes::{
    law_le32_reads_back, law_le32_signed_reads_back, le16, le32, le64, lemma_le32_periodic,
        low_byte,
    read_le32,
};
use crate::symbols::Symbol;
use crate::x86::{
    encodable, modrm, optional_byte, rex, rm_form, size_prefix, sized, Alu, Cond, Disp, FloatWidth,
    Insn, Mem, Opcode, Reg, Rm, ScalarOp, Scale, Shift, Sse, Unary, Width, Xmm,
};
use vstd::prelude::*;

verus! {

// What is read

/// What an instruction does.
pub enum Mnemonic {
    Push,
    Pop,
    Ret,
    Ud2,
    Int3,
    Cpuid,
    Syscall,
    RepMovsb,
    Mov,
    Movzx,
    Lea,
    Add,
    Or,
    Adc,
    Sbb,
    And,
    Sub,
    Xor,
    Cmp,
    Test,
    Inc,
    Dec,
    Neg,
    Div,
    Imul,
    Shl,
    Shr,
    CallNear,
    JmpNear,
    If(Cond),
    Cmov(Cond),
    Packed(Sse),
    Movq,
    Psrldq,
    Movdqu,
    Movs(FloatWidth),
    Unknown,
}

/// What an instruction does it to.
pub enum Operand {
    /// A register.
    Whole(Reg),
    /// The second byte of one of the first four registers.
    High(int),
    Vector(Xmm),
    /// `[base + index * scale + disp]`
    Memory { base: Option<Reg>, index: Option<(Reg, int)>, disp: int },
    /// `[rip + disp]`
    Beside(int),
    /// An instruction this far behind the end of this one.
    Ahead(int),
    /// A constant.
    Number(int),
}

/// An instruction as it reads in assembly: the target comes first.
#[verifier::ext_equal]
pub struct Reading {
    pub mnemonic: Mnemonic,
    pub width: Width,
    pub operands: Seq<Operand>,
}

/// A reading.
pub open spec fn reads(mnemonic: Mnemonic, width: Width, operands: Seq<Operand>) -> Reading {
    Reading { mnemonic, width, operands }
}

// The tables

/// The register with this number.
pub open spec fn register(number: int) -> Reg {
    if number == 0 {
        Reg::Rax
    } else if number == 1 {
        Reg::Rcx
    } else if number == 2 {
        Reg::Rdx
    } else if number == 3 {
        Reg::Rbx
    } else if number == 4 {
        Reg::Rsp
    } else if number == 5 {
        Reg::Rbp
    } else if number == 6 {
        Reg::Rsi
    } else if number == 7 {
        Reg::Rdi
    } else if number == 8 {
        Reg::R8
    } else if number == 9 {
        Reg::R9
    } else if number == 10 {
        Reg::R10
    } else if number == 11 {
        Reg::R11
    } else if number == 12 {
        Reg::R12
    } else if number == 13 {
        Reg::R13
    } else if number == 14 {
        Reg::R14
    } else {
        Reg::R15
    }
}

/// The vector register with this number.
pub open spec fn vector(number: int) -> Xmm {
    if number == 0 {
        Xmm::Xmm0
    } else if number == 1 {
        Xmm::Xmm1
    } else if number == 2 {
        Xmm::Xmm2
    } else {
        Xmm::Xmm3
    }
}

/// The condition with this number.
pub open spec fn condition(number: int) -> Option<Cond> {
    if number == 0 {
        Some(Cond::O)
    } else if number == 2 {
        Some(Cond::B)
    } else if number == 3 {
        Some(Cond::Ae)
    } else if number == 4 {
        Some(Cond::E)
    } else if number == 5 {
        Some(Cond::Ne)
    } else if number == 6 {
        Some(Cond::Be)
    } else if number == 7 {
        Some(Cond::A)
    } else if number == 8 {
        Some(Cond::S)
    } else if number == 12 {
        Some(Cond::L)
    } else if number == 13 {
        Some(Cond::Ge)
    } else if number == 14 {
        Some(Cond::Le)
    } else if number == 15 {
        Some(Cond::G)
    } else {
        None
    }
}

/// The arithmetic operation with this number: an eighth of its opcode, and its extension
/// behind the opcodes of the immediate forms.
pub open spec fn arithmetic(number: int) -> Mnemonic {
    if number == 0 {
        Mnemonic::Add
    } else if number == 1 {
        Mnemonic::Or
    } else if number == 2 {
        Mnemonic::Adc
    } else if number == 3 {
        Mnemonic::Sbb
    } else if number == 4 {
        Mnemonic::And
    } else if number == 5 {
        Mnemonic::Sub
    } else if number == 6 {
        Mnemonic::Xor
    } else {
        Mnemonic::Cmp
    }
}

/// The shift with this extension.
pub open spec fn shifting(extension: int) -> Mnemonic {
    if extension == 4 {
        Mnemonic::Shl
    } else if extension == 5 {
        Mnemonic::Shr
    } else {
        Mnemonic::Unknown
    }
}

/// The packed operation of an opcode behind `66 0F`.
pub open spec fn packed_double(opcode: int) -> Option<Sse> {
    if opcode == 0x15 {
        Some(Sse::Unpckhpd)
    } else if opcode == 0x28 {
        Some(Sse::Movapd)
    } else if opcode == 0x58 {
        Some(Sse::Addpd)
    } else if opcode == 0x59 {
        Some(Sse::Mulpd)
    } else if opcode == 0x5C {
        Some(Sse::Subpd)
    } else if opcode == 0x6C {
        Some(Sse::Punpcklqdq)
    } else if opcode == 0x6F {
        Some(Sse::Movdqa)
    } else if opcode == 0x76 {
        Some(Sse::Pcmpeqd)
    } else if opcode == 0xD4 {
        Some(Sse::Paddq)
    } else if opcode == 0xDB {
        Some(Sse::Pand)
    } else if opcode == 0xDF {
        Some(Sse::Pandn)
    } else if opcode == 0xEB {
        Some(Sse::Por)
    } else if opcode == 0xEF {
        Some(Sse::Pxor)
    } else if opcode == 0xFB {
        Some(Sse::Psubq)
    } else {
        None
    }
}

/// The scalar operation of an opcode behind `F2 0F` or `F3 0F`.
pub open spec fn scalar(opcode: int) -> Option<ScalarOp> {
    if opcode == 0x58 {
        Some(ScalarOp::Plus)
    } else if opcode == 0x59 {
        Some(ScalarOp::Times)
    } else if opcode == 0x5C {
        Some(ScalarOp::Minus)
    } else if opcode == 0x5E {
        Some(ScalarOp::Over)
    } else {
        None
    }
}

// Fields

/// The signed value of a byte.
pub open spec fn signed_byte(byte: u8) -> int {
    if byte < 128 {
        byte as int
    } else {
        byte - 256
    }
}

/// The unsigned value of four bytes, lowest first.
pub open spec fn four(bytes: Seq<u8>) -> int {
    bytes[0] + 0x100 * bytes[1] + 0x1_0000 * bytes[2] + 0x100_0000 * bytes[3]
}

/// The signed value of four bytes.
pub open spec fn signed_four(bytes: Seq<u8>) -> int {
    if four(bytes) < 0x8000_0000 {
        four(bytes)
    } else {
        four(bytes) - 0x1_0000_0000
    }
}

/// The signed value of eight bytes.
pub open spec fn signed_eight(bytes: Seq<u8>) -> int {
    four(bytes) + 0x1_0000_0000 * signed_four(bytes.skip(4))
}

/// What precedes the operands: the prefixes, the opcode map and the opcode.
#[verifier::ext_equal]
pub struct Head {
    pub prefix: Option<u8>,
    /// The four low bits of the REX prefix.
    pub rex: Option<int>,
    /// The number of opcode bytes.
    pub map: int,
    pub opcode: int,
    pub rest: Seq<u8>,
}

/// The bytes without the first `n`.
pub open spec fn behind(bytes: Seq<u8>, n: int) -> Seq<u8> {
    bytes.skip(n)
}

/// The beginning of an instruction.
#[verifier::opaque]
pub open spec fn head(bytes: Seq<u8>) -> Head {
    let prefixed = bytes[0] == 0x66 || bytes[0] == 0xF2 || bytes[0] == 0xF3;
    let prefix = if prefixed {
        Some(bytes[0])
    } else {
        None
    };
    let a = if prefixed {
        behind(bytes, 1)
    } else {
        bytes
    };
    let extended = 0x40 <= a[0] < 0x50;
    let rex = if extended {
        Some(a[0] - 0x40)
    } else {
        None
    };
    let b = if extended {
        behind(a, 1)
    } else {
        a
    };
    if b[0] != 0x0F {
        Head { prefix, rex, map: 1, opcode: b[0] as int, rest: behind(b, 1) }
    } else if b[1] != 0x38 {
        Head { prefix, rex, map: 2, opcode: b[1] as int, rest: behind(b, 2) }
    } else {
        Head { prefix, rex, map: 3, opcode: b[2] as int, rest: behind(b, 3) }
    }
}

impl Head {
    /// The bits of the REX prefix.
    pub open spec fn bits(self) -> int {
        match self.rex {
            Some(bits) => bits,
            None => 0,
        }
    }

    /// Whether the operands have 64 bits.
    #[verifier::opaque]
    pub open spec fn wide(self) -> bool {
        self.bits() / 8 == 1
    }

    /// The operand width of an opcode that is not one for bytes.
    pub open spec fn width(self) -> Width {
        if self.wide() {
            Width::Quad
        } else if self.prefix == Some(0x66u8) {
            Width::Word
        } else {
            Width::Long
        }
    }

    /// The number in the middle of the ModRM byte: a register, with its bit of the REX prefix.
    #[verifier::opaque]
    pub open spec fn middle(self) -> int {
        (self.rest[0] as int / 8) % 8 + 8 * (self.bits() / 4 % 2)
    }

    /// The opcode extension in the middle of the ModRM byte.
    #[verifier::opaque]
    pub open spec fn extension(self) -> int {
        (self.rest[0] as int / 8) % 8
    }

    /// A register of a width.
    pub open spec fn named(self, number: int, width: Width) -> Operand {
        if width == Width::Byte && self.rex is None && 4 <= number < 8 {
            Operand::High(number - 4)
        } else {
            Operand::Whole(register(number))
        }
    }

    /// The register that the opcode's low bits name.
    #[verifier::opaque]
    pub open spec fn opcode_register(self) -> Operand {
        Operand::Whole(register(self.opcode % 8 + 8 * (self.bits() % 2)))
    }
}

/// A displacement of the given mode, and what follows it.
pub open spec fn displaced(mode: int, bytes: Seq<u8>) -> (int, Seq<u8>) {
    if mode == 1 {
        (signed_byte(bytes[0]), behind(bytes, 1))
    } else if mode == 2 {
        (signed_four(bytes), behind(bytes, 4))
    } else {
        (0, bytes)
    }
}

/// What an index register is multiplied by.
pub open spec fn multiple(bits: int) -> int {
    if bits == 0 {
        1
    } else if bits == 1 {
        2
    } else if bits == 2 {
        4
    } else {
        8
    }
}

/// The register or the memory that the ModRM byte names, and what follows it.
#[verifier::opaque]
pub open spec fn target(h: Head, width: Width) -> (Operand, Seq<u8>) {
    let mode = h.rest[0] as int / 64;
    let low = h.rest[0] as int % 8;
    let extra = 8 * (h.bits() % 2);
    if mode == 3 {
        (h.named(low + extra, width), behind(h.rest, 1))
    } else if low == 4 {
        let sib = h.rest[1] as int;
        let number = (sib / 8) % 8 + 8 * (h.bits() / 2 % 2);
        let index = if number == 4 {
            None
        } else {
            Some((register(number), multiple(sib / 64)))
        };
        if mode == 0 && sib % 8 == 5 {
            let (disp, more) = displaced(2, behind(h.rest, 2));
            (Operand::Memory { base: None, index, disp }, more)
        } else {
            let (disp, more) = displaced(mode, behind(h.rest, 2));
            (Operand::Memory { base: Some(register(sib % 8 + extra)), index, disp }, more)
        }
    } else if mode == 0 && low == 5 {
        let (disp, more) = displaced(2, behind(h.rest, 1));
        (Operand::Beside(disp), more)
    } else {
        let (disp, more) = displaced(mode, behind(h.rest, 1));
        (Operand::Memory { base: Some(register(low + extra)), index: None, disp }, more)
    }
}

/// The vector register or the memory that the ModRM byte names, and what follows it.
pub open spec fn vector_target(h: Head) -> (Operand, Seq<u8>) {
    if h.rest[0] as int / 64 == 3 {
        (Operand::Vector(vector(h.rest[0] as int % 8 + 8 * (h.bits() % 2))), behind(h.rest, 1))
    } else {
        target(h, Width::Quad)
    }
}

// The decoder

/// `op target, register` or `op register, target`.
pub open spec fn two_operands(h: Head, mnemonic: Mnemonic, width: Width, to_register: bool) -> (
    Reading,
    Seq<u8>,
) {
    let (place, rest) = target(h, width);
    let reg = h.named(h.middle(), width);
    (
        reads(
            mnemonic,
            width,
            if to_register {
                seq![reg, place]
            } else {
                seq![place, reg]
            },
        ),
        rest,
    )
}

/// `op target, constant`, of one byte. It is extended with its sign where the target is wider.
pub open spec fn with_byte(h: Head, mnemonic: Mnemonic, width: Width) -> (Reading, Seq<u8>) {
    let (place, rest) = target(h, width);
    let number = if width == Width::Byte {
        rest[0] as int
    } else {
        signed_byte(rest[0])
    };
    (reads(mnemonic, width, seq![place, Operand::Number(number)]), behind(rest, 1))
}

/// `op target, constant`, of four bytes.
pub open spec fn with_four(h: Head, mnemonic: Mnemonic, width: Width) -> (Reading, Seq<u8>) {
    let (place, rest) = target(h, width);
    (
        reads(mnemonic, width, seq![place, Operand::Number(signed_four(rest))]),
        behind(rest, 4),
    )
}

/// `op target`.
pub open spec fn one_operand(h: Head, mnemonic: Mnemonic, width: Width) -> (Reading, Seq<u8>) {
    let (place, rest) = target(h, width);
    (reads(mnemonic, width, seq![place]), rest)
}

/// Nothing that is known.
pub open spec fn unknown(h: Head) -> (Reading, Seq<u8>) {
    (reads(Mnemonic::Unknown, Width::Quad, seq![]), h.rest)
}

/// An instruction without operands.
pub open spec fn alone(h: Head, mnemonic: Mnemonic) -> (Reading, Seq<u8>) {
    (reads(mnemonic, Width::Quad, seq![]), h.rest)
}

/// An instruction of the one-byte opcodes below 40.
#[verifier::opaque]
pub open spec fn decode_arithmetic(h: Head) -> (Reading, Seq<u8>) {
    let op = arithmetic(h.opcode / 8);
    let form = h.opcode % 8;
    let rax = Operand::Whole(Reg::Rax);
    if form == 0 {
        two_operands(h, op, Width::Byte, false)
    } else if form == 1 {
        two_operands(h, op, h.width(), false)
    } else if form == 2 {
        two_operands(h, op, Width::Byte, true)
    } else if form == 3 {
        two_operands(h, op, h.width(), true)
    } else if form == 4 {
        (
            reads(op, Width::Byte, seq![rax, Operand::Number(h.rest[0] as int)]),
            behind(h.rest, 1),
        )
    } else if form == 5 {
        (
            reads(op, h.width(), seq![rax, Operand::Number(signed_four(h.rest))]),
            behind(h.rest, 4),
        )
    } else {
        unknown(h)
    }
}

/// An instruction of the one-byte opcodes from 40 to 8F.
#[verifier::opaque]
pub open spec fn decode_middle(h: Head) -> (Reading, Seq<u8>) {
    let op = h.opcode;
    if 0x50 <= op < 0x58 {
        (reads(Mnemonic::Push, Width::Quad, seq![h.opcode_register()]), h.rest)
    } else if 0x58 <= op < 0x60 {
        (reads(Mnemonic::Pop, Width::Quad, seq![h.opcode_register()]), h.rest)
    } else if op == 0x69 {
        let (place, rest) = target(h, h.width());
        (
            reads(
                Mnemonic::Imul,
                h.width(),
                seq![h.named(h.middle(), h.width()), place, Operand::Number(signed_four(rest))],
            ),
            behind(rest, 4),
        )
    } else if op == 0x6B {
        let (place, rest) = target(h, h.width());
        (
            reads(
                Mnemonic::Imul,
                h.width(),
                seq![h.named(h.middle(), h.width()), place, Operand::Number(signed_byte(rest[0]))],
            ),
            behind(rest, 1),
        )
    } else if 0x70 <= op < 0x80 {
        match condition(op - 0x70) {
            Some(cond) => (
                reads(
                    Mnemonic::If(cond),
                    Width::Quad,
                    seq![Operand::Ahead(signed_byte(h.rest[0]))],
                ),
                behind(h.rest, 1),
            ),
            None => unknown(h),
        }
    } else if op == 0x80 {
        with_byte(h, arithmetic(h.extension()), Width::Byte)
    } else if op == 0x81 {
        with_four(h, arithmetic(h.extension()), h.width())
    } else if op == 0x83 {
        with_byte(h, arithmetic(h.extension()), h.width())
    } else if op == 0x84 {
        two_operands(h, Mnemonic::Test, Width::Byte, false)
    } else if op == 0x85 {
        two_operands(h, Mnemonic::Test, h.width(), false)
    } else if op == 0x88 {
        two_operands(h, Mnemonic::Mov, Width::Byte, false)
    } else if op == 0x89 {
        two_operands(h, Mnemonic::Mov, h.width(), false)
    } else if op == 0x8A {
        two_operands(h, Mnemonic::Mov, Width::Byte, true)
    } else if op == 0x8B {
        two_operands(h, Mnemonic::Mov, h.width(), true)
    } else if op == 0x8D {
        two_operands(h, Mnemonic::Lea, h.width(), true)
    } else {
        unknown(h)
    }
}

/// An instruction of the one-byte opcodes from 90 on.
#[verifier::opaque]
pub open spec fn decode_upper(h: Head) -> (Reading, Seq<u8>) {
    let op = h.opcode;
    if op == 0xA4 && h.prefix == Some(0xF3u8) {
        alone(h, Mnemonic::RepMovsb)
    } else if op == 0xA9 {
        (
            reads(
                Mnemonic::Test,
                h.width(),
                seq![Operand::Whole(Reg::Rax), Operand::Number(signed_four(h.rest))],
            ),
            behind(h.rest, 4),
        )
    } else if 0xB8 <= op < 0xC0 {
        if h.width() == Width::Quad {
            (
                reads(
                    Mnemonic::Mov,
                    Width::Quad,
                    seq![h.opcode_register(), Operand::Number(signed_eight(h.rest))],
                ),
                behind(h.rest, 8),
            )
        } else if h.width() == Width::Word {
            (
                reads(
                    Mnemonic::Mov,
                    Width::Word,
                    seq![
                        h.opcode_register(),
                        Operand::Number(h.rest[0] + 0x100 * h.rest[1]),
                    ],
                ),
                behind(h.rest, 2),
            )
        } else {
            (
                reads(
                    Mnemonic::Mov,
                    Width::Long,
                    seq![h.opcode_register(), Operand::Number(signed_four(h.rest))],
                ),
                behind(h.rest, 4),
            )
        }
    } else if op == 0xC1 {
        let (place, rest) = target(h, h.width());
        (
            reads(
                shifting(h.extension()),
                h.width(),
                seq![place, Operand::Number(rest[0] as int)],
            ),
            behind(rest, 1),
        )
    } else if op == 0xC3 {
        alone(h, Mnemonic::Ret)
    } else if op == 0xC6 && h.extension() == 0 {
        with_byte(h, Mnemonic::Mov, Width::Byte)
    } else if op == 0xC7 && h.extension() == 0 {
        with_four(h, Mnemonic::Mov, h.width())
    } else if op == 0xCC {
        alone(h, Mnemonic::Int3)
    } else if op == 0xD1 {
        let (place, rest) = target(h, h.width());
        (reads(shifting(h.extension()), h.width(), seq![place, Operand::Number(1)]), rest)
    } else if op == 0xE8 {
        (
            reads(Mnemonic::CallNear, Width::Quad, seq![Operand::Ahead(signed_four(h.rest))]),
            behind(h.rest, 4),
        )
    } else if op == 0xE9 {
        (
            reads(Mnemonic::JmpNear, Width::Quad, seq![Operand::Ahead(signed_four(h.rest))]),
            behind(h.rest, 4),
        )
    } else if op == 0xEB {
        (
            reads(Mnemonic::JmpNear, Width::Quad, seq![Operand::Ahead(signed_byte(h.rest[0]))]),
            behind(h.rest, 1),
        )
    } else if op == 0xF7 && h.extension() == 0 {
        with_four(h, Mnemonic::Test, h.width())
    } else if op == 0xF7 && h.extension() == 3 {
        one_operand(h, Mnemonic::Neg, h.width())
    } else if op == 0xF7 && h.extension() == 6 {
        one_operand(h, Mnemonic::Div, h.width())
    } else if op == 0xFF && h.extension() == 0 {
        one_operand(h, Mnemonic::Inc, h.width())
    } else if op == 0xFF && h.extension() == 1 {
        one_operand(h, Mnemonic::Dec, h.width())
    } else if op == 0xFF && h.extension() == 2 {
        one_operand(h, Mnemonic::CallNear, Width::Quad)
    } else {
        unknown(h)
    }
}

/// An instruction of the two-byte opcodes that no prefix changes.
#[verifier::opaque]
pub open spec fn decode_escaped(h: Head) -> (Reading, Seq<u8>) {
    let op = h.opcode;
    if op == 0x05 {
        alone(h, Mnemonic::Syscall)
    } else if op == 0x0B {
        alone(h, Mnemonic::Ud2)
    } else if 0x40 <= op < 0x50 {
        match condition(op - 0x40) {
            Some(cond) => two_operands(h, Mnemonic::Cmov(cond), h.width(), true),
            None => unknown(h),
        }
    } else if 0x80 <= op < 0x90 {
        match condition(op - 0x80) {
            Some(cond) => (
                reads(
                    Mnemonic::If(cond),
                    Width::Quad,
                    seq![Operand::Ahead(signed_four(h.rest))],
                ),
                behind(h.rest, 4),
            ),
            None => unknown(h),
        }
    } else if op == 0xA2 {
        alone(h, Mnemonic::Cpuid)
    } else if op == 0xAF {
        two_operands(h, Mnemonic::Imul, h.width(), true)
    } else if op == 0xB6 {
        let (place, rest) = target(h, Width::Byte);
        (
            reads(Mnemonic::Movzx, h.width(), seq![h.named(h.middle(), h.width()), place]),
            rest,
        )
    } else {
        unknown(h)
    }
}

/// A vector instruction, with its prefix.
#[verifier::opaque]
pub open spec fn decode_vector(h: Head) -> (Reading, Seq<u8>) {
    let op = h.opcode;
    let reg = Operand::Vector(vector(h.middle()));
    let (place, rest) = vector_target(h);
    if h.prefix == Some(0x66u8) {
        if op == 0x6E {
            let (word, more) = target(h, h.width());
            (reads(Mnemonic::Movq, h.width(), seq![reg, word]), more)
        } else if op == 0x7E {
            let (word, more) = target(h, h.width());
            (reads(Mnemonic::Movq, h.width(), seq![word, reg]), more)
        } else if op == 0x73 && h.extension() == 3 {
            (
                reads(Mnemonic::Psrldq, Width::Quad, seq![place, Operand::Number(rest[0] as int)]),
                behind(rest, 1),
            )
        } else {
            match packed_double(op) {
                Some(sse) => (reads(Mnemonic::Packed(sse), Width::Quad, seq![reg, place]), rest),
                None => unknown(h),
            }
        }
    } else if h.prefix == Some(0xF3u8) && op == 0x6F {
        (reads(Mnemonic::Movdqu, Width::Quad, seq![reg, place]), rest)
    } else if h.prefix == Some(0xF3u8) && op == 0x7F {
        (reads(Mnemonic::Movdqu, Width::Quad, seq![place, reg]), rest)
    } else {
        let width = if h.prefix == Some(0xF2u8) {
            FloatWidth::F64
        } else {
            FloatWidth::F32
        };
        if op == 0x10 {
            (reads(Mnemonic::Movs(width), Width::Quad, seq![reg, place]), rest)
        } else if op == 0x11 {
            (reads(Mnemonic::Movs(width), Width::Quad, seq![place, reg]), rest)
        } else {
            match scalar(op) {
                Some(op) => (
                    reads(Mnemonic::Packed(Sse::Scalar(width, op)), Width::Quad, seq![reg, place]),
                    rest,
                ),
                None => unknown(h),
            }
        }
    }
}

/// The instruction that bytes begin with, and what follows it.
pub open spec fn decode(bytes: Seq<u8>) -> (Reading, Seq<u8>) {
    let h = head(bytes);
    if h.map == 1 {
        if h.opcode < 0x40 {
            decode_arithmetic(h)
        } else if h.opcode < 0x90 {
            decode_middle(h)
        } else {
            decode_upper(h)
        }
    } else if h.map == 2 {
        if h.prefix is None {
            decode_escaped(h)
        } else {
            decode_vector(h)
        }
    } else if h.prefix == Some(0x66u8) && h.opcode == 0x37 {
        let (place, rest) = vector_target(h);
        (
            reads(
                Mnemonic::Packed(Sse::Pcmpgtq),
                Width::Quad,
                seq![Operand::Vector(vector(h.middle())), place],
            ),
            rest,
        )
    } else {
        unknown(h)
    }
}

// What is meant

/// The operation of an arithmetic instruction.
pub open spec fn meant(op: Alu) -> Mnemonic {
    match op {
        Alu::Add => Mnemonic::Add,
        Alu::Or => Mnemonic::Or,
        Alu::And => Mnemonic::And,
        Alu::Sub => Mnemonic::Sub,
        Alu::Xor => Mnemonic::Xor,
        Alu::Cmp => Mnemonic::Cmp,
    }
}

/// The operation of a one-operand instruction.
pub open spec fn meant_alone(op: Unary) -> Mnemonic {
    match op {
        Unary::Inc => Mnemonic::Inc,
        Unary::Dec => Mnemonic::Dec,
        Unary::Neg => Mnemonic::Neg,
        Unary::Div => Mnemonic::Div,
    }
}

/// The operation of a shift.
pub open spec fn meant_shift(op: Shift) -> Mnemonic {
    match op {
        Shift::Shl => Mnemonic::Shl,
        Shift::Shr => Mnemonic::Shr,
    }
}

/// The number that a displacement adds.
pub open spec fn added(disp: Disp) -> int {
    match disp {
        Disp::Zero => 0,
        Disp::Byte(d) => d as int,
        Disp::Minus(d) => -d,
        Disp::Long(d) => d as int,
        Disp::Below(d) => -d,
    }
}

/// The multiple of an index register that is added.
pub open spec fn times(scale: Scale) -> int {
    match scale {
        Scale::One => 1,
        Scale::Eight => 8,
    }
}

/// The memory that an operand names. What a symbol stands for is left to the linker, so it
/// reads as zero.
pub open spec fn memory(mem: Mem) -> Operand {
    match mem {
        Mem::Base { base, disp } => Operand::Memory {
            base: Some(base),
            index: None,
            disp: added(disp),
        },
        Mem::Indexed { base, index, scale, disp } => Operand::Memory {
            base: Some(base),
            index: Some((index, times(scale))),
            disp: added(disp),
        },
        Mem::Scaled { index, scale, disp } => Operand::Memory {
            base: None,
            index: Some((index, times(scale))),
            disp: disp as int,
        },
        Mem::Rip(_) => Operand::Beside(0),
    }
}

/// The register or the memory that an operand names.
pub open spec fn place(rm: Rm) -> Operand {
    match rm {
        Rm::Reg(reg) => Operand::Whole(reg),
        Rm::Mem(mem) => memory(mem),
    }
}

/// A constant of an instruction: one byte where the operand is a byte.
pub open spec fn constant(width: Width, imm: int) -> Operand {
    Operand::Number(
        if width == Width::Byte {
            imm % 256
        } else {
            imm
        },
    )
}

/// An instruction in assembly; `ahead` is how far behind its end a jump leads.
pub open spec fn assembly(insn: Insn, ahead: int) -> Reading {
    let quad = Width::Quad;
    match insn {
        Insn::Push(reg) => reads(Mnemonic::Push, quad, seq![Operand::Whole(reg)]),
        Insn::Pop(reg) => reads(Mnemonic::Pop, quad, seq![Operand::Whole(reg)]),
        Insn::Ret => reads(Mnemonic::Ret, quad, seq![]),
        Insn::Ud2 => reads(Mnemonic::Ud2, quad, seq![]),
        Insn::Int3 => reads(Mnemonic::Int3, quad, seq![]),
        Insn::Cpuid => reads(Mnemonic::Cpuid, quad, seq![]),
        Insn::Syscall => reads(Mnemonic::Syscall, quad, seq![]),
        Insn::RepMovsb => reads(Mnemonic::RepMovsb, quad, seq![]),
        Insn::Mov { width, rm, reg } => reads(
            Mnemonic::Mov,
            width,
            seq![place(rm), Operand::Whole(reg)],
        ),
        Insn::MovLoad { width, reg, mem } => reads(
            Mnemonic::Mov,
            width,
            seq![Operand::Whole(reg), memory(mem)],
        ),
        Insn::MovImm { width, rm, imm } => reads(
            Mnemonic::Mov,
            width,
            seq![place(rm), constant(width, imm as int)],
        ),
        Insn::MovImm16 { reg, imm } => reads(
            Mnemonic::Mov,
            Width::Word,
            seq![Operand::Whole(reg), Operand::Number(imm as int)],
        ),
        Insn::MovImm32 { reg, imm } => reads(
            Mnemonic::Mov,
            Width::Long,
            seq![Operand::Whole(reg), Operand::Number(imm as int)],
        ),
        Insn::MovImm64 { reg, imm } => reads(
            Mnemonic::Mov,
            quad,
            seq![Operand::Whole(reg), Operand::Number(imm as int)],
        ),
        Insn::Movzx { reg, rm } => reads(
            Mnemonic::Movzx,
            Width::Long,
            seq![Operand::Whole(reg), place(rm)],
        ),
        Insn::Lea { width, reg, mem } => reads(
            Mnemonic::Lea,
            width,
            seq![Operand::Whole(reg), memory(mem)],
        ),
        Insn::Alu { op, width, rm, reg } => reads(
            meant(op),
            width,
            seq![place(rm), Operand::Whole(reg)],
        ),
        Insn::AluLoad { op, width, reg, mem } => reads(
            meant(op),
            width,
            seq![Operand::Whole(reg), memory(mem)],
        ),
        Insn::AluImm8 { op, width, rm, imm } => reads(
            meant(op),
            width,
            seq![
                place(rm),
                Operand::Number(
                    if width == Width::Byte {
                        imm as int
                    } else {
                        signed_byte(imm)
                    },
                ),
            ],
        ),
        Insn::AluImm32 { op, width, rm, imm } => reads(
            meant(op),
            width,
            seq![place(rm), Operand::Number(imm as int)],
        ),
        Insn::AluAcc { op, width, imm } => reads(
            meant(op),
            width,
            seq![Operand::Whole(Reg::Rax), constant(width, imm as int)],
        ),
        Insn::Test { width, rm, reg } => reads(
            Mnemonic::Test,
            width,
            seq![place(rm), Operand::Whole(reg)],
        ),
        Insn::TestImm { width, rm, imm } => reads(
            Mnemonic::Test,
            width,
            seq![place(rm), Operand::Number(imm as int)],
        ),
        Insn::TestAcc { imm } => reads(
            Mnemonic::Test,
            Width::Long,
            seq![Operand::Whole(Reg::Rax), Operand::Number(imm as int)],
        ),
        Insn::Unary { op, rm } => reads(meant_alone(op), quad, seq![place(rm)]),
        Insn::Imul { reg, rm } => reads(
            Mnemonic::Imul,
            quad,
            seq![Operand::Whole(reg), place(rm)],
        ),
        Insn::ImulImm8 { reg, rm, imm } => reads(
            Mnemonic::Imul,
            quad,
            seq![Operand::Whole(reg), place(rm), Operand::Number(signed_byte(imm))],
        ),
        Insn::ImulImm32 { reg, rm, imm } => reads(
            Mnemonic::Imul,
            quad,
            seq![Operand::Whole(reg), place(rm), Operand::Number(imm as int)],
        ),
        Insn::ShiftImm { op, width, rm, amount } => reads(
            meant_shift(op),
            width,
            seq![place(rm), Operand::Number(amount as int)],
        ),
        Insn::ShiftOne { op, rm } => reads(
            meant_shift(op),
            quad,
            seq![place(rm), Operand::Number(1)],
        ),
        Insn::Cmov { cond, reg, rm } => reads(
            Mnemonic::Cmov(cond),
            quad,
            seq![Operand::Whole(reg), place(rm)],
        ),
        Insn::Jmp { .. } => reads(Mnemonic::JmpNear, quad, seq![Operand::Ahead(ahead)]),
        Insn::Jcc { cond, .. } => reads(Mnemonic::If(cond), quad, seq![Operand::Ahead(ahead)]),
        Insn::Call(_) => reads(Mnemonic::CallNear, quad, seq![Operand::Ahead(0)]),
        Insn::JmpSymbol(_) => reads(Mnemonic::JmpNear, quad, seq![Operand::Ahead(0)]),
        Insn::CallReg(reg) => reads(Mnemonic::CallNear, quad, seq![Operand::Whole(reg)]),
        Insn::SseRr { op, dst, src } => reads(
            Mnemonic::Packed(op),
            quad,
            seq![Operand::Vector(dst), Operand::Vector(src)],
        ),
        Insn::MovqFromXmm { dst, src } => reads(
            Mnemonic::Movq,
            quad,
            seq![Operand::Whole(dst), Operand::Vector(src)],
        ),
        Insn::MovqToXmm { dst, src } => reads(
            Mnemonic::Movq,
            quad,
            seq![Operand::Vector(dst), Operand::Whole(src)],
        ),
        Insn::Psrldq { xmm, amount } => reads(
            Mnemonic::Psrldq,
            quad,
            seq![Operand::Vector(xmm), Operand::Number(amount as int)],
        ),
        Insn::MovdquLoad { xmm, mem } => reads(
            Mnemonic::Movdqu,
            quad,
            seq![Operand::Vector(xmm), memory(mem)],
        ),
        Insn::MovdquStore { mem, xmm } => reads(
            Mnemonic::Movdqu,
            quad,
            seq![memory(mem), Operand::Vector(xmm)],
        ),
        Insn::MovsLoad { width, xmm, mem } => reads(
            Mnemonic::Movs(width),
            quad,
            seq![Operand::Vector(xmm), memory(mem)],
        ),
        Insn::MovsStore { width, mem, xmm } => reads(
            Mnemonic::Movs(width),
            quad,
            seq![memory(mem), Operand::Vector(xmm)],
        ),
    }
}

// What can be encoded

/// Whether a memory operand can be encoded: its displacement fits in its field, and its index
/// is not the stack pointer, which has no encoding as one.
pub open spec fn sound_memory(mem: Mem) -> bool {
    match mem {
        Mem::Base { disp, .. } => sound_displacement(disp),
        Mem::Indexed { index, disp, .. } => index != Reg::Rsp && sound_displacement(disp),
        Mem::Scaled { index, .. } => index != Reg::Rsp,
        Mem::Rip(_) => true,
    }
}

/// Whether a displacement fits in its field.
pub open spec fn sound_displacement(disp: Disp) -> bool {
    match disp {
        Disp::Minus(d) => d <= 128,
        Disp::Below(d) => d != i32::MIN,
        _ => true,
    }
}

/// Whether a register has this width: the low bytes of the stack pointer, the frame pointer and
/// the two registers of string instructions are not used.
pub open spec fn sound_register(reg: Reg, width: Width) -> bool {
    width == Width::Byte ==> reg != Reg::Rsp && reg != Reg::Rbp && reg != Reg::Rsi && reg
        != Reg::Rdi
}

/// Whether an operand of this width can be encoded.
pub open spec fn sound_place(rm: Rm, width: Width) -> bool {
    match rm {
        Rm::Reg(reg) => sound_register(reg, width),
        Rm::Mem(mem) => sound_memory(mem),
    }
}

/// Whether an instruction can be encoded: its operands can, and it exists at its width.
#[verifier::opaque]
pub open spec fn sound(insn: Insn) -> bool {
    let quad = Width::Quad;
    match insn {
        Insn::Mov { width, rm, reg } => sound_place(rm, width) && sound_register(reg, width),
        Insn::MovLoad { width, reg, mem } => sound_memory(mem) && sound_register(reg, width),
        Insn::MovImm { width, rm, .. } => width != Width::Word && sound_place(rm, width),
        Insn::Movzx { rm, .. } => sound_place(rm, Width::Byte),
        Insn::Lea { width, mem, .. } => width != Width::Byte && sound_memory(mem),
        Insn::Alu { width, rm, reg, .. } => sound_place(rm, width) && sound_register(reg, width),
        Insn::AluLoad { width, reg, mem, .. } => sound_memory(mem) && sound_register(reg, width),
        Insn::AluImm8 { width, rm, .. } => sound_place(rm, width),
        Insn::AluImm32 { width, rm, .. } => (width == Width::Long || width == quad)
            && sound_place(rm, width),
        Insn::AluAcc { width, .. } => width != Width::Word,
        Insn::Test { width, rm, reg } => sound_place(rm, width) && sound_register(reg, width),
        Insn::TestImm { width, rm, .. } => (width == Width::Long || width == quad)
            && sound_place(rm, width),
        Insn::Unary { rm, .. } => sound_place(rm, quad),
        Insn::Imul { rm, .. } => sound_place(rm, quad),
        Insn::ImulImm8 { rm, .. } => sound_place(rm, quad),
        Insn::ImulImm32 { rm, .. } => sound_place(rm, quad),
        Insn::ShiftImm { width, rm, .. } => width != Width::Byte && sound_place(rm, width),
        Insn::ShiftOne { rm, .. } => sound_place(rm, quad),
        Insn::Cmov { rm, .. } => sound_place(rm, quad),
        Insn::MovdquLoad { mem, .. } => sound_memory(mem),
        Insn::MovdquStore { mem, .. } => sound_memory(mem),
        Insn::MovsLoad { mem, .. } => sound_memory(mem),
        Insn::MovsStore { mem, .. } => sound_memory(mem),
        _ => true,
    }
}

// Reading back

/// Registers are told apart by their numbers.
proof fn lemma_registers(reg: Reg)
    ensures
        0 <= reg.index() < 16,
        register(reg.index()) == reg,
        reg.index() % 8 + 8 * (reg.index() / 8) == reg.index(),
{
}

proof fn lemma_vectors(xmm: Xmm)
    ensures
        0 <= xmm.index() < 4,
        vector(xmm.index()) == xmm,
{
}

/// Conditions are told apart by their numbers.
pub proof fn lemma_conditions(cond: Cond)
    ensures
        0 <= cond.code() < 16,
        condition(cond.code()) == Some(cond),
{
}

/// The three fields of a ModRM or SIB byte.
proof fn lemma_modrm(mode: int, middle: int, low: int)
    requires
        0 <= mode < 4,
    ensures
        modrm(mode, middle, low) as int / 64 == mode,
        (modrm(mode, middle, low) as int / 8) % 8 == middle % 8,
        modrm(mode, middle, low) as int % 8 == low % 8,
{
}

/// The bits of a REX prefix.
pub open spec fn rex_bits(wide: bool, reg: int, index: int, base: int) -> int {
    (if wide {
        8int
    } else {
        0int
    }) + 4 * (reg / 8) + 2 * (index / 8) + base / 8
}

proof fn lemma_rex_bits(wide: bool, reg: int, index: int, base: int)
    requires
        0 <= reg < 16,
        0 <= index < 16,
        0 <= base < 16,
    ensures
        ({
            let bits = rex_bits(wide, reg, index, base);
            &&& 0 <= bits < 16
            &&& (bits / 8 == 1) == wide
            &&& bits / 4 % 2 == reg / 8
            &&& bits / 2 % 2 == index / 8
            &&& bits % 2 == base / 8
        }),
{
    let (r, x, b) = (reg / 8, index / 8, base / 8);
    assert(0 <= r <= 1 && 0 <= x <= 1 && 0 <= b <= 1);
}

/// The head of an instruction in the general form.
pub open spec fn form_head(
    prefix: Option<u8>,
    wide: bool,
    opcode: Opcode,
    reg: int,
    index: int,
    base: int,
    rest: Seq<u8>,
) -> Head {
    let bits = rex_bits(wide, reg, index, base);
    Head {
        prefix,
        rex: if bits == 0 {
            None
        } else {
            Some(bits)
        },
        map: match opcode {
            Opcode::One(_) => 1,
            Opcode::Two(_) => 2,
        },
        opcode: match opcode {
            Opcode::One(byte) => byte as int,
            Opcode::Two(byte) => byte as int,
        },
        rest,
    }
}

proof fn lemma_head(
    prefix: Option<u8>,
    wide: bool,
    opcode: Opcode,
    reg: int,
    index: int,
    base: int,
    rest: Seq<u8>,
)
    requires
        0 <= reg < 16,
        0 <= index < 16,
        0 <= base < 16,
        prefix matches Some(byte) ==> byte == 0x66 || byte == 0xF2 || byte == 0xF3,
        match opcode {
            Opcode::One(byte) => byte != 0x0F && !(0x40 <= byte < 0x50) && byte != 0x66 && byte
                != 0xF2 && byte != 0xF3,
            Opcode::Two(byte) => byte != 0x38,
        },
    ensures
        head(optional_byte(prefix) + rex(wide, reg, index, base) + opcode.field() + rest)
            == form_head(prefix, wide, opcode, reg, index, base, rest),
{
    reveal(head);
    lemma_rex_bits(wide, reg, index, base);
    let bytes = optional_byte(prefix) + rex(wide, reg, index, base) + opcode.field() + rest;
    let after = rex(wide, reg, index, base) + opcode.field() + rest;
    let last = opcode.field() + rest;
    match prefix {
        Some(byte) => {
            assert(bytes[0] == byte);
            assert(behind(bytes, 1) =~= after);
        },
        None => {
            assert(bytes =~= after);
        },
    }
    if rex_bits(wide, reg, index, base) == 0 {
        assert(after =~= last);
    } else {
        assert(behind(after, 1) =~= last);
    }
    match opcode {
        Opcode::One(byte) => {
            assert(last[0] == byte);
            assert(behind(last, 1) =~= rest);
        },
        Opcode::Two(byte) => {
            assert(last[0] == 0x0F && last[1] == byte);
            assert(behind(last, 2) =~= rest);
        },
    }
}

/// A signed number of four bytes reads back.
pub proof fn lemma_signed_four(value: int, rest: Seq<u8>)
    requires
        -0x8000_0000 <= value < 0x8000_0000,
    ensures
        signed_four(le32(value) + rest) == value,
        behind(le32(value) + rest, 4) == rest,
{
    let bytes = le32(value) + rest;
    law_le32_signed_reads_back(value);
    assert(bytes[0] == le32(value)[0]);
    assert(bytes[1] == le32(value)[1]);
    assert(bytes[2] == le32(value)[2]);
    assert(bytes[3] == le32(value)[3]);
    assert(four(bytes) == read_le32(le32(value), 0));
    assert(behind(bytes, 4) =~= rest);
}

proof fn lemma_four(value: int, rest: Seq<u8>)
    ensures
        four(le32(value) + rest) == value % 0x1_0000_0000,
{
    let low = value % 0x1_0000_0000;
    lemma_le32_periodic(low, value / 0x1_0000_0000);
    assert(low + value / 0x1_0000_0000 * 0x1_0000_0000 == value);
    law_le32_reads_back(low);
    let bytes = le32(low) + rest;
    assert(bytes[0] == le32(low)[0]);
    assert(bytes[1] == le32(low)[1]);
    assert(bytes[2] == le32(low)[2]);
    assert(bytes[3] == le32(low)[3]);
}

proof fn lemma_signed_eight(value: int, rest: Seq<u8>)
    requires
        -0x8000_0000_0000_0000 <= value < 0x8000_0000_0000_0000,
    ensures
        signed_eight(le64(value) + rest) == value,
        behind(le64(value) + rest, 8) == rest,
{
    let bytes = le64(value) + rest;
    let high = value / 0x1_0000_0000;
    lemma_signed_four(high, rest);
    assert(bytes.skip(4) =~= le32(high) + rest);
    assert(bytes =~= le32(value) + (le32(high) + rest));
    lemma_four(value, le32(high) + rest);
    assert(behind(bytes, 8) =~= rest);
}

proof fn lemma_displaced(disp: Disp, rest: Seq<u8>)
    requires
        sound_displacement(disp),
    ensures
        displaced(disp.mode(), disp.field() + rest) == (added(disp), rest),
{
    let bytes = disp.field() + rest;
    match disp {
        Disp::Zero => {
            assert(bytes =~= rest);
        },
        Disp::Byte(d) => {
            assert(bytes[0] == low_byte(d as int));
            assert(behind(bytes, 1) =~= rest);
        },
        Disp::Minus(d) => {
            assert(bytes[0] == low_byte(-d));
            assert(behind(bytes, 1) =~= rest);
        },
        Disp::Long(d) => lemma_signed_four(d as int, rest),
        Disp::Below(d) => lemma_signed_four(-d, rest),
    }
}

/// A memory operand reads back.
#[verifier::rlimit(40)]
proof fn lemma_memory(h: Head, mem: Mem, reg: int, width: Width, rest: Seq<u8>)
    requires
        sound_memory(mem),
        h.rest == mem.operand(reg) + rest,
        h.bits() / 2 % 2 == mem.index_number() / 8,
        h.bits() % 2 == mem.base_number() / 8,
    ensures
        target(h, width) == (memory(mem), rest),
        h.extension() == reg % 8,
        h.rest[0] as int / 64 != 3,
{
    reveal(target);
    reveal(Head::extension);
    let bytes = h.rest;
    match mem {
        Mem::Base { base, disp } => {
            lemma_registers(base);
            if base.index() % 8 == 4 {
                lemma_modrm(disp.mode(), reg, 4);
                lemma_modrm(0, 4, 4);
                lemma_displaced(disp, rest);
                assert(bytes[0] == modrm(disp.mode(), reg, 4));
                assert(bytes[1] == modrm(0, 4, 4));
                assert(behind(bytes, 2) =~= disp.field() + rest);
            } else {
                let shown = encodable(base, disp);
                lemma_modrm(shown.mode(), reg, base.index());
                lemma_displaced(shown, rest);
                assert(bytes[0] == modrm(shown.mode(), reg, base.index()));
                assert(behind(bytes, 1) =~= shown.field() + rest);
            }
        },
        Mem::Indexed { base, index, scale, disp } => {
            lemma_registers(base);
            lemma_registers(index);
            let shown = encodable(base, disp);
            lemma_modrm(shown.mode(), reg, 4);
            lemma_modrm(scale.bits(), index.index(), base.index());
            lemma_displaced(shown, rest);
            assert(bytes[0] == modrm(shown.mode(), reg, 4));
            assert(bytes[1] == modrm(scale.bits(), index.index(), base.index()));
            assert(behind(bytes, 2) =~= shown.field() + rest);
        },
        Mem::Scaled { index, scale, disp } => {
            lemma_registers(index);
            lemma_modrm(0, reg, 4);
            lemma_modrm(scale.bits(), index.index(), 5);
            lemma_signed_four(disp as int, rest);
            assert(bytes[0] == modrm(0, reg, 4));
            assert(bytes[1] == modrm(scale.bits(), index.index(), 5));
            assert(behind(bytes, 2) =~= le32(disp as int) + rest);
        },
        Mem::Rip(_) => {
            lemma_modrm(0, reg, 5);
            lemma_signed_four(0, rest);
            assert(le32(0) =~= seq![0u8, 0u8, 0u8, 0u8]);
            assert(bytes[0] == modrm(0, reg, 5));
            assert(behind(bytes, 1) =~= le32(0) + rest);
        },
    }
}

/// An operand reads back.
proof fn lemma_target(h: Head, rm: Rm, reg: int, width: Width, rest: Seq<u8>)
    requires
        sound_place(rm, width),
        h.rest == rm.operand(reg) + rest,
        h.bits() / 2 % 2 == rm.index_number() / 8,
        h.bits() % 2 == rm.base_number() / 8,
    ensures
        target(h, width) == (place(rm), rest),
        h.extension() == reg % 8,
{
    match rm {
        Rm::Reg(r) => {
            reveal(target);
            reveal(Head::extension);
            lemma_registers(r);
            lemma_modrm(3, reg, r.index());
            assert(h.rest[0] == modrm(3, reg, r.index()));
            assert(behind(h.rest, 1) =~= rest);
        },
        Rm::Mem(mem) => lemma_memory(h, mem, reg, width, rest),
    }
}

/// The general form reads back: its head, its operand, and the register or extension beside it.
proof fn lemma_form(
    prefix: Option<u8>,
    wide: bool,
    opcode: Opcode,
    reg: int,
    rm: Rm,
    width: Width,
    rest: Seq<u8>,
) -> (h: Head)
    requires
        0 <= reg < 16,
        sound_place(rm, width),
        prefix matches Some(byte) ==> byte == 0x66 || byte == 0xF2 || byte == 0xF3,
        match opcode {
            Opcode::One(byte) => byte != 0x0F && !(0x40 <= byte < 0x50) && byte != 0x66 && byte
                != 0xF2 && byte != 0xF3,
            Opcode::Two(byte) => byte != 0x38,
        },
    ensures
        h == head(rm_form(prefix, wide, opcode, reg, rm) + rest),
        h.prefix == prefix,
        h.wide() == wide,
        h.map == match opcode {
            Opcode::One(_) => 1int,
            Opcode::Two(_) => 2int,
        },
        h.opcode == match opcode {
            Opcode::One(byte) => byte as int,
            Opcode::Two(byte) => byte as int,
        },
        h.middle() == reg,
        h.extension() == reg % 8,
        target(h, width) == (place(rm), rest),
        rm is Mem ==> h.rest[0] as int / 64 != 3,
        rm is Mem ==> target(h, Width::Quad) == (place(rm), rest),
{
    reveal(rm_form);
    reveal(Head::wide);
    reveal(Head::middle);
    reveal(Head::extension);
    let (index, base) = (rm.index_number(), rm.base_number());
    match rm {
        Rm::Reg(r) => lemma_registers(r),
        Rm::Mem(Mem::Base { base, .. }) => lemma_registers(base),
        Rm::Mem(Mem::Indexed { base, index, .. }) => {
            lemma_registers(base);
            lemma_registers(index);
        },
        Rm::Mem(Mem::Scaled { index, .. }) => lemma_registers(index),
        _ => {},
    }
    let more = rm.operand(reg) + rest;
    lemma_rex_bits(wide, reg, index, base);
    lemma_head(prefix, wide, opcode, reg, index, base, more);
    assert(rm_form(prefix, wide, opcode, reg, rm) + rest =~= optional_byte(prefix) + rex(
        wide,
        reg,
        index,
        base,
    ) + opcode.field() + more);
    let h = head(rm_form(prefix, wide, opcode, reg, rm) + rest);
    lemma_target(h, rm, reg, width, rest);
    if let Rm::Mem(mem) = rm {
        lemma_memory(h, mem, reg, Width::Quad, rest);
    }
    h
}

/// Whether the bytes of an instruction read back as it.
#[verifier::opaque]
pub open spec fn reads_back(insn: Insn, rest: Seq<u8>) -> bool {
    decode(insn.encoding() + rest) == (assembly(insn, 0), rest)
}

/// An instruction whose operands are in its opcode.
pub proof fn lemma_bare(
    prefix: Option<u8>,
    wide: bool,
    opcode: Opcode,
    base: int,
    bytes: Seq<u8>,
    rest: Seq<u8>,
) -> (h: Head)
    requires
        0 <= base < 16,
        prefix matches Some(byte) ==> byte == 0x66 || byte == 0xF2 || byte == 0xF3,
        match opcode {
            Opcode::One(byte) => byte != 0x0F && !(0x40 <= byte < 0x50) && byte != 0x66 && byte
                != 0xF2 && byte != 0xF3,
            Opcode::Two(byte) => byte != 0x38,
        },
        bytes == optional_byte(prefix) + rex(wide, 0, 0, base) + opcode.field() + rest,
    ensures
        h == head(bytes),
        h.prefix == prefix,
        h.wide() == wide,
        h.map == match opcode {
            Opcode::One(_) => 1int,
            Opcode::Two(_) => 2int,
        },
        h.opcode == match opcode {
            Opcode::One(byte) => byte as int,
            Opcode::Two(byte) => byte as int,
        },
        h.bits() % 2 == base / 8,
        h.bits() / 4 % 2 == 0,
        h.rest == rest,
{
    reveal(Head::wide);
    lemma_rex_bits(wide, 0, 0, base);
    lemma_head(prefix, wide, opcode, 0, 0, base, rest);
    head(bytes)
}

proof fn lemma_reads_mov(width: Width, rm: Rm, reg: Reg, rest: Seq<u8>)
    requires
        sound(Insn::Mov { width, rm, reg }),
    ensures
        reads_back(Insn::Mov { width, rm, reg }, rest),
{
    reveal(reads_back);
    reveal(sound);
    reveal(decode_middle);
    let insn = Insn::Mov { width, rm, reg };
    let bytes = insn.encoding() + rest;
    lemma_registers(reg);
    lemma_form(size_prefix(width), width == Width::Quad, Opcode::One(sized(0x88, width)),
        reg.index(), rm, width, rest);
    assert(decode(bytes).0.operands =~= assembly(insn, 0).operands);
}

proof fn lemma_reads_load(width: Width, reg: Reg, mem: Mem, rest: Seq<u8>)
    requires
        sound(Insn::MovLoad { width, reg, mem }),
    ensures
        reads_back(Insn::MovLoad { width, reg, mem }, rest),
{
    reveal(reads_back);
    reveal(sound);
    reveal(decode_middle);
    let insn = Insn::MovLoad { width, reg, mem };
    let bytes = insn.encoding() + rest;
    lemma_registers(reg);
    lemma_form(size_prefix(width), width == Width::Quad, Opcode::One(sized(0x8A, width)),
        reg.index(), Rm::Mem(mem), width, rest);
    assert(decode(bytes).0.operands =~= assembly(insn, 0).operands);
}

proof fn lemma_reads_mov_imm(width: Width, rm: Rm, imm: i32, rest: Seq<u8>)
    requires
        sound(Insn::MovImm { width, rm, imm }),
    ensures
        reads_back(Insn::MovImm { width, rm, imm }, rest),
{
    reveal(reads_back);
    reveal(sound);
    reveal(decode_upper);
    let insn = Insn::MovImm { width, rm, imm };
    let bytes = insn.encoding() + rest;
    let field = if width == Width::Byte {
        seq![low_byte(imm as int)]
    } else {
        le32(imm as int)
    };
    lemma_form(size_prefix(width), width == Width::Quad, Opcode::One(sized(0xC6, width)), 0, rm,
        width, field + rest);
    assert(bytes =~= rm_form(size_prefix(width), width == Width::Quad,
        Opcode::One(sized(0xC6, width)), 0, rm) + (field + rest));
    lemma_signed_four(imm as int, rest);
    assert((field + rest)[0] == field[0]);
    assert(width == Width::Byte ==> behind(field + rest, 1) =~= rest);
    assert(decode(bytes).0.operands =~= assembly(insn, 0).operands);
}

proof fn lemma_reads_movzx(reg: Reg, rm: Rm, rest: Seq<u8>)
    requires
        sound(Insn::Movzx { reg, rm }),
    ensures
        reads_back(Insn::Movzx { reg, rm }, rest),
{
    reveal(reads_back);
    reveal(sound);
    reveal(decode_escaped);
    let insn = Insn::Movzx { reg, rm };
    let bytes = insn.encoding() + rest;
    lemma_registers(reg);
    lemma_form(None, false, Opcode::Two(0xB6), reg.index(), rm, Width::Byte, rest);
    assert(decode(bytes).0.operands =~= assembly(insn, 0).operands);
}

proof fn lemma_reads_lea(width: Width, reg: Reg, mem: Mem, rest: Seq<u8>)
    requires
        sound(Insn::Lea { width, reg, mem }),
    ensures
        reads_back(Insn::Lea { width, reg, mem }, rest),
{
    reveal(reads_back);
    reveal(sound);
    reveal(decode_middle);
    let insn = Insn::Lea { width, reg, mem };
    let bytes = insn.encoding() + rest;
    lemma_registers(reg);
    lemma_form(size_prefix(width), width == Width::Quad, Opcode::One(0x8D), reg.index(),
        Rm::Mem(mem), width, rest);
    assert(decode(bytes).0.operands =~= assembly(insn, 0).operands);
}

proof fn lemma_reads_alu(op: Alu, width: Width, rm: Rm, reg: Reg, rest: Seq<u8>)
    requires
        sound(Insn::Alu { op, width, rm, reg }),
    ensures
        reads_back(Insn::Alu { op, width, rm, reg }, rest),
{
    reveal(reads_back);
    reveal(sound);
    reveal(decode_arithmetic);
    let insn = Insn::Alu { op, width, rm, reg };
    let bytes = insn.encoding() + rest;
    lemma_registers(reg);
    lemma_form(size_prefix(width), width == Width::Quad, Opcode::One(sized(8 * op.ext(), width)),
        reg.index(), rm, width, rest);
    assert(decode(bytes).0.operands =~= assembly(insn, 0).operands);
}

proof fn lemma_reads_alu_load(op: Alu, width: Width, reg: Reg, mem: Mem, rest: Seq<u8>)
    requires
        sound(Insn::AluLoad { op, width, reg, mem }),
    ensures
        reads_back(Insn::AluLoad { op, width, reg, mem }, rest),
{
    reveal(reads_back);
    reveal(sound);
    reveal(decode_arithmetic);
    let insn = Insn::AluLoad { op, width, reg, mem };
    let bytes = insn.encoding() + rest;
    lemma_registers(reg);
    lemma_form(size_prefix(width), width == Width::Quad,
        Opcode::One(sized(8 * op.ext() + 2, width)), reg.index(), Rm::Mem(mem), width, rest);
    assert(decode(bytes).0.operands =~= assembly(insn, 0).operands);
}

proof fn lemma_reads_alu_acc(op: Alu, width: Width, imm: i32, rest: Seq<u8>)
    requires
        sound(Insn::AluAcc { op, width, imm }),
    ensures
        reads_back(Insn::AluAcc { op, width, imm }, rest),
{
    reveal(reads_back);
    reveal(sound);
    reveal(decode_arithmetic);
    let insn = Insn::AluAcc { op, width, imm };
    let bytes = insn.encoding() + rest;
    let field = if width == Width::Byte {
        seq![low_byte(imm as int)]
    } else {
        le32(imm as int)
    };
    let opcode = Opcode::One(sized(8 * op.ext() + 4, width));
    assert(bytes =~= optional_byte(size_prefix(width)) + rex(width == Width::Quad, 0, 0,
        0) + opcode.field() + (field + rest));
    lemma_bare(size_prefix(width), width == Width::Quad, opcode, 0, bytes, field + rest);
    lemma_signed_four(imm as int, rest);
    assert((field + rest)[0] == field[0]);
    assert(width == Width::Byte ==> behind(field + rest, 1) =~= rest);
    assert(decode(bytes).0.operands =~= assembly(insn, 0).operands);
}

proof fn lemma_reads_alu_imm8(op: Alu, width: Width, rm: Rm, imm: u8, rest: Seq<u8>)
    requires
        sound(Insn::AluImm8 { op, width, rm, imm }),
    ensures
        reads_back(Insn::AluImm8 { op, width, rm, imm }, rest),
{
    reveal(reads_back);
    reveal(sound);
    reveal(decode_middle);
    let insn = Insn::AluImm8 { op, width, rm, imm };
    let bytes = insn.encoding() + rest;
    let opcode = Opcode::One(
        if width == Width::Byte {
            0x80
        } else {
            0x83
        },
    );
    let field = seq![imm];
    lemma_form(size_prefix(width), width == Width::Quad, opcode, op.ext(), rm, width, field + rest);
    assert(bytes =~= rm_form(size_prefix(width), width == Width::Quad, opcode, op.ext(),
        rm) + (field + rest));
    assert((field + rest)[0] == field[0]);
    assert(behind(field + rest, 1) =~= rest);
    assert(decode(bytes).0.operands =~= assembly(insn, 0).operands);
}

proof fn lemma_reads_alu_imm32(op: Alu, width: Width, rm: Rm, imm: i32, rest: Seq<u8>)
    requires
        sound(Insn::AluImm32 { op, width, rm, imm }),
    ensures
        reads_back(Insn::AluImm32 { op, width, rm, imm }, rest),
{
    reveal(reads_back);
    reveal(sound);
    reveal(decode_middle);
    let insn = Insn::AluImm32 { op, width, rm, imm };
    let bytes = insn.encoding() + rest;
    let field = le32(imm as int);
    lemma_form(size_prefix(width), width == Width::Quad, Opcode::One(0x81), op.ext(), rm, width,
        field + rest);
    assert(bytes =~= rm_form(size_prefix(width), width == Width::Quad, Opcode::One(0x81),
        op.ext(), rm) + (field + rest));
    lemma_signed_four(imm as int, rest);
    assert(decode(bytes).0.operands =~= assembly(insn, 0).operands);
}

proof fn lemma_reads_test(width: Width, rm: Rm, reg: Reg, rest: Seq<u8>)
    requires
        sound(Insn::Test { width, rm, reg }),
    ensures
        reads_back(Insn::Test { width, rm, reg }, rest),
{
    reveal(reads_back);
    reveal(sound);
    reveal(decode_middle);
    let insn = Insn::Test { width, rm, reg };
    let bytes = insn.encoding() + rest;
    lemma_registers(reg);
    lemma_form(size_prefix(width), width == Width::Quad, Opcode::One(sized(0x84, width)),
        reg.index(), rm, width, rest);
    assert(decode(bytes).0.operands =~= assembly(insn, 0).operands);
}

proof fn lemma_reads_test_imm(width: Width, rm: Rm, imm: i32, rest: Seq<u8>)
    requires
        sound(Insn::TestImm { width, rm, imm }),
    ensures
        reads_back(Insn::TestImm { width, rm, imm }, rest),
{
    reveal(reads_back);
    reveal(sound);
    reveal(decode_upper);
    let insn = Insn::TestImm { width, rm, imm };
    let bytes = insn.encoding() + rest;
    let field = le32(imm as int);
    lemma_form(size_prefix(width), width == Width::Quad, Opcode::One(0xF7), 0, rm, width,
        field + rest);
    assert(bytes =~= rm_form(size_prefix(width), width == Width::Quad, Opcode::One(0xF7), 0,
        rm) + (field + rest));
    lemma_signed_four(imm as int, rest);
    assert(decode(bytes).0.operands =~= assembly(insn, 0).operands);
}

proof fn lemma_reads_test_acc(imm: i32, rest: Seq<u8>)
    ensures
        reads_back(Insn::TestAcc { imm }, rest),
{
    reveal(reads_back);
    reveal(decode_upper);
    let insn = Insn::TestAcc { imm };
    let bytes = insn.encoding() + rest;
    let field = le32(imm as int);
    assert(bytes =~= optional_byte(None) + rex(false, 0, 0,
        0) + Opcode::One(0xA9).field() + (field + rest));
    lemma_bare(None, false, Opcode::One(0xA9), 0, bytes, field + rest);
    lemma_signed_four(imm as int, rest);
    assert(decode(bytes).0.operands =~= assembly(insn, 0).operands);
}

proof fn lemma_reads_unary(op: Unary, rm: Rm, rest: Seq<u8>)
    requires
        sound(Insn::Unary { op, rm }),
    ensures
        reads_back(Insn::Unary { op, rm }, rest),
{
    reveal(reads_back);
    reveal(sound);
    reveal(decode_upper);
    let insn = Insn::Unary { op, rm };
    let bytes = insn.encoding() + rest;
    lemma_form(None, true, Opcode::One(op.opcode().0), op.opcode().1, rm, Width::Quad, rest);
    assert(decode(bytes).0.operands =~= assembly(insn, 0).operands);
}

proof fn lemma_reads_call_reg(reg: Reg, rest: Seq<u8>)
    ensures
        reads_back(Insn::CallReg(reg), rest),
{
    reveal(reads_back);
    reveal(decode_upper);
    let insn = Insn::CallReg(reg);
    let bytes = insn.encoding() + rest;
    lemma_form(None, false, Opcode::One(0xFF), 2, Rm::Reg(reg), Width::Quad, rest);
    assert(decode(bytes).0.operands =~= assembly(insn, 0).operands);
}

proof fn lemma_reads_imul(reg: Reg, rm: Rm, rest: Seq<u8>)
    requires
        sound(Insn::Imul { reg, rm }),
    ensures
        reads_back(Insn::Imul { reg, rm }, rest),
{
    reveal(reads_back);
    reveal(sound);
    reveal(decode_escaped);
    let insn = Insn::Imul { reg, rm };
    let bytes = insn.encoding() + rest;
    lemma_registers(reg);
    lemma_form(None, true, Opcode::Two(0xAF), reg.index(), rm, Width::Quad, rest);
    assert(decode(bytes).0.operands =~= assembly(insn, 0).operands);
}

proof fn lemma_reads_imul_imm8(reg: Reg, rm: Rm, imm: u8, rest: Seq<u8>)
    requires
        sound(Insn::ImulImm8 { reg, rm, imm }),
    ensures
        reads_back(Insn::ImulImm8 { reg, rm, imm }, rest),
{
    reveal(reads_back);
    reveal(sound);
    reveal(decode_middle);
    let insn = Insn::ImulImm8 { reg, rm, imm };
    let bytes = insn.encoding() + rest;
    lemma_registers(reg);
    let field = seq![imm];
    lemma_form(None, true, Opcode::One(0x6B), reg.index(), rm, Width::Quad, field + rest);
    assert(bytes =~= rm_form(None, true, Opcode::One(0x6B), reg.index(), rm) + (field + rest));
    assert((field + rest)[0] == field[0]);
    assert(behind(field + rest, 1) =~= rest);
    assert(decode(bytes).0.operands =~= assembly(insn, 0).operands);
}

proof fn lemma_reads_imul_imm32(reg: Reg, rm: Rm, imm: i32, rest: Seq<u8>)
    requires
        sound(Insn::ImulImm32 { reg, rm, imm }),
    ensures
        reads_back(Insn::ImulImm32 { reg, rm, imm }, rest),
{
    reveal(reads_back);
    reveal(sound);
    reveal(decode_middle);
    let insn = Insn::ImulImm32 { reg, rm, imm };
    let bytes = insn.encoding() + rest;
    lemma_registers(reg);
    let field = le32(imm as int);
    lemma_form(None, true, Opcode::One(0x69), reg.index(), rm, Width::Quad, field + rest);
    assert(bytes =~= rm_form(None, true, Opcode::One(0x69), reg.index(), rm) + (field + rest));
    lemma_signed_four(imm as int, rest);
    assert(decode(bytes).0.operands =~= assembly(insn, 0).operands);
}

proof fn lemma_reads_shift_imm(op: Shift, width: Width, rm: Rm, amount: u8, rest: Seq<u8>)
    requires
        sound(Insn::ShiftImm { op, width, rm, amount }),
    ensures
        reads_back(Insn::ShiftImm { op, width, rm, amount }, rest),
{
    reveal(reads_back);
    reveal(sound);
    reveal(decode_upper);
    let insn = Insn::ShiftImm { op, width, rm, amount };
    let bytes = insn.encoding() + rest;
    let field = seq![amount];
    lemma_form(size_prefix(width), width == Width::Quad, Opcode::One(0xC1), op.ext(), rm, width,
        field + rest);
    assert(bytes =~= rm_form(size_prefix(width), width == Width::Quad, Opcode::One(0xC1),
        op.ext(), rm) + (field + rest));
    assert((field + rest)[0] == field[0]);
    assert(behind(field + rest, 1) =~= rest);
    assert(decode(bytes).0.operands =~= assembly(insn, 0).operands);
}

proof fn lemma_reads_shift_one(op: Shift, rm: Rm, rest: Seq<u8>)
    requires
        sound(Insn::ShiftOne { op, rm }),
    ensures
        reads_back(Insn::ShiftOne { op, rm }, rest),
{
    reveal(reads_back);
    reveal(sound);
    reveal(decode_upper);
    let insn = Insn::ShiftOne { op, rm };
    let bytes = insn.encoding() + rest;
    lemma_form(None, true, Opcode::One(0xD1), op.ext(), rm, Width::Quad, rest);
    assert(decode(bytes).0.operands =~= assembly(insn, 0).operands);
}

proof fn lemma_reads_cmov(cond: Cond, reg: Reg, rm: Rm, rest: Seq<u8>)
    requires
        sound(Insn::Cmov { cond, reg, rm }),
    ensures
        reads_back(Insn::Cmov { cond, reg, rm }, rest),
{
    reveal(reads_back);
    reveal(sound);
    reveal(decode_escaped);
    let insn = Insn::Cmov { cond, reg, rm };
    let bytes = insn.encoding() + rest;
    lemma_registers(reg);
    lemma_conditions(cond);
    lemma_form(None, true, Opcode::Two((0x40 + cond.code()) as u8), reg.index(), rm, Width::Quad,
        rest);
    assert(decode(bytes).0.operands =~= assembly(insn, 0).operands);
}

proof fn lemma_reads_movq_from(dst: Reg, src: Xmm, rest: Seq<u8>)
    ensures
        reads_back(Insn::MovqFromXmm { dst, src }, rest),
{
    reveal(reads_back);
    reveal(decode_vector);
    let insn = Insn::MovqFromXmm { dst, src };
    let bytes = insn.encoding() + rest;
    lemma_vectors(src);
    lemma_form(Some(0x66), true, Opcode::Two(0x7E), src.index(), Rm::Reg(dst), Width::Quad, rest);
    assert(decode(bytes).0.operands =~= assembly(insn, 0).operands);
}

proof fn lemma_reads_movq_to(dst: Xmm, src: Reg, rest: Seq<u8>)
    ensures
        reads_back(Insn::MovqToXmm { dst, src }, rest),
{
    reveal(reads_back);
    reveal(decode_vector);
    let insn = Insn::MovqToXmm { dst, src };
    let bytes = insn.encoding() + rest;
    lemma_vectors(dst);
    lemma_form(Some(0x66), true, Opcode::Two(0x6E), dst.index(), Rm::Reg(src), Width::Quad, rest);
    assert(decode(bytes).0.operands =~= assembly(insn, 0).operands);
}

proof fn lemma_reads_movdqu_load(xmm: Xmm, mem: Mem, rest: Seq<u8>)
    requires
        sound(Insn::MovdquLoad { xmm, mem }),
    ensures
        reads_back(Insn::MovdquLoad { xmm, mem }, rest),
{
    reveal(reads_back);
    reveal(sound);
    reveal(decode_vector);
    let insn = Insn::MovdquLoad { xmm, mem };
    let bytes = insn.encoding() + rest;
    lemma_vectors(xmm);
    lemma_form(Some(0xF3), false, Opcode::Two(0x6F), xmm.index(), Rm::Mem(mem), Width::Quad, rest);
    assert(decode(bytes).0.operands =~= assembly(insn, 0).operands);
}

proof fn lemma_reads_movdqu_store(mem: Mem, xmm: Xmm, rest: Seq<u8>)
    requires
        sound(Insn::MovdquStore { mem, xmm }),
    ensures
        reads_back(Insn::MovdquStore { mem, xmm }, rest),
{
    reveal(reads_back);
    reveal(sound);
    reveal(decode_vector);
    let insn = Insn::MovdquStore { mem, xmm };
    let bytes = insn.encoding() + rest;
    lemma_vectors(xmm);
    lemma_form(Some(0xF3), false, Opcode::Two(0x7F), xmm.index(), Rm::Mem(mem), Width::Quad, rest);
    assert(decode(bytes).0.operands =~= assembly(insn, 0).operands);
}

proof fn lemma_reads_movs_load(width: FloatWidth, xmm: Xmm, mem: Mem, rest: Seq<u8>)
    requires
        sound(Insn::MovsLoad { width, xmm, mem }),
    ensures
        reads_back(Insn::MovsLoad { width, xmm, mem }, rest),
{
    reveal(reads_back);
    reveal(sound);
    reveal(decode_vector);
    let insn = Insn::MovsLoad { width, xmm, mem };
    let bytes = insn.encoding() + rest;
    lemma_vectors(xmm);
    lemma_form(Some(width.prefix()), false, Opcode::Two(0x10), xmm.index(), Rm::Mem(mem),
        Width::Quad, rest);
    assert(decode(bytes).0.operands =~= assembly(insn, 0).operands);
}

proof fn lemma_reads_movs_store(width: FloatWidth, mem: Mem, xmm: Xmm, rest: Seq<u8>)
    requires
        sound(Insn::MovsStore { width, mem, xmm }),
    ensures
        reads_back(Insn::MovsStore { width, mem, xmm }, rest),
{
    reveal(reads_back);
    reveal(sound);
    reveal(decode_vector);
    let insn = Insn::MovsStore { width, mem, xmm };
    let bytes = insn.encoding() + rest;
    lemma_vectors(xmm);
    lemma_form(Some(width.prefix()), false, Opcode::Two(0x11), xmm.index(), Rm::Mem(mem),
        Width::Quad, rest);
    assert(decode(bytes).0.operands =~= assembly(insn, 0).operands);
}

proof fn lemma_reads_push(reg: Reg, rest: Seq<u8>)
    ensures
        reads_back(Insn::Push(reg), rest),
{
    reveal(Head::opcode_register);
    reveal(reads_back);
    reveal(decode_middle);
    let insn = Insn::Push(reg);
    let bytes = insn.encoding() + rest;
    lemma_registers(reg);
    let opcode = Opcode::One((0x50 + reg.index() % 8) as u8);
    assert(bytes =~= optional_byte(None) + rex(false, 0, 0, reg.index()) + opcode.field() + (rest));
    lemma_bare(None, false, opcode, reg.index(), bytes, rest);
    assert(decode(bytes).0.operands =~= assembly(insn, 0).operands);
}

proof fn lemma_reads_pop(reg: Reg, rest: Seq<u8>)
    ensures
        reads_back(Insn::Pop(reg), rest),
{
    reveal(Head::opcode_register);
    reveal(reads_back);
    reveal(decode_middle);
    let insn = Insn::Pop(reg);
    let bytes = insn.encoding() + rest;
    lemma_registers(reg);
    let opcode = Opcode::One((0x58 + reg.index() % 8) as u8);
    assert(bytes =~= optional_byte(None) + rex(false, 0, 0, reg.index()) + opcode.field() + (rest));
    lemma_bare(None, false, opcode, reg.index(), bytes, rest);
    assert(decode(bytes).0.operands =~= assembly(insn, 0).operands);
}

proof fn lemma_reads_ret(rest: Seq<u8>)
    ensures
        reads_back(Insn::Ret, rest),
{
    reveal(reads_back);
    reveal(decode_upper);
    let insn = Insn::Ret;
    let bytes = insn.encoding() + rest;
    assert(bytes =~= optional_byte(None) + rex(false, 0, 0,
        0) + Opcode::One(0xC3).field() + (rest));
    lemma_bare(None, false, Opcode::One(0xC3), 0, bytes, rest);
    assert(decode(bytes).0.operands =~= assembly(insn, 0).operands);
}

proof fn lemma_reads_ud2(rest: Seq<u8>)
    ensures
        reads_back(Insn::Ud2, rest),
{
    reveal(reads_back);
    reveal(decode_escaped);
    let insn = Insn::Ud2;
    let bytes = insn.encoding() + rest;
    assert(bytes =~= optional_byte(None) + rex(false, 0, 0,
        0) + Opcode::Two(0x0B).field() + (rest));
    lemma_bare(None, false, Opcode::Two(0x0B), 0, bytes, rest);
    assert(decode(bytes).0.operands =~= assembly(insn, 0).operands);
}

proof fn lemma_reads_int3(rest: Seq<u8>)
    ensures
        reads_back(Insn::Int3, rest),
{
    reveal(reads_back);
    reveal(decode_upper);
    let insn = Insn::Int3;
    let bytes = insn.encoding() + rest;
    assert(bytes =~= optional_byte(None) + rex(false, 0, 0,
        0) + Opcode::One(0xCC).field() + (rest));
    lemma_bare(None, false, Opcode::One(0xCC), 0, bytes, rest);
    assert(decode(bytes).0.operands =~= assembly(insn, 0).operands);
}

proof fn lemma_reads_cpuid(rest: Seq<u8>)
    ensures
        reads_back(Insn::Cpuid, rest),
{
    reveal(reads_back);
    reveal(decode_escaped);
    let insn = Insn::Cpuid;
    let bytes = insn.encoding() + rest;
    assert(bytes =~= optional_byte(None) + rex(false, 0, 0,
        0) + Opcode::Two(0xA2).field() + (rest));
    lemma_bare(None, false, Opcode::Two(0xA2), 0, bytes, rest);
    assert(decode(bytes).0.operands =~= assembly(insn, 0).operands);
}

proof fn lemma_reads_syscall(rest: Seq<u8>)
    ensures
        reads_back(Insn::Syscall, rest),
{
    reveal(reads_back);
    reveal(decode_escaped);
    let insn = Insn::Syscall;
    let bytes = insn.encoding() + rest;
    assert(bytes =~= optional_byte(None) + rex(false, 0, 0,
        0) + Opcode::Two(0x05).field() + (rest));
    lemma_bare(None, false, Opcode::Two(0x05), 0, bytes, rest);
    assert(decode(bytes).0.operands =~= assembly(insn, 0).operands);
}

proof fn lemma_reads_rep_movsb(rest: Seq<u8>)
    ensures
        reads_back(Insn::RepMovsb, rest),
{
    reveal(reads_back);
    reveal(decode_upper);
    let insn = Insn::RepMovsb;
    let bytes = insn.encoding() + rest;
    assert(bytes =~= optional_byte(Some(0xF3)) + rex(false, 0, 0,
        0) + Opcode::One(0xA4).field() + (rest));
    lemma_bare(Some(0xF3), false, Opcode::One(0xA4), 0, bytes, rest);
    assert(decode(bytes).0.operands =~= assembly(insn, 0).operands);
}

proof fn lemma_reads_set_w(reg: Reg, imm: u16, rest: Seq<u8>)
    ensures
        reads_back(Insn::MovImm16 { reg, imm }, rest),
{
    reveal(Head::opcode_register);
    reveal(reads_back);
    reveal(decode_upper);
    let insn = Insn::MovImm16 { reg, imm };
    let bytes = insn.encoding() + rest;
    lemma_registers(reg);
    let opcode = Opcode::One((0xB8 + reg.index() % 8) as u8);
    let field = le16(imm as int);
    assert(bytes =~= optional_byte(Some(0x66)) + rex(false, 0, 0,
        reg.index()) + opcode.field() + (field + rest));
    lemma_bare(Some(0x66), false, opcode, reg.index(), bytes, field + rest);
    assert((field + rest)[0] == field[0] && (field + rest)[1] == field[1]);
    assert(behind(field + rest, 2) =~= rest);
    assert(decode(bytes).0.operands =~= assembly(insn, 0).operands);
}

proof fn lemma_reads_set_d(reg: Reg, imm: i32, rest: Seq<u8>)
    ensures
        reads_back(Insn::MovImm32 { reg, imm }, rest),
{
    reveal(Head::opcode_register);
    reveal(reads_back);
    reveal(decode_upper);
    let insn = Insn::MovImm32 { reg, imm };
    let bytes = insn.encoding() + rest;
    lemma_registers(reg);
    let opcode = Opcode::One((0xB8 + reg.index() % 8) as u8);
    let field = le32(imm as int);
    assert(bytes =~= optional_byte(None) + rex(false, 0, 0,
        reg.index()) + opcode.field() + (field + rest));
    lemma_bare(None, false, opcode, reg.index(), bytes, field + rest);
    lemma_signed_four(imm as int, rest);
    assert(decode(bytes).0.operands =~= assembly(insn, 0).operands);
}

proof fn lemma_reads_set_q(reg: Reg, imm: i64, rest: Seq<u8>)
    ensures
        reads_back(Insn::MovImm64 { reg, imm }, rest),
{
    reveal(Head::opcode_register);
    reveal(reads_back);
    reveal(decode_upper);
    let insn = Insn::MovImm64 { reg, imm };
    let bytes = insn.encoding() + rest;
    lemma_registers(reg);
    let opcode = Opcode::One((0xB8 + reg.index() % 8) as u8);
    let field = le64(imm as int);
    assert(bytes =~= optional_byte(None) + rex(true, 0, 0,
        reg.index()) + opcode.field() + (field + rest));
    lemma_bare(None, true, opcode, reg.index(), bytes, field + rest);
    lemma_signed_eight(imm as int, rest);
    assert(decode(bytes).0.operands =~= assembly(insn, 0).operands);
}

proof fn lemma_reads_call(symbol: Symbol, rest: Seq<u8>)
    ensures
        reads_back(Insn::Call(symbol), rest),
{
    reveal(reads_back);
    reveal(decode_upper);
    let insn = Insn::Call(symbol);
    let bytes = insn.encoding() + rest;
    let field = le32(0);
    assert(bytes =~= optional_byte(None) + rex(false, 0, 0,
        0) + Opcode::One(0xE8).field() + (field + rest));
    lemma_bare(None, false, Opcode::One(0xE8), 0, bytes, field + rest);
    lemma_signed_four(0, rest);
    assert(decode(bytes).0.operands =~= assembly(insn, 0).operands);
}

proof fn lemma_reads_jmp_symbol(symbol: Symbol, rest: Seq<u8>)
    ensures
        reads_back(Insn::JmpSymbol(symbol), rest),
{
    reveal(reads_back);
    reveal(decode_upper);
    let insn = Insn::JmpSymbol(symbol);
    let bytes = insn.encoding() + rest;
    let field = le32(0);
    assert(bytes =~= optional_byte(None) + rex(false, 0, 0,
        0) + Opcode::One(0xE9).field() + (field + rest));
    lemma_bare(None, false, Opcode::One(0xE9), 0, bytes, field + rest);
    lemma_signed_four(0, rest);
    assert(decode(bytes).0.operands =~= assembly(insn, 0).operands);
}

#[verifier::rlimit(30)]
proof fn lemma_reads_vectors(op: Sse, dst: Xmm, src: Xmm, rest: Seq<u8>)
    ensures
        reads_back(Insn::SseRr { op, dst, src }, rest),
{
    reveal(Head::middle);
    reveal(Head::extension);
    reveal(reads_back);
    reveal(decode_vector);
    let insn = Insn::SseRr { op, dst, src };
    let bytes = insn.encoding() + rest;
    lemma_vectors(dst);
    lemma_vectors(src);
    lemma_modrm(3, dst.index(), src.index());
    let code = op.opcode();
    let more = seq![modrm(3, dst.index(), src.index())] + rest;
    assert(more[0] == modrm(3, dst.index(), src.index()));
    assert(behind(more, 1) =~= rest);
    if op is Pcmpgtq {
        reveal(head);
        let after = behind(bytes, 1);
        assert(bytes[0] == 0x66);
        assert(after[0] == 0x0F && after[1] == 0x38 && after[2] == 0x37);
        assert(behind(after, 3) =~= more);
    } else {
        assert(bytes =~= optional_byte(Some(code[0])) + rex(false, 0, 0, 0) + Opcode::Two(
            code[2],
        ).field() + more);
        lemma_bare(Some(code[0]), false, Opcode::Two(code[2]), 0, bytes, more);
    }
    assert(decode(bytes).0.operands =~= assembly(insn, 0).operands);
}

proof fn lemma_reads_psrldq(xmm: Xmm, amount: u8, rest: Seq<u8>)
    ensures
        reads_back(Insn::Psrldq { xmm, amount }, rest),
{
    reveal(Head::middle);
    reveal(Head::extension);
    reveal(reads_back);
    reveal(decode_vector);
    let insn = Insn::Psrldq { xmm, amount };
    let bytes = insn.encoding() + rest;
    lemma_vectors(xmm);
    lemma_modrm(3, 3, xmm.index());
    let more = seq![modrm(3, 3, xmm.index()), amount] + rest;
    assert(more[0] == modrm(3, 3, xmm.index()));
    assert(behind(more, 1) =~= seq![amount] + rest);
    assert((seq![amount] + rest)[0] == amount);
    assert(behind(seq![amount] + rest, 1) =~= rest);
    assert(bytes =~= optional_byte(Some(0x66)) + rex(false, 0, 0, 0) + Opcode::Two(0x73).field()
        + more);
    lemma_bare(Some(0x66), false, Opcode::Two(0x73), 0, bytes, more);
    assert(decode(bytes).0.operands =~= assembly(insn, 0).operands);
}

proof fn lemma_moves_read_back(insn: Insn, rest: Seq<u8>)
    requires
        sound(insn),
        insn is Mov || insn is MovLoad || insn is MovImm || insn is Movzx || insn is Lea
            || insn is Alu || insn is AluLoad,
    ensures
        reads_back(insn, rest),
{
    match insn {
        Insn::Mov { width, rm, reg } => lemma_reads_mov(width, rm, reg, rest),
        Insn::MovLoad { width, reg, mem } => lemma_reads_load(width, reg, mem, rest),
        Insn::MovImm { width, rm, imm } => lemma_reads_mov_imm(width, rm, imm, rest),
        Insn::Movzx { reg, rm } => lemma_reads_movzx(reg, rm, rest),
        Insn::Lea { width, reg, mem } => lemma_reads_lea(width, reg, mem, rest),
        Insn::Alu { op, width, rm, reg } => lemma_reads_alu(op, width, rm, reg, rest),
        Insn::AluLoad { op, width, reg, mem } => lemma_reads_alu_load(op, width, reg, mem, rest),
        _ => {},
    }
}

proof fn lemma_arithmetic_read_back(insn: Insn, rest: Seq<u8>)
    requires
        sound(insn),
        insn is AluAcc || insn is AluImm8 || insn is AluImm32 || insn is Test || insn is TestImm
            || insn is TestAcc || insn is Unary,
    ensures
        reads_back(insn, rest),
{
    match insn {
        Insn::AluAcc { op, width, imm } => lemma_reads_alu_acc(op, width, imm, rest),
        Insn::AluImm8 { op, width, rm, imm } => lemma_reads_alu_imm8(op, width, rm, imm, rest),
        Insn::AluImm32 { op, width, rm, imm } => lemma_reads_alu_imm32(op, width, rm, imm, rest),
        Insn::Test { width, rm, reg } => lemma_reads_test(width, rm, reg, rest),
        Insn::TestImm { width, rm, imm } => lemma_reads_test_imm(width, rm, imm, rest),
        Insn::TestAcc { imm } => lemma_reads_test_acc(imm, rest),
        Insn::Unary { op, rm } => lemma_reads_unary(op, rm, rest),
        _ => {},
    }
}

proof fn lemma_operands_read_back(insn: Insn, rest: Seq<u8>)
    requires
        sound(insn),
        insn is CallReg || insn is Imul || insn is ImulImm8 || insn is ImulImm32
            || insn is ShiftImm || insn is ShiftOne || insn is Cmov,
    ensures
        reads_back(insn, rest),
{
    match insn {
        Insn::CallReg(reg) => lemma_reads_call_reg(reg, rest),
        Insn::Imul { reg, rm } => lemma_reads_imul(reg, rm, rest),
        Insn::ImulImm8 { reg, rm, imm } => lemma_reads_imul_imm8(reg, rm, imm, rest),
        Insn::ImulImm32 { reg, rm, imm } => lemma_reads_imul_imm32(reg, rm, imm, rest),
        Insn::ShiftImm { op, width, rm, amount } =>
            lemma_reads_shift_imm(op, width, rm, amount, rest),
        Insn::ShiftOne { op, rm } => lemma_reads_shift_one(op, rm, rest),
        Insn::Cmov { cond, reg, rm } => lemma_reads_cmov(cond, reg, rm, rest),
        _ => {},
    }
}

proof fn lemma_products_read_back(insn: Insn, rest: Seq<u8>)
    requires
        sound(insn),
        insn is MovqFromXmm || insn is MovqToXmm || insn is MovdquLoad || insn is MovdquStore
            || insn is MovsLoad || insn is MovsStore || insn is Push,
    ensures
        reads_back(insn, rest),
{
    match insn {
        Insn::MovqFromXmm { dst, src } => lemma_reads_movq_from(dst, src, rest),
        Insn::MovqToXmm { dst, src } => lemma_reads_movq_to(dst, src, rest),
        Insn::MovdquLoad { xmm, mem } => lemma_reads_movdqu_load(xmm, mem, rest),
        Insn::MovdquStore { mem, xmm } => lemma_reads_movdqu_store(mem, xmm, rest),
        Insn::MovsLoad { width, xmm, mem } => lemma_reads_movs_load(width, xmm, mem, rest),
        Insn::MovsStore { width, mem, xmm } => lemma_reads_movs_store(width, mem, xmm, rest),
        Insn::Push(reg) => lemma_reads_push(reg, rest),
        _ => {},
    }
}

proof fn lemma_vector_moves_read_back(insn: Insn, rest: Seq<u8>)
    requires
        sound(insn),
        insn is Pop || insn is Ret || insn is Ud2 || insn is Int3 || insn is Cpuid
            || insn is Syscall || insn is RepMovsb,
    ensures
        reads_back(insn, rest),
{
    match insn {
        Insn::Pop(reg) => lemma_reads_pop(reg, rest),
        Insn::Ret => lemma_reads_ret(rest),
        Insn::Ud2 => lemma_reads_ud2(rest),
        Insn::Int3 => lemma_reads_int3(rest),
        Insn::Cpuid => lemma_reads_cpuid(rest),
        Insn::Syscall => lemma_reads_syscall(rest),
        Insn::RepMovsb => lemma_reads_rep_movsb(rest),
        _ => {},
    }
}

proof fn lemma_plain_read_back(insn: Insn, rest: Seq<u8>)
    requires
        sound(insn),
        insn is MovImm16 || insn is MovImm32 || insn is MovImm64 || insn is Call
            || insn is JmpSymbol || insn is SseRr || insn is Psrldq,
    ensures
        reads_back(insn, rest),
{
    match insn {
        Insn::MovImm16 { reg, imm } => lemma_reads_set_w(reg, imm, rest),
        Insn::MovImm32 { reg, imm } => lemma_reads_set_d(reg, imm, rest),
        Insn::MovImm64 { reg, imm } => lemma_reads_set_q(reg, imm, rest),
        Insn::Call(symbol) => lemma_reads_call(symbol, rest),
        Insn::JmpSymbol(symbol) => lemma_reads_jmp_symbol(symbol, rest),
        Insn::SseRr { op, dst, src } => lemma_reads_vectors(op, dst, src, rest),
        Insn::Psrldq { xmm, amount } => lemma_reads_psrldq(xmm, amount, rest),
        _ => {},
    }
}

proof fn lemma_reads_back(insn: Insn, rest: Seq<u8>)
    requires
        sound(insn),
        !insn.is_jump(),
    ensures
        reads_back(insn, rest),
{
    if insn is Mov || insn is MovLoad || insn is MovImm || insn is Movzx || insn is Lea
        || insn is Alu || insn is AluLoad {
        lemma_moves_read_back(insn, rest);
    } else if insn is AluAcc || insn is AluImm8 || insn is AluImm32 || insn is Test
        || insn is TestImm || insn is TestAcc || insn is Unary {
        lemma_arithmetic_read_back(insn, rest);
    } else if insn is CallReg || insn is Imul || insn is ImulImm8 || insn is ImulImm32
        || insn is ShiftImm || insn is ShiftOne || insn is Cmov {
        lemma_operands_read_back(insn, rest);
    } else if insn is MovqFromXmm || insn is MovqToXmm || insn is MovdquLoad
        || insn is MovdquStore || insn is MovsLoad || insn is MovsStore || insn is Push {
        lemma_products_read_back(insn, rest);
    } else if insn is Pop || insn is Ret || insn is Ud2 || insn is Int3 || insn is Cpuid
        || insn is Syscall || insn is RepMovsb {
        lemma_vector_moves_read_back(insn, rest);
    } else {
        lemma_plain_read_back(insn, rest);
    }
}

/// The bytes of an instruction determine it: whatever follows them, they read as the operation,
/// the width and the operands of the instruction they were emitted for, and end where it ends.
pub proof fn law_encodings_read_back(insn: Insn, rest: Seq<u8>)
    requires
        sound(insn),
        !insn.is_jump(),
    ensures
        decode(insn.encoding() + rest) == (assembly(insn, 0), rest),
{
    lemma_reads_back(insn, rest);
    reveal(reads_back);
}

} // verus!
