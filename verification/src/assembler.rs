//! Assembling instruction sequences into relocatable code.

use crate::bytes::{
    law_le32_signed_reads_back, le32, low_byte, push_all, push_i32, read_le32,
};
use crate::symbols::Symbol;
use crate::x86::{rm_form, size_prefix, sized, Hop, Insn, Mem, Opcode, Rm, Width};
use vstd::prelude::*;

verus! {

/// A 4-byte field of some code that the linker fills with the distance to a
/// symbol.
pub struct Reference {
    pub offset: int,
    pub symbol: Seq<char>,
}

/// Relocatable code: its bytes and the references in it.
#[verifier::ext_equal]
pub struct Code {
    pub bytes: Seq<u8>,
    pub refs: Seq<Reference>,
}

impl Code {
    /// No code.
    pub open spec fn empty() -> Code {
        Code { bytes: seq![], refs: seq![] }
    }

    /// The references of this code when it stands at offset `base`.
    pub open spec fn refs_at(self, base: int) -> Seq<Reference> {
        self.refs.map_values(
            |r: Reference| Reference { offset: r.offset + base, symbol: r.symbol },
        )
    }

    /// This code followed by `next`.
    pub open spec fn then_code(self, next: Code) -> Code {
        Code {
            bytes: self.bytes + next.bytes,
            refs: self.refs + next.refs_at(self.bytes.len() as int),
        }
    }
}

/// Placing code side by side is associative.
pub proof fn law_code_sequencing_associates(a: Code, b: Code, c: Code)
    ensures
        a.then_code(b).then_code(c) == a.then_code(b.then_code(c)),
{
    let left = a.then_code(b).then_code(c);
    let right = a.then_code(b.then_code(c));
    assert(left.bytes =~= right.bytes);
    assert(left.refs =~= right.refs);
}

/// The empty code is neutral.
pub proof fn law_code_sequencing_neutral(a: Code)
    ensures
        a.then_code(Code::empty()) == a,
        Code::empty().then_code(a) == a,
{
    assert(a.then_code(Code::empty()) =~= a);
    assert(Code::empty().then_code(a) =~= a);
}

/// A reference of emitted code: the byte offset of a 4-byte relative field, and
/// the symbol it is relative to.
#[derive(Clone, Debug, PartialEq, Eq)]
pub struct CodeRelocation {
    pub offset: u32,
    pub symbol: String,
}

impl View for CodeRelocation {
    type V = Reference;

    open spec fn view(&self) -> Reference {
        Reference { offset: self.offset as int, symbol: self.symbol@ }
    }
}

/// The references a relocation list stands for.
pub open spec fn references(relocations: Seq<CodeRelocation>) -> Seq<Reference> {
    relocations.map_values(|r: CodeRelocation| r@)
}

/// Code under construction.
#[derive(Clone, Debug, PartialEq, Eq)]
pub struct CodeBuffer {
    pub code: Vec<u8>,
    pub relocations: Vec<CodeRelocation>,
}

impl View for CodeBuffer {
    type V = Code;

    open spec fn view(&self) -> Code {
        Code { bytes: self.code@, refs: references(self.relocations@) }
    }
}

// Layout of a program

impl Insn {
    /// The number of bytes the instruction takes.
    pub open spec fn size(self) -> int {
        match self {
            Insn::Jmp { short, .. } => if short {
                2
            } else {
                5
            },
            Insn::Jcc { short, .. } => if short {
                2
            } else {
                6
            },
            _ => self.encoding().len() as int,
        }
    }

    /// Where in the encoding the field of [`Insn::reference`] starts.
    pub open spec fn reference_field(self) -> int {
        self.encoding().len() - self.immediate_len() - 4
    }

    fn exec_memory(self) -> (mem: Option<Mem>)
        ensures
            mem == self.memory(),
    {
        match self {
            Insn::Mov { rm: Rm::Mem(mem), .. } => Some(mem),
            Insn::MovLoad { mem, .. } => Some(mem),
            Insn::MovImm { rm: Rm::Mem(mem), .. } => Some(mem),
            Insn::Movzx { rm: Rm::Mem(mem), .. } => Some(mem),
            Insn::Lea { mem, .. } => Some(mem),
            Insn::Alu { rm: Rm::Mem(mem), .. } => Some(mem),
            Insn::AluLoad { mem, .. } => Some(mem),
            Insn::AluImm8 { rm: Rm::Mem(mem), .. } => Some(mem),
            Insn::AluImm32 { rm: Rm::Mem(mem), .. } => Some(mem),
            Insn::Test { rm: Rm::Mem(mem), .. } => Some(mem),
            Insn::TestImm { rm: Rm::Mem(mem), .. } => Some(mem),
            Insn::Unary { rm: Rm::Mem(mem), .. } => Some(mem),
            Insn::Imul { rm: Rm::Mem(mem), .. } => Some(mem),
            Insn::ImulImm8 { rm: Rm::Mem(mem), .. } => Some(mem),
            Insn::ImulImm32 { rm: Rm::Mem(mem), .. } => Some(mem),
            Insn::ShiftImm { rm: Rm::Mem(mem), .. } => Some(mem),
            Insn::ShiftOne { rm: Rm::Mem(mem), .. } => Some(mem),
            Insn::Cmov { rm: Rm::Mem(mem), .. } => Some(mem),
            Insn::MovdquLoad { mem, .. } => Some(mem),
            Insn::MovdquStore { mem, .. } => Some(mem),
            Insn::MovsLoad { mem, .. } => Some(mem),
            Insn::MovsStore { mem, .. } => Some(mem),
            _ => None,
        }
    }

    fn exec_immediate_len(self) -> (n: usize)
        ensures
            n == self.immediate_len(),
            n <= 4,
    {
        match self {
            Insn::MovImm { width, .. } => if width == Width::Byte {
                1
            } else {
                4
            },
            Insn::AluImm8 { .. } => 1,
            Insn::AluImm32 { .. } => 4,
            Insn::TestImm { .. } => 4,
            Insn::ImulImm8 { .. } => 1,
            Insn::ImulImm32 { .. } => 4,
            Insn::ShiftImm { .. } => 1,
            _ => 0,
        }
    }

    fn exec_reference(self) -> (symbol: Option<Symbol>)
        ensures
            symbol == self.reference(),
    {
        match self {
            Insn::Call(symbol) => Some(symbol),
            Insn::JmpSymbol(symbol) => Some(symbol),
            _ => match self.exec_memory() {
                Some(Mem::Rip(symbol)) => Some(symbol),
                _ => None,
            },
        }
    }
}

/// The byte offset of instruction `i`: the sizes of the ones before it. Positions
/// outside the program stand for its nearer end.
pub open spec fn offset(program: Seq<Insn>, i: int) -> int
    decreases i,
{
    if i <= 0 {
        0
    } else if i > program.len() {
        offset(program, program.len() as int)
    } else {
        offset(program, i - 1) + program[i - 1].size()
    }
}

/// How far behind the end of jump `i` its target starts.
pub open spec fn displacement(program: Seq<Insn>, i: int) -> int {
    offset(program, i + program[i].jump_distance()) - offset(program, i + 1)
}

/// The bytes of instruction `i` in its program.
pub open spec fn placed(program: Seq<Insn>, i: int) -> Seq<u8> {
    match program[i] {
        Insn::Jmp { short, .. } => if short {
            seq![0xEB, low_byte(displacement(program, i))]
        } else {
            seq![0xE9u8] + le32(displacement(program, i))
        },
        Insn::Jcc { cond, short, .. } => if short {
            seq![(0x70 + cond.code()) as u8, low_byte(displacement(program, i))]
        } else {
            seq![0x0Fu8, (0x80 + cond.code()) as u8] + le32(displacement(program, i))
        },
        insn => insn.encoding(),
    }
}

/// The bytes of the first `n` instructions.
pub open spec fn bytes_upto(program: Seq<Insn>, n: int) -> Seq<u8>
    decreases n,
{
    if n <= 0 {
        seq![]
    } else {
        bytes_upto(program, n - 1) + placed(program, n - 1)
    }
}

/// The references of the first `n` instructions.
pub open spec fn refs_upto(program: Seq<Insn>, n: int) -> Seq<Reference>
    decreases n,
{
    if n <= 0 {
        seq![]
    } else {
        match program[n - 1].reference() {
            Some(symbol) => refs_upto(program, n - 1).push(
                Reference {
                    offset: offset(program, n - 1) + program[n - 1].reference_field(),
                    symbol: symbol.spec_name(),
                },
            ),
            None => refs_upto(program, n - 1),
        }
    }
}

/// The code a program assembles to.
#[verifier::opaque]
pub open spec fn assembled(program: Seq<Insn>) -> Code {
    Code {
        bytes: bytes_upto(program, program.len() as int),
        refs: refs_upto(program, program.len() as int),
    }
}

/// The number of bytes a program assembles to.
#[verifier::opaque]
pub open spec fn program_size(program: Seq<Insn>) -> int {
    offset(program, program.len() as int)
}

proof fn lemma_rm_form(prefix: Option<u8>, wide: bool, opcode: Opcode, reg: int, rm: Rm)
    ensures
        2 <= rm_form(prefix, wide, opcode, reg, rm).len() <= 10,
        rm matches Rm::Mem(Mem::Rip(_)) ==> ({
            let code = rm_form(prefix, wide, opcode, reg, rm);
            let len = code.len();
            &&& len >= 6
            &&& code[len - 4] == 0
            &&& code[len - 3] == 0
            &&& code[len - 2] == 0
            &&& code[len - 1] == 0
        }),
{
    reveal(rm_form);
}

/// An instruction takes one to fifteen bytes, and the field it leaves to the
/// linker is inside it and zero.
pub open spec fn well_shaped(insn: Insn) -> bool {
    &&& 1 <= insn.size() <= 15
    &&& insn.reference() is Some ==> {
        let field = insn.reference_field();
        &&& 0 <= field <= insn.size() - 4
        &&& insn.encoding()[field] == 0
        &&& insn.encoding()[field + 1] == 0
        &&& insn.encoding()[field + 2] == 0
        &&& insn.encoding()[field + 3] == 0
    }
}

#[verifier::spinoff_prover]
proof fn lemma_move_shape(insn: Insn)
    requires
        insn is Mov || insn is MovLoad || insn is MovImm || insn is MovImm16 || insn is MovImm32
            || insn is MovImm64 || insn is Movzx || insn is Lea,
    ensures
        well_shaped(insn),
{
    match insn {
        Insn::Mov { width, rm, reg } =>
            lemma_rm_form(size_prefix(width), width == Width::Quad,
            Opcode::One(sized(0x88, width)), reg.index(), rm),
        Insn::MovLoad { width, reg, mem } =>
            lemma_rm_form(size_prefix(width), width == Width::Quad,
            Opcode::One(sized(0x8A, width)), reg.index(), Rm::Mem(mem)),
        Insn::MovImm { width, rm, .. } =>
            lemma_rm_form(size_prefix(width), width == Width::Quad,
            Opcode::One(sized(0xC6, width)), 0, rm),
        Insn::Movzx { reg, rm } => lemma_rm_form(None, false, Opcode::Two(0xB6), reg.index(), rm),
        Insn::Lea { width, reg, mem } =>
            lemma_rm_form(size_prefix(width), width == Width::Quad, Opcode::One(0x8D),
            reg.index(), Rm::Mem(mem)),
        _ => {},
    }
}

#[verifier::spinoff_prover]
proof fn lemma_alu_shape(insn: Insn)
    requires
        insn is Alu || insn is AluLoad || insn is AluImm8 || insn is AluImm32 || insn is AluAcc,
    ensures
        well_shaped(insn),
{
    match insn {
        Insn::Alu { op, width, rm, reg } =>
            lemma_rm_form(size_prefix(width), width == Width::Quad,
            Opcode::One(sized(8 * op.ext(), width)), reg.index(), rm),
        Insn::AluLoad { op, width, reg, mem } =>
            lemma_rm_form(size_prefix(width), width == Width::Quad,
            Opcode::One(sized(8 * op.ext() + 2, width)), reg.index(), Rm::Mem(mem)),
        Insn::AluImm8 { op, width, rm, .. } =>
            lemma_rm_form(size_prefix(width), width == Width::Quad,
            Opcode::One( if width == Width::Byte { 0x80 } else { 0x83 }, ), op.ext(), rm),
        Insn::AluImm32 { op, width, rm, .. } =>
            lemma_rm_form(size_prefix(width), width == Width::Quad, Opcode::One(0x81), op.ext(),
            rm),
        _ => {},
    }
}

#[verifier::spinoff_prover]
proof fn lemma_test_shape(insn: Insn)
    requires
        insn is Test || insn is TestImm || insn is TestAcc || insn is Unary || insn is Imul
            || insn is ImulImm8,
    ensures
        well_shaped(insn),
{
    match insn {
        Insn::Test { width, rm, reg } =>
            lemma_rm_form(size_prefix(width), width == Width::Quad,
            Opcode::One(sized(0x84, width)), reg.index(), rm),
        Insn::TestImm { width, rm, .. } =>
            lemma_rm_form(size_prefix(width), width == Width::Quad, Opcode::One(0xF7), 0, rm),
        Insn::Unary { op, rm } =>
            lemma_rm_form(None, true, Opcode::One(op.opcode().0), op.opcode().1, rm),
        Insn::Imul { reg, rm } => lemma_rm_form(None, true, Opcode::Two(0xAF), reg.index(), rm),
        Insn::ImulImm8 { reg, rm, .. } =>
            lemma_rm_form(None, true, Opcode::One(0x6B), reg.index(), rm),
        _ => {},
    }
}

#[verifier::spinoff_prover]
proof fn lemma_arith_shape(insn: Insn)
    requires
        insn is ImulImm32 || insn is ShiftImm || insn is ShiftOne || insn is Cmov
            || insn is CallReg,
    ensures
        well_shaped(insn),
{
    match insn {
        Insn::ImulImm32 { reg, rm, .. } =>
            lemma_rm_form(None, true, Opcode::One(0x69), reg.index(), rm),
        Insn::ShiftImm { op, width, rm, .. } =>
            lemma_rm_form(size_prefix(width), width == Width::Quad, Opcode::One(0xC1), op.ext(),
            rm),
        Insn::ShiftOne { op, rm } => lemma_rm_form(None, true, Opcode::One(0xD1), op.ext(), rm),
        Insn::Cmov { cond, reg, rm } =>
            lemma_rm_form(None, true, Opcode::Two((0x40 + cond.code()) as u8), reg.index(), rm),
        Insn::CallReg(reg) => lemma_rm_form(None, false, Opcode::One(0xFF), 2, Rm::Reg(reg)),
        _ => {},
    }
}

#[verifier::spinoff_prover]
proof fn lemma_sse_shape(insn: Insn)
    requires
        insn is SseRr || insn is MovqFromXmm || insn is MovqToXmm || insn is Psrldq
            || insn is MovdquLoad || insn is MovdquStore || insn is MovsLoad || insn is MovsStore,
    ensures
        well_shaped(insn),
{
    match insn {
        Insn::MovqFromXmm { dst, src } =>
            lemma_rm_form(Some(0x66), true, Opcode::Two(0x7E), src.index(), Rm::Reg(dst)),
        Insn::MovqToXmm { dst, src } =>
            lemma_rm_form(Some(0x66), true, Opcode::Two(0x6E), dst.index(), Rm::Reg(src)),
        Insn::MovdquLoad { xmm, mem } =>
            lemma_rm_form(Some(0xF3), false, Opcode::Two(0x6F), xmm.index(), Rm::Mem(mem)),
        Insn::MovdquStore { mem, xmm } =>
            lemma_rm_form(Some(0xF3), false, Opcode::Two(0x7F), xmm.index(), Rm::Mem(mem)),
        Insn::MovsLoad { width, xmm, mem } =>
            lemma_rm_form(Some(width.prefix()), false, Opcode::Two(0x10), xmm.index(),
            Rm::Mem(mem)),
        Insn::MovsStore { width, mem, xmm } =>
            lemma_rm_form(Some(width.prefix()), false, Opcode::Two(0x11), xmm.index(),
            Rm::Mem(mem)),
        _ => {},
    }
}

/// Every instruction is well shaped.
pub proof fn lemma_insn_shape(insn: Insn)
    ensures
        well_shaped(insn),
{
    match insn {
        Insn::Mov { .. } | Insn::MovLoad { .. } | Insn::MovImm { .. } | Insn::MovImm16 { .. }
            | Insn::MovImm32 { .. } | Insn::MovImm64 { .. } | Insn::Movzx { .. }
            | Insn::Lea { .. } => lemma_move_shape(insn),
        Insn::Alu { .. } | Insn::AluLoad { .. } | Insn::AluImm8 { .. } | Insn::AluImm32 { .. }
            | Insn::AluAcc { .. } => lemma_alu_shape(insn),
        Insn::Test { .. } | Insn::TestImm { .. } | Insn::TestAcc { .. } | Insn::Unary { .. }
            | Insn::Imul { .. } | Insn::ImulImm8 { .. } => lemma_test_shape(insn),
        Insn::ImulImm32 { .. } | Insn::ShiftImm { .. } | Insn::ShiftOne { .. }
            | Insn::Cmov { .. } | Insn::CallReg(_) => lemma_arith_shape(insn),
        Insn::SseRr { .. } | Insn::MovqFromXmm { .. } | Insn::MovqToXmm { .. }
            | Insn::Psrldq { .. } | Insn::MovdquLoad { .. } | Insn::MovdquStore { .. }
            | Insn::MovsLoad { .. } | Insn::MovsStore { .. } => lemma_sse_shape(insn),
        _ => {},
    }
}

/// Offsets grow with the position.
pub proof fn lemma_offset_monotone(program: Seq<Insn>, i: int, j: int)
    requires
        i <= j,
    ensures
        0 <= offset(program, i) <= offset(program, j),
        i >= 0 ==> offset(program, j) - offset(program, i) <= 15 * (j - i),
    decreases j,
{
    if j > 0 && i < j {
        if j > program.len() {
            if i <= program.len() {
                lemma_offset_monotone(program, i, program.len() as int);
            }
            lemma_offset_monotone(program, 0, program.len() as int);
        } else {
            lemma_offset_monotone(program, i, j - 1);
            lemma_insn_shape(program[j - 1]);
        }
    } else if j > 0 {
        if j > program.len() {
            lemma_offset_monotone(program, 0, program.len() as int);
        } else {
            lemma_offset_monotone(program, 0, j - 1);
            lemma_insn_shape(program[j - 1]);
        }
    }
}

/// The bytes of the first `n` instructions reach up to instruction `n`.
pub proof fn lemma_bytes_upto_len(program: Seq<Insn>, n: int)
    requires
        0 <= n <= program.len(),
    ensures
        bytes_upto(program, n).len() == offset(program, n),
    decreases n,
{
    if n > 0 {
        lemma_bytes_upto_len(program, n - 1);
    }
}

/// Assembled code is as long as its program's size.
pub proof fn law_assembled_size(program: Seq<Insn>)
    ensures
        assembled(program).bytes.len() == program_size(program),
        0 <= program_size(program) <= 15 * program.len(),
{
    reveal(assembled);
    reveal(program_size);
    lemma_bytes_upto_len(program, program.len() as int);
    lemma_offset_monotone(program, 0, program.len() as int);
}

/// Instruction `i` of a program stands in the assembled bytes at its offset.
pub proof fn lemma_placed_at(program: Seq<Insn>, i: int, n: int)
    requires
        0 <= i < n <= program.len(),
    ensures
        0 <= offset(program, i),
        offset(program, i + 1) == offset(program, i) + placed(program, i).len(),
        offset(program, i + 1) <= bytes_upto(program, n).len(),
        bytes_upto(program, n).subrange(offset(program, i), offset(program, i + 1)) == placed(
            program,
            i,
        ),
    decreases n,
{
    lemma_bytes_upto_len(program, n - 1);
    lemma_bytes_upto_len(program, n);
    lemma_offset_monotone(program, 0, i);
    lemma_offset_monotone(program, i + 1, n);
    if i < n - 1 {
        lemma_placed_at(program, i, n - 1);
        lemma_offset_monotone(program, i + 1, n - 1);
        assert(bytes_upto(program, n).subrange(offset(program, i), offset(program, i + 1))
            =~= bytes_upto(program, n - 1).subrange(offset(program, i), offset(program, i + 1)));
    } else {
        assert(bytes_upto(program, n).subrange(offset(program, i), offset(program, i + 1))
            =~= placed(program, i));
    }
}

/// The signed value of the 32-bit field of `bytes` at `at`.
pub open spec fn read_disp32(bytes: Seq<u8>, at: int) -> int {
    let raw = read_le32(bytes, at);
    if raw >= 0x8000_0000 {
        raw - 0x1_0000_0000
    } else {
        raw
    }
}

/// A jump with a 32-bit field lands on the instruction it names: the field ends
/// where the next instruction starts, and its value leads from there to the
/// target's first byte.
pub proof fn law_near_jump_lands(program: Seq<Insn>, i: int)
    requires
        0 <= i < program.len(),
        program.len() <= 0x100_0000,
        match program[i] {
            Insn::Jmp { short, .. } => !short,
            Insn::Jcc { short, .. } => !short,
            _ => false,
        },
    ensures
        ({
            let target = i + program[i].jump_distance();
            let next = offset(program, i + 1);
            next + read_disp32(assembled(program).bytes, next - 4) == offset(program, target)
        }),
{
    reveal(assembled);
    let n = program.len() as int;
    let d = displacement(program, i);
    let start = offset(program, i);
    let next = offset(program, i + 1);
    let whole = assembled(program).bytes;
    lemma_placed_at(program, i, n);
    let target = i + program[i].jump_distance();
    assert(-0x8000_0000 <= d < 0x8000_0000) by {
        lemma_offset_monotone(program, 0, n);
        lemma_offset_monotone(program, 0, i + 1);
        lemma_offset_monotone(program, i + 1, n);
        if target <= 0 {
        } else if target > n {
        } else {
            lemma_offset_monotone(program, 0, target);
            lemma_offset_monotone(program, target, n);
        }
    }
    law_le32_signed_reads_back(d);
    let field = next - 4 - start;
    assert(whole.subrange(start, next) == placed(program, i));
    assert forall|k: int| 0 <= k < 4 implies whole[next - 4 + k] == le32(d)[k] by {
        assert(whole.subrange(start, next)[field + k] == whole[next - 4 + k]);
        assert(placed(program, i)[field + k] == le32(d)[k]);
    }
    assert(whole[next - 4] == le32(d)[0]);
    assert(whole[next - 4 + 1] == le32(d)[1]);
    assert(whole[next - 4 + 2] == le32(d)[2]);
    assert(whole[next - 4 + 3] == le32(d)[3]);
    assert(read_le32(whole, next - 4) == read_le32(le32(d), 0));
}

/// A jump with an 8-bit field lands on the instruction it names, when the distance fits.
pub proof fn law_short_jump_lands(program: Seq<Insn>, i: int)
    requires
        0 <= i < program.len(),
        match program[i] {
            Insn::Jmp { short, .. } => short,
            Insn::Jcc { short, .. } => short,
            _ => false,
        },
        -128 <= displacement(program, i) < 128,
    ensures
        ({
            let target = i + program[i].jump_distance();
            let next = offset(program, i + 1);
            let field = assembled(program).bytes[next - 1];
            next + (if field < 128 {
                field as int
            } else {
                field - 256
            }) == offset(program, target)
        }),
{
    reveal(assembled);
    lemma_placed_at(program, i, program.len() as int);
    let start = offset(program, i);
    let next = offset(program, i + 1);
    let whole = assembled(program).bytes;
    assert(whole.subrange(start, next)[1] == whole[next - 1]);
    assert(placed(program, i)[1] == low_byte(displacement(program, i)));
}

/// Whether every jump of a program stays in it or leads right behind it.
pub open spec fn contained(program: Seq<Insn>) -> bool {
    forall|i: int|
        0 <= i < program.len() ==> 0 <= i + (#[trigger] program[i]).jump_distance()
            <= program.len()
}

proof fn lemma_offset_first(a: Seq<Insn>, b: Seq<Insn>, i: int)
    requires
        0 <= i <= a.len(),
    ensures
        offset(a + b, i) == offset(a, i),
    decreases i,
{
    if i > 0 {
        lemma_offset_first(a, b, i - 1);
        assert((a + b)[i - 1] == a[i - 1]);
    }
}

proof fn lemma_offset_next(a: Seq<Insn>, b: Seq<Insn>, i: int)
    requires
        0 <= i <= b.len(),
    ensures
        offset(a + b, a.len() + i) == offset(a, a.len() as int) + offset(b, i),
    decreases i,
{
    if i == 0 {
        lemma_offset_first(a, b, a.len() as int);
    } else {
        lemma_offset_next(a, b, i - 1);
        assert((a + b)[a.len() + i - 1] == b[i - 1]);
    }
}

proof fn lemma_first_upto(a: Seq<Insn>, b: Seq<Insn>, n: int)
    requires
        contained(a),
        0 <= n <= a.len(),
    ensures
        bytes_upto(a + b, n) == bytes_upto(a, n),
        refs_upto(a + b, n) == refs_upto(a, n),
    decreases n,
{
    if n > 0 {
        let i = n - 1;
        lemma_first_upto(a, b, i);
        assert((a + b)[i] == a[i]);
        lemma_offset_first(a, b, i);
        lemma_offset_first(a, b, n);
        lemma_offset_first(a, b, i + a[i].jump_distance());
    }
}

proof fn lemma_next_upto(a: Seq<Insn>, b: Seq<Insn>, n: int)
    requires
        contained(a),
        contained(b),
        0 <= n <= b.len(),
    ensures
        bytes_upto(a + b, a.len() + n) == assembled(a).bytes + bytes_upto(b, n),
        refs_upto(a + b, a.len() + n) == assembled(a).refs + (Code {
            bytes: seq![],
            refs: refs_upto(b, n),
        }).refs_at(assembled(a).bytes.len() as int),
    decreases n,
{
    reveal(assembled);
    let base = offset(a, a.len() as int);
    lemma_bytes_upto_len(a, a.len() as int);
    if n == 0 {
        lemma_first_upto(a, b, a.len() as int);
        assert(bytes_upto(a + b, a.len() as int) =~= assembled(a).bytes + bytes_upto(b, 0));
        assert(refs_upto(a + b, a.len() as int) =~= assembled(a).refs + (Code {
            bytes: seq![],
            refs: refs_upto(b, 0),
        }).refs_at(base));
    } else {
        let i = n - 1;
        lemma_next_upto(a, b, i);
        assert((a + b)[a.len() + i] == b[i]);
        lemma_offset_next(a, b, i);
        lemma_offset_next(a, b, n);
        lemma_offset_next(a, b, i + b[i].jump_distance());
        assert(placed(a + b, a.len() + i) == placed(b, i));
        assert(bytes_upto(a + b, a.len() + n) =~= assembled(a).bytes + bytes_upto(b, n));
        assert(refs_upto(a + b, a.len() + n) =~= assembled(a).refs + (Code {
            bytes: seq![],
            refs: refs_upto(b, n),
        }).refs_at(base));
    }
}

/// The code of two programs in sequence is the code of one behind the code of the other,
/// when no jump leads out of either.
pub proof fn law_programs_assemble_in_sequence(a: Seq<Insn>, b: Seq<Insn>)
    requires
        contained(a),
        contained(b),
    ensures
        assembled(a + b) == assembled(a).then_code(assembled(b)),
{
    lemma_next_upto(a, b, b.len() as int);
    assert(assembled(a + b) =~= assembled(a).then_code(assembled(b))) by {
        reveal(assembled);
    }
}

/// Whether `r` names a 4-byte field of `bytes`, inside them and zero.
pub open spec fn zero_field(bytes: Seq<u8>, r: Reference) -> bool {
    &&& 0 <= r.offset
    &&& r.offset + 4 <= bytes.len()
    &&& forall|k: int| r.offset <= k < r.offset + 4 ==> bytes[k] == 0
}

proof fn lemma_refs_are_zero_fields(program: Seq<Insn>, n: int, j: int)
    requires
        0 <= n <= program.len(),
        0 <= j < refs_upto(program, n).len(),
    ensures
        zero_field(assembled(program).bytes, refs_upto(program, n)[j]),
    decreases n,
{
    if j < refs_upto(program, n - 1).len() {
        lemma_refs_are_zero_fields(program, n - 1, j);
    } else {
        reveal(assembled);
        let i = n - 1;
        let insn = program[i];
        let whole = assembled(program).bytes;
        let start = offset(program, i);
        lemma_placed_at(program, i, program.len() as int);
        lemma_insn_shape(insn);
        let field = insn.reference_field();
        let code = insn.encoding();
        assert(code[field] == 0 && code[field + 1] == 0 && code[field + 2] == 0 && code[field + 3]
            == 0);
        assert(placed(program, i) == insn.encoding());
        let r = refs_upto(program, n)[j];
        assert forall|k: int| r.offset <= k < r.offset + 4 implies whole[k] == 0 by {
            assert(whole.subrange(start, offset(program, n))[k - start] == whole[k]);
            assert(k - start == field || k - start == field + 1 || k - start == field + 2 || k
                - start == field + 3);
        }
    }
}

/// Every reference of assembled code names a 4-byte field inside the code that
/// holds zero, ready for the linker to fill in.
pub proof fn law_references_are_zero_fields(program: Seq<Insn>)
    ensures
        forall|j: int|
            0 <= j < assembled(program).refs.len() ==> zero_field(
                assembled(program).bytes,
                #[trigger] assembled(program).refs[j],
            ),
{
    assert(assembled(program).refs == refs_upto(program, program.len() as int)) by {
        reveal(assembled);
    }
    assert forall|j: int| 0 <= j < assembled(program).refs.len() implies zero_field(
        assembled(program).bytes,
        #[trigger] assembled(program).refs[j],
    ) by {
        lemma_refs_are_zero_fields(program, program.len() as int, j);
    }
}

proof fn lemma_refs_ascend(program: Seq<Insn>, n: int, j: int)
    requires
        0 <= n <= program.len(),
        0 <= j < refs_upto(program, n).len(),
    ensures
        refs_upto(program, n)[j].offset + 4 <= offset(program, n),
        j > 0 ==> refs_upto(program, n)[j - 1].offset + 4 <= refs_upto(program, n)[j].offset,
    decreases n,
{
    lemma_insn_shape(program[n - 1]);
    if j < refs_upto(program, n - 1).len() {
        lemma_refs_ascend(program, n - 1, j);
    } else if j > 0 {
        lemma_refs_ascend(program, n - 1, j - 1);
    }
}

/// References of assembled code come in ascending order and do not overlap.
pub proof fn law_references_ascend(program: Seq<Insn>, j: int)
    requires
        0 < j < assembled(program).refs.len(),
    ensures
        assembled(program).refs[j - 1].offset + 4 <= assembled(program).refs[j].offset,
{
    reveal(assembled);
    lemma_refs_ascend(program, program.len() as int, j);
}

/// Whether the references of `code` are fields inside it, in ascending order and
/// without overlap.
pub open spec fn tidy(code: Code) -> bool {
    &&& forall|j: int|
        0 <= j < code.refs.len() ==> 0 <= (#[trigger] code.refs[j]).offset && code.refs[j].offset
            + 4 <= code.bytes.len()
    &&& forall|i: int, j: int|
        0 <= i < j < code.refs.len() ==> (#[trigger] code.refs[i]).offset + 4 <= (
        #[trigger] code.refs[j]).offset
}

proof fn lemma_refs_ordered(program: Seq<Insn>, i: int, j: int)
    requires
        0 <= i < j < assembled(program).refs.len(),
    ensures
        assembled(program).refs[i].offset + 4 <= assembled(program).refs[j].offset,
    decreases j,
{
    law_references_ascend(program, j);
    if i < j - 1 {
        lemma_refs_ordered(program, i, j - 1);
    }
}

/// Assembled code is tidy.
pub proof fn law_assembled_is_tidy(program: Seq<Insn>)
    ensures
        tidy(assembled(program)),
{
    law_references_are_zero_fields(program);
    let code = assembled(program);
    assert forall|j: int| 0 <= j < code.refs.len() implies 0 <= (#[trigger] code.refs[j]).offset
        && code.refs[j].offset + 4 <= code.bytes.len() by {
        assert(zero_field(code.bytes, code.refs[j]));
    }
    assert forall|i: int, j: int| 0 <= i < j < code.refs.len() implies (
    #[trigger] code.refs[i]).offset + 4 <= (#[trigger] code.refs[j]).offset by {
        lemma_refs_ordered(program, i, j);
    }
}

/// Tidy code behind tidy code is tidy.
pub proof fn law_sequencing_keeps_tidy(a: Code, b: Code)
    requires
        tidy(a),
        tidy(b),
    ensures
        tidy(a.then_code(b)),
{
    let whole = a.then_code(b);
    let base = a.bytes.len() as int;
    let n = a.refs.len() as int;
    assert forall|j: int| 0 <= j < whole.refs.len() implies 0 <= (#[trigger] whole.refs[j]).offset
        && whole.refs[j].offset + 4 <= whole.bytes.len() by {
        if j < n {
            assert(whole.refs[j] == a.refs[j]);
        } else {
            assert(whole.refs[j].offset == b.refs[j - n].offset + base);
        }
    }
    assert forall|i: int, j: int| 0 <= i < j < whole.refs.len() implies (
    #[trigger] whole.refs[i]).offset + 4 <= (#[trigger] whole.refs[j]).offset by {
        if j < n {
            assert(whole.refs[i] == a.refs[i]);
            assert(whole.refs[j] == a.refs[j]);
        } else if i < n {
            assert(whole.refs[i] == a.refs[i]);
            assert(whole.refs[j].offset == b.refs[j - n].offset + base);
        } else {
            assert(whole.refs[i].offset == b.refs[i - n].offset + base);
            assert(whole.refs[j].offset == b.refs[j - n].offset + base);
        }
    }
}

// Assembling

/// The byte offset of every position of a program, its end included.
fn layout(program: &Vec<Insn>) -> (offsets: Vec<u32>)
    requires
        program@.len() <= 0x100_0000,
    ensures
        offsets@.len() == program@.len() + 1,
        forall|i: int| 0 <= i < offsets@.len() ==> offsets@[i] == offset(program@, i),
{
    let mut offsets: Vec<u32> = Vec::new();
    offsets.push(0);
    let mut scratch: Vec<u8> = Vec::new();
    let mut at: u32 = 0;
    let mut i: usize = 0;
    while i < program.len()
        invariant
            i <= program@.len() <= 0x100_0000,
            at == offset(program@, i as int),
            at <= 15 * i,
            offsets@.len() == i + 1,
            forall|k: int| 0 <= k < offsets@.len() ==> offsets@[k] == offset(program@, k),
        decreases program@.len() - i,
    {
        let insn: Insn = program[i];
        proof {
            lemma_insn_shape(insn);
        }
        let size: u32 = match insn {
            Insn::Jmp { short, .. } => if short {
                2
            } else {
                5
            },
            Insn::Jcc { short, .. } => if short {
                2
            } else {
                6
            },
            _ => {
                scratch.clear();
                insn.emit(&mut scratch);
                scratch.len() as u32
            },
        };
        at = at + size;
        i += 1;
        offsets.push(at);
    }
    offsets
}

impl CodeBuffer {
    /// An empty buffer.
    pub fn new() -> (buffer: CodeBuffer)
        ensures
            buffer@ == Code::empty(),
            buffer.code@.len() == 0,
    {
        let buffer = CodeBuffer { code: Vec::new(), relocations: Vec::new() };
        proof {
            assert(buffer@ =~= Code::empty());
        }
        buffer
    }

    /// Appends the code that `program` assembles to.
    pub fn append_program(&mut self, program: &Vec<Insn>)
        requires
            program@.len() <= 0x100_0000,
            old(self)@.bytes.len() + program_size(program@) <= u32::MAX,
        ensures
            final(self)@ == old(self)@.then_code(assembled(program@)),
    {
        reveal(program_size);
        proof {
            lemma_offset_monotone(program@, 0, program@.len() as int);
        }
        let base: u32 = self.code.len() as u32;
        let offsets = layout(program);
        let count: usize = program.len();
        let ghost start = self@;
        let mut i: usize = 0;
        proof {
            assert(refs_upto(program@, 0) =~= seq![]);
            assert(self@ =~= start.then_code(
                Code { bytes: bytes_upto(program@, 0), refs: refs_upto(program@, 0) },
            ));
        }
        while i < count
            invariant
                i <= count == program@.len() <= 0x100_0000,
                base == start.bytes.len(),
                base + offset(program@, count as int) <= u32::MAX,
                offsets@.len() == count + 1,
                forall|k: int| 0 <= k <= count ==> offsets@[k] == offset(program@, k),
                self@ == start.then_code(
                    Code {
                        bytes: bytes_upto(program@, i as int),
                        refs: refs_upto(program@, i as int),
                    },
                ),
            decreases count - i,
        {
            let insn: Insn = program[i];
            proof {
                lemma_insn_shape(insn);
                lemma_offset_monotone(program@, i as int, i + 1);
                lemma_offset_monotone(program@, i + 1, count as int);
                lemma_offset_monotone(program@, 0, i + 1);
                lemma_bytes_upto_len(program@, i as int);
            }
            let ghost before = *self;
            match insn {
                Insn::Jmp { short, to } => {
                    let d = exec_displacement(program, &offsets, i, to);
                    if short {
                        self.code.push(0xEB);
                        push_low_byte(&mut self.code, d);
                    } else {
                        self.code.push(0xE9);
                        push_i32(&mut self.code, d);
                    }
                },
                Insn::Jcc { cond, short, to } => {
                    let d = exec_displacement(program, &offsets, i, to);
                    if short {
                        self.code.push(0x70 + cond.number());
                        push_low_byte(&mut self.code, d);
                    } else {
                        self.code.push(0x0F);
                        self.code.push(0x80 + cond.number());
                        push_i32(&mut self.code, d);
                    }
                },
                _ => {
                    insn.emit(&mut self.code);
                    if let Some(symbol) = insn.exec_reference() {
                        let field: usize = self.code.len() - insn.exec_immediate_len() - 4;
                        let relocation = CodeRelocation {
                            offset: field as u32,
                            symbol: symbol.name().to_owned(),
                        };
                        proof {
                            let here = Reference {
                                offset: offset(program@, i as int) + insn.reference_field(),
                                symbol: symbol.spec_name(),
                            };
                            let b = base as int;
                            let old_code = Code {
                                bytes: bytes_upto(program@, i as int),
                                refs: refs_upto(program@, i as int),
                            };
                            let new_code = Code {
                                bytes: bytes_upto(program@, i + 1),
                                refs: refs_upto(program@, i + 1),
                            };
                            assert(new_code.refs == old_code.refs.push(here));
                            assert(new_code.refs_at(b) =~= old_code.refs_at(b).push(
                                Reference { offset: here.offset + b, symbol: here.symbol },
                            ));
                            assert(relocation@.offset == here.offset + b);
                            assert(references(self.relocations@.push(relocation)) =~= references(
                                self.relocations@,
                            ).push(relocation@));
                        }
                        self.relocations.push(relocation);
                    }
                },
            }
            proof {
                assert(self.code@ =~= before.code@ + placed(program@, i as int));
                let next = start.then_code(
                    Code { bytes: bytes_upto(program@, i + 1), refs: refs_upto(program@, i + 1) },
                );
                assert(self@.bytes =~= next.bytes);
                assert(self@.refs =~= next.refs);
            }
            i += 1;
        }
        proof {
            reveal(assembled);
        }
    }

    /// Appends relocatable code, given as its bytes and its relocations.
    pub fn append_code(&mut self, code: &Vec<u8>, relocations: &Vec<CodeRelocation>)
        requires
            old(self)@.bytes.len() <= u32::MAX,
            forall|j: int|
                0 <= j < relocations@.len() ==> old(self)@.bytes.len()
                    + #[trigger] relocations@[j].offset <= u32::MAX,
        ensures
            final(self)@ == old(self)@.then_code(
                Code { bytes: code@, refs: references(relocations@) },
            ),
    {
        let base: u32 = self.code.len() as u32;
        let ghost start = self@;
        let ghost more = Code { bytes: code@, refs: references(relocations@) };
        let mut i: usize = 0;
        while i < relocations.len()
            invariant
                i <= relocations@.len(),
                self.code@ == start.bytes,
                base == start.bytes.len(),
                more == (Code { bytes: code@, refs: references(relocations@) }),
                self@.refs == start.refs + more.refs_at(base as int).take(i as int),
                forall|j: int|
                    0 <= j < relocations@.len() ==> start.bytes.len()
                        + #[trigger] relocations@[j].offset <= u32::MAX,
            decreases relocations@.len() - i,
        {
            let relocation = CodeRelocation {
                offset: base + relocations[i].offset,
                symbol: relocations[i].symbol.clone(),
            };
            let ghost before = self@.refs;
            self.relocations.push(relocation);
            proof {
                assert(self@.refs =~= before.push(relocation@));
                assert(more.refs_at(base as int).take(i + 1) =~= more.refs_at(base as int).take(
                    i as int,
                ).push(relocation@));
            }
            i += 1;
        }
        push_all(&mut self.code, code);
        proof {
            assert(more.refs_at(base as int).take(i as int) =~= more.refs_at(base as int));
            assert(self@ =~= start.then_code(more));
        }
    }

    /// Appends relocatable code.
    pub fn append(&mut self, more: &CodeBuffer)
        requires
            old(self)@.bytes.len() <= u32::MAX,
            forall|j: int|
                0 <= j < more.relocations@.len() ==> old(self)@.bytes.len()
                    + #[trigger] more.relocations@[j].offset <= u32::MAX,
        ensures
            final(self)@ == old(self)@.then_code(more@),
    {
        self.append_code(&more.code, &more.relocations);
    }
}

/// The displacement of the jump at `i` over `to` instructions.
fn exec_displacement(program: &Vec<Insn>, offsets: &Vec<u32>, i: usize, to: Hop) -> (d: i32)
    requires
        i < program@.len() <= 0x100_0000,
        offsets@.len() == program@.len() + 1,
        forall|k: int| 0 <= k <= program@.len() ==> offsets@[k] == offset(program@, k),
        program@[i as int].is_jump(),
        program@[i as int].jump_distance() == to.distance(),
    ensures
        d == displacement(program@, i as int),
{
    let count: i64 = program.len() as i64;
    let target: i64 = i as i64 + to.exec_distance();
    let clamped: i64 = if target < 0 {
        0
    } else if target > count {
        count
    } else {
        target
    };
    proof {
        lemma_offset_monotone(program@, 0, i + 1);
        lemma_offset_monotone(program@, 0, clamped as int);
    }
    let landing: i64 = offsets[clamped as usize] as i64;
    let next: i64 = offsets[i + 1] as i64;
    (landing - next) as i32
}

/// Appends the low byte of `value`.
fn push_low_byte(out: &mut Vec<u8>, value: i32)
    ensures
        final(out)@ == old(out)@.push(low_byte(value as int)),
{
    let folded: i32 = value % 256;
    let byte: u8 = if folded >= 0 {
        folded as u8
    } else {
        (folded + 256) as u8
    };
    out.push(byte);
}

} // verus!
