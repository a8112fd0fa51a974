//! What instructions do.
//!
//! A model of the processor, as far as the generated code uses it: registers, flags, and a
//! memory of bytes. An access that would run past the top of the address space, and what
//! floating-point arithmetic computes, are outside the model.

use crate::symbols::Symbol;
use crate::x86::{
    Alu, Cond, FloatWidth, Insn, Mem, Reg, Rm, ScalarOp, Shift, Sse, Unary, Width, Xmm,
};
use vstd::prelude::*;

verus! {

// Words

/// 2^64.
pub open spec fn word_span() -> int {
    0x1_0000_0000_0000_0000
}

/// `x` modulo 2^64.
pub open spec fn wrap(x: int) -> u64 {
    (x % word_span()) as u64
}

/// A word as a signed number.
pub open spec fn signed(x: u64) -> int {
    if x < 0x8000_0000_0000_0000 {
        x as int
    } else {
        x - word_span()
    }
}

/// 256^n.
pub open spec fn pow256(n: nat) -> int
    decreases n,
{
    if n == 0 {
        1
    } else {
        256 * pow256((n - 1) as nat)
    }
}

/// 2^n.
pub open spec fn power2(n: nat) -> int
    decreases n,
{
    if n == 0 {
        1
    } else {
        2 * power2((n - 1) as nat)
    }
}

// Memory

/// The little-endian number in the `n` bytes at `a`.
pub open spec fn number_at(mem: spec_fn(int) -> u8, a: int, n: nat) -> int
    decreases n,
{
    if n == 0 {
        0
    } else {
        mem(a) + 256 * number_at(mem, a + 1, (n - 1) as nat)
    }
}

/// Memory with one byte stored.
pub open spec fn with_byte(mem: spec_fn(int) -> u8, a: int, v: u8) -> spec_fn(int) -> u8 {
    |p: int|
        if p == a {
            v
        } else {
            mem(p)
        }
}

/// Memory with the low `n` bytes of `v` stored at `a`.
pub open spec fn with_number(mem: spec_fn(int) -> u8, a: int, n: nat, v: int) -> spec_fn(int) -> u8
    decreases n,
{
    if n == 0 {
        mem
    } else {
        with_number(with_byte(mem, a, (v % 256) as u8), a + 1, (n - 1) as nat, v / 256)
    }
}

/// The word at `a`.
#[verifier::opaque]
pub open spec fn word_at(mem: spec_fn(int) -> u8, a: int) -> u64 {
    number_at(mem, a, 8) as u64
}

/// Memory with a word stored.
#[verifier::opaque]
pub open spec fn with_word(mem: spec_fn(int) -> u8, a: int, v: u64) -> spec_fn(int) -> u8 {
    with_number(mem, a, 8, v as int)
}

/// Whether the words at two addresses share no byte.
pub open spec fn apart(a: int, b: int) -> bool {
    a + 8 <= b || b + 8 <= a
}

proof fn lemma_number_kept(mem: spec_fn(int) -> u8, a: int, n: nat, v: int, p: int)
    requires
        p < a || a + n <= p,
    ensures
        with_number(mem, a, n, v)(p) == mem(p),
    decreases n,
{
    if n > 0 {
        lemma_number_kept(
            with_byte(mem, a, (v % 256) as u8),
            a + 1,
            (n - 1) as nat,
            v / 256,
            p,
        );
    }
}

proof fn lemma_number_apart(
    mem: spec_fn(int) -> u8,
    a: int,
    n: nat,
    v: int,
    b: int,
    k: nat,
)
    requires
        a + n <= b || b + k <= a,
    ensures
        number_at(with_number(mem, a, n, v), b, k) == number_at(mem, b, k),
    decreases k,
{
    if k > 0 {
        lemma_number_kept(mem, a, n, v, b);
        lemma_number_apart(mem, a, n, v, b + 1, (k - 1) as nat);
    }
}

proof fn lemma_number_same(mem: spec_fn(int) -> u8, a: int, n: nat, v: int)
    requires
        0 <= v < pow256(n),
    ensures
        number_at(with_number(mem, a, n, v), a, n) == v,
    decreases n,
{
    if n > 0 {
        let inner = with_byte(mem, a, (v % 256) as u8);
        lemma_number_same(inner, a + 1, (n - 1) as nat, v / 256);
        lemma_number_kept(inner, a + 1, (n - 1) as nat, v / 256, a);
        assert(with_number(mem, a, n, v)(a) == (v % 256) as u8);
    }
}

proof fn lemma_number_bounded(mem: spec_fn(int) -> u8, a: int, n: nat)
    ensures
        0 <= number_at(mem, a, n) < pow256(n),
    decreases n,
{
    if n > 0 {
        lemma_number_bounded(mem, a + 1, (n - 1) as nat);
    }
}

/// The `i`-th byte of a number, lowest first.
pub open spec fn nth_byte(v: int, i: nat) -> int
    decreases i,
{
    if i == 0 {
        v % 256
    } else {
        nth_byte(v / 256, (i - 1) as nat)
    }
}

/// A write puts the bytes of the number, lowest first.
pub proof fn law_number_writes_bytes(mem: spec_fn(int) -> u8, a: int, n: nat, v: int, i: nat)
    requires
        i < n,
    ensures
        with_number(mem, a, n, v)(a + i) == nth_byte(v, i),
    decreases n,
{
    let first = with_byte(mem, a, (v % 256) as u8);
    if i == 0 {
        lemma_number_kept(first, a + 1, (n - 1) as nat, v / 256, a);
    } else {
        law_number_writes_bytes(first, a + 1, (n - 1) as nat, v / 256, (i - 1) as nat);
        assert(a + 1 + (i - 1) == a + i);
    }
}

/// A write of a few bytes leaves the others.
pub proof fn law_number_keeps_bytes(mem: spec_fn(int) -> u8, a: int, n: nat, v: int)
    ensures
        kept(mem, with_number(mem, a, n, v), a, a + n),
{
    assert forall|p: int| p < a || a + n <= p implies #[trigger] with_number(mem, a, n, v)(p)
        == mem(p) by {
        lemma_number_kept(mem, a, n, v, p);
    }
}

/// A word that is written puts its bytes, lowest first.
pub proof fn law_word_writes_bytes(mem: spec_fn(int) -> u8, a: int, v: u64)
    ensures
        forall|i: int|
            0 <= i < 8 ==> #[trigger] nth_byte(v as int, i as nat) == with_word(mem, a, v)(a + i),
{
    reveal(with_word);
    assert forall|i: int| 0 <= i < 8 implies #[trigger] nth_byte(v as int, i as nat) == with_word(
        mem,
        a,
        v,
    )(a + i) by {
        law_number_writes_bytes(mem, a, 8, v as int, i as nat);
    }
}

/// A read gives back what was written.
pub proof fn law_word_reads_back(mem: spec_fn(int) -> u8, a: int, v: u64)
    ensures
        word_at(with_word(mem, a, v), a) == v,
{
    reveal(word_at);
    reveal(with_word);
    reveal_with_fuel(pow256, 9);
    lemma_number_same(mem, a, 8, v as int);
}

/// A write leaves the words that it does not touch.
pub proof fn law_word_keeps_others(mem: spec_fn(int) -> u8, a: int, v: u64, b: int)
    requires
        apart(a, b),
    ensures
        word_at(with_word(mem, a, v), b) == word_at(mem, b),
{
    reveal(word_at);
    reveal(with_word);
    lemma_number_apart(mem, a, 8, v as int, b, 8);
}

/// A write leaves the bytes that it does not touch.
pub proof fn law_word_keeps_bytes(mem: spec_fn(int) -> u8, a: int, v: u64, p: int)
    requires
        p < a || a + 8 <= p,
    ensures
        with_word(mem, a, v)(p) == mem(p),
{
    reveal(with_word);
    lemma_number_kept(mem, a, 8, v as int, p);
}

proof fn lemma_number_of_bytes(a: spec_fn(int) -> u8, b: spec_fn(int) -> u8, at: int, n: nat)
    requires
        forall|p: int| at <= p < at + n ==> #[trigger] a(p) == b(p),
    ensures
        number_at(a, at, n) == number_at(b, at, n),
    decreases n,
{
    if n > 0 {
        assert(a(at) == b(at));
        lemma_number_of_bytes(a, b, at + 1, (n - 1) as nat);
    }
}

/// Where two memories agree on the bytes of a word they agree on the word.
pub proof fn law_word_of_bytes(a: spec_fn(int) -> u8, b: spec_fn(int) -> u8, at: int)
    requires
        forall|p: int| at <= p < at + 8 ==> #[trigger] a(p) == b(p),
    ensures
        word_at(a, at) == word_at(b, at),
{
    reveal(word_at);
    lemma_number_of_bytes(a, b, at, 8);
}

/// Whether two memories agree outside the bytes from `low` up to `high`.
pub open spec fn kept(
    before: spec_fn(int) -> u8,
    after: spec_fn(int) -> u8,
    low: int,
    high: int,
) -> bool {
    forall|p: int| p < low || high <= p ==> #[trigger] after(p) == before(p)
}

/// A word outside the bytes that changed is kept.
pub proof fn law_kept_bytes_keep_words(
    before: spec_fn(int) -> u8,
    after: spec_fn(int) -> u8,
    low: int,
    high: int,
    a: int,
)
    requires
        kept(before, after, low, high),
        a + 8 <= low || high <= a,
    ensures
        word_at(after, a) == word_at(before, a),
{
    law_word_of_bytes(after, before, a);
}

// The machine

/// The flags that jumps ask for.
pub struct Flags {
    pub zero: bool,
    pub carry: bool,
    pub sign: bool,
    pub overflow: bool,
}

/// The state of the processor.
pub struct Machine {
    pub regs: Map<Reg, u64>,
    /// The low and the high lane of each vector register.
    pub xmms: Map<Xmm, (u64, u64)>,
    pub mem: spec_fn(int) -> u8,
    pub flags: Flags,
}

/// What a program finds around it: where each symbol was linked and what program stands
/// there, which symbol's program an address starts, where the instructions of a program lie,
/// what the processor says of itself (`eax`, `ebx`, `ecx` and `edx`) when asked for a feature
/// leaf, what it leaves in the flags that an instruction does not define, and what its arithmetic
/// gives for two floats of 64 or of 32 bits.
pub struct World {
    pub place: spec_fn(Symbol) -> u64,
    pub code: spec_fn(Symbol) -> Seq<Insn>,
    pub routine: spec_fn(u64) -> Symbol,
    pub site: spec_fn(Seq<Insn>, int) -> u64,
    pub features: spec_fn(u64) -> (u32, u32, u32, u32),
    pub undefined: spec_fn(Machine) -> Flags,
    pub double: spec_fn(ScalarOp, u64, u64) -> u64,
    pub single: spec_fn(ScalarOp, u64, u64) -> u64,
}

impl Flags {
    /// Whether a condition holds.
    pub open spec fn holds(self, cond: Cond) -> bool {
        match cond {
            Cond::O => self.overflow,
            Cond::B => self.carry,
            Cond::Ae => !self.carry,
            Cond::E => self.zero,
            Cond::Ne => !self.zero,
            Cond::Be => self.carry || self.zero,
            Cond::A => !self.carry && !self.zero,
            Cond::S => self.sign,
            Cond::L => self.sign != self.overflow,
            Cond::Ge => self.sign == self.overflow,
            Cond::Le => self.zero || self.sign != self.overflow,
            Cond::G => !self.zero && self.sign == self.overflow,
        }
    }
}

/// How many bits an operand has.
pub open spec fn bits(width: Width) -> nat {
    match width {
        Width::Byte => 8,
        Width::Word => 16,
        Width::Long => 32,
        Width::Quad => 64,
    }
}

/// How many bytes an operand has.
pub open spec fn size(width: Width) -> nat {
    bits(width) / 8
}

/// How many values an operand has.
pub open spec fn span(width: Width) -> int {
    match width {
        Width::Byte => 0x100,
        Width::Word => 0x1_0000,
        Width::Long => 0x1_0000_0000,
        Width::Quad => 0x1_0000_0000_0000_0000,
    }
}

/// A number cut to an operand's width.
pub open spec fn cut(width: Width, x: int) -> int {
    match width {
        Width::Byte => x % 0x100,
        Width::Word => x % 0x1_0000,
        Width::Long => x % 0x1_0000_0000,
        Width::Quad => x % 0x1_0000_0000_0000_0000,
    }
}

/// An operand as a signed number.
pub open spec fn signed_at(width: Width, x: int) -> int {
    if 2 * x < span(width) {
        x
    } else {
        x - span(width)
    }
}

/// Whether a signed number needs more bits than the operand has.
pub open spec fn exceeds(width: Width, x: int) -> bool {
    2 * x >= span(width) || 2 * x < -span(width)
}

/// The flags after `a + b`.
pub open spec fn flags_of_sum(width: Width, a: int, b: int) -> Flags {
    let result = cut(width, a + b);
    Flags {
        zero: result == 0,
        carry: a + b >= span(width),
        sign: 2 * result >= span(width),
        overflow: exceeds(width, signed_at(width, a) + signed_at(width, b)),
    }
}

/// The flags after `a - b`, or after comparing `a` with `b`.
pub open spec fn flags_of_difference(width: Width, a: int, b: int) -> Flags {
    let result = cut(width, a - b);
    Flags {
        zero: result == 0,
        carry: a < b,
        sign: 2 * result >= span(width),
        overflow: exceeds(width, signed_at(width, a) - signed_at(width, b)),
    }
}

/// The flags after a bitwise operation with this result.
pub open spec fn flags_of_bits(width: Width, result: int) -> Flags {
    Flags {
        zero: result == 0,
        carry: false,
        sign: 2 * result >= span(width),
        overflow: false,
    }
}

// Operands

impl Machine {
    /// The address a memory operand names.
    pub open spec fn address(self, world: World, mem: Mem) -> int {
        match mem {
            Mem::Base { base, disp } => wrap(self.regs[base] + disp.value()) as int,
            Mem::Indexed { base, index, scale, disp } => wrap(
                self.regs[base] + self.regs[index] * scale.factor() + disp.value(),
            ) as int,
            Mem::Scaled { index, scale, disp } => wrap(
                self.regs[index] * scale.factor() + disp,
            ) as int,
            Mem::Rip(symbol) => (world.place)(symbol) as int,
        }
    }

    /// The value in memory.
    pub open spec fn load(self, width: Width, a: int) -> int {
        match width {
            Width::Quad => word_at(self.mem, a) as int,
            _ => number_at(self.mem, a, size(width)),
        }
    }

    /// A value stored in memory.
    pub open spec fn store(self, width: Width, a: int, v: int) -> Machine {
        Machine {
            mem: match width {
                Width::Quad => with_word(self.mem, a, v as u64),
                _ => with_number(self.mem, a, size(width), v),
            },
            ..self
        }
    }

    /// The value in a register.
    pub open spec fn get(self, width: Width, reg: Reg) -> int {
        cut(width, self.regs[reg] as int)
    }

    /// A value moved to a register: a 32-bit value clears the upper half, a shorter one
    /// leaves the rest.
    pub open spec fn put(self, width: Width, reg: Reg, v: int) -> Machine {
        let old = self.regs[reg] as int;
        let whole = match width {
            Width::Quad | Width::Long => v,
            _ => old - cut(width, old) + v,
        };
        self.set(reg, whole as u64)
    }

    /// A register with a new value.
    pub open spec fn set(self, reg: Reg, v: u64) -> Machine {
        Machine { regs: self.regs.insert(reg, v), ..self }
    }

    /// A vector register with new lanes.
    pub open spec fn set_lanes(self, xmm: Xmm, lanes: (u64, u64)) -> Machine {
        Machine { xmms: self.xmms.insert(xmm, lanes), ..self }
    }

    /// With new flags.
    pub open spec fn flagged(self, flags: Flags) -> Machine {
        Machine { flags, ..self }
    }

    /// The value of an operand.
    pub open spec fn read(self, world: World, width: Width, rm: Rm) -> int {
        match rm {
            Rm::Reg(reg) => self.get(width, reg),
            Rm::Mem(mem) => self.load(width, self.address(world, mem)),
        }
    }

    /// A value written to an operand.
    pub open spec fn write(self, world: World, width: Width, rm: Rm, v: int) -> Machine {
        match rm {
            Rm::Reg(reg) => self.put(width, reg, v),
            Rm::Mem(mem) => self.store(width, self.address(world, mem), v),
        }
    }

    /// `left op right`, written to `rm`.
    pub open spec fn computed(
        self,
        world: World,
        op: Alu,
        width: Width,
        rm: Rm,
        right: int,
    ) -> Machine {
        let left = self.read(world, width, rm);
        match op {
            Alu::Add => self.write(world, width, rm, cut(width, left + right)).flagged(
                flags_of_sum(width, left, right),
            ),
            Alu::Sub => self.write(world, width, rm, cut(width, left - right)).flagged(
                flags_of_difference(width, left, right),
            ),
            Alu::Cmp => self.flagged(flags_of_difference(width, left, right)),
            Alu::And => {
                let result = (left as u64 & right as u64) as int;
                self.write(world, width, rm, result).flagged(flags_of_bits(width, result))
            },
            Alu::Or => {
                let result = (left as u64 | right as u64) as int;
                self.write(world, width, rm, result).flagged(flags_of_bits(width, result))
            },
            Alu::Xor => {
                let result = (left as u64 ^ right as u64) as int;
                self.write(world, width, rm, result).flagged(flags_of_bits(width, result))
            },
        }
    }

    /// A signed product in a register. Only the carry and the overflow are defined.
    pub open spec fn multiplied(self, world: World, reg: Reg, a: u64, b: int) -> Machine {
        let product = signed(a) * b;
        let excess = exceeds(Width::Quad, product);
        self.set(reg, wrap(product)).flagged(
            Flags { carry: excess, overflow: excess, ..(world.undefined)(self) },
        )
    }

    /// A value shifted by a constant. The overflow is defined for a shift by one alone, and a
    /// shift by nothing keeps the flags.
    pub open spec fn shifted(
        self,
        world: World,
        op: Shift,
        width: Width,
        rm: Rm,
        amount: nat,
    ) -> Machine {
        let count = shift_count(width, amount);
        let v = self.read(world, width, rm);
        let result = match op {
            Shift::Shl => cut(width, v * power2(count)),
            Shift::Shr => v / power2(count),
        };
        let out = match op {
            Shift::Shl => v * power2(count) / span(width) % 2 == 1,
            Shift::Shr => v / power2((count - 1) as nat) % 2 == 1,
        };
        let top = 2 * result >= span(width);
        let flags = Flags {
            zero: result == 0,
            carry: out,
            sign: top,
            overflow: if count == 1 {
                match op {
                    Shift::Shl => top != out,
                    Shift::Shr => 2 * v >= span(width),
                }
            } else {
                (world.undefined)(self).overflow
            },
        };
        self.write(world, width, rm, result).flagged(
            if count == 0 {
                self.flags
            } else {
                flags
            },
        )
    }
}

/// How far a shift goes: the processor takes the low bits of the amount.
pub open spec fn shift_count(width: Width, amount: nat) -> nat {
    if width is Quad {
        amount % 64
    } else {
        amount % 32
    }
}

/// An immediate byte, sign-extended to the operand's width.
pub open spec fn extended_byte(width: Width, imm: u8) -> int {
    if imm < 128 {
        imm as int
    } else {
        span(width) + imm - 256
    }
}

/// A 32-bit immediate, sign-extended or cut to the operand's width.
pub open spec fn extended(width: Width, imm: i32) -> int {
    cut(width, imm as int)
}

/// The lanes of a packed result; `None` for floating-point arithmetic.
pub open spec fn packed(op: Sse, dst: (u64, u64), src: (u64, u64)) -> Option<(u64, u64)> {
    match op {
        Sse::Paddq => Some((wrap(dst.0 + src.0), wrap(dst.1 + src.1))),
        Sse::Psubq => Some((wrap(dst.0 - src.0), wrap(dst.1 - src.1))),
        Sse::Pand => Some((dst.0 & src.0, dst.1 & src.1)),
        Sse::Pandn => Some((!dst.0 & src.0, !dst.1 & src.1)),
        Sse::Por => Some((dst.0 | src.0, dst.1 | src.1)),
        Sse::Pxor => Some((dst.0 ^ src.0, dst.1 ^ src.1)),
        Sse::Pcmpeqd => Some((halves_equal(dst.0, src.0), halves_equal(dst.1, src.1))),
        Sse::Pcmpgtq => Some((greater_mask(dst.0, src.0), greater_mask(dst.1, src.1))),
        Sse::Punpcklqdq => Some((dst.0, src.0)),
        Sse::Movdqa | Sse::Movapd => Some(src),
        Sse::Unpckhpd => Some((dst.1, src.1)),
        _ => None,
    }
}

/// The lanes of a result of floating-point arithmetic: lane by lane, or in the low lane only.
pub open spec fn floated(world: World, op: Sse, dst: (u64, u64), src: (u64, u64)) -> (u64, u64) {
    match op {
        Sse::Addpd => (
            (world.double)(ScalarOp::Plus, dst.0, src.0),
            (world.double)(ScalarOp::Plus, dst.1, src.1),
        ),
        Sse::Subpd => (
            (world.double)(ScalarOp::Minus, dst.0, src.0),
            (world.double)(ScalarOp::Minus, dst.1, src.1),
        ),
        Sse::Mulpd => (
            (world.double)(ScalarOp::Times, dst.0, src.0),
            (world.double)(ScalarOp::Times, dst.1, src.1),
        ),
        Sse::Scalar(FloatWidth::F64, op) => ((world.double)(op, dst.0, src.0), dst.1),
        Sse::Scalar(FloatWidth::F32, op) => ((world.single)(op, dst.0, src.0), dst.1),
        _ => dst,
    }
}

/// All ones in each 32-bit half where `a` and `b` agree.
pub open spec fn halves_equal(a: u64, b: u64) -> u64 {
    let low = if a % 0x1_0000_0000 == b % 0x1_0000_0000 {
        0xFFFF_FFFFu64
    } else {
        0
    };
    let high = if a / 0x1_0000_0000 == b / 0x1_0000_0000 {
        0xFFFF_FFFF_0000_0000u64
    } else {
        0
    };
    low | high
}

/// All ones where `a` is greater as a signed number.
pub open spec fn greater_mask(a: u64, b: u64) -> u64 {
    if signed(a) > signed(b) {
        0xFFFF_FFFF_FFFF_FFFF
    } else {
        0
    }
}

/// The memory after `n` bytes were copied upwards, one after the other.
pub open spec fn copied(mem: spec_fn(int) -> u8, from: int, to: int, n: nat) -> spec_fn(int) -> u8
    decreases n,
{
    if n == 0 {
        mem
    } else {
        copied(with_byte(mem, to, mem(from)), from + 1, to + 1, (n - 1) as nat)
    }
}

/// Copying between spans that share no byte puts the source's bytes to the destination and
/// changes nothing else.
pub proof fn law_bytes_copied(mem: spec_fn(int) -> u8, from: int, to: int, n: nat)
    requires
        from + n <= to || to + n <= from,
    ensures
        forall|p: int| #[trigger]
            copied(mem, from, to, n)(p) == if to <= p < to + n {
                mem(from + (p - to))
            } else {
                mem(p)
            },
    decreases n,
{
    if n > 0 {
        let first = with_byte(mem, to, mem(from));
        law_bytes_copied(first, from + 1, to + 1, (n - 1) as nat);
        assert forall|p: int| #[trigger]
            copied(mem, from, to, n)(p) == if to <= p < to + n {
                mem(from + (p - to))
            } else {
                mem(p)
            } by {
            assert(copied(first, from + 1, to + 1, (n - 1) as nat)(p) == if to + 1 <= p < to + n {
                first(from + 1 + (p - (to + 1)))
            } else {
                first(p)
            });
        }
    }
}

// Steps

/// The state after an instruction that goes on to the next one; `None` for jumps and for
/// what is outside the model.
#[verifier::opaque]
pub open spec fn effect(world: World, insn: Insn, m: Machine) -> Option<Machine> {
    match insn {
        Insn::Push(reg) => {
            let top = wrap(m.regs[Reg::Rsp] - 8);
            Some(m.store(Width::Quad, top as int, m.regs[reg] as int).set(Reg::Rsp, top))
        },
        Insn::Pop(reg) => {
            let top = m.regs[Reg::Rsp];
            Some(
                m.set(Reg::Rsp, wrap(top + 8)).set(
                    reg,
                    word_at(m.mem, top as int),
                ),
            )
        },
        Insn::Mov { width, rm, reg } => Some(m.write(world, width, rm, m.get(width, reg))),
        Insn::MovLoad { width, reg, mem } => Some(
            m.put(width, reg, m.load(width, m.address(world, mem))),
        ),
        Insn::MovImm { width, rm, imm } => Some(m.write(world, width, rm, extended(width, imm))),
        Insn::MovImm16 { reg, imm } => Some(m.put(Width::Word, reg, imm as int)),
        Insn::MovImm32 { reg, imm } => Some(m.put(Width::Long, reg, extended(Width::Long, imm))),
        Insn::MovImm64 { reg, imm } => Some(m.set(reg, wrap(imm as int))),
        Insn::Movzx { reg, rm } => Some(m.put(Width::Long, reg, m.read(world, Width::Byte, rm))),
        Insn::Lea { width, reg, mem } => Some(
            m.put(width, reg, cut(width, m.address(world, mem))),
        ),
        Insn::Alu { op, width, rm, reg } => Some(
            m.computed(world, op, width, rm, m.get(width, reg)),
        ),
        Insn::AluLoad { op, width, reg, mem } => Some(
            m.computed(world, op, width, Rm::Reg(reg), m.load(width, m.address(world, mem))),
        ),
        Insn::AluImm8 { op, width, rm, imm } => Some(
            m.computed(world, op, width, rm, extended_byte(width, imm)),
        ),
        Insn::AluImm32 { op, width, rm, imm } => Some(
            m.computed(world, op, width, rm, extended(width, imm)),
        ),
        Insn::AluAcc { op, width, imm } => Some(
            m.computed(world, op, width, Rm::Reg(Reg::Rax), extended(width, imm)),
        ),
        Insn::Test { width, rm, reg } => Some(
            m.flagged(
                flags_of_bits(
                    width,
                    (m.read(world, width, rm) as u64 & m.get(width, reg) as u64) as int,
                ),
            ),
        ),
        Insn::TestImm { width, rm, imm } => Some(
            m.flagged(
                flags_of_bits(
                    width,
                    (m.read(world, width, rm) as u64 & extended(width, imm) as u64) as int,
                ),
            ),
        ),
        Insn::TestAcc { imm } => Some(
            m.flagged(
                flags_of_bits(
                    Width::Long,
                    (m.get(Width::Long, Reg::Rax) as u64 & extended(Width::Long,
                        imm) as u64) as int,
                ),
            ),
        ),
        Insn::Unary { op, rm } => {
            let v = m.read(world, Width::Quad, rm);
            match op {
                Unary::Inc => Some(
                    m.write(world, Width::Quad, rm, wrap(v + 1) as int).flagged(
                        Flags { carry: m.flags.carry, ..flags_of_sum(Width::Quad, v, 1) },
                    ),
                ),
                Unary::Dec => Some(
                    m.write(world, Width::Quad, rm, wrap(v - 1) as int).flagged(
                        Flags { carry: m.flags.carry, ..flags_of_difference(Width::Quad, v, 1) },
                    ),
                ),
                Unary::Neg => Some(
                    m.write(world, Width::Quad, rm, wrap(-v) as int).flagged(
                        flags_of_difference(Width::Quad, 0, v),
                    ),
                ),
                Unary::Div => {
                    let dividend = m.regs[Reg::Rdx] * word_span() + m.regs[Reg::Rax];
                    if v == 0 || dividend / v >= word_span() {
                        None
                    } else {
                        Some(
                            m.set(Reg::Rax, (dividend / v) as u64).set(
                                Reg::Rdx,
                                (dividend % v) as u64,
                            ).flagged((world.undefined)(m)),
                        )
                    }
                },
            }
        },
        Insn::Imul { reg, rm } => Some(
            m.multiplied(
                world,
                reg,
                m.regs[reg],
                signed(m.read(world, Width::Quad, rm) as u64),
            ),
        ),
        Insn::ImulImm8 { reg, rm, imm } => Some(
            m.multiplied(
                world,
                reg,
                m.read(world, Width::Quad, rm) as u64,
                signed(extended_byte(Width::Quad, imm) as u64),
            ),
        ),
        Insn::ImulImm32 { reg, rm, imm } => Some(
            m.multiplied(world, reg, m.read(world, Width::Quad, rm) as u64, imm as int),
        ),
        Insn::ShiftImm { op, width, rm, amount } => Some(
            m.shifted(world, op, width, rm, amount as nat),
        ),
        Insn::ShiftOne { op, rm } => Some(m.shifted(world, op, Width::Quad, rm, 1)),
        Insn::Cmov { cond, reg, rm } => Some(
            if m.flags.holds(cond) {
                m.put(Width::Quad, reg, m.read(world, Width::Quad, rm))
            } else {
                m
            },
        ),
        Insn::RepMovsb => {
            let n = m.regs[Reg::Rcx];
            Some(
                (Machine {
                    mem: copied(
                        m.mem,
                        m.regs[Reg::Rsi] as int,
                        m.regs[Reg::Rdi] as int,
                        n as nat,
                    ),
                    ..m
                }).set(Reg::Rsi, wrap(m.regs[Reg::Rsi] + n)).set(
                    Reg::Rdi,
                    wrap(m.regs[Reg::Rdi] + n),
                ).set(Reg::Rcx, 0),
            )
        },
        Insn::Cpuid => {
            let (a, b, c, d) = (world.features)(m.regs[Reg::Rax]);
            Some(
                m.set(Reg::Rax, a as u64).set(Reg::Rbx, b as u64).set(Reg::Rcx, c as u64).set(
                    Reg::Rdx,
                    d as u64,
                ),
            )
        },
        Insn::SseRr { op, dst, src } => match packed(op, m.xmms[dst], m.xmms[src]) {
            Some(lanes) => Some(m.set_lanes(dst, lanes)),
            None => Some(m.set_lanes(dst, floated(world, op, m.xmms[dst], m.xmms[src]))),
        },
        Insn::MovqFromXmm { dst, src } => Some(m.set(dst, m.xmms[src].0)),
        Insn::MovqToXmm { dst, src } => Some(m.set_lanes(dst, (m.regs[src], 0))),
        Insn::Psrldq { xmm, amount } => if amount == 8 {
            Some(m.set_lanes(xmm, (m.xmms[xmm].1, 0)))
        } else {
            None
        },
        Insn::MovdquLoad { xmm, mem } => {
            let a = m.address(world, mem);
            Some(m.set_lanes(xmm, (word_at(m.mem, a), word_at(m.mem, a + 8))))
        },
        Insn::MovdquStore { mem, xmm } => {
            let a = m.address(world, mem);
            Some(
                m.store(Width::Quad, a, m.xmms[xmm].0 as int).store(
                    Width::Quad,
                    a + 8,
                    m.xmms[xmm].1 as int,
                ),
            )
        },
        Insn::MovsLoad { width, xmm, mem } => {
            let a = m.address(world, mem);
            match width {
                FloatWidth::F64 => Some(m.set_lanes(xmm, (word_at(m.mem, a), 0))),
                FloatWidth::F32 => Some(
                    m.set_lanes(xmm, (m.load(Width::Long, a) as u64, 0)),
                ),
            }
        },
        Insn::MovsStore { width, mem, xmm } => {
            let a = m.address(world, mem);
            match width {
                FloatWidth::F64 => Some(m.store(Width::Quad, a, m.xmms[xmm].0 as int)),
                FloatWidth::F32 => Some(
                    m.store(Width::Long, a, cut(Width::Long, m.xmms[xmm].0 as int)),
                ),
            }
        },
        _ => None,
    }
}

/// What comes of running a program for a while.
pub enum Outcome {
    /// It is about to run the instruction at this position.
    At(int, Machine),
    /// It reached an instruction that always faults.
    Trapped(Machine),
    /// It returned to its caller.
    Returned(Machine),
    /// It went on to another routine, for good.
    Left(Symbol, Machine),
    /// It is about to call another routine, and will go on at this position.
    Called(Symbol, int, Machine),
    /// It left the model.
    Lost,
}

/// One step, at position `pc`.
#[verifier::opaque]
pub open spec fn step(world: World, program: Seq<Insn>, pc: int, m: Machine) -> Outcome {
    if pc < 0 || pc >= program.len() {
        Outcome::Lost
    } else {
        match program[pc] {
            Insn::Jmp { to, .. } => Outcome::At(pc + to.distance(), m),
            Insn::Jcc { cond, to, .. } => Outcome::At(
                pc + (if m.flags.holds(cond) {
                    to.distance()
                } else {
                    1
                }),
                m,
            ),
            Insn::Ret => Outcome::Returned(m.set(Reg::Rsp, wrap(m.regs[Reg::Rsp] + 8))),
            Insn::Ud2 => Outcome::Trapped(m),
            Insn::JmpSymbol(symbol) => Outcome::Left(symbol, m),
            Insn::Call(symbol) => Outcome::Called(symbol, pc + 1, m),
            Insn::CallReg(reg) => Outcome::Called((world.routine)(m.regs[reg]), pc + 1, m),
            insn => match effect(world, insn, m) {
                Some(next) => Outcome::At(pc + 1, next),
                None => Outcome::Lost,
            },
        }
    }
}

/// `n` steps from position `pc`.
pub open spec fn steps(world: World, program: Seq<Insn>, pc: int, m: Machine, n: nat) -> Outcome
    decreases n,
{
    if n == 0 {
        Outcome::At(pc, m)
    } else {
        match step(world, program, pc, m) {
            Outcome::At(pc2, m2) => steps(world, program, pc2, m2, (n - 1) as nat),
            outcome => if n == 1 {
                outcome
            } else {
                Outcome::Lost
            },
        }
    }
}

/// Whether a program, started at position `pc`, comes to an outcome.
#[verifier::opaque]
pub open spec fn comes_to(
    world: World,
    program: Seq<Insn>,
    pc: int,
    m: Machine,
    outcome: Outcome,
) -> bool {
    exists|n: nat| #[trigger] steps(world, program, pc, m, n) == outcome
}

/// Whether a program runs from its start to its end.
pub open spec fn flows(world: World, program: Seq<Insn>, before: Machine, after: Machine) -> bool {
    comes_to(world, program, 0, before, Outcome::At(program.len() as int, after))
}

proof fn lemma_steps_add(
    world: World,
    program: Seq<Insn>,
    pc: int,
    m: Machine,
    a: nat,
    pc2: int,
    m2: Machine,
    b: nat,
)
    requires
        steps(world, program, pc, m, a) == Outcome::At(pc2, m2),
    ensures
        steps(world, program, pc, m, a + b) == steps(world, program, pc2, m2, b),
    decreases a,
{
    if a > 0 {
        match step(world, program, pc, m) {
            Outcome::At(pc1, m1) => {
                lemma_steps_add(world, program, pc1, m1, (a - 1) as nat, pc2, m2, b);
                assert((a + b - 1) as nat == (a - 1) as nat + b);
            },
            _ => {},
        }
    }
}

/// Running on from where a program has come to.
pub proof fn law_running_on(
    world: World,
    program: Seq<Insn>,
    pc: int,
    m: Machine,
    pc2: int,
    m2: Machine,
    outcome: Outcome,
)
    requires
        comes_to(world, program, pc, m, Outcome::At(pc2, m2)),
        comes_to(world, program, pc2, m2, outcome),
    ensures
        comes_to(world, program, pc, m, outcome),
{
    reveal(comes_to);
    let a = choose|n: nat| #[trigger] steps(world, program, pc, m, n) == Outcome::At(pc2, m2);
    let b = choose|n: nat| #[trigger] steps(world, program, pc2, m2, n) == outcome;
    lemma_steps_add(world, program, pc, m, a, pc2, m2, b);
    assert(steps(world, program, pc, m, a + b) == outcome);
}

/// One step.
pub proof fn law_one_step(world: World, program: Seq<Insn>, pc: int, m: Machine)
    ensures
        comes_to(world, program, pc, m, step(world, program, pc, m)),
        comes_to(world, program, pc, m, Outcome::At(pc, m)),
{
    reveal(comes_to);
    assert(steps(world, program, pc, m, 0) == Outcome::At(pc, m));
    reveal_with_fuel(steps, 2);
    assert(steps(world, program, pc, m, 1) == step(world, program, pc, m));
}

/// Going one step on from where a program has come to.
pub proof fn law_then_step(
    world: World,
    program: Seq<Insn>,
    start: int,
    m0: Machine,
    pc: int,
    m: Machine,
)
    requires
        comes_to(world, program, start, m0, Outcome::At(pc, m)),
    ensures
        comes_to(world, program, start, m0, step(world, program, pc, m)),
{
    law_one_step(world, program, pc, m);
    law_running_on(world, program, start, m0, pc, m, step(world, program, pc, m));
}

/// The outcome of a part, seen from the program it stands in behind `by` instructions.
pub open spec fn outcome_moved(outcome: Outcome, by: int) -> Outcome {
    match outcome {
        Outcome::At(pc, m) => Outcome::At(pc + by, m),
        Outcome::Called(symbol, back, m) => Outcome::Called(symbol, back + by, m),
        other => other,
    }
}

/// Whether `part` stands in `whole` from position `at` on.
pub open spec fn part_of(part: Seq<Insn>, whole: Seq<Insn>, at: int) -> bool {
    &&& 0 <= at
    &&& at + part.len() <= whole.len()
    &&& forall|i: int| 0 <= i < part.len() ==> #[trigger] part[i] == whole[at + i]
}

proof fn lemma_part_steps(
    world: World,
    part: Seq<Insn>,
    whole: Seq<Insn>,
    at: int,
    pc: int,
    m: Machine,
    n: nat,
)
    requires
        part_of(part, whole, at),
        !(steps(world, part, pc, m, n) is Lost),
    ensures
        steps(world, whole, at + pc, m, n) == outcome_moved(steps(world, part, pc, m, n), at),
    decreases n,
{
    reveal(step);
    if n > 0 {
        assert(0 <= pc < part.len());
        assert(part[pc] == whole[at + pc]);
        match step(world, part, pc, m) {
            Outcome::At(pc2, m2) => {
                assert(step(world, whole, at + pc, m) == Outcome::At(at + pc2, m2));
                lemma_part_steps(world, part, whole, at, pc2, m2, (n - 1) as nat);
            },
            _ => {},
        }
    }
}

/// A part runs in a program as it does alone: jumps count instructions from themselves.
pub proof fn law_parts_run_alike(
    world: World,
    part: Seq<Insn>,
    whole: Seq<Insn>,
    at: int,
    pc: int,
    m: Machine,
    outcome: Outcome,
)
    requires
        part_of(part, whole, at),
        comes_to(world, part, pc, m, outcome),
        !(outcome is Lost),
    ensures
        comes_to(world, whole, at + pc, m, outcome_moved(outcome, at)),
{
    reveal(comes_to);
    let n = choose|n: nat| #[trigger] steps(world, part, pc, m, n) == outcome;
    lemma_part_steps(world, part, whole, at, pc, m, n);
}

/// Two programs in sequence run one after the other.
pub proof fn law_programs_run_in_sequence(
    world: World,
    first: Seq<Insn>,
    next: Seq<Insn>,
    m: Machine,
    m1: Machine,
    outcome: Outcome,
)
    requires
        flows(world, first, m, m1),
        comes_to(world, next, 0, m1, outcome),
        !(outcome is Lost),
    ensures
        comes_to(world, first + next, 0, m, outcome_moved(outcome, first.len() as int)),
        outcome is At && outcome->At_0 == next.len() ==> flows(
            world,
            first + next,
            m,
            outcome->At_1,
        ),
{
    let whole = first + next;
    law_parts_run_alike(
        world,
        first,
        whole,
        0,
        0,
        m,
        Outcome::At(first.len() as int, m1),
    );
    law_parts_run_alike(world, next, whole, first.len() as int, 0, m1, outcome);
    law_running_on(
        world,
        whole,
        0,
        m,
        first.len() as int,
        m1,
        outcome_moved(outcome, first.len() as int),
    );
}

// Determinism

proof fn lemma_lost_after(
    world: World,
    program: Seq<Insn>,
    pc: int,
    m: Machine,
    n: nat,
    more: nat,
)
    requires
        more > 0,
        match steps(world, program, pc, m, n) {
            Outcome::At(pc2, _) => pc2 < 0 || pc2 >= program.len(),
            _ => true,
        },
    ensures
        steps(world, program, pc, m, n + more) is Lost,
    decreases n,
{
    if n == 0 {
        reveal(step);
        reveal_with_fuel(steps, 2);
    } else {
        match step(world, program, pc, m) {
            Outcome::At(pc2, m2) => {
                lemma_lost_after(world, program, pc2, m2, (n - 1) as nat, more);
                assert((n + more - 1) as nat == (n - 1) as nat + more);
            },
            _ => {},
        }
    }
}

/// Whether nothing more happens after an outcome.
pub open spec fn settled(program: Seq<Insn>, outcome: Outcome) -> bool {
    match outcome {
        Outcome::At(pc, _) => pc < 0 || pc >= program.len(),
        Outcome::Lost => false,
        _ => true,
    }
}

/// A program comes to one end only.
pub proof fn law_ends_are_unique(
    world: World,
    program: Seq<Insn>,
    pc: int,
    m: Machine,
    a: Outcome,
    b: Outcome,
)
    requires
        comes_to(world, program, pc, m, a),
        comes_to(world, program, pc, m, b),
        settled(program, a),
        settled(program, b),
    ensures
        a == b,
{
    reveal(comes_to);
    let i = choose|n: nat| #[trigger] steps(world, program, pc, m, n) == a;
    let j = choose|n: nat| #[trigger] steps(world, program, pc, m, n) == b;
    if i < j {
        lemma_lost_after(world, program, pc, m, i, (j - i) as nat);
    } else if j < i {
        lemma_lost_after(world, program, pc, m, j, (i - j) as nat);
    }
}

} // verus!
