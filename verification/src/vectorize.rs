//! Vectorized array loops.
//!
//! A `for` loop that reduces an array or maps arrays element by element is emitted as a
//! loop over pairs of elements, two to an SSE register, and a loop over what is left. A
//! guard before the loops traps unless the whole range lies inside the arrays, so the
//! loops themselves check nothing.

use crate::context::NativeCtx;
use crate::mnemonics::{
    alu, alu_acc, alu_imm8, alu_load, at, cmov, frame, imul_imm32, jcc, jcc_short, jmp, load_local,
    mov, set_q, store_local,
};
use crate::runtime::extend;
use crate::x86::Alu::{Add, And, Cmp, Or, Sub, Xor};
use crate::x86::Cond::{Ae, B, G, L};
use crate::x86::Insn::Ud2;
use crate::x86::Reg::{Rax, Rcx, Rdx};
use crate::x86::Xmm::{Xmm0, Xmm1, Xmm2, Xmm3};
use crate::x86::{Cond, FloatWidth, Insn, Reg, ScalarOp, Sse, Xmm};
use vstd::prelude::*;

verus! {

/// `op dst, src`
#[verifier::allow_in_spec]
pub fn sse(op: Sse, dst: Xmm, src: Xmm) -> Insn
    returns
        (Insn::SseRr { op, dst, src }),
{
    Insn::SseRr { op, dst, src }
}

/// `movdqu xmm, [rcx]`
#[verifier::allow_in_spec]
pub fn movdqu_from_rcx(xmm: Xmm) -> Insn
    returns
        (Insn::MovdquLoad { xmm, mem: at(Rcx) }),
{
    Insn::MovdquLoad { xmm, mem: at(Rcx) }
}

/// `movsd xmm, [rcx]`
#[verifier::allow_in_spec]
pub fn movsd_from_rcx(xmm: Xmm) -> Insn
    returns
        (Insn::MovsLoad { width: FloatWidth::F64, xmm, mem: at(Rcx) }),
{
    Insn::MovsLoad { width: FloatWidth::F64, xmm, mem: at(Rcx) }
}

/// `op xmm0, xmm1` on the low lane.
#[verifier::allow_in_spec]
pub fn scalar_double(op: ScalarOp) -> Insn
    returns
        (Insn::SseRr { op: Sse::Scalar(FloatWidth::F64, op), dst: Xmm0, src: Xmm1 }),
{
    Insn::SseRr { op: Sse::Scalar(FloatWidth::F64, op), dst: Xmm0, src: Xmm1 }
}

// Bounds

/// `imul rax, rax, imm`
#[verifier::allow_in_spec]
pub fn imul_rax_imm(imm: i64) -> Insn
    returns
        (imul_imm32(Rax, Rax, imm as i32)),
{
    imul_imm32(Rax, Rax, imm as i32)
}

/// Traps unless the index in `rax` is below `len`; a negative one is a huge unsigned
/// number.
pub open spec fn bounds_check(len: i64) -> Seq<Insn> {
    seq![alu_acc(Cmp, len as i32), jcc_short(B, 2), Ud2]
}

/// Emits a check of the index in `rax` against a static array length.
pub fn emit_bounds_check_rax(program: &mut Vec<Insn>, len: i64)
    ensures
        final(program)@ == old(program)@ + bounds_check(len),
{
    let block = vec![alu_acc(Cmp, len as i32), jcc_short(B, 2), Ud2];
    assert(block@ =~= bounds_check(len));
    extend(program, block);
}

/// Traps unless the index in `rax` is below the length kept in a frame slot.
pub open spec fn bounds_check_against_slot(len_slot: i32) -> Seq<Insn> {
    seq![alu_load(Cmp, Rax, frame(len_slot)), jcc_short(B, 2), Ud2]
}

/// Emits a check of the index in `rax` against a fat-pointer array's length word.
pub fn emit_bounds_check_rax_against_slot(program: &mut Vec<Insn>, len_slot: i32)
    ensures
        final(program)@ == old(program)@ + bounds_check_against_slot(len_slot),
{
    let block = vec![alu_load(Cmp, Rax, frame(len_slot)), jcc_short(B, 2), Ud2];
    assert(block@ =~= bounds_check_against_slot(len_slot));
    extend(program, block);
}

/// Traps unless the range from the start to the end slot, where it is not empty, lies
/// inside an array of `len` elements.
pub open spec fn loop_bounds_guard(i_slot: i32, end_slot: i32, len: i64) -> Seq<Insn> {
    seq![
        load_local(i_slot),
        alu_load(Cmp, Rax, frame(end_slot)),
        jcc(G, 8),
        alu_imm8(Cmp, Rax, 0),
        jcc(L, 5),
        load_local(end_slot),
        alu_acc(Cmp, len as i32),
        jcc(Ae, 2),
        jmp(2),
        Ud2,
    ]
}

/// Emits the guard before a vectorized loop.
pub fn emit_loop_bounds_guard(program: &mut Vec<Insn>, i_slot: i32, end_slot: i32, len: i64)
    ensures
        final(program)@ == old(program)@ + loop_bounds_guard(i_slot, end_slot, len),
{
    let block = vec![
        load_local(i_slot),
        alu_load(Cmp, Rax, frame(end_slot)),
        jcc(G, 8),
        alu_imm8(Cmp, Rax, 0),
        jcc(L, 5),
        load_local(end_slot),
        alu_acc(Cmp, len as i32),
        jcc(Ae, 2),
        jmp(2),
        Ud2,
    ];
    assert(block@ =~= loop_bounds_guard(i_slot, end_slot, len));
    extend(program, block);
}

// Operations

/// The integer minimum and maximum reductions.
#[derive(Clone, Copy, PartialEq, Eq, Structural, Debug)]
pub enum MinMaxOp {
    Min,
    Max,
}

impl MinMaxOp {
    /// The value every element wins against.
    #[verifier::allow_in_spec]
    pub fn identity(self) -> i64
        returns
            (match self {
                MinMaxOp::Max => i64::MIN,
                MinMaxOp::Min => i64::MAX,
            }),
    {
        match self {
            MinMaxOp::Max => i64::MIN,
            MinMaxOp::Min => i64::MAX,
        }
    }

    /// The condition on which the other operand is taken.
    #[verifier::allow_in_spec]
    pub fn takes(self) -> Cond
        returns
            (match self {
                MinMaxOp::Max => L,
                MinMaxOp::Min => G,
            }),
    {
        match self {
            MinMaxOp::Max => L,
            MinMaxOp::Min => G,
        }
    }

    /// Broadcasts the identity into both lanes of `xmm0`.
    pub open spec fn packed_seed(self) -> Seq<Insn> {
        seq![
            set_q(Rax, self.identity()),
            Insn::MovqToXmm { dst: Xmm0, src: Rax },
            sse(Sse::Punpcklqdq, Xmm0, Xmm0),
        ]
    }

    /// Emits the packed identity.
    pub fn emit_packed_seed(self, program: &mut Vec<Insn>)
        ensures
            final(program)@ == old(program)@ + self.packed_seed(),
    {
        let block = vec![
            set_q(Rax, self.identity()),
            Insn::MovqToXmm { dst: Xmm0, src: Rax },
            sse(Sse::Punpcklqdq, Xmm0, Xmm0),
        ];
        assert(block@ =~= self.packed_seed());
        extend(program, block);
    }

    /// Combines `xmm1` into `xmm0` lane by lane: the mask of the lanes where `xmm0` is
    /// greater picks between the two.
    pub open spec fn packed(self) -> Seq<Insn> {
        let (greater, other) = match self {
            MinMaxOp::Max => (Xmm0, Xmm1),
            MinMaxOp::Min => (Xmm1, Xmm0),
        };
        seq![
            sse(Sse::Movdqa, Xmm2, Xmm0),
            sse(Sse::Pcmpgtq, Xmm2, Xmm1),
            sse(Sse::Movdqa, Xmm3, Xmm2),
            sse(Sse::Pand, Xmm3, greater),
            sse(Sse::Pandn, Xmm2, other),
            sse(Sse::Por, Xmm3, Xmm2),
            sse(Sse::Movdqa, Xmm0, Xmm3),
        ]
    }

    /// Emits the packed combination.
    pub fn emit_packed(self, program: &mut Vec<Insn>)
        ensures
            final(program)@ == old(program)@ + self.packed(),
    {
        let (greater, other) = match self {
            MinMaxOp::Max => (Xmm0, Xmm1),
            MinMaxOp::Min => (Xmm1, Xmm0),
        };
        let block = vec![
            sse(Sse::Movdqa, Xmm2, Xmm0),
            sse(Sse::Pcmpgtq, Xmm2, Xmm1),
            sse(Sse::Movdqa, Xmm3, Xmm2),
            sse(Sse::Pand, Xmm3, greater),
            sse(Sse::Pandn, Xmm2, other),
            sse(Sse::Por, Xmm3, Xmm2),
            sse(Sse::Movdqa, Xmm0, Xmm3),
        ];
        assert(block@ =~= self.packed());
        extend(program, block);
    }

    /// Combines `rcx` into `rax` without a branch.
    pub open spec fn scalar(self) -> Seq<Insn> {
        seq![alu(Cmp, Rax, Rcx), cmov(self.takes(), Rax, Rcx)]
    }

    /// Emits the scalar combination.
    pub fn emit_scalar_rax_rcx(self, program: &mut Vec<Insn>)
        ensures
            final(program)@ == old(program)@ + self.scalar(),
    {
        let block = vec![alu(Cmp, Rax, Rcx), cmov(self.takes(), Rax, Rcx)];
        assert(block@ =~= self.scalar());
        extend(program, block);
    }

    /// Combines the element in `rax` into the accumulator.
    pub open spec fn reduce_into_acc(self, acc: Option<Reg>, acc_slot: i32) -> Seq<Insn> {
        seq![mov(Rcx, Rax), acc_to_rax(acc, acc_slot)] + self.scalar() + seq![
            acc_from_rax(acc, acc_slot),
        ]
    }

    /// Emits the combination into the accumulator, in its register if it has one.
    pub fn emit_reduce_into_acc(self, ctx: &NativeCtx, acc_slot: i32, program: &mut Vec<Insn>)
        ensures
            final(program)@ == old(program)@ + self.reduce_into_acc(
                ctx.register_of(acc_slot),
                acc_slot,
            ),
    {
        let acc = ctx.promoted_reg(acc_slot);
        program.push(mov(Rcx, Rax));
        program.push(acc_to_rax(acc, acc_slot));
        self.emit_scalar_rax_rcx(program);
        program.push(acc_from_rax(acc, acc_slot));
        assert(program@ =~= old(program)@ + self.reduce_into_acc(acc, acc_slot));
    }
}

/// Loads the accumulator into `rax`.
#[verifier::allow_in_spec]
pub fn acc_to_rax(acc: Option<Reg>, slot: i32) -> Insn
    returns
        (match acc {
            Some(reg) => mov(Rax, reg),
            None => load_local(slot),
        }),
{
    match acc {
        Some(reg) => mov(Rax, reg),
        None => load_local(slot),
    }
}

/// Stores `rax` into the accumulator.
#[verifier::allow_in_spec]
pub fn acc_from_rax(acc: Option<Reg>, slot: i32) -> Insn
    returns
        (match acc {
            Some(reg) => mov(reg, Rax),
            None => store_local(slot),
        }),
{
    match acc {
        Some(reg) => mov(reg, Rax),
        None => store_local(slot),
    }
}

/// The reductions that are exact in any order: addition modulo 2^64 and the bitwise
/// operations.
#[derive(Clone, Copy, PartialEq, Eq, Structural, Debug)]
pub enum ReduceOp {
    Add,
    And,
    Or,
    Xor,
}

impl ReduceOp {
    /// The operation on general registers.
    #[verifier::allow_in_spec]
    pub fn alu_op(self) -> crate::x86::Alu
        returns
            (match self {
                ReduceOp::Add => Add,
                ReduceOp::And => And,
                ReduceOp::Or => Or,
                ReduceOp::Xor => Xor,
            }),
    {
        match self {
            ReduceOp::Add => Add,
            ReduceOp::And => And,
            ReduceOp::Or => Or,
            ReduceOp::Xor => Xor,
        }
    }

    /// Seeds `xmm0` with the identity: all ones for `and`, zero for the others.
    #[verifier::allow_in_spec]
    pub fn packed_identity(self) -> Insn
        returns
            (match self {
                ReduceOp::And => sse(Sse::Pcmpeqd, Xmm0, Xmm0),
                _ => sse(Sse::Pxor, Xmm0, Xmm0),
            }),
    {
        match self {
            ReduceOp::And => sse(Sse::Pcmpeqd, Xmm0, Xmm0),
            _ => sse(Sse::Pxor, Xmm0, Xmm0),
        }
    }

    /// Combines `xmm1` into `xmm0` lane by lane.
    #[verifier::allow_in_spec]
    pub fn packed(self) -> Insn
        returns
            (match self {
                ReduceOp::Add => sse(Sse::Paddq, Xmm0, Xmm1),
                ReduceOp::And => sse(Sse::Pand, Xmm0, Xmm1),
                ReduceOp::Or => sse(Sse::Por, Xmm0, Xmm1),
                ReduceOp::Xor => sse(Sse::Pxor, Xmm0, Xmm1),
            }),
    {
        match self {
            ReduceOp::Add => sse(Sse::Paddq, Xmm0, Xmm1),
            ReduceOp::And => sse(Sse::Pand, Xmm0, Xmm1),
            ReduceOp::Or => sse(Sse::Por, Xmm0, Xmm1),
            ReduceOp::Xor => sse(Sse::Pxor, Xmm0, Xmm1),
        }
    }
}

/// Folds the two lanes of `xmm0` into `rax`.
pub open spec fn hfold(op: ReduceOp) -> Seq<Insn> {
    seq![
        Insn::MovqFromXmm { dst: Rax, src: Xmm0 },
        Insn::Psrldq { xmm: Xmm0, amount: 8 },
        Insn::MovqFromXmm { dst: Rcx, src: Xmm0 },
        alu(op.alu_op(), Rax, Rcx),
    ]
}

/// Emits the fold of the two packed lanes.
pub fn emit_hfold_xmm0_into_rax(op: ReduceOp, program: &mut Vec<Insn>)
    ensures
        final(program)@ == old(program)@ + hfold(op),
{
    let block = vec![
        Insn::MovqFromXmm { dst: Rax, src: Xmm0 },
        Insn::Psrldq { xmm: Xmm0, amount: 8 },
        Insn::MovqFromXmm { dst: Rcx, src: Xmm0 },
        alu(op.alu_op(), Rax, Rcx),
    ];
    assert(block@ =~= hfold(op));
    extend(program, block);
}

/// Combines `rax` into the accumulator.
pub open spec fn reduce_into_acc(acc: Option<Reg>, acc_slot: i32, op: ReduceOp) -> Seq<Insn> {
    seq![
        mov(Rdx, Rax),
        acc_to_rax(acc, acc_slot),
        alu(op.alu_op(), Rax, Rdx),
        acc_from_rax(acc, acc_slot),
    ]
}

/// Emits the combination into the accumulator, in its register if it has one.
pub fn emit_reduce_into_acc(
    ctx: &NativeCtx,
    acc_slot: i32,
    op: ReduceOp,
    program: &mut Vec<Insn>,
)
    ensures
        final(program)@ == old(program)@ + reduce_into_acc(
            ctx.register_of(acc_slot),
            acc_slot,
            op,
        ),
{
    let acc = ctx.promoted_reg(acc_slot);
    let block = vec![
        mov(Rdx, Rax),
        acc_to_rax(acc, acc_slot),
        alu(op.alu_op(), Rax, Rdx),
        acc_from_rax(acc, acc_slot),
    ];
    assert(block@ =~= reduce_into_acc(acc, acc_slot, op));
    extend(program, block);
}

/// The integer operations that map element by element.
#[derive(Clone, Copy, PartialEq, Eq, Structural, Debug)]
pub enum MapOp {
    Add,
    Sub,
    And,
    Or,
    Xor,
}

impl MapOp {
    /// Combines `xmm1` into `xmm0` lane by lane.
    #[verifier::allow_in_spec]
    pub fn packed(self) -> Insn
        returns
            (match self {
                MapOp::Add => sse(Sse::Paddq, Xmm0, Xmm1),
                MapOp::Sub => sse(Sse::Psubq, Xmm0, Xmm1),
                MapOp::And => sse(Sse::Pand, Xmm0, Xmm1),
                MapOp::Or => sse(Sse::Por, Xmm0, Xmm1),
                MapOp::Xor => sse(Sse::Pxor, Xmm0, Xmm1),
            }),
    {
        match self {
            MapOp::Add => sse(Sse::Paddq, Xmm0, Xmm1),
            MapOp::Sub => sse(Sse::Psubq, Xmm0, Xmm1),
            MapOp::And => sse(Sse::Pand, Xmm0, Xmm1),
            MapOp::Or => sse(Sse::Por, Xmm0, Xmm1),
            MapOp::Xor => sse(Sse::Pxor, Xmm0, Xmm1),
        }
    }

    /// Leaves left operand `rcx` combined with right operand `rax` in `rax`.
    pub open spec fn scalar_tail(self) -> Seq<Insn> {
        match self {
            MapOp::Add => seq![alu(Add, Rax, Rcx)],
            MapOp::And => seq![alu(And, Rax, Rcx)],
            MapOp::Or => seq![alu(Or, Rax, Rcx)],
            MapOp::Xor => seq![alu(Xor, Rax, Rcx)],
            MapOp::Sub => seq![alu(Sub, Rcx, Rax), mov(Rax, Rcx)],
        }
    }

    /// Emits the scalar combination.
    pub fn emit_scalar_tail(self, program: &mut Vec<Insn>)
        ensures
            final(program)@ == old(program)@ + self.scalar_tail(),
    {
        match self {
            MapOp::Add => program.push(alu(Add, Rax, Rcx)),
            MapOp::And => program.push(alu(And, Rax, Rcx)),
            MapOp::Or => program.push(alu(Or, Rax, Rcx)),
            MapOp::Xor => program.push(alu(Xor, Rax, Rcx)),
            MapOp::Sub => {
                program.push(alu(Sub, Rcx, Rax));
                program.push(mov(Rax, Rcx));
            },
        }
        assert(program@ =~= old(program)@ + self.scalar_tail());
    }
}

/// The double-precision operations that map element by element.
#[derive(Clone, Copy, PartialEq, Eq, Structural, Debug)]
pub enum FloatMapOp {
    Add,
    Sub,
    Mul,
}

impl FloatMapOp {
    /// Combines `xmm1` into `xmm0` lane by lane.
    #[verifier::allow_in_spec]
    pub fn packed(self) -> Insn
        returns
            (match self {
                FloatMapOp::Add => sse(Sse::Addpd, Xmm0, Xmm1),
                FloatMapOp::Sub => sse(Sse::Subpd, Xmm0, Xmm1),
                FloatMapOp::Mul => sse(Sse::Mulpd, Xmm0, Xmm1),
            }),
    {
        match self {
            FloatMapOp::Add => sse(Sse::Addpd, Xmm0, Xmm1),
            FloatMapOp::Sub => sse(Sse::Subpd, Xmm0, Xmm1),
            FloatMapOp::Mul => sse(Sse::Mulpd, Xmm0, Xmm1),
        }
    }

    /// Combines the low lane of `xmm1` into that of `xmm0`.
    #[verifier::allow_in_spec]
    pub fn scalar(self) -> Insn
        returns
            (match self {
                FloatMapOp::Add => scalar_double(ScalarOp::Plus),
                FloatMapOp::Sub => scalar_double(ScalarOp::Minus),
                FloatMapOp::Mul => scalar_double(ScalarOp::Times),
            }),
    {
        match self {
            FloatMapOp::Add => scalar_double(ScalarOp::Plus),
            FloatMapOp::Sub => scalar_double(ScalarOp::Minus),
            FloatMapOp::Mul => scalar_double(ScalarOp::Times),
        }
    }
}

/// What an element-wise map does to its elements.
#[derive(Clone, Copy, PartialEq, Eq, Structural, Debug)]
pub enum MapKind {
    Int(MapOp),
    Float(FloatMapOp),
}

impl MapKind {
    /// Combines `xmm1` into `xmm0` lane by lane.
    #[verifier::allow_in_spec]
    pub fn packed(self) -> Insn
        returns
            (match self {
                MapKind::Int(op) => op.packed(),
                MapKind::Float(op) => op.packed(),
            }),
    {
        match self {
            MapKind::Int(op) => op.packed(),
            MapKind::Float(op) => op.packed(),
        }
    }
}

} // verus!
