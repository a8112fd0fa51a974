//! The loops of vectorized reductions and maps.

use crate::assembler::CodeBuffer;
use crate::bytecode::BytecodeExpr;
use crate::context::{unknown_local, NativeCtx};
use crate::emission::{
    emit, emit_insn, emit_program, fits, lemma_emit_step, tells, Emission,
};
use crate::mnemonics::{
    alu, alu_imm32, alu_imm8, alu_load, at, frame, jcc, jmp, jmp_back, load, load_local, mov, mov_d,
    set_q, shift, store, store_float_local, store_local,
};
use crate::runtime::extend;
use crate::vectorize::{
    emit_hfold_xmm0_into_rax, emit_loop_bounds_guard, emit_reduce_into_acc, hfold,
    loop_bounds_guard, movdqu_from_rcx, movsd_from_rcx, reduce_into_acc, scalar_double, sse,
    MapKind, MinMaxOp, ReduceOp,
};
use crate::x86::Alu::{Add, Cmp, Sub};
use crate::x86::Cond::{E, G, Ge};
use crate::x86::Insn::{Cpuid, Pop, Push};
use crate::x86::Reg::{Rax, Rbp, Rbx, Rcx, Rdx};
use crate::x86::Xmm::{Xmm0, Xmm1, Xmm2};
use crate::x86::{FloatWidth, Insn, Reg, ScalarOp, Shift, Sse};
use vstd::prelude::*;

verus! {

/// While `i < end`: `body`, then `i += 2`. The body finds `i + 1` in `rax`; it is computed
/// behind the test, so that the largest counter does not wrap into the loop.
pub open spec fn pair_loop(i_slot: i32, end_slot: i32, body: Seq<Insn>) -> Seq<Insn> {
    seq![
        load_local(i_slot),
        alu_load(Cmp, Rax, frame(end_slot)),
        jcc(Ge, (body.len() + 6) as u16),
        alu_imm8(Add, Rax, 1),
    ] + body + seq![
        load_local(i_slot),
        alu_imm8(Add, Rax, 2),
        store_local(i_slot),
        jmp_back((body.len() + 7) as u16),
    ]
}

/// While `i <= end`: `body`, then `i += 1`. The body finds `i` in `rax`.
pub open spec fn single_loop(i_slot: i32, end_slot: i32, body: Seq<Insn>) -> Seq<Insn> {
    seq![
        load_local(i_slot),
        alu_load(Cmp, Rax, frame(end_slot)),
        jcc(G, (body.len() + 5) as u16),
    ] + body + seq![
        load_local(i_slot),
        alu_imm8(Add, Rax, 1),
        store_local(i_slot),
        jmp_back((body.len() + 6) as u16),
    ]
}

/// Emits a loop over pairs.
fn emit_pair_loop(program: &mut Vec<Insn>, i_slot: i32, end_slot: i32, body: Vec<Insn>)
    requires
        body@.len() <= 1000,
    ensures
        final(program)@ == old(program)@ + pair_loop(i_slot, end_slot, body@),
{
    let count: u16 = body.len() as u16;
    program.push(load_local(i_slot));
    program.push(alu_load(Cmp, Rax, frame(end_slot)));
    program.push(jcc(Ge, count + 6));
    program.push(alu_imm8(Add, Rax, 1));
    extend(program, body);
    program.push(load_local(i_slot));
    program.push(alu_imm8(Add, Rax, 2));
    program.push(store_local(i_slot));
    program.push(jmp_back(count + 7));
    assert(program@ =~= old(program)@ + pair_loop(i_slot, end_slot, body@));
}

/// Emits a loop over single elements.
fn emit_single_loop(program: &mut Vec<Insn>, i_slot: i32, end_slot: i32, body: Vec<Insn>)
    requires
        body@.len() <= 1000,
    ensures
        final(program)@ == old(program)@ + single_loop(i_slot, end_slot, body@),
{
    let count: u16 = body.len() as u16;
    program.push(load_local(i_slot));
    program.push(alu_load(Cmp, Rax, frame(end_slot)));
    program.push(jcc(G, count + 5));
    extend(program, body);
    program.push(load_local(i_slot));
    program.push(alu_imm8(Add, Rax, 1));
    program.push(store_local(i_slot));
    program.push(jmp_back(count + 6));
    assert(program@ =~= old(program)@ + single_loop(i_slot, end_slot, body@));
}

/// The address `rdx` bytes above the array at frame slot `base`, less `bias`, in `rcx`.
pub open spec fn block_addr(base: i32, bias: i32) -> Seq<Insn> {
    seq![
        mov(Rcx, Rbp),
        alu(Add, Rcx, Rdx),
        alu_imm32(Sub, Rcx, base.wrapping_add(bias)),
    ]
}

fn emit_block_addr(program: &mut Vec<Insn>, base: i32, bias: i32)
    ensures
        final(program)@ == old(program)@ + block_addr(base, bias),
{
    program.push(mov(Rcx, Rbp));
    program.push(alu(Add, Rcx, Rdx));
    program.push(alu_imm32(Sub, Rcx, base.wrapping_add(bias)));
    assert(program@ =~= old(program)@ + block_addr(base, bias));
}

/// The address of the element whose index is in `rax`, less `bias` bytes, in `rcx`.
pub open spec fn element_addr(base: i32, bias: i32) -> Seq<Insn> {
    seq![
        shift(Shift::Shl, Rax, 3),
        mov(Rcx, Rbp),
        alu(Add, Rcx, Rax),
        alu_imm32(Sub, Rcx, base.wrapping_add(bias)),
    ]
}

fn emit_element_addr(program: &mut Vec<Insn>, base: i32, bias: i32)
    ensures
        final(program)@ == old(program)@ + element_addr(base, bias),
{
    program.push(shift(Shift::Shl, Rax, 3));
    program.push(mov(Rcx, Rbp));
    program.push(alu(Add, Rcx, Rax));
    program.push(alu_imm32(Sub, Rcx, base.wrapping_add(bias)));
    assert(program@ =~= old(program)@ + element_addr(base, bias));
}

/// Loads the element of the `i64` array at frame slot `base` whose index is in slot
/// `i_slot` into `rax`.
pub open spec fn load_array_elem(i_slot: i32, base: i32) -> Seq<Insn> {
    seq![load_local(i_slot)] + element_addr(base, 0) + seq![load(Rax, at(Rcx))]
}

/// Emits the load of an array element.
pub fn emit_load_array_elem(program: &mut Vec<Insn>, i_slot: i32, base: i32)
    ensures
        final(program)@ == old(program)@ + load_array_elem(i_slot, base),
{
    program.push(load_local(i_slot));
    emit_element_addr(program, base, 0);
    program.push(load(Rax, at(Rcx)));
    assert(program@ =~= old(program)@ + load_array_elem(i_slot, base));
}

// Reductions

/// A reduction `acc op= a[i]` over an `i64` array whose element 0 lies at a frame slot.
#[derive(Clone, Copy, PartialEq, Eq, Structural, Debug)]
pub struct Reduction {
    pub acc_slot: i32,
    pub array_base_static: i32,
    pub array_len: i64,
    pub op: ReduceOp,
}

/// The code of a reduction behind its range: the guard, the packed loop, the fold of its
/// lanes, the loop over a last element.
pub open spec fn reduction_program(
    i_slot: i32,
    end_slot: i32,
    acc: Option<Reg>,
    red: Reduction,
) -> Seq<Insn> {
    loop_bounds_guard(i_slot, end_slot, red.array_len) + seq![red.op.packed_identity()]
        + pair_loop(
        i_slot,
        end_slot,
        element_addr(red.array_base_static, 8) + seq![movdqu_from_rcx(Xmm1), red.op.packed()],
    ) + hfold(red.op) + reduce_into_acc(acc, red.acc_slot, red.op) + single_loop(
        i_slot,
        end_slot,
        load_array_elem(i_slot, red.array_base_static) + reduce_into_acc(
            acc,
            red.acc_slot,
            red.op,
        ),
    )
}

/// A reduction to the minimum or maximum of an `i64` array.
#[derive(Clone, Copy, PartialEq, Eq, Structural, Debug)]
pub struct MinMaxReduction {
    pub acc_slot: i32,
    pub array_base_static: i32,
    pub array_len: i64,
    pub op: MinMaxOp,
}

/// The feature bit of 64-bit packed comparison.
pub const SSE42_BIT: i32 = 0x10_0000;

/// Asks the processor whether it compares packed 64-bit integers, and jumps over `to`
/// instructions when it does not.
pub open spec fn cpuid_probe(to: u16) -> Seq<Insn> {
    seq![
        Push(Rbx),
        set_q(Rax, 1),
        Cpuid,
        mov_d(Rax, Rcx),
        Pop(Rbx),
        Insn::TestAcc { imm: SSE42_BIT },
        jcc(E, to),
    ]
}

/// Emits the probe.
pub fn emit_cpuid_sse42_probe(program: &mut Vec<Insn>, to: u16)
    ensures
        final(program)@ == old(program)@ + cpuid_probe(to),
{
    let block = vec![
        Push(Rbx),
        set_q(Rax, 1),
        Cpuid,
        mov_d(Rax, Rcx),
        Pop(Rbx),
        Insn::TestAcc { imm: SSE42_BIT },
        jcc(E, to),
    ];
    assert(block@ =~= cpuid_probe(to));
    extend(program, block);
}

/// The loop that folds one element at a time.
pub open spec fn minmax_scalar_loop(
    i_slot: i32,
    end_slot: i32,
    acc: Option<Reg>,
    red: MinMaxReduction,
) -> Seq<Insn> {
    single_loop(
        i_slot,
        end_slot,
        load_array_elem(i_slot, red.array_base_static) + red.op.reduce_into_acc(
            acc,
            red.acc_slot,
        ),
    )
}

/// The packed path: the loop over pairs, the fold of its lanes, the loop over a last
/// element, and the jump over `skip` instructions of the scalar path.
pub open spec fn minmax_packed_path(
    i_slot: i32,
    end_slot: i32,
    acc: Option<Reg>,
    red: MinMaxReduction,
    skip: u16,
) -> Seq<Insn> {
    red.op.packed_seed() + pair_loop(
        i_slot,
        end_slot,
        element_addr(red.array_base_static, 8) + seq![movdqu_from_rcx(Xmm1)] + red.op.packed(),
    ) + seq![
        Insn::MovqFromXmm { dst: Rax, src: Xmm0 },
        Insn::Psrldq { xmm: Xmm0, amount: 8 },
        Insn::MovqFromXmm { dst: Rcx, src: Xmm0 },
    ] + red.op.scalar() + red.op.reduce_into_acc(acc, red.acc_slot) + minmax_scalar_loop(
        i_slot,
        end_slot,
        acc,
        red,
    ) + seq![jmp(skip)]
}

/// The code of a minimum or maximum behind its range: the guard, the probe, the packed
/// path, and the scalar path for processors without packed comparison.
pub open spec fn minmax_program(
    i_slot: i32,
    end_slot: i32,
    acc: Option<Reg>,
    red: MinMaxReduction,
) -> Seq<Insn> {
    let scalar = minmax_scalar_loop(i_slot, end_slot, acc, red);
    let packed = minmax_packed_path(i_slot, end_slot, acc, red, (scalar.len() + 1) as u16);
    loop_bounds_guard(i_slot, end_slot, red.array_len) + cpuid_probe((packed.len() + 1) as u16)
        + packed + scalar
}

/// A sum of a double array, or with `rhs_base` a dot product of two.
#[derive(Clone, Copy, PartialEq, Eq, Structural, Debug)]
pub struct F64Reduction {
    pub acc_slot: i32,
    pub lhs_base: i32,
    pub rhs_base: Option<i32>,
    pub array_len: i64,
}

/// Multiplies the loaded pair by the other array's, for a dot product.
pub open spec fn f64_pair_factor(rhs_base: Option<i32>) -> Seq<Insn> {
    match rhs_base {
        Some(base) => block_addr(base, 8) + seq![
            movdqu_from_rcx(Xmm2),
            sse(Sse::Mulpd, Xmm1, Xmm2),
        ],
        None => seq![],
    }
}

/// Multiplies the loaded element by the other array's, for a dot product.
pub open spec fn f64_single_factor(rhs_base: Option<i32>) -> Seq<Insn> {
    match rhs_base {
        Some(base) => block_addr(base, 0) + seq![
            movsd_from_rcx(Xmm1),
            scalar_double(ScalarOp::Times),
        ],
        None => seq![],
    }
}

/// Loads a double local into `xmm1`.
#[verifier::allow_in_spec]
pub fn movsd_xmm1_from_local(slot: i32) -> Insn
    returns
        (Insn::MovsLoad { width: FloatWidth::F64, xmm: Xmm1, mem: frame(slot) }),
{
    Insn::MovsLoad { width: FloatWidth::F64, xmm: Xmm1, mem: frame(slot) }
}

/// The code of a sum or dot product behind its range.
pub open spec fn f64_program(i_slot: i32, end_slot: i32, red: F64Reduction) -> Seq<Insn> {
    loop_bounds_guard(i_slot, end_slot, red.array_len) + seq![sse(Sse::Pxor, Xmm0, Xmm0)]
        + pair_loop(
        i_slot,
        end_slot,
        seq![shift(Shift::Shl, Rax, 3), mov(Rdx, Rax)] + block_addr(red.lhs_base, 8) + seq![
            movdqu_from_rcx(Xmm1),
        ] + f64_pair_factor(red.rhs_base) + seq![sse(Sse::Addpd, Xmm0, Xmm1)],
    ) + seq![
        sse(Sse::Movapd, Xmm1, Xmm0),
        sse(Sse::Unpckhpd, Xmm1, Xmm1),
        scalar_double(ScalarOp::Plus),
        movsd_xmm1_from_local(red.acc_slot),
        scalar_double(ScalarOp::Plus),
        store_float_local(red.acc_slot, FloatWidth::F64),
    ] + single_loop(
        i_slot,
        end_slot,
        seq![shift(Shift::Shl, Rax, 3), mov(Rdx, Rax)] + block_addr(red.lhs_base, 0) + seq![
            movsd_from_rcx(Xmm0),
        ] + f64_single_factor(red.rhs_base) + seq![
            movsd_xmm1_from_local(red.acc_slot),
            scalar_double(ScalarOp::Plus),
            store_float_local(red.acc_slot, FloatWidth::F64),
        ],
    )
}

// Maps

/// A map `dest[i] = lhs[i] op rhs[i]` over arrays whose elements 0 lie at frame slots.
#[derive(Clone, Copy, PartialEq, Eq, Structural, Debug)]
pub struct ElementwiseMap {
    pub dest_base: i32,
    pub lhs_base: i32,
    pub rhs_base: i32,
    /// The smallest of the three lengths.
    pub min_len: i64,
    pub kind: MapKind,
}

/// Maps the element at offset `rdx` of each array.
pub open spec fn map_single(map: ElementwiseMap) -> Seq<Insn> {
    match map.kind {
        MapKind::Int(op) => block_addr(map.lhs_base, 0) + seq![load(Rax, at(Rcx)), Push(Rax)]
            + block_addr(map.rhs_base, 0) + seq![load(Rax, at(Rcx)), Pop(Rcx)] + op.scalar_tail()
            + seq![Push(Rax)] + block_addr(map.dest_base, 0) + seq![
            Pop(Rax),
            store(at(Rcx), Rax),
        ],
        MapKind::Float(op) => block_addr(map.lhs_base, 0) + seq![movsd_from_rcx(Xmm0)]
            + block_addr(map.rhs_base, 0) + seq![movsd_from_rcx(Xmm1), op.scalar()] + block_addr(
            map.dest_base,
            0,
        ) + seq![
            Insn::MovsStore { width: FloatWidth::F64, mem: at(Rcx), xmm: Xmm0 },
        ],
    }
}

/// The code of a map behind its range: the guard, the packed loop, the loop over a last
/// element.
pub open spec fn map_program(i_slot: i32, end_slot: i32, map: ElementwiseMap) -> Seq<Insn> {
    loop_bounds_guard(i_slot, end_slot, map.min_len) + pair_loop(
        i_slot,
        end_slot,
        seq![shift(Shift::Shl, Rax, 3), mov(Rdx, Rax)] + block_addr(map.lhs_base, 8) + seq![
            movdqu_from_rcx(Xmm0),
        ] + block_addr(map.rhs_base, 8) + seq![movdqu_from_rcx(Xmm1), map.kind.packed()]
            + block_addr(map.dest_base, 8) + seq![
            Insn::MovdquStore { mem: at(Rcx), xmm: Xmm0 },
        ],
    ) + single_loop(
        i_slot,
        end_slot,
        seq![load_local(i_slot), shift(Shift::Shl, Rax, 3), mov(Rdx, Rax)] + map_single(map),
    )
}

// Lowering

/// The slots of a loop's counter and of its inclusive end.
pub open spec fn loop_slots_of(ctx: NativeCtx, counter: Seq<char>) -> Result<
    (i32, i32),
    Seq<char>,
> {
    match ctx.local_of(counter) {
        None => Err(unknown_local(counter)),
        Some(i) => match ctx.local_of(counter + "__end"@) {
            None => Err(unknown_local(counter + "__end"@)),
            Some(end) => Ok((i.slot, end.slot)),
        },
    }
}

fn loop_slots(ctx: &NativeCtx, counter: &str) -> (slots: Result<(i32, i32), String>)
    ensures
        match slots {
            Ok(slots) => loop_slots_of(*ctx, counter@) == Ok::<_, Seq<char>>(slots),
            Err(why) => loop_slots_of(*ctx, counter@) == Err::<(i32, i32), _>(why@),
        },
{
    let i = match ctx.local(&counter.to_owned()) {
        Ok(local) => local.slot,
        Err(why) => {
            return Err(why);
        },
    };
    let end = match ctx.local(&counter.to_owned().concat("__end")) {
        Ok(local) => local.slot,
        Err(why) => {
            return Err(why);
        },
    };
    Ok((i, end))
}

/// The emission of a loop: its start and end into their slots, then its code.
pub open spec fn loop_emission(
    start: BytecodeExpr,
    i_slot: i32,
    end: BytecodeExpr,
    end_slot: i32,
    program: Seq<Insn>,
) -> Emission {
    start.code.word@.then_emit(
        Emission::of_program(seq![store_local(i_slot)]).then_emit(
            end.code.word@.then_emit(
                Emission::of_program(seq![store_local(end_slot)]).then_emit(
                    Emission::of_program(program),
                ),
            ),
        ),
    )
}

fn emit_loop(
    code: &mut CodeBuffer,
    start: &BytecodeExpr,
    i_slot: i32,
    end: &BytecodeExpr,
    end_slot: i32,
    program: &Vec<Insn>,
) -> (result: Result<(), String>)
    requires
        program@.len() <= 0x100_0000,
        fits(old(code)@, loop_emission(*start, i_slot, *end, end_slot, program@)),
    ensures
        final(code)@ == old(code)@.then_code(
            loop_emission(*start, i_slot, *end, end_slot, program@).code,
        ),
        tells(result, loop_emission(*start, i_slot, *end, end_slot, program@)),
{
    let ghost last = Emission::of_program(program@);
    let ghost set_end = Emission::of_program(seq![store_local(end_slot)]);
    let ghost after_end = set_end.then_emit(last);
    let ghost after_set = end.code.word@.then_emit(after_end);
    let ghost set_i = Emission::of_program(seq![store_local(i_slot)]);
    proof {
        lemma_emit_step(code@, start.code.word@, set_i.then_emit(after_set));
    }
    match emit(code, &start.code.word) {
        Ok(_) => {},
        Err(why) => {
            return Err(why);
        },
    }
    proof {
        lemma_emit_step(code@, set_i, after_set);
    }
    emit_insn(code, store_local(i_slot));
    proof {
        lemma_emit_step(code@, end.code.word@, after_end);
    }
    match emit(code, &end.code.word) {
        Ok(_) => {},
        Err(why) => {
            return Err(why);
        },
    }
    proof {
        lemma_emit_step(code@, set_end, last);
    }
    emit_insn(code, store_local(end_slot));
    emit_program(code, program);
    Ok(())
}

/// The emission of a vectorized map.
pub open spec fn map_emission(
    ctx: NativeCtx,
    counter: Seq<char>,
    start: BytecodeExpr,
    end: BytecodeExpr,
    map: ElementwiseMap,
) -> Emission {
    match loop_slots_of(ctx, counter) {
        Err(why) => Emission::refused(why),
        Ok((i, e)) => loop_emission(start, i, end, e, map_program(i, e, map)),
    }
}

/// Lowers `for counter from start to end: dest[counter] = lhs[counter] op rhs[counter]`
/// into a packed loop, two elements at a time, and a loop over a last element.
pub fn lower_native_vectorized_map(
    ctx: &NativeCtx,
    counter: &str,
    start: &BytecodeExpr,
    end: &BytecodeExpr,
    map: &ElementwiseMap,
    code: &mut CodeBuffer,
) -> (result: Result<(), String>)
    requires
        fits(old(code)@, map_emission(*ctx, counter@, *start, *end, *map)),
    ensures
        final(code)@ == old(code)@.then_code(
            map_emission(*ctx, counter@, *start, *end, *map).code,
        ),
        tells(result, map_emission(*ctx, counter@, *start, *end, *map)),
{
    let (i_slot, end_slot) = match loop_slots(ctx, counter) {
        Ok(slots) => slots,
        Err(why) => {
            proof {
                crate::emission::lemma_emit_nothing(code@);
            }
            return Err(why);
        },
    };
    let mut program: Vec<Insn> = Vec::new();
    emit_loop_bounds_guard(&mut program, i_slot, end_slot, map.min_len);
    let mut pair: Vec<Insn> = vec![shift(Shift::Shl, Rax, 3), mov(Rdx, Rax)];
    emit_block_addr(&mut pair, map.lhs_base, 8);
    pair.push(movdqu_from_rcx(Xmm0));
    emit_block_addr(&mut pair, map.rhs_base, 8);
    pair.push(movdqu_from_rcx(Xmm1));
    pair.push(map.kind.packed());
    emit_block_addr(&mut pair, map.dest_base, 8);
    pair.push(Insn::MovdquStore { mem: at(Rcx), xmm: Xmm0 });
    let mut single: Vec<Insn> = vec![
        load_local(i_slot),
        shift(Shift::Shl, Rax, 3),
        mov(Rdx, Rax),
    ];
    match map.kind {
        MapKind::Int(op) => {
            emit_block_addr(&mut single, map.lhs_base, 0);
            single.push(load(Rax, at(Rcx)));
            single.push(Push(Rax));
            emit_block_addr(&mut single, map.rhs_base, 0);
            single.push(load(Rax, at(Rcx)));
            single.push(Pop(Rcx));
            op.emit_scalar_tail(&mut single);
            single.push(Push(Rax));
            emit_block_addr(&mut single, map.dest_base, 0);
            single.push(Pop(Rax));
            single.push(store(at(Rcx), Rax));
        },
        MapKind::Float(op) => {
            emit_block_addr(&mut single, map.lhs_base, 0);
            single.push(movsd_from_rcx(Xmm0));
            emit_block_addr(&mut single, map.rhs_base, 0);
            single.push(movsd_from_rcx(Xmm1));
            single.push(op.scalar());
            emit_block_addr(&mut single, map.dest_base, 0);
            single.push(
                Insn::MovsStore { width: FloatWidth::F64, mem: at(Rcx), xmm: Xmm0 },
            );
        },
    }
    proof {
        assert(pair@ =~= seq![shift(Shift::Shl, Rax, 3), mov(Rdx, Rax)] + block_addr(
            map.lhs_base,
            8,
        ) + seq![movdqu_from_rcx(Xmm0)] + block_addr(map.rhs_base, 8) + seq![
            movdqu_from_rcx(Xmm1),
            map.kind.packed(),
        ] + block_addr(map.dest_base, 8) + seq![Insn::MovdquStore { mem: at(Rcx), xmm: Xmm0 }]);
        assert(single@ =~= seq![
            load_local(i_slot),
            shift(Shift::Shl, Rax, 3),
            mov(Rdx, Rax),
        ] + map_single(*map));
    }
    emit_pair_loop(&mut program, i_slot, end_slot, pair);
    emit_single_loop(&mut program, i_slot, end_slot, single);
    assert(program@ =~= map_program(i_slot, end_slot, *map));
    emit_loop(code, start, i_slot, end, end_slot, &program)
}

/// The emission of a vectorized reduction.
pub open spec fn reduction_emission(
    ctx: NativeCtx,
    counter: Seq<char>,
    start: BytecodeExpr,
    end: BytecodeExpr,
    red: Reduction,
) -> Emission {
    match loop_slots_of(ctx, counter) {
        Err(why) => Emission::refused(why),
        Ok((i, e)) => loop_emission(
            start,
            i,
            end,
            e,
            reduction_program(i, e, ctx.register_of(red.acc_slot), red),
        ),
    }
}

/// Lowers `for counter from start to end: acc op= a[counter]` into a packed loop, the fold
/// of its lanes, and a loop over a last element.
pub fn lower_native_vectorized_reduction(
    ctx: &NativeCtx,
    counter: &str,
    start: &BytecodeExpr,
    end: &BytecodeExpr,
    reduction: &Reduction,
    code: &mut CodeBuffer,
) -> (result: Result<(), String>)
    requires
        fits(old(code)@, reduction_emission(*ctx, counter@, *start, *end, *reduction)),
    ensures
        final(code)@ == old(code)@.then_code(
            reduction_emission(*ctx, counter@, *start, *end, *reduction).code,
        ),
        tells(result, reduction_emission(*ctx, counter@, *start, *end, *reduction)),
{
    let (i_slot, end_slot) = match loop_slots(ctx, counter) {
        Ok(slots) => slots,
        Err(why) => {
            proof {
                crate::emission::lemma_emit_nothing(code@);
            }
            return Err(why);
        },
    };
    let ghost acc = ctx.register_of(reduction.acc_slot);
    let base = reduction.array_base_static;
    let op = reduction.op;
    let mut program: Vec<Insn> = Vec::new();
    emit_loop_bounds_guard(&mut program, i_slot, end_slot, reduction.array_len);
    program.push(op.packed_identity());
    let mut pair: Vec<Insn> = Vec::new();
    emit_element_addr(&mut pair, base, 8);
    pair.push(movdqu_from_rcx(Xmm1));
    pair.push(op.packed());
    let mut single: Vec<Insn> = Vec::new();
    emit_load_array_elem(&mut single, i_slot, base);
    emit_reduce_into_acc(ctx, reduction.acc_slot, op, &mut single);
    proof {
        assert(pair@ =~= element_addr(base, 8) + seq![movdqu_from_rcx(Xmm1), op.packed()]);
        assert(single@ =~= load_array_elem(i_slot, base) + reduce_into_acc(
            acc,
            reduction.acc_slot,
            op,
        ));
    }
    emit_pair_loop(&mut program, i_slot, end_slot, pair);
    emit_hfold_xmm0_into_rax(op, &mut program);
    emit_reduce_into_acc(ctx, reduction.acc_slot, op, &mut program);
    emit_single_loop(&mut program, i_slot, end_slot, single);
    assert(program@ =~= reduction_program(i_slot, end_slot, acc, *reduction));
    emit_loop(code, start, i_slot, end, end_slot, &program)
}

/// The emission of a minimum or maximum.
pub open spec fn minmax_emission(
    ctx: NativeCtx,
    counter: Seq<char>,
    start: BytecodeExpr,
    end: BytecodeExpr,
    red: MinMaxReduction,
) -> Emission {
    match loop_slots_of(ctx, counter) {
        Err(why) => Emission::refused(why),
        Ok((i, e)) => loop_emission(
            start,
            i,
            end,
            e,
            minmax_program(i, e, ctx.register_of(red.acc_slot), red),
        ),
    }
}

/// Lowers `for counter from start to end: acc = max(acc, a[counter])`, or `min`, into a
/// packed path and a scalar one; the processor's answer picks between them once.
pub fn lower_native_minmax_reduction(
    ctx: &NativeCtx,
    counter: &str,
    start: &BytecodeExpr,
    end: &BytecodeExpr,
    red: &MinMaxReduction,
    code: &mut CodeBuffer,
) -> (result: Result<(), String>)
    requires
        fits(old(code)@, minmax_emission(*ctx, counter@, *start, *end, *red)),
    ensures
        final(code)@ == old(code)@.then_code(
            minmax_emission(*ctx, counter@, *start, *end, *red).code,
        ),
        tells(result, minmax_emission(*ctx, counter@, *start, *end, *red)),
{
    let (i_slot, end_slot) = match loop_slots(ctx, counter) {
        Ok(slots) => slots,
        Err(why) => {
            proof {
                crate::emission::lemma_emit_nothing(code@);
            }
            return Err(why);
        },
    };
    let ghost acc = ctx.register_of(red.acc_slot);
    let base = red.array_base_static;
    let op = red.op;
    let mut scalar: Vec<Insn> = Vec::new();
    emit_minmax_scalar_loop(ctx, i_slot, end_slot, red, &mut scalar);
    assert(scalar@ =~= minmax_scalar_loop(i_slot, end_slot, acc, *red));
    let skip: u16 = scalar.len() as u16 + 1;

    let mut packed: Vec<Insn> = Vec::new();
    op.emit_packed_seed(&mut packed);
    let mut pair: Vec<Insn> = Vec::new();
    emit_element_addr(&mut pair, base, 8);
    pair.push(movdqu_from_rcx(Xmm1));
    op.emit_packed(&mut pair);
    assert(pair@ =~= element_addr(base, 8) + seq![movdqu_from_rcx(Xmm1)] + op.packed());
    emit_pair_loop(&mut packed, i_slot, end_slot, pair);
    packed.push(Insn::MovqFromXmm { dst: Rax, src: Xmm0 });
    packed.push(Insn::Psrldq { xmm: Xmm0, amount: 8 });
    packed.push(Insn::MovqFromXmm { dst: Rcx, src: Xmm0 });
    op.emit_scalar_rax_rcx(&mut packed);
    op.emit_reduce_into_acc(ctx, red.acc_slot, &mut packed);
    emit_minmax_scalar_loop(ctx, i_slot, end_slot, red, &mut packed);
    packed.push(jmp(skip));
    assert(packed@ =~= minmax_packed_path(i_slot, end_slot, acc, *red, skip));

    let mut program: Vec<Insn> = Vec::new();
    emit_loop_bounds_guard(&mut program, i_slot, end_slot, red.array_len);
    let to: u16 = packed.len() as u16 + 1;
    emit_cpuid_sse42_probe(&mut program, to);
    extend(&mut program, packed);
    extend(&mut program, scalar);
    assert(program@ =~= minmax_program(i_slot, end_slot, acc, *red));
    emit_loop(code, start, i_slot, end, end_slot, &program)
}

fn emit_minmax_scalar_loop(
    ctx: &NativeCtx,
    i_slot: i32,
    end_slot: i32,
    red: &MinMaxReduction,
    program: &mut Vec<Insn>,
)
    ensures
        final(program)@ == old(program)@ + minmax_scalar_loop(
            i_slot,
            end_slot,
            ctx.register_of(red.acc_slot),
            *red,
        ),
{
    let mut single: Vec<Insn> = Vec::new();
    emit_load_array_elem(&mut single, i_slot, red.array_base_static);
    red.op.emit_reduce_into_acc(ctx, red.acc_slot, &mut single);
    proof {
        let acc = ctx.register_of(red.acc_slot);
        assert(single@ =~= load_array_elem(i_slot, red.array_base_static)
            + red.op.reduce_into_acc(acc, red.acc_slot));
    }
    emit_single_loop(program, i_slot, end_slot, single);
}

/// The emission of a sum or dot product.
pub open spec fn f64_emission(
    ctx: NativeCtx,
    counter: Seq<char>,
    start: BytecodeExpr,
    end: BytecodeExpr,
    red: F64Reduction,
) -> Emission {
    match loop_slots_of(ctx, counter) {
        Err(why) => Emission::refused(why),
        Ok((i, e)) => loop_emission(start, i, end, e, f64_program(i, e, red)),
    }
}

/// Lowers `for counter from start to end: acc += a[counter]`, or `a[counter] * b[counter]`,
/// over doubles. The packed additions come in another order than the scalar ones.
pub fn lower_native_f64_reduction(
    ctx: &NativeCtx,
    counter: &str,
    start: &BytecodeExpr,
    end: &BytecodeExpr,
    red: &F64Reduction,
    code: &mut CodeBuffer,
) -> (result: Result<(), String>)
    requires
        fits(old(code)@, f64_emission(*ctx, counter@, *start, *end, *red)),
    ensures
        final(code)@ == old(code)@.then_code(
            f64_emission(*ctx, counter@, *start, *end, *red).code,
        ),
        tells(result, f64_emission(*ctx, counter@, *start, *end, *red)),
{
    let (i_slot, end_slot) = match loop_slots(ctx, counter) {
        Ok(slots) => slots,
        Err(why) => {
            proof {
                crate::emission::lemma_emit_nothing(code@);
            }
            return Err(why);
        },
    };
    let mut pair: Vec<Insn> = vec![shift(Shift::Shl, Rax, 3), mov(Rdx, Rax)];
    emit_block_addr(&mut pair, red.lhs_base, 8);
    pair.push(movdqu_from_rcx(Xmm1));
    if let Some(rhs_base) = red.rhs_base {
        emit_block_addr(&mut pair, rhs_base, 8);
        pair.push(movdqu_from_rcx(Xmm2));
        pair.push(sse(Sse::Mulpd, Xmm1, Xmm2));
    }
    pair.push(sse(Sse::Addpd, Xmm0, Xmm1));
    let mut single: Vec<Insn> = vec![shift(Shift::Shl, Rax, 3), mov(Rdx, Rax)];
    emit_block_addr(&mut single, red.lhs_base, 0);
    single.push(movsd_from_rcx(Xmm0));
    if let Some(rhs_base) = red.rhs_base {
        emit_block_addr(&mut single, rhs_base, 0);
        single.push(movsd_from_rcx(Xmm1));
        single.push(scalar_double(ScalarOp::Times));
    }
    single.push(movsd_xmm1_from_local(red.acc_slot));
    single.push(scalar_double(ScalarOp::Plus));
    single.push(store_float_local(red.acc_slot, FloatWidth::F64));
    proof {
        assert(pair@ =~= seq![shift(Shift::Shl, Rax, 3), mov(Rdx, Rax)] + block_addr(
            red.lhs_base,
            8,
        ) + seq![movdqu_from_rcx(Xmm1)] + f64_pair_factor(red.rhs_base) + seq![
            sse(Sse::Addpd, Xmm0, Xmm1),
        ]);
        assert(single@ =~= seq![shift(Shift::Shl, Rax, 3), mov(Rdx, Rax)] + block_addr(
            red.lhs_base,
            0,
        ) + seq![movsd_from_rcx(Xmm0)] + f64_single_factor(red.rhs_base) + seq![
            movsd_xmm1_from_local(red.acc_slot),
            scalar_double(ScalarOp::Plus),
            store_float_local(red.acc_slot, FloatWidth::F64),
        ]);
    }
    let mut program: Vec<Insn> = Vec::new();
    emit_loop_bounds_guard(&mut program, i_slot, end_slot, red.array_len);
    program.push(sse(Sse::Pxor, Xmm0, Xmm0));
    emit_pair_loop(&mut program, i_slot, end_slot, pair);
    program.push(sse(Sse::Movapd, Xmm1, Xmm0));
    program.push(sse(Sse::Unpckhpd, Xmm1, Xmm1));
    program.push(scalar_double(ScalarOp::Plus));
    program.push(movsd_xmm1_from_local(red.acc_slot));
    program.push(scalar_double(ScalarOp::Plus));
    program.push(store_float_local(red.acc_slot, FloatWidth::F64));
    emit_single_loop(&mut program, i_slot, end_slot, single);
    assert(program@ =~= f64_program(i_slot, end_slot, *red));
    emit_loop(code, start, i_slot, end, end_slot, &program)
}

} // verus!
