//! Bindings and assignments.

use crate::aggregate::{aggregate_emission, lower_aggregate_init, refuse, store_through_rcx};
use crate::assembler::CodeBuffer;
use crate::bytecode::{AssignOp, Assignment, BinaryOp, BytecodeExpr, BytecodeExprKind, ScalarPlace};
use crate::context::{unknown_local, Local, NativeCtx};
use crate::emission::{
    emit, emit_insn, emit_program, emit_then_insn, emit_then_program, fits, lemma_emit_step, tells,
    Emission, Emitted,
};
use crate::layout::{measurable, Layout, NativeType};
use crate::mnemonics::{
    alu, alu_imm32, alu_imm32_mem, alu_imm8, alu_store, at, frame, lea, load, load_float_local,
    store, store_float_local, store_local,
};
use crate::resolve::message;
use crate::text::same_text;
use crate::vectorize::{acc_from_rax, acc_to_rax};
use crate::x86::Insn::{Pop, Push};
use crate::x86::Reg::{Rax, Rcx, Rsp};
use crate::x86::Xmm::{Xmm0, Xmm1};
use crate::x86::{Alu, FloatWidth, Insn, Reg, ScalarOp, Sse};
use vstd::prelude::*;

verus! {

// Bindings

/// A `let`: a word through `rax`, a float through `xmm0`, an aggregate into its slots.
pub open spec fn let_emission(ctx: NativeCtx, name: Seq<char>, value: BytecodeExpr) -> Emission {
    match ctx.local_of(name) {
        None => Emission::refused(unknown_local(name)),
        Some(local) => match local.ty@ {
            Layout::Void => Emission::refused(
                "local `"@ + name + "` is `void`; a void binding is not in the native subset"@,
            ),
            Layout::Narrow { .. } => Emission::refused(
                "local `"@ + name
                    + "` resolves to a packed narrow layout, which is an array-element-only representation and is not in the native subset"@,
            ),
            Layout::I64
            | Layout::Text
            | Layout::List { .. }
            | Layout::Mapping { .. }
            | Layout::HeapStruct { .. } => value.code.word@.then_emit(
                Emission::of_program(
                    seq![acc_from_rax(ctx.register_of(local.slot), local.slot)],
                ),
            ),
            Layout::F64 | Layout::F32 => value.code.float.0@.then_emit(
                Emission::of_program(seq![store_float_local(local.slot, value.code.float.1)]),
            ),
            Layout::Struct { .. } | Layout::Array { .. } | Layout::Enum { .. } =>
                aggregate_emission(ctx, local.slot, local.ty@, value),
            Layout::FatArray { .. } => Emission::refused(
                "a fat-pointer array cannot be bound to a local"@,
            ),
        },
    }
}

/// Lowers a `let`.
pub fn lower_let(ctx: &NativeCtx, name: &String, value: &BytecodeExpr, code: &mut CodeBuffer) -> (
result: Result<(), String>)
    requires
        ctx.local_of(name@) matches Some(local) ==> measurable(local.ty@),
        fits(old(code)@, let_emission(*ctx, name@, *value)),
    ensures
        final(code)@ == old(code)@.then_code(let_emission(*ctx, name@, *value).code),
        tells(result, let_emission(*ctx, name@, *value)),
{
    let local = match ctx.local(name) {
        Ok(local) => local,
        Err(why) => {
            return refuse(code, why.as_str());
        },
    };
    match &local.ty {
        NativeType::Void => {
            let why = message(
                "local `",
                name.as_str(),
                "` is `void`; a void binding is not in the native subset",
            );
            refuse(code, why.as_str())
        },
        NativeType::Narrow { .. } => {
            let why = message(
                "local `",
                name.as_str(),
                "` resolves to a packed narrow layout, which is an array-element-only representation and is not in the native subset",
            );
            refuse(code, why.as_str())
        },
        NativeType::I64
        | NativeType::String
        | NativeType::List { .. }
        | NativeType::Mapping { .. }
        | NativeType::HeapStruct { .. } => emit_then_insn(
            code,
            &value.code.word,
            acc_from_rax(ctx.promoted_reg(local.slot), local.slot),
        ),
        NativeType::F64 | NativeType::F32 => emit_then_insn(
            code,
            &value.code.float.0,
            store_float_local(local.slot, value.code.float.1),
        ),
        NativeType::Struct { .. } | NativeType::Array { .. } | NativeType::Enum { .. } =>
            lower_aggregate_init(ctx, local.slot, &local.ty, value, code),
        NativeType::FatArray { .. } => refuse(
            code,
            "a fat-pointer array cannot be bound to a local",
        ),
    }
}

// Floats

/// Pushes `xmm0`.
pub open spec fn push_xmm0() -> Seq<Insn> {
    seq![
        alu_imm8(Alu::Sub, Rsp, 8),
        Insn::MovsStore { width: FloatWidth::F64, mem: at(Rsp), xmm: Xmm0 },
    ]
}

/// The arithmetic of a compound assignment.
pub open spec fn scalar_op(op: AssignOp) -> ScalarOp {
    match op {
        AssignOp::Add => ScalarOp::Plus,
        AssignOp::Subtract => ScalarOp::Minus,
        AssignOp::Multiply => ScalarOp::Times,
        _ => ScalarOp::Over,
    }
}

/// Combines the float local of `slot` with the right operand in `xmm0`.
pub open spec fn float_compound(slot: i32, width: FloatWidth, op: AssignOp) -> Seq<Insn> {
    push_xmm0() + seq![
        load_float_local(slot, width),
        Insn::MovsLoad { width: FloatWidth::F64, xmm: Xmm1, mem: at(Rsp) },
        alu_imm8(Alu::Add, Rsp, 8),
        Insn::SseRr { op: Sse::Scalar(width, scalar_op(op)), dst: Xmm0, src: Xmm1 },
        store_float_local(slot, width),
    ]
}

/// The width of a float layout.
pub open spec fn width_of(l: Layout) -> FloatWidth {
    if l is F32 {
        FloatWidth::F32
    } else {
        FloatWidth::F64
    }
}

/// An assignment to a float local.
pub open spec fn float_assign_emission(local: Local, a: Assignment) -> Emission {
    let width = width_of(local.ty@);
    a.value.code.float.0@.then_emit(
        Emission::of_program(
            match a.op {
                AssignOp::Replace => seq![store_float_local(local.slot, width)],
                _ => float_compound(local.slot, width, a.op),
            },
        ),
    )
}

fn lower_float_assign(local: &Local, a: &Assignment, code: &mut CodeBuffer) -> (result: Result<
    (),
    String,
>)
    requires
        local.ty@ is F64 || local.ty@ is F32,
        a.op != AssignOp::Remainder,
        fits(old(code)@, float_assign_emission(*local, *a)),
    ensures
        final(code)@ == old(code)@.then_code(float_assign_emission(*local, *a).code),
        tells(result, float_assign_emission(*local, *a)),
{
    let slot = local.slot;
    let width = match local.ty {
        NativeType::F32 => FloatWidth::F32,
        _ => FloatWidth::F64,
    };
    let op = match a.op {
        AssignOp::Replace => {
            return emit_then_insn(code, &a.value.code.float.0, store_float_local(slot, width));
        },
        AssignOp::Add => ScalarOp::Plus,
        AssignOp::Subtract => ScalarOp::Minus,
        AssignOp::Multiply => ScalarOp::Times,
        _ => ScalarOp::Over,
    };
    let program = vec![
        alu_imm8(Alu::Sub, Rsp, 8),
        Insn::MovsStore { width: FloatWidth::F64, mem: at(Rsp), xmm: Xmm0 },
        load_float_local(slot, width),
        Insn::MovsLoad { width: FloatWidth::F64, xmm: Xmm1, mem: at(Rsp) },
        alu_imm8(Alu::Add, Rsp, 8),
        Insn::SseRr { op: Sse::Scalar(width, op), dst: Xmm0, src: Xmm1 },
        store_float_local(slot, width),
    ];
    assert(program@ =~= float_compound(slot, width, a.op));
    emit_then_program(code, &a.value.code.float.0, &program)
}

// Elements

/// Why a fat-pointer array's element is not assigned to.
pub open spec fn fat_element() -> Seq<char> {
    "cannot assign to a fat-pointer array element"@
}

/// Stores `rax` at the address that `address` leaves in `rcx`.
pub open spec fn store_at(address: Emission, insn: Insn) -> Emission {
    Emission::of_program(seq![Push(Rax)]).then_emit(
        address.then_emit(Emission::of_program(seq![Pop(Rax), insn])),
    )
}

fn emit_store_at(address: &Emitted, insn: Insn, code: &mut CodeBuffer) -> (result: Result<
    (),
    String,
>)
    requires
        fits(old(code)@, store_at(address@, insn)),
    ensures
        final(code)@ == old(code)@.then_code(store_at(address@, insn).code),
        tells(result, store_at(address@, insn)),
{
    let last = vec![Pop(Rax), insn];
    proof {
        assert(last@ =~= seq![Pop(Rax), insn]);
        lemma_emit_step(
            code@,
            Emission::of_program(seq![Push(Rax)]),
            address@.then_emit(Emission::of_program(last@)),
        );
    }
    emit_insn(code, Push(Rax));
    emit_then_program(code, address, &last)
}

/// Stores the low `bytes` bytes of `rax` in a packed element.
pub open spec fn narrow_store_emission(place: ScalarPlace, bytes: usize) -> Emission {
    match place {
        ScalarPlace::Const { slot } => Emission::of_program(
            seq![lea(Rcx, frame(slot)), store_through_rcx(bytes)],
        ),
        ScalarPlace::Dynamic { address, .. } => store_at(address@, store_through_rcx(bytes)),
        ScalarPlace::FatIndex => Emission::refused(fat_element()),
    }
}

fn emit_store_place_narrow(place: &ScalarPlace, bytes: usize, code: &mut CodeBuffer) -> (result:
    Result<(), String>)
    requires
        fits(old(code)@, narrow_store_emission(*place, bytes)),
    ensures
        final(code)@ == old(code)@.then_code(narrow_store_emission(*place, bytes).code),
        tells(result, narrow_store_emission(*place, bytes)),
{
    match place {
        ScalarPlace::Const { slot } => {
            let program = vec![lea(Rcx, frame(*slot)), store_through_rcx(bytes)];
            assert(program@ =~= seq![lea(Rcx, frame(*slot)), store_through_rcx(bytes)]);
            emit_program(code, &program);
            Ok(())
        },
        ScalarPlace::Dynamic { address, .. } => emit_store_at(
            address,
            store_through_rcx(bytes),
            code,
        ),
        ScalarPlace::FatIndex => refuse(code, "cannot assign to a fat-pointer array element"),
    }
}

/// An assignment to a packed element.
pub open spec fn narrow_assign_emission(place: ScalarPlace, bytes: usize,
    a: Assignment) -> Emission {
    if a.op != AssignOp::Replace {
        Emission::refused(
            "compound assignment on a packed narrow array element is not supported"@,
        )
    } else {
        a.value.code.word@.then_emit(narrow_store_emission(place, bytes))
    }
}

/// An assignment to a float element.
pub open spec fn float_element_emission(
    place: ScalarPlace,
    width: FloatWidth,
    a: Assignment,
) -> Emission {
    if a.op != AssignOp::Replace {
        Emission::refused("compound assignment on a float array element is not supported"@)
    } else {
        match place {
            ScalarPlace::Const { slot } => a.value.code.float.0@.then_emit(
                Emission::of_program(seq![store_float_local(slot, width)]),
            ),
            ScalarPlace::Dynamic { address, .. } => a.value.code.float.0@.then_emit(
                Emission::of_program(push_xmm0()).then_emit(
                    address@.then_emit(
                        Emission::of_program(
                            seq![
                                Insn::MovsLoad {
                                    width: FloatWidth::F64,
                                    xmm: Xmm0,
                                    mem: at(Rsp),
                                },
                                alu_imm8(Alu::Add, Rsp, 8),
                                Insn::MovsStore { width, mem: at(Rcx), xmm: Xmm0 },
                            ],
                        ),
                    ),
                ),
            ),
            ScalarPlace::FatIndex => Emission::refused(fat_element()),
        }
    }
}

fn lower_float_element(
    place: &ScalarPlace,
    width: FloatWidth,
    a: &Assignment,
    code: &mut CodeBuffer,
) -> (result: Result<(), String>)
    requires
        fits(old(code)@, float_element_emission(*place, width, *a)),
    ensures
        final(code)@ == old(code)@.then_code(float_element_emission(*place, width, *a).code),
        tells(result, float_element_emission(*place, width, *a)),
{
    if a.op != AssignOp::Replace {
        return refuse(code, "compound assignment on a float array element is not supported");
    }
    match place {
        ScalarPlace::Const { slot } => emit_then_insn(
            code,
            &a.value.code.float.0,
            store_float_local(*slot, width),
        ),
        ScalarPlace::Dynamic { address, .. } => {
            let spill = vec![
                alu_imm8(Alu::Sub, Rsp, 8),
                Insn::MovsStore { width: FloatWidth::F64, mem: at(Rsp), xmm: Xmm0 },
            ];
            let last = vec![
                Insn::MovsLoad { width: FloatWidth::F64, xmm: Xmm0, mem: at(Rsp) },
                alu_imm8(Alu::Add, Rsp, 8),
                Insn::MovsStore { width, mem: at(Rcx), xmm: Xmm0 },
            ];
            let ghost tail = address@.then_emit(Emission::of_program(last@));
            proof {
                assert(spill@ =~= push_xmm0());
                assert(last@ =~= seq![
                    Insn::MovsLoad { width: FloatWidth::F64, xmm: Xmm0, mem: at(Rsp) },
                    alu_imm8(Alu::Add, Rsp, 8),
                    Insn::MovsStore { width, mem: at(Rcx), xmm: Xmm0 },
                ]);
                lemma_emit_step(
                    code@,
                    a.value.code.float.0@,
                    Emission::of_program(spill@).then_emit(tail),
                );
            }
            match emit(code, &a.value.code.float.0) {
                Ok(_) => {},
                Err(why) => {
                    return Err(why);
                },
            }
            proof {
                lemma_emit_step(code@, Emission::of_program(spill@), tail);
            }
            emit_program(code, &spill);
            emit_then_program(code, address, &last)
        },
        ScalarPlace::FatIndex => refuse(code, "cannot assign to a fat-pointer array element"),
    }
}

// Words

/// The register of the local that `expr` names, if it lives in one.
pub open spec fn promoted_variable(ctx: NativeCtx, expr: BytecodeExpr) -> Option<Reg> {
    match expr.kind {
        BytecodeExprKind::Variable(name) => match ctx.local_of(name@) {
            Some(local) => ctx.register_of(local.slot),
            None => None,
        },
        _ => None,
    }
}

fn promoted_var_reg(ctx: &NativeCtx, expr: &BytecodeExpr) -> (reg: Option<Reg>)
    ensures
        reg == promoted_variable(*ctx, *expr),
{
    match &expr.kind {
        BytecodeExprKind::Variable(name) => match ctx.find(name) {
            Some(local) => ctx.promoted_reg(local.slot),
            None => None,
        },
        _ => None,
    }
}

/// The operation and right operand of `x + rhs` or `x - rhs` over `i64`s, where `x` is the
/// local of `slot`.
pub open spec fn update_in_place(ctx: NativeCtx, slot: i32, value: BytecodeExpr) -> Option<
    (Alu, BytecodeExpr),
> {
    match value.kind {
        BytecodeExprKind::Binary { left, op, right } => match left.kind {
            BytecodeExprKind::Variable(name) => if (op == BinaryOp::Add || op
                == BinaryOp::Subtract) && left.ty@ == "i64"@ && right.ty@ == "i64"@
                && ctx.local_of(name@) is Some && ctx.local_of(name@)->0.slot == slot {
                Some(
                    (
                        if op == BinaryOp::Add {
                            Alu::Add
                        } else {
                            Alu::Sub
                        },
                        *right,
                    ),
                )
            } else {
                None
            },
            _ => None,
        },
        _ => None,
    }
}

fn find_update<'a>(ctx: &NativeCtx, slot: i32, value: &'a BytecodeExpr) -> (found: Option<
    (Alu, &'a BytecodeExpr),
>)
    ensures
        match found {
            Some((op, right)) => update_in_place(*ctx, slot, *value) == Some((op, *right)),
            None => update_in_place(*ctx, slot, *value) is None,
        },
{
    if let BytecodeExprKind::Binary { left, op, right } = &value.kind {
        if let BytecodeExprKind::Variable(name) = &left.kind {
            let operation = match op {
                BinaryOp::Add => Alu::Add,
                BinaryOp::Subtract => Alu::Sub,
                _ => {
                    return None;
                },
            };
            if same_text(left.ty.name.as_str(), "i64") && same_text(
                right.ty.name.as_str(),
                "i64",
            ) {
                if let Some(local) = ctx.find(name) {
                    if local.slot == slot {
                        return Some((operation, right));
                    }
                }
            }
        }
    }
    None
}

/// The 32-bit immediate that an integer literal is.
pub open spec fn immediate(expr: BytecodeExpr) -> Option<i32> {
    match expr.kind {
        BytecodeExprKind::Integer(n) => if i32::MIN <= n <= i32::MAX {
            Some(n as i32)
        } else {
            None
        },
        _ => None,
    }
}

fn immediate_of(expr: &BytecodeExpr) -> (imm: Option<i32>)
    ensures
        imm == immediate(*expr),
{
    match &expr.kind {
        BytecodeExprKind::Integer(n) => if i32::MIN as i64 <= *n && *n <= i32::MAX as i64 {
            Some(*n as i32)
        } else {
            None
        },
        _ => None,
    }
}

/// An update folded into its destination.
pub open spec fn update_emission(
    ctx: NativeCtx,
    slot: i32,
    op: Alu,
    right: BytecodeExpr,
) -> Emission {
    match ctx.register_of(slot) {
        Some(reg) => match immediate(right) {
            Some(imm) => Emission::of_program(seq![alu_imm32(op, reg, imm)]),
            None => match promoted_variable(ctx, right) {
                Some(source) => Emission::of_program(seq![alu(op, reg, source)]),
                None => right.code.word@.then_emit(
                    Emission::of_program(seq![alu(op, reg, Rax)]),
                ),
            },
        },
        None => match immediate(right) {
            Some(imm) => Emission::of_program(seq![alu_imm32_mem(op, frame(slot), imm)]),
            None => right.code.word@.then_emit(
                Emission::of_program(seq![alu_store(op, frame(slot), Rax)]),
            ),
        },
    }
}

fn lower_update(
    ctx: &NativeCtx,
    slot: i32,
    op: Alu,
    right: &BytecodeExpr,
    code: &mut CodeBuffer,
) -> (result: Result<(), String>)
    requires
        fits(old(code)@, update_emission(*ctx, slot, op, *right)),
    ensures
        final(code)@ == old(code)@.then_code(update_emission(*ctx, slot, op, *right).code),
        tells(result, update_emission(*ctx, slot, op, *right)),
{
    let imm = immediate_of(right);
    match ctx.promoted_reg(slot) {
        Some(reg) => match imm {
            Some(imm) => {
                emit_insn(code, alu_imm32(op, reg, imm));
                Ok(())
            },
            None => match promoted_var_reg(ctx, right) {
                Some(source) => {
                    emit_insn(code, alu(op, reg, source));
                    Ok(())
                },
                None => emit_then_insn(code, &right.code.word, alu(op, reg, Rax)),
            },
        },
        None => match imm {
            Some(imm) => {
                emit_insn(code, alu_imm32_mem(op, frame(slot), imm));
                Ok(())
            },
            None => emit_then_insn(code, &right.code.word, alu_store(op, frame(slot), Rax)),
        },
    }
}

/// An assignment of a word to a place.
pub open spec fn word_replace_emission(
    ctx: NativeCtx,
    place: ScalarPlace,
    a: Assignment,
) -> Emission {
    match place {
        ScalarPlace::Const { slot } => match update_in_place(ctx, slot, a.value) {
            Some((op, right)) => update_emission(ctx, slot, op, right),
            None => a.value.code.word@.then_emit(
                Emission::of_program(seq![acc_from_rax(ctx.register_of(slot), slot)]),
            ),
        },
        ScalarPlace::Dynamic { address, .. } => a.value.code.word@.then_emit(
            store_at(address@, store(at(Rcx), Rax)),
        ),
        ScalarPlace::FatIndex => Emission::refused(fat_element()),
    }
}

/// A compound assignment of a word to a place.
pub open spec fn word_compound_emission(
    ctx: NativeCtx,
    place: ScalarPlace,
    a: Assignment,
) -> Emission {
    match place {
        ScalarPlace::Const { slot } => Emission::of_program(
            seq![acc_to_rax(ctx.register_of(slot), slot), Push(Rax)],
        ).then_emit(
            a.value.code.word@.then_emit(
                a.combine@.then_emit(
                    Emission::of_program(seq![acc_from_rax(ctx.register_of(slot), slot)]),
                ),
            ),
        ),
        ScalarPlace::Dynamic { address, .. } => address@.then_emit(
            Emission::of_program(seq![Push(Rcx), load(Rax, at(Rcx)), Push(Rax)]).then_emit(
                a.value.code.word@.then_emit(
                    a.combine@.then_emit(
                        Emission::of_program(seq![Pop(Rcx), store(at(Rcx), Rax)]),
                    ),
                ),
            ),
        ),
        ScalarPlace::FatIndex => Emission::refused(fat_element()),
    }
}

fn lower_word_replace(
    ctx: &NativeCtx,
    place: &ScalarPlace,
    a: &Assignment,
    code: &mut CodeBuffer,
) -> (result: Result<(), String>)
    requires
        fits(old(code)@, word_replace_emission(*ctx, *place, *a)),
    ensures
        final(code)@ == old(code)@.then_code(word_replace_emission(*ctx, *place, *a).code),
        tells(result, word_replace_emission(*ctx, *place, *a)),
{
    match place {
        ScalarPlace::Const { slot } => {
            if let Some((op, right)) = find_update(ctx, *slot, &a.value) {
                return lower_update(ctx, *slot, op, right, code);
            }
            emit_then_insn(
                code,
                &a.value.code.word,
                acc_from_rax(ctx.promoted_reg(*slot), *slot),
            )
        },
        ScalarPlace::Dynamic { address, .. } => {
            proof {
                lemma_emit_step(
                    code@,
                    a.value.code.word@,
                    store_at(address@, store(at(Rcx), Rax)),
                );
            }
            match emit(code, &a.value.code.word) {
                Ok(_) => {},
                Err(why) => {
                    return Err(why);
                },
            }
            emit_store_at(address, store(at(Rcx), Rax), code)
        },
        ScalarPlace::FatIndex => refuse(code, "cannot assign to a fat-pointer array element"),
    }
}

/// Evaluates the right operand, combines, and stores the outcome with `program`.
fn emit_combined(a: &Assignment, program: &Vec<Insn>, code: &mut CodeBuffer) -> (result: Result<
    (),
    String,
>)
    requires
        program@.len() <= 0x100_0000,
        fits(
            old(code)@,
            a.value.code.word@.then_emit(
                a.combine@.then_emit(Emission::of_program(program@)),
            ),
        ),
    ensures
        final(code)@ == old(code)@.then_code(
            a.value.code.word@.then_emit(
                a.combine@.then_emit(Emission::of_program(program@)),
            ).code,
        ),
        tells(
            result,
            a.value.code.word@.then_emit(
                a.combine@.then_emit(Emission::of_program(program@)),
            ),
        ),
{
    proof {
        lemma_emit_step(
            code@,
            a.value.code.word@,
            a.combine@.then_emit(Emission::of_program(program@)),
        );
    }
    match emit(code, &a.value.code.word) {
        Ok(_) => {},
        Err(why) => {
            return Err(why);
        },
    }
    emit_then_program(code, &a.combine, program)
}

fn lower_word_compound(
    ctx: &NativeCtx,
    place: &ScalarPlace,
    a: &Assignment,
    code: &mut CodeBuffer,
) -> (result: Result<(), String>)
    requires
        fits(old(code)@, word_compound_emission(*ctx, *place, *a)),
    ensures
        final(code)@ == old(code)@.then_code(word_compound_emission(*ctx, *place, *a).code),
        tells(result, word_compound_emission(*ctx, *place, *a)),
{
    match place {
        ScalarPlace::Const { slot } => {
            let reg = ctx.promoted_reg(*slot);
            let first = vec![acc_to_rax(reg, *slot), Push(Rax)];
            let last = vec![acc_from_rax(reg, *slot)];
            proof {
                assert(first@ =~= seq![acc_to_rax(reg, *slot), Push(Rax)]);
                assert(last@ =~= seq![acc_from_rax(reg, *slot)]);
                lemma_emit_step(
                    code@,
                    Emission::of_program(first@),
                    a.value.code.word@.then_emit(
                        a.combine@.then_emit(Emission::of_program(last@)),
                    ),
                );
            }
            emit_program(code, &first);
            emit_combined(a, &last, code)
        },
        ScalarPlace::Dynamic { address, .. } => {
            let first = vec![Push(Rcx), load(Rax, at(Rcx)), Push(Rax)];
            let last = vec![Pop(Rcx), store(at(Rcx), Rax)];
            let ghost combined = a.value.code.word@.then_emit(
                a.combine@.then_emit(Emission::of_program(last@)),
            );
            proof {
                assert(first@ =~= seq![Push(Rcx), load(Rax, at(Rcx)), Push(Rax)]);
                assert(last@ =~= seq![Pop(Rcx), store(at(Rcx), Rax)]);
                lemma_emit_step(
                    code@,
                    address@,
                    Emission::of_program(first@).then_emit(combined),
                );
            }
            match emit(code, address) {
                Ok(_) => {},
                Err(why) => {
                    return Err(why);
                },
            }
            proof {
                lemma_emit_step(code@, Emission::of_program(first@), combined);
            }
            emit_program(code, &first);
            emit_combined(a, &last, code)
        },
        ScalarPlace::FatIndex => refuse(code, "cannot assign to a fat-pointer array element"),
    }
}

// Assignments

/// An assignment through a path, or to an integer local.
pub open spec fn place_assign_emission(ctx: NativeCtx, a: Assignment) -> Emission {
    match a.typed_place {
        Err(why) => Emission::refused(why@),
        Ok(typed) => match typed.ty@ {
            Layout::Narrow { bytes, .. } => narrow_assign_emission(
                typed.place,
                bytes as usize,
                a,
            ),
            Layout::F64 | Layout::F32 => float_element_emission(
                typed.place,
                width_of(typed.ty@),
                a,
            ),
            _ => match a.place {
                Err(why) => Emission::refused(why@),
                Ok(place) => if a.op == AssignOp::Replace {
                    word_replace_emission(ctx, place, a)
                } else {
                    word_compound_emission(ctx, place, a)
                },
            },
        },
    }
}

/// An assignment.
pub open spec fn assign_emission(ctx: NativeCtx, a: Assignment) -> Emission {
    if a.path@.len() > 0 {
        place_assign_emission(ctx, a)
    } else {
        match ctx.local_of(a.name@) {
            None => Emission::refused(unknown_local(a.name@)),
            Some(local) => match local.ty@ {
                Layout::F64 | Layout::F32 => float_assign_emission(local, a),
                Layout::Struct { .. } | Layout::Array { .. } | Layout::Enum { .. } => if a.op
                    != AssignOp::Replace {
                    Emission::refused("compound assignment on an aggregate is not supported"@)
                } else {
                    aggregate_emission(ctx, local.slot, local.ty@, a.value)
                },
                Layout::Text | Layout::List { .. } | Layout::Mapping { .. } => if a.op
                    != AssignOp::Replace {
                    Emission::refused(
                        "compound assignment on a string, list, or map is not supported"@,
                    )
                } else {
                    a.value.code.word@.then_emit(
                        Emission::of_program(seq![store_local(local.slot)]),
                    )
                },
                _ => place_assign_emission(ctx, a),
            },
        }
    }
}

/// Whether an assignment can be lowered at all: a float local has no remainder, and an
/// aggregate local can be measured.
pub open spec fn assignable(ctx: NativeCtx, a: Assignment) -> bool {
    a.path@.len() == 0 ==> (ctx.local_of(a.name@) matches Some(local) ==> {
        &&& measurable(local.ty@)
        &&& (local.ty@ is F64 || local.ty@ is F32) ==> a.op != AssignOp::Remainder
    })
}

fn lower_place_assign(ctx: &NativeCtx, a: &Assignment, code: &mut CodeBuffer) -> (result: Result<
    (),
    String,
>)
    requires
        fits(old(code)@, place_assign_emission(*ctx, *a)),
    ensures
        final(code)@ == old(code)@.then_code(place_assign_emission(*ctx, *a).code),
        tells(result, place_assign_emission(*ctx, *a)),
{
    let typed = match &a.typed_place {
        Ok(typed) => typed,
        Err(why) => {
            return refuse(code, why.as_str());
        },
    };
    match &typed.ty {
        NativeType::Narrow { bytes, .. } => {
            if a.op != AssignOp::Replace {
                return refuse(
                    code,
                    "compound assignment on a packed narrow array element is not supported",
                );
            }
            proof {
                lemma_emit_step(
                    code@,
                    a.value.code.word@,
                    narrow_store_emission(typed.place, *bytes),
                );
            }
            match emit(code, &a.value.code.word) {
                Ok(_) => {},
                Err(why) => {
                    return Err(why);
                },
            }
            return emit_store_place_narrow(&typed.place, *bytes, code);
        },
        NativeType::F64 => {
            return lower_float_element(&typed.place, FloatWidth::F64, a, code);
        },
        NativeType::F32 => {
            return lower_float_element(&typed.place, FloatWidth::F32, a, code);
        },
        _ => {},
    }
    match &a.place {
        Err(why) => refuse(code, why.as_str()),
        Ok(place) => if a.op == AssignOp::Replace {
            lower_word_replace(ctx, place, a, code)
        } else {
            lower_word_compound(ctx, place, a, code)
        },
    }
}

/// Lowers an assignment: to a float local through `xmm0`; to a whole aggregate by
/// materializing it anew; to a pointer word; through a path to an element or field; or to
/// an integer local, where `x = x + rhs` updates `x` in place.
pub fn lower_assign(ctx: &NativeCtx, a: &Assignment, code: &mut CodeBuffer) -> (result: Result<
    (),
    String,
>)
    requires
        assignable(*ctx, *a),
        fits(old(code)@, assign_emission(*ctx, *a)),
    ensures
        final(code)@ == old(code)@.then_code(assign_emission(*ctx, *a).code),
        tells(result, assign_emission(*ctx, *a)),
{
    if a.path.len() > 0 {
        return lower_place_assign(ctx, a, code);
    }
    let local = match ctx.local(&a.name) {
        Ok(local) => local,
        Err(why) => {
            return refuse(code, why.as_str());
        },
    };
    match &local.ty {
        NativeType::F64 | NativeType::F32 => lower_float_assign(local, a, code),
        NativeType::Struct { .. } | NativeType::Array { .. } | NativeType::Enum { .. } => {
            if a.op != AssignOp::Replace {
                return refuse(code, "compound assignment on an aggregate is not supported");
            }
            lower_aggregate_init(ctx, local.slot, &local.ty, &a.value, code)
        },
        NativeType::String | NativeType::List { .. } | NativeType::Mapping { .. } => {
            if a.op != AssignOp::Replace {
                return refuse(
                    code,
                    "compound assignment on a string, list, or map is not supported",
                );
            }
            emit_then_insn(code, &a.value.code.word, store_local(local.slot))
        },
        _ => lower_place_assign(ctx, a, code),
    }
}

} // verus!
