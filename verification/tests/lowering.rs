//! Lowering statements, aggregates and whole functions.

use lullaby_ir::aggregate::{lower_aggregate_init, lower_enum_construction};
use lullaby_ir::arena::{
    arena_loop_reset_mark, emit_arena_loop_rewind, emit_arena_loop_save, emit_arena_prologue,
    emit_arena_reset, emit_native_epilogue, emit_sub_rsp,
};
use lullaby_ir::assembler::{CodeBuffer, CodeRelocation};
use lullaby_ir::assign::{lower_assign, lower_let};
use lullaby_ir::bytecode::{
    AssignOp, Assignment, BinaryOp, BytecodeExpr, BytecodeExprKind, BytecodeFunction,
    BytecodeInstruction, BytecodeParam, BytecodePlace, Compound, CompoundCode, CompoundForm,
    ExprCode, ScalarPlace, TypedPlace,
};
use lullaby_ir::context::{Local, NativeCtx};
use lullaby_ir::emission::Emitted;
use lullaby_ir::function::lower_native_function;
use lullaby_ir::image::LoweredNativeFunction;
use lullaby_ir::layout::{NativeEnumVariant, NativeType};
use lullaby_ir::resolve::IrStructDef;
use lullaby_ir::spelling::TypeRef;
use lullaby_ir::statement::{lower_native_stmt, lower_native_stmts, NativeLoop};
use lullaby_ir::x86::{FloatWidth, Reg};

const HEAP_NEXT: &str = "__lullaby_heap_next";
const HEAP_BASE: &str = "__lullaby_heap_base";
const ALLOC_MODE: &str = "__lullaby_alloc_mode";

fn local(name: &str, ty: NativeType, slot: i32) -> (String, Local) {
    (name.to_string(), Local { ty, slot })
}

fn pair() -> NativeType {
    NativeType::Struct {
        name: "Pair".to_string(),
        fields: vec![("a".to_string(), NativeType::I64), ("b".to_string(), NativeType::F64)],
    }
}

fn maybe() -> NativeType {
    NativeType::Enum {
        name: "option".to_string(),
        variants: vec![
            NativeEnumVariant { name: "some".to_string(), tag: 0, payload: vec![NativeType::I64] },
            NativeEnumVariant { name: "none".to_string(), tag: 1, payload: vec![] },
        ],
        payload_words: 1,
    }
}

fn triple() -> NativeType {
    NativeType::Array { elem: Box::new(NativeType::I64), len: 3 }
}

fn shorts() -> NativeType {
    NativeType::Array { elem: Box::new(NativeType::Narrow { bytes: 2, signed: true }), len: 2 }
}

fn ctx() -> NativeCtx {
    NativeCtx {
        frame_size: 32,
        saved_reg_slots: vec![],
        promoted: vec![(48, Reg::Rbx), (56, Reg::R12)],
        locals: vec![
            local("x", NativeType::I64, 8),
            local("f", NativeType::F64, 16),
            local("g", NativeType::F32, 24),
            local("s", NativeType::String, 32),
            local("r", NativeType::I64, 48),
            local("q", NativeType::I64, 56),
            local("p", pair(), 72),
            local("m", maybe(), 88),
            local("t", triple(), 112),
            local("u", triple(), 136),
            local("w", shorts(), 144),
            local("fat", NativeType::FatArray { elem: Box::new(NativeType::I64) }, 160),
            local("v", NativeType::Void, 0),
            local("n", NativeType::Narrow { bytes: 1, signed: false }, 168),
        ],
        sret_slot: None,
        return_ty: NativeType::I64,
        is_arena: false,
        promotes_closure_return: false,
        arena_mark_slot: 176,
        arena_saved_mode_slot: 184,
        arena_loop_mark_slots: vec![192, 200],
        structs: vec![IrStructDef {
            name: "Cell".to_string(),
            type_params: vec![],
            fields: vec![
                ("a".to_string(), TypeRef::new("i64")),
                ("b".to_string(), TypeRef::new("i64")),
            ],
        }],
        callees: vec!["make".to_string()],
    }
}

fn bytes(code: &[u8]) -> Emitted {
    Emitted::done(CodeBuffer { code: code.to_vec(), relocations: vec![] })
}

/// An expression whose code in each position is one byte.
fn expr(kind: BytecodeExprKind, ty: &str) -> BytecodeExpr {
    BytecodeExpr {
        kind,
        ty: TypeRef::new(ty),
        code: ExprCode {
            word: bytes(&[0xA0]),
            float: (bytes(&[0xA1]), FloatWidth::F64),
            returned: bytes(&[0xA2]),
            heap_copy: bytes(&[0xA3]),
            into_slots: bytes(&[0xA4]),
            place: Err("no place".to_string()),
            typed_place: Err("no place".to_string()),
            source: Err("no source".to_string()),
            survivor: None,
        },
    }
}

fn word() -> BytecodeExpr {
    expr(BytecodeExprKind::Other, "i64")
}

fn integer(n: i64) -> BytecodeExpr {
    expr(BytecodeExprKind::Integer(n), "i64")
}

fn variable(name: &str) -> BytecodeExpr {
    expr(BytecodeExprKind::Variable(name.to_string()), "i64")
}

fn call(name: &str, args: Vec<BytecodeExpr>, ty: &str) -> BytecodeExpr {
    expr(BytecodeExprKind::Call { name: name.to_string(), args }, ty)
}

fn array(elements: Vec<BytecodeExpr>) -> BytecodeExpr {
    expr(BytecodeExprKind::Array(elements), "array<i64>")
}

fn binary(left: BytecodeExpr, op: BinaryOp, right: BytecodeExpr) -> BytecodeExpr {
    expr(BytecodeExprKind::Binary { left: Box::new(left), op, right: Box::new(right) }, "i64")
}

fn refused(why: &str) -> Result<(), String> {
    Err(why.to_string())
}

fn lowered_let(name: &str, value: &BytecodeExpr) -> (Result<(), String>, Vec<u8>) {
    let mut code = CodeBuffer::new();
    let result = lower_let(&ctx(), &name.to_string(), value, &mut code);
    (result, code.code)
}

fn assignment(name: &str, op: AssignOp, value: BytecodeExpr) -> Assignment {
    Assignment {
        name: name.to_string(),
        path: vec![],
        op,
        value,
        place: Err("no place".to_string()),
        typed_place: Err("no place".to_string()),
        combine: bytes(&[0xB0]),
    }
}

/// An assignment to the word in `slot`.
fn to_slot(name: &str, slot: i32, op: AssignOp, value: BytecodeExpr) -> Assignment {
    let mut a = assignment(name, op, value);
    a.place = Ok(ScalarPlace::Const { slot });
    a.typed_place = Ok(TypedPlace { place: ScalarPlace::Const { slot }, ty: NativeType::I64 });
    a
}

fn dynamic() -> ScalarPlace {
    ScalarPlace::Dynamic {
        base_slot: 112,
        const_bytes: 0,
        elem_bytes: 8,
        index_len: 3,
        address: bytes(&[0xC0]),
    }
}

/// An assignment to an element of layout `ty`.
fn to_element(op: AssignOp, place: ScalarPlace, other: ScalarPlace, ty: NativeType) -> Assignment {
    let mut a = assignment("t", op, word());
    a.path = vec![BytecodePlace::Index(variable("x"))];
    a.place = Ok(other);
    a.typed_place = Ok(TypedPlace { place, ty });
    a
}

fn lowered_assign(a: &Assignment) -> (Result<(), String>, Vec<u8>) {
    let mut code = CodeBuffer::new();
    let result = lower_assign(&ctx(), a, &mut code);
    (result, code.code)
}

#[test]
fn stack_reservations_take_the_short_form_when_they_fit() {
    for (amount, expected) in [
        (0, vec![]),
        (40, vec![0x48, 0x83, 0xEC, 0x28]),
        (127, vec![0x48, 0x83, 0xEC, 0x7F]),
        (128, vec![0x48, 0x81, 0xEC, 0x80, 0, 0, 0]),
        (4096, vec![0x48, 0x81, 0xEC, 0, 0x10, 0, 0]),
    ] {
        let mut code = CodeBuffer::new();
        emit_sub_rsp(&mut code, amount);
        assert_eq!(code.code, expected);
    }
}

#[test]
fn epilogues_restore_what_was_saved() {
    let mut code = CodeBuffer::new();
    emit_native_epilogue(&mut code, 32, &vec![(Reg::Rbx, 8), (Reg::R12, 16)]);
    assert_eq!(
        code.code,
        [
            0x48, 0x8B, 0x9D, 0xF8, 0xFF, 0xFF, 0xFF, 0x4C, 0x8B, 0xA5, 0xF0, 0xFF, 0xFF, 0xFF,
            0x48, 0x83, 0xC4, 0x20, 0x5D, 0xC3,
        ]
    );
    let mut bare = CodeBuffer::new();
    emit_native_epilogue(&mut bare, 0, &vec![]);
    assert_eq!(bare.code, [0x5D, 0xC3]);
    let mut large = CodeBuffer::new();
    emit_native_epilogue(&mut large, 200, &vec![]);
    assert_eq!(large.code, [0x48, 0x81, 0xC4, 200, 0, 0, 0, 0x5D, 0xC3]);
}

fn references(code: &CodeBuffer) -> Vec<(u32, &str)> {
    code.relocations.iter().map(|r: &CodeRelocation| (r.offset, r.symbol.as_str())).collect()
}

#[test]
fn arena_prologue_machine_code() {
    let mut plain = ctx();
    plain.is_arena = true;
    let mut code = CodeBuffer::new();
    emit_arena_prologue(&plain, &mut code);
    assert_eq!(
        code.code,
        [
            0x48, 0x8B, 0x05, 0, 0, 0, 0, 0x48, 0x89, 0x85, 0x50, 0xFF, 0xFF, 0xFF, 0x48, 0x8B,
            0x05, 0, 0, 0, 0, 0x48, 0x89, 0x85, 0x48, 0xFF, 0xFF, 0xFF, 0xB8, 1, 0, 0, 0, 0x48,
            0x89, 0x05, 0, 0, 0, 0,
        ]
    );
    assert_eq!(references(&code), [(3, HEAP_NEXT), (17, ALLOC_MODE), (36, ALLOC_MODE)]);

    let mut promoting = ctx();
    promoting.is_arena = true;
    promoting.promotes_closure_return = true;
    let mut seeded = CodeBuffer::new();
    emit_arena_prologue(&promoting, &mut seeded);
    assert_eq!(
        seeded.code[..26],
        [
            0x48, 0x8B, 0x05, 0, 0, 0, 0, 0x48, 0x85, 0xC0, 0x75, 0x07, 0x48, 0x8D, 0x05, 0, 0, 0,
            0, 0x48, 0x89, 0x05, 0, 0, 0, 0,
        ]
    );
    assert_eq!(seeded.code[26..], code.code[..]);
    assert_eq!(
        references(&seeded),
        [
            (3, HEAP_NEXT),
            (15, HEAP_BASE),
            (22, HEAP_NEXT),
            (29, HEAP_NEXT),
            (43, ALLOC_MODE),
            (62, ALLOC_MODE),
        ]
    );
}

#[test]
fn arena_reset_machine_code() {
    let mut code = CodeBuffer::new();
    assert_eq!(emit_arena_reset(&ctx(), &mut code, None), Ok(()));
    assert_eq!(code, CodeBuffer::new());

    let mut plain = ctx();
    plain.is_arena = true;
    assert_eq!(emit_arena_reset(&plain, &mut code, None), Ok(()));
    assert_eq!(
        code.code,
        [
            0x4C, 0x8B, 0x95, 0x50, 0xFF, 0xFF, 0xFF, 0x4C, 0x89, 0x15, 0, 0, 0, 0, 0x4C, 0x8B,
            0x95, 0x48, 0xFF, 0xFF, 0xFF, 0x4C, 0x89, 0x15, 0, 0, 0, 0,
        ]
    );
    assert_eq!(references(&code), [(10, HEAP_NEXT), (24, ALLOC_MODE)]);
}

#[test]
fn a_returned_closure_is_carried_out_of_the_arena() {
    let mut promoting = ctx();
    promoting.is_arena = true;
    promoting.promotes_closure_return = true;
    let mut closure = word();
    closure.code.survivor = Some(16);
    let mut code = CodeBuffer::new();
    assert_eq!(emit_arena_reset(&promoting, &mut code, Some(&closure)), Ok(()));
    assert_eq!(
        code.code[..55],
        [
            0x4C, 0x8B, 0x95, 0x50, 0xFF, 0xFF, 0xFF, 0x48, 0x8B, 0x90, 0, 0, 0, 0, 0x49, 0x89,
            0x92, 0, 0, 0, 0, 0x48, 0x8B, 0x90, 8, 0, 0, 0, 0x49, 0x89, 0x92, 8, 0, 0, 0, 0x4C,
            0x89, 0xD0, 0x4D, 0x8D, 0x92, 16, 0, 0, 0, 0x4C, 0x89, 0x15, 0, 0, 0, 0, 0x4C, 0x8B,
            0x95,
        ]
    );
    assert_eq!(references(&code), [(48, HEAP_NEXT), (62, ALLOC_MODE)]);

    let mut nothing = CodeBuffer::new();
    assert_eq!(
        emit_arena_reset(&promoting, &mut nothing, None),
        refused(
            "a promoting closure factory reached a return edge with no survivor expression to relocate; refusing to plain-rewind a live block"
        )
    );
    assert_eq!(
        emit_arena_reset(&promoting, &mut nothing, Some(&word())),
        refused(
            "a promoting closure factory's return edge does not resolve to a flat scalar-capture closure survivor; refusing to plain-rewind a live block"
        )
    );
    assert_eq!(nothing, CodeBuffer::new());
}

#[test]
fn loops_rewind_only_confined_heap_in_arenas() {
    let mut arena = ctx();
    arena.is_arena = true;
    assert_eq!(arena_loop_reset_mark(&arena, true, true, 1), Some(200));
    assert_eq!(arena_loop_reset_mark(&arena, false, true, 1), None);
    assert_eq!(arena_loop_reset_mark(&arena, true, false, 1), None);
    assert_eq!(arena_loop_reset_mark(&ctx(), true, true, 0), None);
    let mut code = CodeBuffer::new();
    emit_arena_loop_save(16, &mut code);
    emit_arena_loop_rewind(16, &mut code);
    assert_eq!(
        code.code,
        [
            0x48, 0x8B, 0x05, 0, 0, 0, 0, 0x48, 0x89, 0x85, 0xF0, 0xFF, 0xFF, 0xFF, 0x4C, 0x8B,
            0x95, 0xF0, 0xFF, 0xFF, 0xFF, 0x4C, 0x89, 0x15, 0, 0, 0, 0,
        ]
    );
    assert_eq!(references(&code), [(3, HEAP_NEXT), (24, HEAP_NEXT)]);
}

#[test]
fn lets_store_by_layout() {
    let ok = Ok(());
    assert_eq!(
        lowered_let("x", &word()),
        (ok.clone(), vec![0xA0, 0x48, 0x89, 0x85, 0xF8, 0xFF, 0xFF, 0xFF])
    );
    assert_eq!(lowered_let("r", &word()), (ok.clone(), vec![0xA0, 0x48, 0x89, 0xC3]));
    assert_eq!(
        lowered_let("s", &word()),
        (ok.clone(), vec![0xA0, 0x48, 0x89, 0x85, 0xE0, 0xFF, 0xFF, 0xFF])
    );
    assert_eq!(
        lowered_let("f", &word()),
        (ok.clone(), vec![0xA1, 0xF2, 0x0F, 0x11, 0x85, 0xF0, 0xFF, 0xFF, 0xFF])
    );
    assert_eq!(
        lowered_let("t", &array(vec![word(), word(), word()])),
        (
            ok,
            vec![
                0xA0, 0x48, 0x89, 0x85, 0x90, 0xFF, 0xFF, 0xFF, 0xA0, 0x48, 0x89, 0x85, 0x98,
                0xFF, 0xFF, 0xFF, 0xA0, 0x48, 0x89, 0x85, 0xA0, 0xFF, 0xFF, 0xFF,
            ]
        )
    );
}

#[test]
fn lets_refuse_what_is_no_value() {
    assert_eq!(lowered_let("gone", &word()), (refused("unknown local `gone`"), vec![]));
    assert_eq!(
        lowered_let("v", &word()),
        (refused("local `v` is `void`; a void binding is not in the native subset"), vec![])
    );
    assert_eq!(
        lowered_let("n", &word()),
        (
            refused(
                "local `n` resolves to a packed narrow layout, which is an array-element-only representation and is not in the native subset"
            ),
            vec![]
        )
    );
    assert_eq!(
        lowered_let("fat", &word()),
        (refused("a fat-pointer array cannot be bound to a local"), vec![])
    );
}

#[test]
fn structs_are_built_field_by_field() {
    let value = call("Pair", vec![word(), word()], "Pair");
    assert_eq!(
        lowered_let("p", &value),
        (
            Ok(()),
            vec![
                0xA0, 0x48, 0x89, 0x85, 0xB8, 0xFF, 0xFF, 0xFF, 0xA1, 0xF2, 0x0F, 0x11, 0x85,
                0xC0, 0xFF, 0xFF, 0xFF,
            ]
        )
    );
    assert_eq!(
        lowered_let("p", &call("Line", vec![word(), word()], "Line")),
        (refused("constructor `Line` does not match struct layout `Pair`"), vec![])
    );
    assert_eq!(
        lowered_let("p", &call("Pair", vec![word()], "Pair")),
        (refused("constructor `Pair` has wrong field count"), vec![])
    );
    assert_eq!(lowered_let("p", &call("make", vec![], "Pair")), (Ok(()), vec![0xA4]));
    assert_eq!(
        lowered_let("p", &integer(1)),
        (refused("initializer is not a native aggregate constructor"), vec![])
    );
}

#[test]
fn enums_are_built_from_tag_and_payload() {
    assert_eq!(
        lowered_let("m", &call("some", vec![word()], "option<i64>")),
        (
            Ok(()),
            vec![
                0x48, 0xB8, 0, 0, 0, 0, 0, 0, 0, 0, 0x48, 0x89, 0x85, 0xA8, 0xFF, 0xFF, 0xFF,
                0xA0, 0x48, 0x89, 0x85, 0xB0, 0xFF, 0xFF, 0xFF,
            ]
        )
    );
    assert_eq!(
        lowered_let("m", &call("none", vec![], "option<i64>")),
        (
            Ok(()),
            vec![
                0x48, 0xB8, 1, 0, 0, 0, 0, 0, 0, 0, 0x48, 0x89, 0x85, 0xA8, 0xFF, 0xFF, 0xFF
            ]
        )
    );
    assert_eq!(
        lowered_let("m", &call("other", vec![], "option<i64>")),
        (refused("enum constructor `other` is not a variant of the target enum"), vec![])
    );
    assert_eq!(
        lowered_let("m", &call("some", vec![], "option<i64>")),
        (refused("enum constructor `some` expects 1 payload field(s), got 0"), vec![])
    );
    let variants = vec![NativeEnumVariant {
        name: "odd".to_string(),
        tag: 0,
        payload: vec![NativeType::Void],
    }];
    let mut code = CodeBuffer::new();
    assert_eq!(
        lower_enum_construction(8, &variants, &"odd".to_string(), &vec![word()], &mut code),
        refused("enum payload must be a native scalar, `string`, or one-level mutable aggregate")
    );
}

#[test]
fn arrays_are_built_at_their_own_stride() {
    assert_eq!(
        lowered_let("w", &array(vec![word(), word()])),
        (
            Ok(()),
            vec![
                0xA0, 0x48, 0x8D, 0x8D, 0x70, 0xFF, 0xFF, 0xFF, 0x66, 0x89, 0x01, 0xA0, 0x48,
                0x8D, 0x8D, 0x72, 0xFF, 0xFF, 0xFF, 0x66, 0x89, 0x01,
            ]
        )
    );
    assert_eq!(
        lowered_let("t", &array(vec![word()])),
        (refused("array literal length does not match layout"), vec![])
    );
}

#[test]
fn aggregates_copy_from_locals() {
    let copy = lowered_let("t", &variable("u"));
    let mut expected: Vec<u8> = vec![];
    for (from, to) in [(0x78, 0x90), (0x80, 0x98), (0x88, 0xA0)] {
        expected.extend_from_slice(&[0x48, 0x8B, 0x85, from, 0xFF, 0xFF, 0xFF]);
        expected.extend_from_slice(&[0x48, 0x89, 0x85, to, 0xFF, 0xFF, 0xFF]);
    }
    assert_eq!(copy, (Ok(()), expected));
    assert_eq!(lowered_let("t", &variable("gone")).0, refused("unknown local `gone`"));
}

#[test]
fn structs_read_from_lists_are_copied_word_by_word() {
    let cell = NativeType::Struct {
        name: "Cell".to_string(),
        fields: vec![("a".to_string(), NativeType::I64), ("b".to_string(), NativeType::I64)],
    };
    let mut list = variable("l");
    list.ty = TypeRef::new("list<Cell>");
    let value = call("get", vec![list, integer(0)], "Cell");
    let mut code = CodeBuffer::new();
    assert_eq!(lower_aggregate_init(&ctx(), 16, &cell, &value, &mut code), Ok(()));
    assert_eq!(
        code.code,
        [
            0xA3, 0x48, 0x89, 0xC1, 0x48, 0x8B, 0x81, 0, 0, 0, 0, 0x48, 0x89, 0x85, 0xF0, 0xFF,
            0xFF, 0xFF, 0x48, 0x8B, 0x81, 8, 0, 0, 0, 0x48, 0x89, 0x85, 0xF8, 0xFF, 0xFF, 0xFF,
        ]
    );
}

#[test]
fn float_assignments_go_through_xmm0() {
    assert_eq!(
        lowered_assign(&assignment("g", AssignOp::Replace, word())),
        (Ok(()), vec![0xA1, 0xF3, 0x0F, 0x11, 0x85, 0xE8, 0xFF, 0xFF, 0xFF])
    );
    assert_eq!(
        lowered_assign(&assignment("f", AssignOp::Subtract, word())),
        (
            Ok(()),
            vec![
                0xA1, 0x48, 0x83, 0xEC, 8, 0xF2, 0x0F, 0x11, 0x04, 0x24, 0xF2, 0x0F, 0x10, 0x85,
                0xF0, 0xFF, 0xFF, 0xFF, 0xF2, 0x0F, 0x10, 0x0C, 0x24, 0x48, 0x83, 0xC4, 8, 0xF2,
                0x0F, 0x5C, 0xC1, 0xF2, 0x0F, 0x11, 0x85, 0xF0, 0xFF, 0xFF, 0xFF,
            ]
        )
    );
}

#[test]
fn updates_fold_into_their_destination() {
    let plus = |right: BytecodeExpr| binary(variable("x"), BinaryOp::Add, right);
    let to_x = |value: BytecodeExpr| lowered_assign(&to_slot("x", 8, AssignOp::Replace, value));
    assert_eq!(
        to_x(plus(integer(5))),
        (Ok(()), vec![0x48, 0x81, 0x85, 0xF8, 0xFF, 0xFF, 0xFF, 5, 0, 0, 0])
    );
    assert_eq!(
        to_x(binary(variable("x"), BinaryOp::Subtract, word())),
        (Ok(()), vec![0xA0, 0x48, 0x29, 0x85, 0xF8, 0xFF, 0xFF, 0xFF])
    );
    assert_eq!(
        to_x(plus(integer(1 << 40))),
        (Ok(()), vec![0xA0, 0x48, 0x01, 0x85, 0xF8, 0xFF, 0xFF, 0xFF])
    );
    assert_eq!(
        to_x(binary(variable("q"), BinaryOp::Add, integer(5))),
        (Ok(()), vec![0xA0, 0x48, 0x89, 0x85, 0xF8, 0xFF, 0xFF, 0xFF])
    );
    let to_r = |value: BytecodeExpr| lowered_assign(&to_slot("r", 48, AssignOp::Replace, value));
    let r_plus = |right: BytecodeExpr| binary(variable("r"), BinaryOp::Add, right);
    assert_eq!(to_r(r_plus(integer(5))), (Ok(()), vec![0x48, 0x81, 0xC3, 5, 0, 0, 0]));
    assert_eq!(to_r(r_plus(variable("q"))), (Ok(()), vec![0x4C, 0x01, 0xE3]));
    assert_eq!(to_r(r_plus(word())), (Ok(()), vec![0xA0, 0x48, 0x01, 0xC3]));
    assert_eq!(to_r(word()), (Ok(()), vec![0xA0, 0x48, 0x89, 0xC3]));
}

#[test]
fn elements_are_assigned_at_their_address() {
    let place = |ty: NativeType| to_element(AssignOp::Replace, dynamic(), dynamic(), ty);
    assert_eq!(
        lowered_assign(&place(NativeType::I64)),
        (Ok(()), vec![0xA0, 0x50, 0xC0, 0x58, 0x48, 0x89, 0x01])
    );
    assert_eq!(
        lowered_assign(&place(NativeType::Narrow { bytes: 4, signed: false })),
        (Ok(()), vec![0xA0, 0x50, 0xC0, 0x58, 0x89, 0x01])
    );
    assert_eq!(
        lowered_assign(&place(NativeType::F64)),
        (
            Ok(()),
            vec![
                0xA1, 0x48, 0x83, 0xEC, 8, 0xF2, 0x0F, 0x11, 0x04, 0x24, 0xC0, 0xF2, 0x0F, 0x10,
                0x04, 0x24, 0x48, 0x83, 0xC4, 8, 0xF2, 0x0F, 0x11, 0x01,
            ]
        )
    );
}

#[test]
fn assignments_refuse_what_they_cannot_store() {
    let fat = || ScalarPlace::FatIndex;
    let element = |op: AssignOp, ty: NativeType| to_element(op, fat(), fat(), ty);
    let fat_error = refused("cannot assign to a fat-pointer array element");
    assert_eq!(lowered_assign(&element(AssignOp::Replace, NativeType::I64)).0, fat_error);
    assert_eq!(lowered_assign(&element(AssignOp::Replace, NativeType::F64)).0, fat_error);
    assert_eq!(
        lowered_assign(&element(AssignOp::Add, NativeType::F32)).0,
        refused("compound assignment on a float array element is not supported")
    );
    assert_eq!(
        lowered_assign(&element(AssignOp::Add, NativeType::Narrow { bytes: 1, signed: true })).0,
        refused("compound assignment on a packed narrow array element is not supported")
    );
    assert_eq!(
        lowered_assign(&assignment("p", AssignOp::Add, word())).0,
        refused("compound assignment on an aggregate is not supported")
    );
    assert_eq!(
        lowered_assign(&assignment("s", AssignOp::Add, word())).0,
        refused("compound assignment on a string, list, or map is not supported")
    );
    assert_eq!(
        lowered_assign(&assignment("gone", AssignOp::Replace, word())).0,
        refused("unknown local `gone`")
    );
    assert_eq!(
        lowered_assign(&assignment("x", AssignOp::Replace, word())).0,
        refused("no place")
    );
}

fn one_loop(target: Option<usize>, mark: Option<i32>) -> Vec<NativeLoop> {
    vec![NativeLoop {
        drops: CodeBuffer { code: vec![0xD0], relocations: vec![] },
        arena_reset_mark: mark,
        continue_target: target,
        break_sites: vec![],
        continue_sites: vec![],
    }]
}

fn lowered_stmt(stmt: &BytecodeInstruction, loops: &mut Vec<NativeLoop>) -> (
    Result<(), String>,
    Vec<u8>,
) {
    let mut code = CodeBuffer { code: vec![0x90, 0x90], relocations: vec![] };
    let result = lower_native_stmt(&ctx(), stmt, &mut code, loops);
    (result, code.code)
}

#[test]
fn breaks_and_continues_leave_their_fields_with_the_loop() {
    let mut loops = one_loop(None, None);
    assert_eq!(
        lowered_stmt(&BytecodeInstruction::Break, &mut loops),
        (Ok(()), vec![0x90, 0x90, 0xD0, 0xE9, 0, 0, 0, 0])
    );
    assert_eq!(loops[0].break_sites, [4]);
    assert_eq!(lowered_stmt(&BytecodeInstruction::Continue, &mut loops).0, Ok(()));
    assert_eq!(loops[0].continue_sites, [4]);
    assert_eq!(loops[0].break_sites, [4]);

    let mut known = one_loop(Some(1), None);
    assert_eq!(
        lowered_stmt(&BytecodeInstruction::Continue, &mut known),
        (Ok(()), vec![0x90, 0x90, 0xD0, 0xE9, 0xF9, 0xFF, 0xFF, 0xFF])
    );
    assert_eq!(known, one_loop(Some(1), None));

    let mut rewinding = one_loop(None, Some(16));
    assert_eq!(
        lowered_stmt(&BytecodeInstruction::Break, &mut rewinding),
        (
            Ok(()),
            vec![
                0x90, 0x90, 0xD0, 0x4C, 0x8B, 0x95, 0xF0, 0xFF, 0xFF, 0xFF, 0x4C, 0x89, 0x15, 0,
                0, 0, 0, 0xE9, 0, 0, 0, 0,
            ]
        )
    );
    assert_eq!(rewinding[0].break_sites, [18]);
}

#[test]
fn jumps_need_a_loop() {
    let mut none = vec![];
    assert_eq!(
        lowered_stmt(&BytecodeInstruction::Break, &mut none).0,
        refused("`break` outside a loop")
    );
    assert_eq!(
        lowered_stmt(&BytecodeInstruction::Continue, &mut none).0,
        refused("`continue` outside a loop")
    );
}

#[test]
fn compound_statements_pass_their_jumps_on() {
    let compound = |breaks: Vec<usize>| {
        BytecodeInstruction::Compound(Compound {
            form: CompoundForm::If,
            statement: CompoundCode {
                emitted: bytes(&[0xE9, 0, 0, 0, 0, 0xE0]),
                breaks,
                continues: vec![],
            },
            value: bytes(&[0xE1]),
            yields: true,
        })
    };
    let mut loops = one_loop(None, None);
    assert_eq!(lowered_stmt(&compound(vec![1]), &mut loops).0, Ok(()));
    assert_eq!(loops[0].break_sites, [3]);
}

#[test]
fn returns_reset_the_arena_and_leave() {
    let stmt = BytecodeInstruction::Return(Some(word()));
    assert_eq!(
        lowered_stmt(&stmt, &mut vec![]),
        (Ok(()), vec![0x90, 0x90, 0xA2, 0x48, 0x83, 0xC4, 0x20, 0x5D, 0xC3])
    );
    assert_eq!(
        lowered_stmt(&BytecodeInstruction::Return(None), &mut vec![]).0,
        refused("a bare `return` in a value-returning function is not in the native subset")
    );
    let mut void = ctx();
    void.return_ty = NativeType::Void;
    let mut code = CodeBuffer::new();
    assert_eq!(
        lower_native_stmt(&void, &BytecodeInstruction::Return(None), &mut code, &mut vec![]),
        Ok(())
    );
    assert_eq!(code.code, [0x48, 0x83, 0xC4, 0x20, 0x5D, 0xC3]);
}

#[test]
fn statements_stop_at_the_first_that_is_refused() {
    let raw = |byte: u8| BytecodeInstruction::Asm { bytes: vec![byte] };
    let mut code = CodeBuffer::new();
    let block = vec![
        raw(1),
        BytecodeInstruction::RegionBlock { body: vec![raw(2), BytecodeInstruction::Throw, raw(3)] },
        raw(4),
    ];
    assert_eq!(
        lower_native_stmts(&ctx(), &block, &mut code, &mut vec![]),
        refused("throw/try is not in the native subset")
    );
    assert_eq!(code.code, [1, 2]);
    let mut whole = CodeBuffer::new();
    assert_eq!(
        lower_native_stmts(
            &ctx(),
            &vec![raw(1), BytecodeInstruction::Expr(word()), raw(3)],
            &mut whole,
            &mut vec![]
        ),
        Ok(())
    );
    assert_eq!(whole.code, [1, 0xA0, 3]);
    assert_eq!(
        lowered_stmt(&BytecodeInstruction::Try, &mut vec![]).0,
        refused("throw/try is not in the native subset")
    );
}

fn param(name: &str) -> BytecodeParam {
    BytecodeParam { name: name.to_string(), ty: TypeRef::new("i64") }
}

fn function(params: &[&str], ret: &str,
    instructions: Vec<BytecodeInstruction>) -> BytecodeFunction {
    BytecodeFunction {
        name: "f".to_string(),
        params: params.iter().map(|p| param(p)).collect(),
        return_type: TypeRef::new(ret),
        instructions,
        line: 7,
    }
}

const LEAVE: [u8; 6] = [0x48, 0x83, 0xC4, 0x20, 0x5D, 0xC3];

fn code_of(f: &BytecodeFunction, ctx: &NativeCtx) -> Vec<u8> {
    lower_native_function(f, ctx).expect("lowers").code
}

fn framed(seats: &[u8], body: &[u8]) -> Vec<u8> {
    let mut code = vec![0x55, 0x48, 0x89, 0xE5, 0x48, 0x83, 0xEC, 0x20];
    code.extend_from_slice(seats);
    code.extend_from_slice(body);
    code.extend_from_slice(&[0x48, 0x31, 0xC0]);
    code.extend_from_slice(&LEAVE);
    code
}

fn leaving(byte: u8) -> Vec<u8> {
    let mut code = vec![byte];
    code.extend_from_slice(&LEAVE);
    code
}

#[test]
fn a_tail_expression_is_returned() {
    let f = function(&["x"], "i64", vec![BytecodeInstruction::Expr(word())]);
    assert_eq!(
        lower_native_function(&f, &ctx()),
        Ok(LoweredNativeFunction {
            name: "f".to_string(),
            code: framed(&[0x48, 0x89, 0x8D, 0xF8, 0xFF, 0xFF, 0xFF], &leaving(0xA2)),
            relocations: vec![],
            line: 7,
        })
    );
}

#[test]
fn a_void_function_returns_no_value() {
    let tail = || vec![BytecodeInstruction::Expr(word())];
    assert_eq!(code_of(&function(&[], "void", tail()), &ctx()), framed(&[], &[0xA0]));
    let valueless = vec![BytecodeInstruction::Expr(expr(BytecodeExprKind::Other, "void"))];
    assert_eq!(code_of(&function(&[], "i64", valueless), &ctx()), framed(&[], &[0xA0]));
    assert_eq!(code_of(&function(&[], "i64", vec![]), &ctx()), framed(&[], &[]));
}

#[test]
fn tail_assembly_leaves_the_value_in_place() {
    let f = function(&[], "i64", vec![BytecodeInstruction::Asm { bytes: vec![0x99] }]);
    assert_eq!(code_of(&f, &ctx()), framed(&[], &leaving(0x99)));
}

fn tail_compound(form: CompoundForm, yields: bool) -> BytecodeInstruction {
    BytecodeInstruction::Compound(Compound {
        form,
        statement: CompoundCode { emitted: bytes(&[0xE0]), breaks: vec![], continues: vec![] },
        value: bytes(&[0xE1]),
        yields,
    })
}

#[test]
fn tail_branches_must_yield_the_value() {
    for form in [CompoundForm::If, CompoundForm::Match] {
        let f = |ret: &str, yields: bool| function(&[], ret, vec![tail_compound(form, yields)]);
        assert_eq!(code_of(&f("i64", true), &ctx()), framed(&[], &leaving(0xE1)));
        assert_eq!(
            lower_native_function(&f("i64", false), &ctx()),
            Err(
                "a value-producing tail `if`/`match` whose branches do not all yield a value is deferred on the native backend"
                    .to_string()
            )
        );
        assert_eq!(code_of(&f("void", false), &ctx()), framed(&[], &[0xE0]));
    }
    let looping = function(&[], "i64", vec![tail_compound(CompoundForm::While, false)]);
    assert_eq!(code_of(&looping, &ctx()), framed(&[], &[0xE0]));
}

#[test]
fn parameters_are_seated_by_layout_and_position() {
    let f = function(&["x", "f", "r", "s", "q", "g"], "void", vec![]);
    assert_eq!(
        code_of(&f, &ctx()),
        framed(
            &[
                0x48, 0x89, 0x8D, 0xF8, 0xFF, 0xFF, 0xFF, 0xF2, 0x0F, 0x11, 0x8D, 0xF0, 0xFF,
                0xFF, 0xFF, 0x4C, 0x89, 0xC3, 0x4C, 0x89, 0x8D, 0xE0, 0xFF, 0xFF, 0xFF, 0x48,
                0x8B, 0x85, 48, 0, 0, 0, 0x49, 0x89, 0xC4, 0x48, 0x8B, 0x85, 56, 0, 0, 0, 0x48,
                0x89, 0x85, 0xE8, 0xFF, 0xFF, 0xFF,
            ],
            &[]
        )
    );
}

#[test]
fn aggregate_parameters_are_copied_in() {
    let f = function(&["p"], "void", vec![]);
    let copy = [
        0x48, 0x8B, 0x88, 0, 0, 0, 0, 0x48, 0x89, 0x8D, 0xB8, 0xFF, 0xFF, 0xFF, 0x48, 0x8B, 0x88,
        8, 0, 0, 0, 0x48, 0x89, 0x8D, 0xC0, 0xFF, 0xFF, 0xFF,
    ];
    let mut seats = vec![0x48, 0x89, 0xC8];
    seats.extend_from_slice(&copy);
    assert_eq!(code_of(&f, &ctx()), framed(&seats, &[]));
    let fifth = function(&["x", "x", "x", "x", "p"], "void", vec![]);
    let code = code_of(&fifth, &ctx());
    let from_stack = [0x48, 0x8B, 0x85, 48, 0, 0, 0];
    assert_eq!(code[36..43], from_stack);
    assert_eq!(code[43..71], copy);
}

#[test]
fn a_hidden_result_pointer_shifts_the_arguments() {
    let mut returning = ctx();
    returning.sret_slot = Some(40);
    returning.saved_reg_slots = vec![(Reg::Rbx, 208)];
    let f = function(&["x"], "void", vec![]);
    let mut expected = vec![
        0x55, 0x48, 0x89, 0xE5, 0x48, 0x83, 0xEC, 0x20, 0x48, 0x89, 0x9D, 0x30, 0xFF, 0xFF, 0xFF,
        0x48, 0x89, 0x8D, 0xD8, 0xFF, 0xFF, 0xFF, 0x48, 0x89, 0x95, 0xF8, 0xFF, 0xFF, 0xFF, 0x48,
        0x31, 0xC0, 0x48, 0x8B, 0x9D, 0x30, 0xFF, 0xFF, 0xFF,
    ];
    expected.extend_from_slice(&LEAVE);
    assert_eq!(code_of(&f, &returning), expected);
}

#[test]
fn an_arena_function_rewinds_on_its_way_out() {
    let mut arena = ctx();
    arena.is_arena = true;
    let f = function(&[], "i64", vec![BytecodeInstruction::Expr(word())]);
    let lowered = lower_native_function(&f, &arena).expect("lowers");
    assert_eq!(
        lowered
            .relocations
            .iter()
            .map(|r| (r.offset, r.symbol.as_str()))
            .collect::<Vec<_>>(),
        [
            (11, HEAP_NEXT),
            (25, ALLOC_MODE),
            (44, ALLOC_MODE),
            (59, HEAP_NEXT),
            (73, ALLOC_MODE),
        ]
    );
}

#[test]
fn a_void_arena_function_rewinds_at_its_end() {
    let mut arena = ctx();
    arena.is_arena = true;
    arena.return_ty = NativeType::Void;
    let f = function(&[], "void", vec![]);
    let lowered = lower_native_function(&f, &arena).expect("lowers");
    assert_eq!(
        lowered
            .relocations
            .iter()
            .map(|r| (r.offset, r.symbol.as_str()))
            .collect::<Vec<_>>(),
        [
            (11, HEAP_NEXT),
            (25, ALLOC_MODE),
            (44, ALLOC_MODE),
            (61, HEAP_NEXT),
            (75, ALLOC_MODE),
        ]
    );
}

#[test]
fn parameters_that_carry_no_word_are_refused() {
    assert_eq!(
        lower_native_function(&function(&["v"], "void", vec![]), &ctx()),
        Err("parameter `v` is `void`; a void parameter is not in the native subset".to_string())
    );
    assert_eq!(
        lower_native_function(&function(&["n"], "void", vec![]), &ctx()),
        Err(
            "parameter `n` resolves to a packed narrow layout, which is an array-element-only representation and is not in the native subset"
                .to_string()
        )
    );
    assert_eq!(
        lower_native_function(&function(&["gone"], "void", vec![]), &ctx()),
        Err("unknown local `gone`".to_string())
    );
}

#[test]
fn a_refused_statement_refuses_the_function() {
    let f = function(&[], "i64", vec![BytecodeInstruction::Break]);
    assert_eq!(
        lower_native_function(&f, &ctx()),
        Err("`break` outside a loop".to_string())
    );
}
