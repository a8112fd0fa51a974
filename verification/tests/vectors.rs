//! Vectorized loops: their machine code, and which loops become one.

use lullaby_ir::assembler::CodeBuffer;
use lullaby_ir::bytecode::{
    AssignOp, Assignment, BinaryOp, BytecodeExpr, BytecodeExprKind, BytecodeInstruction,
    BytecodePlace, ExprCode, ScalarPlace, TypedPlace,
};
use lullaby_ir::context::{Local, NativeCtx};
use lullaby_ir::emission::Emitted;
use lullaby_ir::layout::NativeType;
use lullaby_ir::spelling::TypeRef;
use lullaby_ir::vector_loops::{
    lower_native_f64_reduction, lower_native_minmax_reduction, lower_native_vectorized_map,
    lower_native_vectorized_reduction, ElementwiseMap, F64Reduction, MinMaxReduction, Reduction,
};
use lullaby_ir::vector_patterns::{
    detect_elementwise_map, detect_f64_reduction, detect_minmax_reduction, detect_reduction,
    index_is_counter, indexed_f64_base, indexed_i64_base,
};
use lullaby_ir::vectorize::{
    emit_bounds_check_rax, emit_bounds_check_rax_against_slot, imul_rax_imm, FloatMapOp, MapKind,
    MapOp, MinMaxOp, ReduceOp,
};
use lullaby_ir::x86::{FloatWidth, Insn, Reg};

fn local(name: &str, ty: NativeType, slot: i32) -> (String, Local) {
    (name.to_string(), Local { ty, slot })
}

fn frame(promoted: Vec<(i32, Reg)>) -> NativeCtx {
    NativeCtx {
        frame_size: 256,
        saved_reg_slots: vec![],
        promoted,
        locals: vec![
            local("i", NativeType::I64, 8),
            local("i__end", NativeType::I64, 16),
            local("acc", NativeType::I64, 24),
            local("total", NativeType::F64, 32),
            local("flag", NativeType::String, 40),
        ],
        sret_slot: None,
        return_ty: NativeType::I64,
        is_arena: false,
        promotes_closure_return: false,
        arena_mark_slot: 0,
        arena_saved_mode_slot: 0,
        arena_loop_mark_slots: vec![],
        structs: vec![],
        callees: vec![],
    }
}

fn bytes(code: &[u8]) -> Emitted {
    Emitted::done(CodeBuffer { code: code.to_vec(), relocations: vec![] })
}

fn expr(kind: BytecodeExprKind, ty: &str, word: &[u8]) -> BytecodeExpr {
    BytecodeExpr {
        kind,
        ty: TypeRef::new(ty),
        code: ExprCode {
            word: bytes(word),
            float: (bytes(&[]), FloatWidth::F64),
            returned: bytes(&[]),
            heap_copy: bytes(&[]),
            into_slots: bytes(&[]),
            place: Err("no place".to_string()),
            typed_place: Err("no place".to_string()),
            source: Err("no source".to_string()),
            survivor: None,
        },
    }
}

fn start() -> BytecodeExpr {
    expr(BytecodeExprKind::Integer(0), "i64", &[0x11])
}

fn end() -> BytecodeExpr {
    expr(BytecodeExprKind::Integer(9), "i64", &[0x22])
}

fn variable(name: &str) -> BytecodeExpr {
    expr(BytecodeExprKind::Variable(name.to_string()), "i64", &[])
}

fn dynamic(base_slot: i32, const_bytes: i32, elem_bytes: i32, index_len: i64) -> ScalarPlace {
    ScalarPlace::Dynamic { base_slot, const_bytes, elem_bytes, index_len, address: bytes(&[]) }
}

/// `array[index]`, of 8-byte elements from `base_slot` on.
fn element(index: &str, base_slot: i32, len: i64) -> BytecodeExpr {
    let mut e = expr(
        BytecodeExprKind::Index {
            target: Box::new(variable("a")),
            index: Box::new(variable(index)),
        },
        "i64",
        &[],
    );
    e.code.place = Ok(dynamic(base_slot, 0, 8, len));
    e
}

fn float_element(index: &str, base_slot: i32, len: i64) -> BytecodeExpr {
    let mut e = element(index, base_slot, len);
    e.ty = TypeRef::new("f64");
    e.code.place = Err("a float".to_string());
    e.code.typed_place =
        Ok(TypedPlace { place: dynamic(base_slot, 0, 8, len), ty: NativeType::F64 });
    e
}

fn binary(left: BytecodeExpr, op: BinaryOp, right: BytecodeExpr, ty: &str) -> BytecodeExpr {
    expr(
        BytecodeExprKind::Binary { left: Box::new(left), op, right: Box::new(right) },
        ty,
        &[],
    )
}

fn call(name: &str, args: Vec<BytecodeExpr>) -> BytecodeExpr {
    expr(BytecodeExprKind::Call { name: name.to_string(), args }, "i64", &[])
}

fn assign(name: &str, op: AssignOp, value: BytecodeExpr) -> Assignment {
    Assignment {
        name: name.to_string(),
        path: vec![],
        op,
        value,
        place: Err("no place".to_string()),
        typed_place: Err("no place".to_string()),
        combine: bytes(&[]),
    }
}

fn body(a: Assignment) -> Vec<BytecodeInstruction> {
    vec![BytecodeInstruction::Assign(a)]
}

#[test]
fn sum_reduction_machine_code() {
    let mut code = CodeBuffer::new();
    let loop_ = Reduction { acc_slot: 24, array_base_static: 120, array_len: 10,
        op: ReduceOp::Add };
    assert_eq!(lower_native_vectorized_reduction(&frame(vec![]), "i", &start(), &end(), &loop_, &mut code), Ok(()));
    let expected: Vec<u8> = vec![
        0x11, 0x48, 0x89, 0x85, 0xF8, 0xFF, 0xFF, 0xFF, 0x22, 0x48, 0x89, 0x85, 0xF0, 0xFF,
        0xFF, 0xFF, 0x48, 0x8B, 0x85, 0xF8, 0xFF, 0xFF, 0xFF, 0x48, 0x3B, 0x85, 0xF0, 0xFF,
        0xFF, 0xFF, 0x0F, 0x8F, 0x24, 0x00, 0x00, 0x00, 0x48, 0x83, 0xF8, 0x00, 0x0F, 0x8C,
        0x18, 0x00, 0x00, 0x00, 0x48, 0x8B, 0x85, 0xF0, 0xFF, 0xFF, 0xFF, 0x48, 0x3D, 0x0A,
        0x00, 0x00, 0x00, 0x0F, 0x83, 0x05, 0x00, 0x00, 0x00, 0xE9, 0x02, 0x00, 0x00, 0x00,
        0x0F, 0x0B, 0x66, 0x0F, 0xEF, 0xC0, 0x48, 0x8B, 0x85, 0xF8, 0xFF, 0xFF, 0xFF, 0x48,
        0x3B, 0x85, 0xF0, 0xFF, 0xFF, 0xFF, 0x0F, 0x8D, 0x34, 0x00, 0x00, 0x00, 0x48, 0x83,
        0xC0, 0x01, 0x48, 0xC1, 0xE0, 0x03, 0x48, 0x89, 0xE9, 0x48, 0x01, 0xC1, 0x48, 0x81,
        0xE9, 0x80, 0x00, 0x00, 0x00, 0xF3, 0x0F, 0x6F, 0x09, 0x66, 0x0F, 0xD4, 0xC1, 0x48,
        0x8B, 0x85, 0xF8, 0xFF, 0xFF, 0xFF, 0x48, 0x83, 0xC0, 0x02, 0x48, 0x89, 0x85, 0xF8,
        0xFF, 0xFF, 0xFF, 0xE9, 0xB8, 0xFF, 0xFF, 0xFF, 0x66, 0x48, 0x0F, 0x7E, 0xC0, 0x66,
        0x0F, 0x73, 0xD8, 0x08, 0x66, 0x48, 0x0F, 0x7E, 0xC1, 0x48, 0x01, 0xC8, 0x48, 0x89,
        0xC2, 0x48, 0x8B, 0x85, 0xE8, 0xFF, 0xFF, 0xFF, 0x48, 0x01, 0xD0, 0x48, 0x89, 0x85,
        0xE8, 0xFF, 0xFF, 0xFF, 0x48, 0x8B, 0x85, 0xF8, 0xFF, 0xFF, 0xFF, 0x48, 0x3B, 0x85,
        0xF0, 0xFF, 0xFF, 0xFF, 0x0F, 0x8F, 0x46, 0x00, 0x00, 0x00, 0x48, 0x8B, 0x85, 0xF8,
        0xFF, 0xFF, 0xFF, 0x48, 0xC1, 0xE0, 0x03, 0x48, 0x89, 0xE9, 0x48, 0x01, 0xC1, 0x48,
        0x81, 0xE9, 0x78, 0x00, 0x00, 0x00, 0x48, 0x8B, 0x01, 0x48, 0x89, 0xC2, 0x48, 0x8B,
        0x85, 0xE8, 0xFF, 0xFF, 0xFF, 0x48, 0x01, 0xD0, 0x48, 0x89, 0x85, 0xE8, 0xFF, 0xFF,
        0xFF, 0x48, 0x8B, 0x85, 0xF8, 0xFF, 0xFF, 0xFF, 0x48, 0x83, 0xC0, 0x01, 0x48, 0x89,
        0x85, 0xF8, 0xFF, 0xFF, 0xFF, 0xE9, 0xA6, 0xFF, 0xFF, 0xFF,
    ];
    assert_eq!(code.code, expected);
    assert_eq!(code.relocations, vec![]);
}

#[test]
fn and_reduction_into_a_register_machine_code() {
    let mut code = CodeBuffer::new();
    let loop_ = Reduction { acc_slot: 24, array_base_static: 120, array_len: 10,
        op: ReduceOp::And };
    assert_eq!(lower_native_vectorized_reduction(&frame(vec![(24, Reg::Rbx)]), "i", &start(), &end(), &loop_, &mut code), Ok(()));
    let expected: Vec<u8> = vec![
        0x11, 0x48, 0x89, 0x85, 0xF8, 0xFF, 0xFF, 0xFF, 0x22, 0x48, 0x89, 0x85, 0xF0, 0xFF,
        0xFF, 0xFF, 0x48, 0x8B, 0x85, 0xF8, 0xFF, 0xFF, 0xFF, 0x48, 0x3B, 0x85, 0xF0, 0xFF,
        0xFF, 0xFF, 0x0F, 0x8F, 0x24, 0x00, 0x00, 0x00, 0x48, 0x83, 0xF8, 0x00, 0x0F, 0x8C,
        0x18, 0x00, 0x00, 0x00, 0x48, 0x8B, 0x85, 0xF0, 0xFF, 0xFF, 0xFF, 0x48, 0x3D, 0x0A,
        0x00, 0x00, 0x00, 0x0F, 0x83, 0x05, 0x00, 0x00, 0x00, 0xE9, 0x02, 0x00, 0x00, 0x00,
        0x0F, 0x0B, 0x66, 0x0F, 0x76, 0xC0, 0x48, 0x8B, 0x85, 0xF8, 0xFF, 0xFF, 0xFF, 0x48,
        0x3B, 0x85, 0xF0, 0xFF, 0xFF, 0xFF, 0x0F, 0x8D, 0x34, 0x00, 0x00, 0x00, 0x48, 0x83,
        0xC0, 0x01, 0x48, 0xC1, 0xE0, 0x03, 0x48, 0x89, 0xE9, 0x48, 0x01, 0xC1, 0x48, 0x81,
        0xE9, 0x80, 0x00, 0x00, 0x00, 0xF3, 0x0F, 0x6F, 0x09, 0x66, 0x0F, 0xDB, 0xC1, 0x48,
        0x8B, 0x85, 0xF8, 0xFF, 0xFF, 0xFF, 0x48, 0x83, 0xC0, 0x02, 0x48, 0x89, 0x85, 0xF8,
        0xFF, 0xFF, 0xFF, 0xE9, 0xB8, 0xFF, 0xFF, 0xFF, 0x66, 0x48, 0x0F, 0x7E, 0xC0, 0x66,
        0x0F, 0x73, 0xD8, 0x08, 0x66, 0x48, 0x0F, 0x7E, 0xC1, 0x48, 0x21, 0xC8, 0x48, 0x89,
        0xC2, 0x48, 0x89, 0xD8, 0x48, 0x21, 0xD0, 0x48, 0x89, 0xC3, 0x48, 0x8B, 0x85, 0xF8,
        0xFF, 0xFF, 0xFF, 0x48, 0x3B, 0x85, 0xF0, 0xFF, 0xFF, 0xFF, 0x0F, 0x8F, 0x3E, 0x00,
        0x00, 0x00, 0x48, 0x8B, 0x85, 0xF8, 0xFF, 0xFF, 0xFF, 0x48, 0xC1, 0xE0, 0x03, 0x48,
        0x89, 0xE9, 0x48, 0x01, 0xC1, 0x48, 0x81, 0xE9, 0x78, 0x00, 0x00, 0x00, 0x48, 0x8B,
        0x01, 0x48, 0x89, 0xC2, 0x48, 0x89, 0xD8, 0x48, 0x21, 0xD0, 0x48, 0x89, 0xC3, 0x48,
        0x8B, 0x85, 0xF8, 0xFF, 0xFF, 0xFF, 0x48, 0x83, 0xC0, 0x01, 0x48, 0x89, 0x85, 0xF8,
        0xFF, 0xFF, 0xFF, 0xE9, 0xAE, 0xFF, 0xFF, 0xFF,
    ];
    assert_eq!(code.code, expected);
    assert_eq!(code.relocations, vec![]);
}

#[test]
fn max_reduction_machine_code() {
    let mut code = CodeBuffer::new();
    let loop_ = MinMaxReduction { acc_slot: 24, array_base_static: 120, array_len: 10,
        op: MinMaxOp::Max };
    assert_eq!(lower_native_minmax_reduction(&frame(vec![]), "i", &start(), &end(), &loop_, &mut code), Ok(()));
    let expected: Vec<u8> = vec![
        0x11, 0x48, 0x89, 0x85, 0xF8, 0xFF, 0xFF, 0xFF, 0x22, 0x48, 0x89, 0x85, 0xF0, 0xFF,
        0xFF, 0xFF, 0x48, 0x8B, 0x85, 0xF8, 0xFF, 0xFF, 0xFF, 0x48, 0x3B, 0x85, 0xF0, 0xFF,
        0xFF, 0xFF, 0x0F, 0x8F, 0x24, 0x00, 0x00, 0x00, 0x48, 0x83, 0xF8, 0x00, 0x0F, 0x8C,
        0x18, 0x00, 0x00, 0x00, 0x48, 0x8B, 0x85, 0xF0, 0xFF, 0xFF, 0xFF, 0x48, 0x3D, 0x0A,
        0x00, 0x00, 0x00, 0x0F, 0x83, 0x05, 0x00, 0x00, 0x00, 0xE9, 0x02, 0x00, 0x00, 0x00,
        0x0F, 0x0B, 0x53, 0x48, 0xB8, 0x01, 0x00, 0x00, 0x00, 0x00, 0x00, 0x00, 0x00, 0x0F,
        0xA2, 0x89, 0xC8, 0x5B, 0xA9, 0x00, 0x00, 0x10, 0x00, 0x0F, 0x84, 0x05, 0x01, 0x00,
        0x00, 0x48, 0xB8, 0x00, 0x00, 0x00, 0x00, 0x00, 0x00, 0x00, 0x80, 0x66, 0x48, 0x0F,
        0x6E, 0xC0, 0x66, 0x0F, 0x6C, 0xC0, 0x48, 0x8B, 0x85, 0xF8, 0xFF, 0xFF, 0xFF, 0x48,
        0x3B, 0x85, 0xF0, 0xFF, 0xFF, 0xFF, 0x0F, 0x8D, 0x4D, 0x00, 0x00, 0x00, 0x48, 0x83,
        0xC0, 0x01, 0x48, 0xC1, 0xE0, 0x03, 0x48, 0x89, 0xE9, 0x48, 0x01, 0xC1, 0x48, 0x81,
        0xE9, 0x80, 0x00, 0x00, 0x00, 0xF3, 0x0F, 0x6F, 0x09, 0x66, 0x0F, 0x6F, 0xD0, 0x66,
        0x0F, 0x38, 0x37, 0xD1, 0x66, 0x0F, 0x6F, 0xDA, 0x66, 0x0F, 0xDB, 0xD8, 0x66, 0x0F,
        0xDF, 0xD1, 0x66, 0x0F, 0xEB, 0xDA, 0x66, 0x0F, 0x6F, 0xC3, 0x48, 0x8B, 0x85, 0xF8,
        0xFF, 0xFF, 0xFF, 0x48, 0x83, 0xC0, 0x02, 0x48, 0x89, 0x85, 0xF8, 0xFF, 0xFF, 0xFF,
        0xE9, 0x9F, 0xFF, 0xFF, 0xFF, 0x66, 0x48, 0x0F, 0x7E, 0xC0, 0x66, 0x0F, 0x73, 0xD8,
        0x08, 0x66, 0x48, 0x0F, 0x7E, 0xC1, 0x48, 0x39, 0xC8, 0x48, 0x0F, 0x4C, 0xC1, 0x48,
        0x89, 0xC1, 0x48, 0x8B, 0x85, 0xE8, 0xFF, 0xFF, 0xFF, 0x48, 0x39, 0xC8, 0x48, 0x0F,
        0x4C, 0xC1, 0x48, 0x89, 0x85, 0xE8, 0xFF, 0xFF, 0xFF, 0x48, 0x8B, 0x85, 0xF8, 0xFF,
        0xFF, 0xFF, 0x48, 0x3B, 0x85, 0xF0, 0xFF, 0xFF, 0xFF, 0x0F, 0x8F, 0x4A, 0x00, 0x00,
        0x00, 0x48, 0x8B, 0x85, 0xF8, 0xFF, 0xFF, 0xFF, 0x48, 0xC1, 0xE0, 0x03, 0x48, 0x89,
        0xE9, 0x48, 0x01, 0xC1, 0x48, 0x81, 0xE9, 0x78, 0x00, 0x00, 0x00, 0x48, 0x8B, 0x01,
        0x48, 0x89, 0xC1, 0x48, 0x8B, 0x85, 0xE8, 0xFF, 0xFF, 0xFF, 0x48, 0x39, 0xC8, 0x48,
        0x0F, 0x4C, 0xC1, 0x48, 0x89, 0x85, 0xE8, 0xFF, 0xFF, 0xFF, 0x48, 0x8B, 0x85, 0xF8,
        0xFF, 0xFF, 0xFF, 0x48, 0x83, 0xC0, 0x01, 0x48, 0x89, 0x85, 0xF8, 0xFF, 0xFF, 0xFF,
        0xE9, 0xA2, 0xFF, 0xFF, 0xFF, 0xE9, 0x5E, 0x00, 0x00, 0x00, 0x48, 0x8B, 0x85, 0xF8,
        0xFF, 0xFF, 0xFF, 0x48, 0x3B, 0x85, 0xF0, 0xFF, 0xFF, 0xFF, 0x0F, 0x8F, 0x4A, 0x00,
        0x00, 0x00, 0x48, 0x8B, 0x85, 0xF8, 0xFF, 0xFF, 0xFF, 0x48, 0xC1, 0xE0, 0x03, 0x48,
        0x89, 0xE9, 0x48, 0x01, 0xC1, 0x48, 0x81, 0xE9, 0x78, 0x00, 0x00, 0x00, 0x48, 0x8B,
        0x01, 0x48, 0x89, 0xC1, 0x48, 0x8B, 0x85, 0xE8, 0xFF, 0xFF, 0xFF, 0x48, 0x39, 0xC8,
        0x48, 0x0F, 0x4C, 0xC1, 0x48, 0x89, 0x85, 0xE8, 0xFF, 0xFF, 0xFF, 0x48, 0x8B, 0x85,
        0xF8, 0xFF, 0xFF, 0xFF, 0x48, 0x83, 0xC0, 0x01, 0x48, 0x89, 0x85, 0xF8, 0xFF, 0xFF,
        0xFF, 0xE9, 0xA2, 0xFF, 0xFF, 0xFF,
    ];
    assert_eq!(code.code, expected);
    assert_eq!(code.relocations, vec![]);
}

#[test]
fn min_reduction_machine_code() {
    let mut code = CodeBuffer::new();
    let loop_ = MinMaxReduction { acc_slot: 24, array_base_static: 120, array_len: 10,
        op: MinMaxOp::Min };
    assert_eq!(lower_native_minmax_reduction(&frame(vec![]), "i", &start(), &end(), &loop_, &mut code), Ok(()));
    let expected: Vec<u8> = vec![
        0x11, 0x48, 0x89, 0x85, 0xF8, 0xFF, 0xFF, 0xFF, 0x22, 0x48, 0x89, 0x85, 0xF0, 0xFF,
        0xFF, 0xFF, 0x48, 0x8B, 0x85, 0xF8, 0xFF, 0xFF, 0xFF, 0x48, 0x3B, 0x85, 0xF0, 0xFF,
        0xFF, 0xFF, 0x0F, 0x8F, 0x24, 0x00, 0x00, 0x00, 0x48, 0x83, 0xF8, 0x00, 0x0F, 0x8C,
        0x18, 0x00, 0x00, 0x00, 0x48, 0x8B, 0x85, 0xF0, 0xFF, 0xFF, 0xFF, 0x48, 0x3D, 0x0A,
        0x00, 0x00, 0x00, 0x0F, 0x83, 0x05, 0x00, 0x00, 0x00, 0xE9, 0x02, 0x00, 0x00, 0x00,
        0x0F, 0x0B, 0x53, 0x48, 0xB8, 0x01, 0x00, 0x00, 0x00, 0x00, 0x00, 0x00, 0x00, 0x0F,
        0xA2, 0x89, 0xC8, 0x5B, 0xA9, 0x00, 0x00, 0x10, 0x00, 0x0F, 0x84, 0x05, 0x01, 0x00,
        0x00, 0x48, 0xB8, 0xFF, 0xFF, 0xFF, 0xFF, 0xFF, 0xFF, 0xFF, 0x7F, 0x66, 0x48, 0x0F,
        0x6E, 0xC0, 0x66, 0x0F, 0x6C, 0xC0, 0x48, 0x8B, 0x85, 0xF8, 0xFF, 0xFF, 0xFF, 0x48,
        0x3B, 0x85, 0xF0, 0xFF, 0xFF, 0xFF, 0x0F, 0x8D, 0x4D, 0x00, 0x00, 0x00, 0x48, 0x83,
        0xC0, 0x01, 0x48, 0xC1, 0xE0, 0x03, 0x48, 0x89, 0xE9, 0x48, 0x01, 0xC1, 0x48, 0x81,
        0xE9, 0x80, 0x00, 0x00, 0x00, 0xF3, 0x0F, 0x6F, 0x09, 0x66, 0x0F, 0x6F, 0xD0, 0x66,
        0x0F, 0x38, 0x37, 0xD1, 0x66, 0x0F, 0x6F, 0xDA, 0x66, 0x0F, 0xDB, 0xD9, 0x66, 0x0F,
        0xDF, 0xD0, 0x66, 0x0F, 0xEB, 0xDA, 0x66, 0x0F, 0x6F, 0xC3, 0x48, 0x8B, 0x85, 0xF8,
        0xFF, 0xFF, 0xFF, 0x48, 0x83, 0xC0, 0x02, 0x48, 0x89, 0x85, 0xF8, 0xFF, 0xFF, 0xFF,
        0xE9, 0x9F, 0xFF, 0xFF, 0xFF, 0x66, 0x48, 0x0F, 0x7E, 0xC0, 0x66, 0x0F, 0x73, 0xD8,
        0x08, 0x66, 0x48, 0x0F, 0x7E, 0xC1, 0x48, 0x39, 0xC8, 0x48, 0x0F, 0x4F, 0xC1, 0x48,
        0x89, 0xC1, 0x48, 0x8B, 0x85, 0xE8, 0xFF, 0xFF, 0xFF, 0x48, 0x39, 0xC8, 0x48, 0x0F,
        0x4F, 0xC1, 0x48, 0x89, 0x85, 0xE8, 0xFF, 0xFF, 0xFF, 0x48, 0x8B, 0x85, 0xF8, 0xFF,
        0xFF, 0xFF, 0x48, 0x3B, 0x85, 0xF0, 0xFF, 0xFF, 0xFF, 0x0F, 0x8F, 0x4A, 0x00, 0x00,
        0x00, 0x48, 0x8B, 0x85, 0xF8, 0xFF, 0xFF, 0xFF, 0x48, 0xC1, 0xE0, 0x03, 0x48, 0x89,
        0xE9, 0x48, 0x01, 0xC1, 0x48, 0x81, 0xE9, 0x78, 0x00, 0x00, 0x00, 0x48, 0x8B, 0x01,
        0x48, 0x89, 0xC1, 0x48, 0x8B, 0x85, 0xE8, 0xFF, 0xFF, 0xFF, 0x48, 0x39, 0xC8, 0x48,
        0x0F, 0x4F, 0xC1, 0x48, 0x89, 0x85, 0xE8, 0xFF, 0xFF, 0xFF, 0x48, 0x8B, 0x85, 0xF8,
        0xFF, 0xFF, 0xFF, 0x48, 0x83, 0xC0, 0x01, 0x48, 0x89, 0x85, 0xF8, 0xFF, 0xFF, 0xFF,
        0xE9, 0xA2, 0xFF, 0xFF, 0xFF, 0xE9, 0x5E, 0x00, 0x00, 0x00, 0x48, 0x8B, 0x85, 0xF8,
        0xFF, 0xFF, 0xFF, 0x48, 0x3B, 0x85, 0xF0, 0xFF, 0xFF, 0xFF, 0x0F, 0x8F, 0x4A, 0x00,
        0x00, 0x00, 0x48, 0x8B, 0x85, 0xF8, 0xFF, 0xFF, 0xFF, 0x48, 0xC1, 0xE0, 0x03, 0x48,
        0x89, 0xE9, 0x48, 0x01, 0xC1, 0x48, 0x81, 0xE9, 0x78, 0x00, 0x00, 0x00, 0x48, 0x8B,
        0x01, 0x48, 0x89, 0xC1, 0x48, 0x8B, 0x85, 0xE8, 0xFF, 0xFF, 0xFF, 0x48, 0x39, 0xC8,
        0x48, 0x0F, 0x4F, 0xC1, 0x48, 0x89, 0x85, 0xE8, 0xFF, 0xFF, 0xFF, 0x48, 0x8B, 0x85,
        0xF8, 0xFF, 0xFF, 0xFF, 0x48, 0x83, 0xC0, 0x01, 0x48, 0x89, 0x85, 0xF8, 0xFF, 0xFF,
        0xFF, 0xE9, 0xA2, 0xFF, 0xFF, 0xFF,
    ];
    assert_eq!(code.code, expected);
    assert_eq!(code.relocations, vec![]);
}

#[test]
fn float_sum_machine_code() {
    let mut code = CodeBuffer::new();
    let loop_ = F64Reduction { acc_slot: 32, lhs_base: 120, rhs_base: None, array_len: 10 };
    assert_eq!(lower_native_f64_reduction(&frame(vec![]), "i", &start(), &end(), &loop_, &mut code), Ok(()));
    let expected: Vec<u8> = vec![
        0x11, 0x48, 0x89, 0x85, 0xF8, 0xFF, 0xFF, 0xFF, 0x22, 0x48, 0x89, 0x85, 0xF0, 0xFF,
        0xFF, 0xFF, 0x48, 0x8B, 0x85, 0xF8, 0xFF, 0xFF, 0xFF, 0x48, 0x3B, 0x85, 0xF0, 0xFF,
        0xFF, 0xFF, 0x0F, 0x8F, 0x24, 0x00, 0x00, 0x00, 0x48, 0x83, 0xF8, 0x00, 0x0F, 0x8C,
        0x18, 0x00, 0x00, 0x00, 0x48, 0x8B, 0x85, 0xF0, 0xFF, 0xFF, 0xFF, 0x48, 0x3D, 0x0A,
        0x00, 0x00, 0x00, 0x0F, 0x83, 0x05, 0x00, 0x00, 0x00, 0xE9, 0x02, 0x00, 0x00, 0x00,
        0x0F, 0x0B, 0x66, 0x0F, 0xEF, 0xC0, 0x48, 0x8B, 0x85, 0xF8, 0xFF, 0xFF, 0xFF, 0x48,
        0x3B, 0x85, 0xF0, 0xFF, 0xFF, 0xFF, 0x0F, 0x8D, 0x37, 0x00, 0x00, 0x00, 0x48, 0x83,
        0xC0, 0x01, 0x48, 0xC1, 0xE0, 0x03, 0x48, 0x89, 0xC2, 0x48, 0x89, 0xE9, 0x48, 0x01,
        0xD1, 0x48, 0x81, 0xE9, 0x80, 0x00, 0x00, 0x00, 0xF3, 0x0F, 0x6F, 0x09, 0x66, 0x0F,
        0x58, 0xC1, 0x48, 0x8B, 0x85, 0xF8, 0xFF, 0xFF, 0xFF, 0x48, 0x83, 0xC0, 0x02, 0x48,
        0x89, 0x85, 0xF8, 0xFF, 0xFF, 0xFF, 0xE9, 0xB5, 0xFF, 0xFF, 0xFF, 0x66, 0x0F, 0x28,
        0xC8, 0x66, 0x0F, 0x15, 0xC9, 0xF2, 0x0F, 0x58, 0xC1, 0xF2, 0x0F, 0x10, 0x8D, 0xE0,
        0xFF, 0xFF, 0xFF, 0xF2, 0x0F, 0x58, 0xC1, 0xF2, 0x0F, 0x11, 0x85, 0xE0, 0xFF, 0xFF,
        0xFF, 0x48, 0x8B, 0x85, 0xF8, 0xFF, 0xFF, 0xFF, 0x48, 0x3B, 0x85, 0xF0, 0xFF, 0xFF,
        0xFF, 0x0F, 0x8F, 0x43, 0x00, 0x00, 0x00, 0x48, 0xC1, 0xE0, 0x03, 0x48, 0x89, 0xC2,
        0x48, 0x89, 0xE9, 0x48, 0x01, 0xD1, 0x48, 0x81, 0xE9, 0x78, 0x00, 0x00, 0x00, 0xF2,
        0x0F, 0x10, 0x01, 0xF2, 0x0F, 0x10, 0x8D, 0xE0, 0xFF, 0xFF, 0xFF, 0xF2, 0x0F, 0x58,
        0xC1, 0xF2, 0x0F, 0x11, 0x85, 0xE0, 0xFF, 0xFF, 0xFF, 0x48, 0x8B, 0x85, 0xF8, 0xFF,
        0xFF, 0xFF, 0x48, 0x83, 0xC0, 0x01, 0x48, 0x89, 0x85, 0xF8, 0xFF, 0xFF, 0xFF, 0xE9,
        0xA9, 0xFF, 0xFF, 0xFF,
    ];
    assert_eq!(code.code, expected);
    assert_eq!(code.relocations, vec![]);
}

#[test]
fn float_dot_product_machine_code() {
    let mut code = CodeBuffer::new();
    let loop_ = F64Reduction { acc_slot: 32, lhs_base: 120, rhs_base: Some(200), array_len: 10 };
    assert_eq!(lower_native_f64_reduction(&frame(vec![]), "i", &start(), &end(), &loop_, &mut code), Ok(()));
    let expected: Vec<u8> = vec![
        0x11, 0x48, 0x89, 0x85, 0xF8, 0xFF, 0xFF, 0xFF, 0x22, 0x48, 0x89, 0x85, 0xF0, 0xFF,
        0xFF, 0xFF, 0x48, 0x8B, 0x85, 0xF8, 0xFF, 0xFF, 0xFF, 0x48, 0x3B, 0x85, 0xF0, 0xFF,
        0xFF, 0xFF, 0x0F, 0x8F, 0x24, 0x00, 0x00, 0x00, 0x48, 0x83, 0xF8, 0x00, 0x0F, 0x8C,
        0x18, 0x00, 0x00, 0x00, 0x48, 0x8B, 0x85, 0xF0, 0xFF, 0xFF, 0xFF, 0x48, 0x3D, 0x0A,
        0x00, 0x00, 0x00, 0x0F, 0x83, 0x05, 0x00, 0x00, 0x00, 0xE9, 0x02, 0x00, 0x00, 0x00,
        0x0F, 0x0B, 0x66, 0x0F, 0xEF, 0xC0, 0x48, 0x8B, 0x85, 0xF8, 0xFF, 0xFF, 0xFF, 0x48,
        0x3B, 0x85, 0xF0, 0xFF, 0xFF, 0xFF, 0x0F, 0x8D, 0x4C, 0x00, 0x00, 0x00, 0x48, 0x83,
        0xC0, 0x01, 0x48, 0xC1, 0xE0, 0x03, 0x48, 0x89, 0xC2, 0x48, 0x89, 0xE9, 0x48, 0x01,
        0xD1, 0x48, 0x81, 0xE9, 0x80, 0x00, 0x00, 0x00, 0xF3, 0x0F, 0x6F, 0x09, 0x48, 0x89,
        0xE9, 0x48, 0x01, 0xD1, 0x48, 0x81, 0xE9, 0xD0, 0x00, 0x00, 0x00, 0xF3, 0x0F, 0x6F,
        0x11, 0x66, 0x0F, 0x59, 0xCA, 0x66, 0x0F, 0x58, 0xC1, 0x48, 0x8B, 0x85, 0xF8, 0xFF,
        0xFF, 0xFF, 0x48, 0x83, 0xC0, 0x02, 0x48, 0x89, 0x85, 0xF8, 0xFF, 0xFF, 0xFF, 0xE9,
        0xA0, 0xFF, 0xFF, 0xFF, 0x66, 0x0F, 0x28, 0xC8, 0x66, 0x0F, 0x15, 0xC9, 0xF2, 0x0F,
        0x58, 0xC1, 0xF2, 0x0F, 0x10, 0x8D, 0xE0, 0xFF, 0xFF, 0xFF, 0xF2, 0x0F, 0x58, 0xC1,
        0xF2, 0x0F, 0x11, 0x85, 0xE0, 0xFF, 0xFF, 0xFF, 0x48, 0x8B, 0x85, 0xF8, 0xFF, 0xFF,
        0xFF, 0x48, 0x3B, 0x85, 0xF0, 0xFF, 0xFF, 0xFF, 0x0F, 0x8F, 0x58, 0x00, 0x00, 0x00,
        0x48, 0xC1, 0xE0, 0x03, 0x48, 0x89, 0xC2, 0x48, 0x89, 0xE9, 0x48, 0x01, 0xD1, 0x48,
        0x81, 0xE9, 0x78, 0x00, 0x00, 0x00, 0xF2, 0x0F, 0x10, 0x01, 0x48, 0x89, 0xE9, 0x48,
        0x01, 0xD1, 0x48, 0x81, 0xE9, 0xC8, 0x00, 0x00, 0x00, 0xF2, 0x0F, 0x10, 0x09, 0xF2,
        0x0F, 0x59, 0xC1, 0xF2, 0x0F, 0x10, 0x8D, 0xE0, 0xFF, 0xFF, 0xFF, 0xF2, 0x0F, 0x58,
        0xC1, 0xF2, 0x0F, 0x11, 0x85, 0xE0, 0xFF, 0xFF, 0xFF, 0x48, 0x8B, 0x85, 0xF8, 0xFF,
        0xFF, 0xFF, 0x48, 0x83, 0xC0, 0x01, 0x48, 0x89, 0x85, 0xF8, 0xFF, 0xFF, 0xFF, 0xE9,
        0x94, 0xFF, 0xFF, 0xFF,
    ];
    assert_eq!(code.code, expected);
    assert_eq!(code.relocations, vec![]);
}

#[test]
fn difference_map_machine_code() {
    let mut code = CodeBuffer::new();
    let loop_ = ElementwiseMap { dest_base: 120, lhs_base: 200, rhs_base: 280, min_len: 10,
        kind: MapKind::Int(MapOp::Sub) };
    assert_eq!(lower_native_vectorized_map(&frame(vec![]), "i", &start(), &end(), &loop_, &mut code), Ok(()));
    let expected: Vec<u8> = vec![
        0x11, 0x48, 0x89, 0x85, 0xF8, 0xFF, 0xFF, 0xFF, 0x22, 0x48, 0x89, 0x85, 0xF0, 0xFF,
        0xFF, 0xFF, 0x48, 0x8B, 0x85, 0xF8, 0xFF, 0xFF, 0xFF, 0x48, 0x3B, 0x85, 0xF0, 0xFF,
        0xFF, 0xFF, 0x0F, 0x8F, 0x24, 0x00, 0x00, 0x00, 0x48, 0x83, 0xF8, 0x00, 0x0F, 0x8C,
        0x18, 0x00, 0x00, 0x00, 0x48, 0x8B, 0x85, 0xF0, 0xFF, 0xFF, 0xFF, 0x48, 0x3D, 0x0A,
        0x00, 0x00, 0x00, 0x0F, 0x83, 0x05, 0x00, 0x00, 0x00, 0xE9, 0x02, 0x00, 0x00, 0x00,
        0x0F, 0x0B, 0x48, 0x8B, 0x85, 0xF8, 0xFF, 0xFF, 0xFF, 0x48, 0x3B, 0x85, 0xF0, 0xFF,
        0xFF, 0xFF, 0x0F, 0x8D, 0x59, 0x00, 0x00, 0x00, 0x48, 0x83, 0xC0, 0x01, 0x48, 0xC1,
        0xE0, 0x03, 0x48, 0x89, 0xC2, 0x48, 0x89, 0xE9, 0x48, 0x01, 0xD1, 0x48, 0x81, 0xE9,
        0xD0, 0x00, 0x00, 0x00, 0xF3, 0x0F, 0x6F, 0x01, 0x48, 0x89, 0xE9, 0x48, 0x01, 0xD1,
        0x48, 0x81, 0xE9, 0x20, 0x01, 0x00, 0x00, 0xF3, 0x0F, 0x6F, 0x09, 0x66, 0x0F, 0xFB,
        0xC1, 0x48, 0x89, 0xE9, 0x48, 0x01, 0xD1, 0x48, 0x81, 0xE9, 0x80, 0x00, 0x00, 0x00,
        0xF3, 0x0F, 0x7F, 0x01, 0x48, 0x8B, 0x85, 0xF8, 0xFF, 0xFF, 0xFF, 0x48, 0x83, 0xC0,
        0x02, 0x48, 0x89, 0x85, 0xF8, 0xFF, 0xFF, 0xFF, 0xE9, 0x93, 0xFF, 0xFF, 0xFF, 0x48,
        0x8B, 0x85, 0xF8, 0xFF, 0xFF, 0xFF, 0x48, 0x3B, 0x85, 0xF0, 0xFF, 0xFF, 0xFF, 0x0F,
        0x8F, 0x5F, 0x00, 0x00, 0x00, 0x48, 0x8B, 0x85, 0xF8, 0xFF, 0xFF, 0xFF, 0x48, 0xC1,
        0xE0, 0x03, 0x48, 0x89, 0xC2, 0x48, 0x89, 0xE9, 0x48, 0x01, 0xD1, 0x48, 0x81, 0xE9,
        0xC8, 0x00, 0x00, 0x00, 0x48, 0x8B, 0x01, 0x50, 0x48, 0x89, 0xE9, 0x48, 0x01, 0xD1,
        0x48, 0x81, 0xE9, 0x18, 0x01, 0x00, 0x00, 0x48, 0x8B, 0x01, 0x59, 0x48, 0x29, 0xC1,
        0x48, 0x89, 0xC8, 0x50, 0x48, 0x89, 0xE9, 0x48, 0x01, 0xD1, 0x48, 0x81, 0xE9, 0x78,
        0x00, 0x00, 0x00, 0x58, 0x48, 0x89, 0x01, 0x48, 0x8B, 0x85, 0xF8, 0xFF, 0xFF, 0xFF,
        0x48, 0x83, 0xC0, 0x01, 0x48, 0x89, 0x85, 0xF8, 0xFF, 0xFF, 0xFF, 0xE9, 0x8D, 0xFF,
        0xFF, 0xFF,
    ];
    assert_eq!(code.code, expected);
    assert_eq!(code.relocations, vec![]);
}

#[test]
fn float_product_map_machine_code() {
    let mut code = CodeBuffer::new();
    let loop_ = ElementwiseMap { dest_base: 120, lhs_base: 200, rhs_base: 280, min_len: 10,
        kind: MapKind::Float(FloatMapOp::Mul) };
    assert_eq!(lower_native_vectorized_map(&frame(vec![]), "i", &start(), &end(), &loop_, &mut code), Ok(()));
    let expected: Vec<u8> = vec![
        0x11, 0x48, 0x89, 0x85, 0xF8, 0xFF, 0xFF, 0xFF, 0x22, 0x48, 0x89, 0x85, 0xF0, 0xFF,
        0xFF, 0xFF, 0x48, 0x8B, 0x85, 0xF8, 0xFF, 0xFF, 0xFF, 0x48, 0x3B, 0x85, 0xF0, 0xFF,
        0xFF, 0xFF, 0x0F, 0x8F, 0x24, 0x00, 0x00, 0x00, 0x48, 0x83, 0xF8, 0x00, 0x0F, 0x8C,
        0x18, 0x00, 0x00, 0x00, 0x48, 0x8B, 0x85, 0xF0, 0xFF, 0xFF, 0xFF, 0x48, 0x3D, 0x0A,
        0x00, 0x00, 0x00, 0x0F, 0x83, 0x05, 0x00, 0x00, 0x00, 0xE9, 0x02, 0x00, 0x00, 0x00,
        0x0F, 0x0B, 0x48, 0x8B, 0x85, 0xF8, 0xFF, 0xFF, 0xFF, 0x48, 0x3B, 0x85, 0xF0, 0xFF,
        0xFF, 0xFF, 0x0F, 0x8D, 0x59, 0x00, 0x00, 0x00, 0x48, 0x83, 0xC0, 0x01, 0x48, 0xC1,
        0xE0, 0x03, 0x48, 0x89, 0xC2, 0x48, 0x89, 0xE9, 0x48, 0x01, 0xD1, 0x48, 0x81, 0xE9,
        0xD0, 0x00, 0x00, 0x00, 0xF3, 0x0F, 0x6F, 0x01, 0x48, 0x89, 0xE9, 0x48, 0x01, 0xD1,
        0x48, 0x81, 0xE9, 0x20, 0x01, 0x00, 0x00, 0xF3, 0x0F, 0x6F, 0x09, 0x66, 0x0F, 0x59,
        0xC1, 0x48, 0x89, 0xE9, 0x48, 0x01, 0xD1, 0x48, 0x81, 0xE9, 0x80, 0x00, 0x00, 0x00,
        0xF3, 0x0F, 0x7F, 0x01, 0x48, 0x8B, 0x85, 0xF8, 0xFF, 0xFF, 0xFF, 0x48, 0x83, 0xC0,
        0x02, 0x48, 0x89, 0x85, 0xF8, 0xFF, 0xFF, 0xFF, 0xE9, 0x93, 0xFF, 0xFF, 0xFF, 0x48,
        0x8B, 0x85, 0xF8, 0xFF, 0xFF, 0xFF, 0x48, 0x3B, 0x85, 0xF0, 0xFF, 0xFF, 0xFF, 0x0F,
        0x8F, 0x5C, 0x00, 0x00, 0x00, 0x48, 0x8B, 0x85, 0xF8, 0xFF, 0xFF, 0xFF, 0x48, 0xC1,
        0xE0, 0x03, 0x48, 0x89, 0xC2, 0x48, 0x89, 0xE9, 0x48, 0x01, 0xD1, 0x48, 0x81, 0xE9,
        0xC8, 0x00, 0x00, 0x00, 0xF2, 0x0F, 0x10, 0x01, 0x48, 0x89, 0xE9, 0x48, 0x01, 0xD1,
        0x48, 0x81, 0xE9, 0x18, 0x01, 0x00, 0x00, 0xF2, 0x0F, 0x10, 0x09, 0xF2, 0x0F, 0x59,
        0xC1, 0x48, 0x89, 0xE9, 0x48, 0x01, 0xD1, 0x48, 0x81, 0xE9, 0x78, 0x00, 0x00, 0x00,
        0xF2, 0x0F, 0x11, 0x01, 0x48, 0x8B, 0x85, 0xF8, 0xFF, 0xFF, 0xFF, 0x48, 0x83, 0xC0,
        0x01, 0x48, 0x89, 0x85, 0xF8, 0xFF, 0xFF, 0xFF, 0xE9, 0x90, 0xFF, 0xFF, 0xFF,
    ];
    assert_eq!(code.code, expected);
    assert_eq!(code.relocations, vec![]);
}

#[test]
fn a_loop_needs_its_counter_and_bound() {
    let loop_ = Reduction {
        acc_slot: 24,
        array_base_static: 120,
        array_len: 10,
        op: ReduceOp::Or,
    };
    let mut code = CodeBuffer::new();
    assert_eq!(
        lower_native_vectorized_reduction(
            &frame(vec![]),
            "k",
            &start(),
            &end(),
            &loop_,
            &mut code
        ),
        Err("unknown local `k`".to_string())
    );
    let mut ctx = frame(vec![]);
    ctx.locals.remove(1);
    assert_eq!(
        lower_native_vectorized_reduction(&ctx, "i", &start(), &end(), &loop_, &mut code),
        Err("unknown local `i__end`".to_string())
    );
    assert_eq!(code, CodeBuffer::new());
}

#[test]
fn sums_are_recognized() {
    let ctx = frame(vec![]);
    let sum = body(assign("acc", AssignOp::Add, element("i", 120, 10)));
    assert_eq!(
        detect_reduction(&ctx, "i", None, &sum),
        Some(Reduction {
            acc_slot: 24,
            array_base_static: 120,
            array_len: 10,
            op: ReduceOp::Add,
        })
    );
    let one = expr(BytecodeExprKind::Integer(1), "i64", &[]);
    let two = expr(BytecodeExprKind::Integer(2), "i64", &[]);
    assert!(detect_reduction(&ctx, "i", Some(&one), &sum).is_some());
    assert!(detect_reduction(&ctx, "i", Some(&two), &sum).is_none());
    assert!(detect_reduction(&ctx, "j", None, &sum).is_none());
    let other = body(assign("flag", AssignOp::Add, element("i", 120, 10)));
    assert!(detect_reduction(&ctx, "i", None, &other).is_none());
    let minus = body(assign("acc", AssignOp::Subtract, element("i", 120, 10)));
    assert!(detect_reduction(&ctx, "i", None, &minus).is_none());
}

#[test]
fn bitwise_reductions_are_recognized_in_either_order() {
    let ctx = frame(vec![]);
    let expected = |op: ReduceOp| {
        Some(Reduction { acc_slot: 24, array_base_static: 120, array_len: 10, op })
    };
    for (op, reduce) in [
        (BinaryOp::BitAnd, ReduceOp::And),
        (BinaryOp::BitOr, ReduceOp::Or),
        (BinaryOp::BitXor, ReduceOp::Xor),
    ] {
        let left = binary(variable("acc"), op, element("i", 120, 10), "i64");
        let right = binary(element("i", 120, 10), op, variable("acc"), "i64");
        for value in [left, right] {
            let stmt = body(assign("acc", AssignOp::Replace, value));
            assert_eq!(detect_reduction(&ctx, "i", None, &stmt), expected(reduce));
        }
    }
}

#[test]
fn extremes_are_recognized() {
    let ctx = frame(vec![]);
    for (name, op) in [("min", MinMaxOp::Min), ("max", MinMaxOp::Max)] {
        let value = call(name, vec![variable("acc"), element("i", 120, 10)]);
        let stmt = body(assign("acc", AssignOp::Replace, value));
        assert_eq!(
            detect_minmax_reduction(&ctx, "i", None, &stmt),
            Some(MinMaxReduction { acc_slot: 24, array_base_static: 120, array_len: 10, op })
        );
        assert_eq!(detect_reduction(&ctx, "i", None, &stmt), None);
    }
}

#[test]
fn float_reductions_are_recognized() {
    let ctx = frame(vec![]);
    let sum = body(assign("total", AssignOp::Add, float_element("i", 120, 10)));
    assert_eq!(
        detect_f64_reduction(&ctx, "i", None, &sum),
        Some(F64Reduction { acc_slot: 32, lhs_base: 120, rhs_base: None, array_len: 10 })
    );
    let product = binary(
        float_element("i", 120, 10),
        BinaryOp::Multiply,
        float_element("i", 200, 7),
        "f64",
    );
    let dot = body(assign("total", AssignOp::Add, product));
    assert_eq!(
        detect_f64_reduction(&ctx, "i", None, &dot),
        Some(F64Reduction { acc_slot: 32, lhs_base: 120, rhs_base: Some(200), array_len: 7 })
    );
    let into_word = body(assign("acc", AssignOp::Add, float_element("i", 120, 10)));
    assert_eq!(detect_f64_reduction(&ctx, "i", None, &into_word), None);
}

#[test]
fn maps_are_recognized_with_the_shortest_length() {
    let value = binary(element("i", 200, 9), BinaryOp::Subtract, element("i", 280, 8), "i64");
    let mut map = assign("out", AssignOp::Replace, value);
    map.path = vec![BytecodePlace::Index(variable("i"))];
    map.typed_place = Ok(TypedPlace { place: dynamic(120, 0, 8, 10), ty: NativeType::I64 });
    assert_eq!(
        detect_elementwise_map("i", None, &body(map)),
        Some(ElementwiseMap {
            dest_base: 120,
            lhs_base: 200,
            rhs_base: 280,
            min_len: 8,
            kind: MapKind::Int(MapOp::Sub),
        })
    );
}

#[test]
fn only_whole_words_at_the_counter_vectorize() {
    assert_eq!(indexed_i64_base(&element("i", 120, 10), "i"), Some((120, 10)));
    assert_eq!(indexed_i64_base(&element("j", 120, 10), "i"), None);
    let mut packed = element("i", 120, 10);
    packed.code.place = Ok(dynamic(120, 0, 4, 10));
    assert_eq!(indexed_i64_base(&packed, "i"), None);
    let mut field = element("i", 120, 10);
    field.code.place = Ok(dynamic(120, 16, 8, 10));
    assert_eq!(indexed_i64_base(&field, "i"), Some((104, 10)));
    assert_eq!(indexed_f64_base(&float_element("i", 120, 10), "i"), Some((120, 10)));
    assert!(index_is_counter(&variable("i"), "i"));
    assert!(!index_is_counter(&variable("j"), "i"));
}

fn assembled(program: &Vec<Insn>) -> Vec<u8> {
    let mut buffer = CodeBuffer::new();
    buffer.append_program(program);
    buffer.code
}

#[test]
fn bounds_checks_trap_past_the_length() {
    let mut fixed: Vec<Insn> = vec![];
    emit_bounds_check_rax(&mut fixed, 300);
    assert_eq!(
        assembled(&fixed),
        vec![0x48, 0x3D, 0x2C, 0x01, 0, 0, 0x72, 0x02, 0x0F, 0x0B]
    );
    let mut kept: Vec<Insn> = vec![];
    emit_bounds_check_rax_against_slot(&mut kept, 16);
    assert_eq!(
        assembled(&kept),
        vec![0x48, 0x3B, 0x85, 0xF0, 0xFF, 0xFF, 0xFF, 0x72, 0x02, 0x0F, 0x0B]
    );
}

#[test]
fn index_scaling_keeps_the_low_half_of_the_factor() {
    let program = vec![imul_rax_imm(-2), imul_rax_imm(0x1_0000_0003)];
    assert_eq!(
        assembled(&program),
        vec![0x48, 0x69, 0xC0, 0xFE, 0xFF, 0xFF, 0xFF, 0x48, 0x69, 0xC0, 3, 0, 0, 0]
    );
}

#[test]
fn float_widths_go_by_type_names() {
    assert_eq!(FloatWidth::from_type_name("f64"), Some(FloatWidth::F64));
    assert_eq!(FloatWidth::from_type_name("f32"), Some(FloatWidth::F32));
    assert_eq!(FloatWidth::from_type_name("i64"), None);
}
