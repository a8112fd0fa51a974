//! Materializing values into frame slots.
//!
//! An aggregate lies in its slots with ascending addresses: what comes `n` bytes into it
//! lies `n` bytes nearer the frame pointer than its first word.

use crate::assembler::CodeBuffer;
use crate::bytecode::{BytecodeExpr, BytecodeExprKind};
use crate::context::{slot_above, unknown_local, NativeCtx};
use crate::emission::{
    emit, emit_insn, emit_program, emit_then_insn, emit_then_program, fits, in_order,
    law_first_part_comes_first, lemma_emit_nothing, lemma_emit_step, tells, Emission,
};
use crate::layout::{
    byte_size_of, field_layouts, fields_words, law_words_are_natural, lemma_fields_words_grow,
    measurable, natural, same_layout, type_layouts, variant_layouts, words_of, Layout,
    NativeEnumVariant, NativeType, Variant,
};
use crate::mnemonics::{
    at, at_d, frame, lea, load, load_local, mov, set_q, store, store_b, store_d, store_float_local,
    store_local, store_w,
};
use crate::resolve::{
    collection_slot, fixed_int, is_fixed_int, map_kv_of, message, native_collection_slot,
    struct_decls, supported_map_kv,
};
use crate::spelling::only_arg;
use crate::text::{decimal, decimal_text, same_text};
use crate::x86::Reg::{Rax, Rcx};
use crate::x86::Insn;
use vstd::prelude::*;

verus! {

/// The built-in that looks a key up in a map.
pub const MAP_GET_BUILTIN: &'static str = "map_get";

/// The built-in that reads a list's element.
pub const LIST_GET_BUILTIN: &'static str = "get";

// Calls that fill their slots

/// Whether `name` is a built-in that checks an integer operation for overflow.
pub open spec fn checked_builtin(name: Seq<char>) -> bool {
    ||| name == "checked_add"@
    ||| name == "checked_sub"@
    ||| name == "checked_mul"@
}

/// Whether a call is a built-in that yields an aggregate: a map lookup, a checked
/// operation on fixed-width integers, or the parse of a number.
pub open spec fn fills_slots(name: Seq<char>, args: Seq<BytecodeExpr>) -> bool {
    ||| name == MAP_GET_BUILTIN@ && args.len() == 2 && map_kv_of(args[0].ty@) is Some
    ||| checked_builtin(name) && args.len() == 2 && fixed_int(args[0].ty@)
    ||| name == "parse_i64"@ && args.len() == 1 && args[0].ty@ == "string"@
}

/// Whether a call reads a heap struct out of a list.
pub open spec fn reads_heap_struct(
    ctx: NativeCtx,
    name: Seq<char>,
    args: Seq<BytecodeExpr>,
) -> bool {
    &&& name == LIST_GET_BUILTIN@
    &&& args.len() == 2
    &&& collection_slot(
        match only_arg(args[0].ty@, "list"@) {
            Some(element) => element,
            None => args[0].ty@,
        },
        struct_decls(ctx.structs@),
        0,
    ) matches Some(slot)
    &&& slot is HeapStruct
}

// Copies

/// The words from `k` on of a heap struct of `n`, whose address is in `rcx`, into the
/// slots at `base`.
pub open spec fn heap_words_emission(base: i32, k: int, n: int) -> Emission
    decreases n - k,
{
    if k >= n {
        Emission::nothing()
    } else {
        Emission::of_program(
            seq![
                load(Rax, at_d(Rcx, (k as usize as i32).wrapping_mul(8))),
                store_local(slot_above(base, k as usize, 8)),
            ],
        ).then_emit(heap_words_emission(base, k + 1, n))
    }
}

/// The words from `k` on of the `n` at `source` into the slots at `base`.
pub open spec fn copy_emission(source: i32, base: i32, k: int, n: int) -> Emission
    decreases n - k,
{
    if k >= n {
        Emission::nothing()
    } else {
        Emission::of_program(
            seq![
                load_local(slot_above(source, k as usize, 8)),
                store_local(slot_above(base, k as usize, 8)),
            ],
        ).then_emit(copy_emission(source, base, k + 1, n))
    }
}

// Enums

/// The first variant from `i` on called `name`.
pub open spec fn find_variant(variants: Seq<Variant>, name: Seq<char>, i: int) -> Option<Variant>
    decreases variants.len() - i,
{
    if i >= variants.len() {
        None
    } else if variants[i].name == name {
        Some(variants[i])
    } else {
        find_variant(variants, name, i + 1)
    }
}

/// One payload word into its slot.
pub open spec fn payload_emission(slot: i32, ty: Layout, arg: BytecodeExpr) -> Emission {
    match ty {
        Layout::I64 | Layout::Text => arg.code.word@.then_emit(
            Emission::of_program(seq![store_local(slot)]),
        ),
        Layout::F64 | Layout::F32 => arg.code.float.0@.then_emit(
            Emission::of_program(seq![store_float_local(slot, arg.code.float.1)]),
        ),
        Layout::HeapStruct { .. } | Layout::List { .. } | Layout::Mapping { .. } =>
            arg.code.heap_copy@.then_emit(Emission::of_program(seq![store_local(slot)])),
        _ => Emission::refused(
            "enum payload must be a native scalar, `string`, or one-level mutable aggregate"@,
        ),
    }
}

/// The payload words from `k` on, into the slots behind the tag's.
pub open spec fn payloads_emission(
    base: i32,
    payload: Seq<Layout>,
    args: Seq<BytecodeExpr>,
    k: int,
) -> Emission
    decreases args.len() - k,
{
    if k >= args.len() {
        Emission::nothing()
    } else {
        payload_emission(slot_above(base, (k + 1) as usize, 8), payload[k], args[k]).then_emit(
            payloads_emission(base, payload, args, k + 1),
        )
    }
}

/// An enum value into the slots at `base`: its tag word, then its payload words.
pub open spec fn enum_emission(
    base: i32,
    variants: Seq<Variant>,
    name: Seq<char>,
    args: Seq<BytecodeExpr>,
) -> Emission {
    match find_variant(variants, name, 0) {
        None => Emission::refused(
            "enum constructor `"@ + name + "` is not a variant of the target enum"@,
        ),
        Some(variant) => if args.len() != variant.payload.len() {
            Emission::refused(
                "enum constructor `"@ + name + "` expects "@ + decimal(
                    variant.payload.len() as int,
                ) + " payload field(s), got "@ + decimal(args.len() as int),
            )
        } else {
            Emission::of_program(
                seq![set_q(Rax, variant.tag as i64), store_local(base)],
            ).then_emit(payloads_emission(base, variant.payload, args, 0))
        },
    }
}

// Aggregates

/// Stores the low `bytes` bytes of `rax` where `rcx` points.
#[verifier::allow_in_spec]
pub fn store_through_rcx(bytes: usize) -> Insn
    returns
        (if bytes == 1 {
            store_b(at(Rcx), Rax)
        } else if bytes == 2 {
            store_w(at(Rcx), Rax)
        } else if bytes == 4 {
            store_d(at(Rcx), Rax)
        } else {
            store(at(Rcx), Rax)
        }),
{
    if bytes == 1 {
        store_b(at(Rcx), Rax)
    } else if bytes == 2 {
        store_w(at(Rcx), Rax)
    } else if bytes == 4 {
        store_d(at(Rcx), Rax)
    } else {
        store(at(Rcx), Rax)
    }
}

/// The array elements from `k` on, each `stride` bytes above the one before.
pub open spec fn elements_emission(
    ctx: NativeCtx,
    base: i32,
    elem: Layout,
    stride: i32,
    elements: Seq<BytecodeExpr>,
    k: int,
) -> Emission
    decreases elements, elements.len() - k,
{
    if k < 0 || k >= elements.len() {
        Emission::nothing()
    } else {
        value_emission(ctx, slot_above(base, k as usize, stride), elem, elements[k]).then_emit(
            elements_emission(ctx, base, elem, stride, elements, k + 1),
        )
    }
}

/// The struct fields from `k` on, the next one at `slot`.
pub open spec fn fields_emission(
    ctx: NativeCtx,
    slot: i32,
    fields: Seq<(Seq<char>, Layout)>,
    args: Seq<BytecodeExpr>,
    k: int,
) -> Emission
    decreases args, args.len() - k,
{
    if k < 0 || k >= args.len() {
        Emission::nothing()
    } else {
        value_emission(ctx, slot, fields[k].1, args[k]).then_emit(
            fields_emission(
                ctx,
                slot_above(slot, words_of(fields[k].1) as usize, 8),
                fields,
                args,
                k + 1,
            ),
        )
    }
}

/// A value of layout `ty` into the slots at `slot`.
pub open spec fn value_emission(
    ctx: NativeCtx,
    slot: i32,
    ty: Layout,
    value: BytecodeExpr,
) -> Emission
    decreases value, 2int,
{
    match ty {
        Layout::I64 | Layout::Text => value.code.word@.then_emit(
            Emission::of_program(seq![store_local(slot)]),
        ),
        Layout::Narrow { bytes, .. } => value.code.word@.then_emit(
            Emission::of_program(seq![lea(Rcx, frame(slot)), store_through_rcx(bytes as usize)]),
        ),
        Layout::F64 | Layout::F32 => value.code.float.0@.then_emit(
            Emission::of_program(seq![store_float_local(slot, value.code.float.1)]),
        ),
        _ => aggregate_emission(ctx, slot, ty, value),
    }
}

/// An aggregate value of layout `ty` into the slots at `base`.
pub open spec fn aggregate_emission(
    ctx: NativeCtx,
    base: i32,
    ty: Layout,
    value: BytecodeExpr,
) -> Emission
    decreases value, 1int,
{
    match value.kind {
        BytecodeExprKind::Call { name, args } => if fills_slots(name@, args@) {
            value.code.into_slots@
        } else if ty is Struct && reads_heap_struct(ctx, name@, args@) {
            value.code.heap_copy@.then_emit(
                Emission::of_program(seq![mov(Rcx, Rax)]).then_emit(
                    heap_words_emission(base, 0, ty->Struct_fields.len() as int),
                ),
            )
        } else if ctx.compiled(name@) {
            value.code.into_slots@
        } else {
            match ty {
                Layout::Struct { name: sname, fields } => if name@ != sname {
                    Emission::refused(
                        "constructor `"@ + name@ + "` does not match struct layout `"@ + sname
                            + "`"@,
                    )
                } else if args@.len() != fields.len() {
                    Emission::refused("constructor `"@ + name@ + "` has wrong field count"@)
                } else {
                    fields_emission(ctx, base, fields, args@, 0)
                },
                Layout::Enum { variants, .. } => enum_emission(base, variants, name@, args@),
                _ => Emission::refused("initializer is not a native aggregate constructor"@),
            }
        },
        BytecodeExprKind::Array(elements) => match ty {
            Layout::Array { elem, len } => if elements@.len() != len {
                Emission::refused("array literal length does not match layout"@)
            } else {
                elements_emission(
                    ctx,
                    base,
                    *elem,
                    byte_size_of(*elem) as usize as i32,
                    elements@,
                    0,
                )
            },
            _ => Emission::refused("initializer is not a native aggregate constructor"@),
        },
        BytecodeExprKind::Variable(source) => match ctx.local_of(source@) {
            None => Emission::refused(unknown_local(source@)),
            Some(local) => if local.ty@ != ty {
                Emission::refused("aggregate copy between differing layouts"@)
            } else {
                copy_emission(local.slot, base, 0, words_of(ty))
            },
        },
        BytecodeExprKind::Field { .. } | BytecodeExprKind::Index { .. } => if !(ty is Array) {
            Emission::refused("initializer is not a native aggregate constructor"@)
        } else {
            match value.code.source {
                Err(why) => Emission::refused(why@),
                Ok((source, source_ty)) => if source_ty@ != ty {
                    Emission::refused("aggregate copy between differing layouts"@)
                } else {
                    copy_emission(source, base, 0, words_of(ty))
                },
            }
        },
        _ => Emission::refused("initializer is not a native aggregate constructor"@),
    }
}

// Laws

/// The frame slot `bytes` bytes above the slot `base`.
pub open spec fn raised(base: i32, bytes: int) -> i32 {
    (base - bytes) as i32
}

/// Whether everything up to `bytes` bytes above a slot has a slot.
pub open spec fn room_above(base: i32, bytes: int) -> bool {
    0 <= bytes <= i32::MAX && i32::MIN <= base - bytes
}

/// The code of a struct literal's values: each into the slot that lies above the first one by the
/// words of all fields before it.
pub open spec fn field_parts(
    ctx: NativeCtx,
    base: i32,
    fields: Seq<(Seq<char>, Layout)>,
    args: Seq<BytecodeExpr>,
) -> Seq<Emission> {
    Seq::new(
        fields.len(),
        |k: int|
            value_emission(ctx, raised(base, 8 * fields_words(fields, k)), fields[k].1, args[k]),
    )
}

/// The code of an array literal's values: each into the slot that lies above the first one by its
/// index times the size of an element.
pub open spec fn element_parts(
    ctx: NativeCtx,
    base: i32,
    elem: Layout,
    elements: Seq<BytecodeExpr>,
) -> Seq<Emission> {
    Seq::new(
        elements.len(),
        |k: int| value_emission(ctx, raised(base, byte_size_of(elem) * k), elem, elements[k]),
    )
}

/// The code of an enum's payload: each word into the slot that many words behind the tag's.
pub open spec fn payload_parts(
    base: i32,
    payload: Seq<Layout>,
    args: Seq<BytecodeExpr>,
) -> Seq<Emission> {
    Seq::new(
        args.len(),
        |k: int| payload_emission(raised(base, 8 * (k + 1)), payload[k], args[k]),
    )
}

/// Whether a value is a constructor that is lowered field by field.
pub open spec fn constructs(
    ctx: NativeCtx,
    ty: Layout,
    value: BytecodeExpr,
    name: Seq<char>,
    args: Seq<BytecodeExpr>,
) -> bool {
    &&& value.kind is Call
    &&& value.kind->Call_name@ == name
    &&& value.kind->args@ == args
    &&& !fills_slots(name, args)
    &&& !(ty is Struct && reads_heap_struct(ctx, name, args))
    &&& !ctx.compiled(name)
}

proof fn lemma_fields_in_order(
    ctx: NativeCtx,
    base: i32,
    fields: Seq<(Seq<char>, Layout)>,
    args: Seq<BytecodeExpr>,
    k: int,
)
    requires
        fields.len() == args.len(),
        0 <= k <= args.len(),
        forall|i: int| 0 <= i < fields.len() ==> natural((#[trigger] fields[i]).1),
        room_above(base, 8 * fields_words(fields, fields.len() as int)),
    ensures
        fields_emission(ctx, raised(base, 8 * fields_words(fields, k)), fields, args, k)
            == in_order(field_parts(ctx, base, fields, args).skip(k)),
    decreases args.len() - k,
{
    let parts = field_parts(ctx, base, fields, args);
    let n = fields.len() as int;
    let slot = raised(base, 8 * fields_words(fields, k));
    lemma_fields_words_grow(fields, k, n);
    if k < n {
        lemma_fields_words_grow(fields, k + 1, n);
        law_words_are_natural(fields[k].1);
        let next = raised(base, 8 * fields_words(fields, k + 1));
        let words = words_of(fields[k].1);
        assert(fields_words(fields, k + 1) == fields_words(fields, k) + words);
        assert(slot_above(slot, words as usize, 8) == next);
        lemma_fields_in_order(ctx, base, fields, args, k + 1);
        assert(parts.skip(k) =~= seq![parts[k]] + parts.skip(k + 1));
        law_first_part_comes_first(parts[k], parts.skip(k + 1));
    } else {
        assert(parts.skip(k).len() == 0);
    }
}

/// The fields of a struct literal lie behind each other from its first slot on. The value of
/// each goes where the words of the fields before it end, and the words of all of them are the
/// words of the struct.
pub proof fn law_fields_lie_in_order(
    ctx: NativeCtx,
    base: i32,
    ty: Layout,
    value: BytecodeExpr,
    name: Seq<char>,
    fields: Seq<(Seq<char>, Layout)>,
    args: Seq<BytecodeExpr>,
)
    requires
        ty == (Layout::Struct { name, fields }),
        constructs(ctx, ty, value, name, args),
        fields.len() == args.len(),
        forall|i: int| 0 <= i < fields.len() ==> natural((#[trigger] fields[i]).1),
        room_above(base, 8 * words_of(ty)),
    ensures
        aggregate_emission(ctx, base, ty, value) == in_order(field_parts(ctx, base, fields, args)),
        forall|k: int|
            0 <= k < fields.len() ==> #[trigger] fields_words(fields, k) + words_of(fields[k].1)
                == fields_words(fields, k + 1),
        fields_words(fields, 0) == 0,
        fields_words(fields, fields.len() as int) == words_of(ty),
        forall|j: int, k: int|
            0 <= j < k < fields.len() ==> #[trigger] fields_words(fields, j) + words_of(fields[j].1)
                <= #[trigger] fields_words(fields, k),
{
    lemma_fields_in_order(ctx, base, fields, args, 0);
    let parts = field_parts(ctx, base, fields, args);
    assert(parts.skip(0) =~= parts);
    assert forall|j: int, k: int| 0 <= j < k < fields.len() implies #[trigger] fields_words(
        fields,
        j,
    ) + words_of(fields[j].1) <= #[trigger] fields_words(fields, k) by {
        lemma_fields_words_grow(fields, j + 1, k);
    }
}

proof fn lemma_elements_in_order(
    ctx: NativeCtx,
    base: i32,
    elem: Layout,
    elements: Seq<BytecodeExpr>,
    k: int,
)
    requires
        0 <= k <= elements.len(),
        0 <= byte_size_of(elem),
        room_above(base, byte_size_of(elem) * elements.len()),
    ensures
        elements_emission(
            ctx,
            base,
            elem,
            byte_size_of(elem) as usize as i32,
            elements,
            k,
        ) == in_order(element_parts(ctx, base, elem, elements).skip(k)),
    decreases elements.len() - k,
{
    let parts = element_parts(ctx, base, elem, elements);
    let n = elements.len() as int;
    if k < n {
        lemma_stride(base, byte_size_of(elem), k, n);
        lemma_elements_in_order(ctx, base, elem, elements, k + 1);
        assert(parts.skip(k) =~= seq![parts[k]] + parts.skip(k + 1));
        law_first_part_comes_first(parts[k], parts.skip(k + 1));
    } else {
        assert(parts.skip(k).len() == 0);
    }
}

proof fn lemma_stride(base: i32, size: int, k: int, n: int)
    requires
        0 <= size,
        0 <= k < n,
        room_above(base, size * n),
    ensures
        slot_above(base, k as usize, size as usize as i32) == raised(base, size * k),
{
    let stride = size as usize as i32;
    let index = k as usize as i32;
    assert(0 <= size * k <= size * n && size <= size * n) by (nonlinear_arith)
        requires
            0 <= size,
            0 <= k < n,
    ;
    assert(stride == size);
    if size == 0 {
        assert(index * stride == 0 && size * k == 0) by (nonlinear_arith)
            requires
                stride == 0,
                size == 0,
        ;
    } else {
        assert(k <= size * k) by (nonlinear_arith)
            requires
                0 < size,
                0 <= k,
        ;
        assert(index == k);
        assert(index * stride == size * k) by (nonlinear_arith)
            requires
                index == k,
                stride == size,
        ;
    }
    assert(index.wrapping_mul(stride) == size * k);
}

/// The elements of an array literal lie behind each other from its first slot on, each as far
/// from the one before as an element is large.
pub proof fn law_elements_lie_in_order(
    ctx: NativeCtx,
    base: i32,
    ty: Layout,
    elem: Layout,
    value: BytecodeExpr,
    elements: Vec<BytecodeExpr>,
)
    requires
        ty == (Layout::Array { elem: Box::new(elem), len: elements@.len() as int }),
        value.kind == BytecodeExprKind::Array(elements),
        0 <= byte_size_of(elem),
        room_above(base, byte_size_of(elem) * elements@.len()),
    ensures
        aggregate_emission(ctx, base, ty, value) == in_order(
            element_parts(ctx, base, elem, elements@),
        ),
{
    lemma_elements_in_order(ctx, base, elem, elements@, 0);
    let parts = element_parts(ctx, base, elem, elements@);
    assert(parts.skip(0) =~= parts);
}

proof fn lemma_payloads_in_order(
    base: i32,
    payload: Seq<Layout>,
    args: Seq<BytecodeExpr>,
    k: int,
)
    requires
        0 <= k <= args.len(),
        room_above(base, 8 * (args.len() as int + 1)),
    ensures
        payloads_emission(base, payload, args, k) == in_order(
            payload_parts(base, payload, args).skip(k),
        ),
    decreases args.len() - k,
{
    let parts = payload_parts(base, payload, args);
    if k < args.len() {
        assert(slot_above(base, (k + 1) as usize, 8) == raised(base, 8 * (k + 1)));
        lemma_payloads_in_order(base, payload, args, k + 1);
        assert(parts.skip(k) =~= seq![parts[k]] + parts.skip(k + 1));
        law_first_part_comes_first(parts[k], parts.skip(k + 1));
    } else {
        assert(parts.skip(k).len() == 0);
    }
}

proof fn lemma_find_variant(variants: Seq<Variant>, name: Seq<char>, i: int, at: int)
    requires
        0 <= i <= at < variants.len(),
        variants[at].name == name,
        forall|j: int| 0 <= j < at ==> (#[trigger] variants[j]).name != name,
    ensures
        find_variant(variants, name, i) == Some(variants[at]),
    decreases at - i,
{
    if i < at {
        lemma_find_variant(variants, name, i + 1, at);
    }
}

/// An enum value is the tag of the variant its constructor names, in its first slot, and behind it
/// the payload, word by word.
pub proof fn law_enums_lie_in_order(
    ctx: NativeCtx,
    base: i32,
    ty: Layout,
    value: BytecodeExpr,
    variants: Seq<Variant>,
    at: int,
    args: Seq<BytecodeExpr>,
)
    requires
        ty is Enum,
        ty->variants == variants,
        0 <= at < variants.len(),
        forall|j: int| 0 <= j < at ==> (#[trigger] variants[j]).name != variants[at].name,
        constructs(ctx, ty, value, variants[at].name, args),
        args.len() == variants[at].payload.len(),
        room_above(base, 8 * (args.len() as int + 1)),
    ensures
        aggregate_emission(ctx, base, ty, value) == in_order(
            seq![
                Emission::of_program(
                    seq![set_q(Rax, variants[at].tag as i64), store_local(base)],
                ),
            ] + payload_parts(base, variants[at].payload, args),
        ),
{
    let payload = variants[at].payload;
    let parts = payload_parts(base, payload, args);
    lemma_find_variant(variants, variants[at].name, 0, at);
    lemma_payloads_in_order(base, payload, args, 0);
    assert(parts.skip(0) =~= parts);
    law_first_part_comes_first(
        Emission::of_program(seq![set_q(Rax, variants[at].tag as i64), store_local(base)]),
        parts,
    );
}

// Lowering

/// Whether a call is a built-in that yields an aggregate.
fn is_slot_filling(name: &String, args: &Vec<BytecodeExpr>) -> (is: bool)
    ensures
        is == fills_slots(name@, args@),
{
    let text = name.as_str();
    if same_text(text, MAP_GET_BUILTIN) && args.len() == 2 && supported_map_kv(
        &args[0].ty,
    ).is_some() {
        return true;
    }
    if (same_text(text, "checked_add") || same_text(text, "checked_sub") || same_text(
        text,
        "checked_mul",
    )) && args.len() == 2 && is_fixed_int(args[0].ty.name.as_str()) {
        return true;
    }
    same_text(text, "parse_i64") && args.len() == 1 && same_text(
        args[0].ty.name.as_str(),
        "string",
    )
}

/// Whether a call reads a heap struct out of a list.
fn is_heap_struct_read(ctx: &NativeCtx, name: &String, args: &Vec<BytecodeExpr>) -> (is: bool)
    ensures
        is == reads_heap_struct(*ctx, name@, args@),
{
    if !same_text(name.as_str(), LIST_GET_BUILTIN) || args.len() != 2 {
        return false;
    }
    let element = match args[0].ty.list_element() {
        Some(element) => element,
        None => args[0].ty.duplicate(),
    };
    match native_collection_slot(&element, ctx.structs.as_slice(), 0) {
        Some(NativeType::HeapStruct { .. }) => true,
        _ => false,
    }
}

/// Copies the `n` field words of a heap struct, whose address is in `rcx`, into the slots
/// at `base`.
fn copy_heap_words(base: i32, n: usize, code: &mut CodeBuffer)
    requires
        fits(old(code)@, heap_words_emission(base, 0, n as int)),
    ensures
        final(code)@ == old(code)@.then_code(heap_words_emission(base, 0, n as int).code),
        heap_words_emission(base, 0, n as int).error is None,
{
    let ghost whole = heap_words_emission(base, 0, n as int);
    let ghost start = code@;
    let mut k: usize = 0;
    while k < n
        invariant
            k <= n,
            start.then_code(whole.code) == code@.then_code(
                heap_words_emission(base, k as int, n as int).code,
            ),
            whole.error == heap_words_emission(base, k as int, n as int).error,
            fits(code@, heap_words_emission(base, k as int, n as int)),
        decreases n - k,
    {
        let program = vec![
            load(Rax, at_d(Rcx, (k as i32).wrapping_mul(8))),
            store_local(slot_above(base, k, 8)),
        ];
        proof {
            assert(program@ =~= seq![
                load(Rax, at_d(Rcx, (k as i32).wrapping_mul(8))),
                store_local(slot_above(base, k, 8)),
            ]);
            lemma_emit_step(
                code@,
                Emission::of_program(program@),
                heap_words_emission(base, k + 1, n as int),
            );
        }
        emit_program(code, &program);
        k += 1;
    }
    proof {
        lemma_emit_nothing(code@);
    }
}

/// Copies the `n` words at `source` into the slots at `base`.
fn copy_words(source: i32, base: i32, n: usize, code: &mut CodeBuffer)
    requires
        fits(old(code)@, copy_emission(source, base, 0, n as int)),
    ensures
        final(code)@ == old(code)@.then_code(copy_emission(source, base, 0, n as int).code),
        copy_emission(source, base, 0, n as int).error is None,
{
    let ghost whole = copy_emission(source, base, 0, n as int);
    let ghost start = code@;
    let mut k: usize = 0;
    while k < n
        invariant
            k <= n,
            start.then_code(whole.code) == code@.then_code(
                copy_emission(source, base, k as int, n as int).code,
            ),
            whole.error == copy_emission(source, base, k as int, n as int).error,
            fits(code@, copy_emission(source, base, k as int, n as int)),
        decreases n - k,
    {
        let program = vec![
            load_local(slot_above(source, k, 8)),
            store_local(slot_above(base, k, 8)),
        ];
        proof {
            assert(program@ =~= seq![
                load_local(slot_above(source, k, 8)),
                store_local(slot_above(base, k, 8)),
            ]);
            lemma_emit_step(
                code@,
                Emission::of_program(program@),
                copy_emission(source, base, k + 1, n as int),
            );
        }
        emit_program(code, &program);
        k += 1;
    }
    proof {
        lemma_emit_nothing(code@);
    }
}

/// The first variant called `name`.
fn lookup_variant<'a>(variants: &'a Vec<NativeEnumVariant>, name: &str) -> (found: Option<
    &'a NativeEnumVariant,
>)
    ensures
        match found {
            Some(v) => find_variant(variant_layouts(variants@), name@, 0) == Some(v.layout()),
            None => find_variant(variant_layouts(variants@), name@, 0) is None,
        },
{
    let ghost views = variant_layouts(variants@);
    let mut i: usize = 0;
    while i < variants.len()
        invariant
            i <= variants@.len(),
            views == variant_layouts(variants@),
            find_variant(views, name@, 0) == find_variant(views, name@, i as int),
        decreases variants@.len() - i,
    {
        assert(views[i as int] == variants@[i as int].layout());
        if same_text(variants[i].name.as_str(), name) {
            return Some(&variants[i]);
        }
        i += 1;
    }
    None
}

/// Materializes one payload word.
fn lower_payload(slot: i32, ty: &NativeType, arg: &BytecodeExpr, code: &mut CodeBuffer) -> (result:
    Result<(), String>)
    requires
        fits(old(code)@, payload_emission(slot, ty@, *arg)),
    ensures
        final(code)@ == old(code)@.then_code(payload_emission(slot, ty@, *arg).code),
        tells(result, payload_emission(slot, ty@, *arg)),
{
    match ty {
        NativeType::I64 | NativeType::String => emit_then_insn(
            code,
            &arg.code.word,
            store_local(slot),
        ),
        NativeType::F64 | NativeType::F32 => emit_then_insn(
            code,
            &arg.code.float.0,
            store_float_local(slot, arg.code.float.1),
        ),
        NativeType::HeapStruct { .. } | NativeType::List { .. } | NativeType::Mapping { .. } =>
            emit_then_insn(code, &arg.code.heap_copy, store_local(slot)),
        _ => {
            proof {
                lemma_emit_nothing(code@);
            }
            Err(
                "enum payload must be a native scalar, `string`, or one-level mutable aggregate".to_owned(),
            )
        },
    }
}

/// Materializes an enum value: its tag word, then the payload words that the variant
/// defines. A narrower variant leaves the words behind its payload as they are.
pub fn lower_enum_construction(
    base_slot: i32,
    variants: &Vec<NativeEnumVariant>,
    name: &str,
    args: &Vec<BytecodeExpr>,
    code: &mut CodeBuffer,
) -> (result: Result<(), String>)
    requires
        fits(old(code)@, enum_emission(base_slot, variant_layouts(variants@), name@, args@)),
    ensures
        final(code)@ == old(code)@.then_code(
            enum_emission(base_slot, variant_layouts(variants@), name@, args@).code,
        ),
        tells(result, enum_emission(base_slot, variant_layouts(variants@), name@, args@)),
{
    let variant = match lookup_variant(variants, name) {
        Some(variant) => variant,
        None => {
            proof {
                lemma_emit_nothing(code@);
            }
            return Err(
                message("enum constructor `", name, "` is not a variant of the target enum"),
            );
        },
    };
    let ghost payload = type_layouts(variant.payload@);
    if args.len() != variant.payload.len() {
        proof {
            lemma_emit_nothing(code@);
        }
        return Err(
            message("enum constructor `", name, "` expects ").concat(
                decimal_text(variant.payload.len()).as_str(),
            ).concat(" payload field(s), got ").concat(decimal_text(args.len()).as_str()),
        );
    }
    let head = vec![set_q(Rax, variant.tag), store_local(base_slot)];
    let ghost rest = payloads_emission(base_slot, payload, args@, 0);
    proof {
        assert(head@ =~= seq![set_q(Rax, variant.tag), store_local(base_slot)]);
        lemma_emit_step(code@, Emission::of_program(head@), rest);
    }
    emit_program(code, &head);
    let ghost start = code@;
    let mut k: usize = 0;
    while k < args.len()
        invariant
            k <= args@.len() == variant.payload@.len(),
            payload == type_layouts(variant.payload@),
            start.then_code(rest.code) == code@.then_code(
                payloads_emission(base_slot, payload, args@, k as int).code,
            ),
            rest.error == payloads_emission(base_slot, payload, args@, k as int).error,
            fits(code@, payloads_emission(base_slot, payload, args@, k as int)),
            enum_emission(base_slot, variant_layouts(variants@), name@, args@).error == rest.error,
            old(code)@.then_code(
                enum_emission(base_slot, variant_layouts(variants@), name@, args@).code,
            ) == start.then_code(rest.code),
        decreases args@.len() - k,
    {
        let slot = slot_above(base_slot, k + 1, 8);
        let ghost first = payload_emission(slot, payload[k as int], args@[k as int]);
        proof {
            assert(payload[k as int] == variant.payload@[k as int]@);
            lemma_emit_step(
                code@,
                first,
                payloads_emission(base_slot, payload, args@, k + 1),
            );
        }
        match lower_payload(slot, &variant.payload[k], &args[k], code) {
            Ok(_) => {},
            Err(why) => {
                return Err(why);
            },
        }
        k += 1;
    }
    proof {
        lemma_emit_nothing(code@);
    }
    Ok(())
}

/// Materializes `value`, of layout `ty`, into the slots at `word_slot`. Scalars go through
/// a register; aggregates recurse.
pub fn lower_value_into(
    ctx: &NativeCtx,
    word_slot: i32,
    ty: &NativeType,
    value: &BytecodeExpr,
    code: &mut CodeBuffer,
) -> (result: Result<(), String>)
    requires
        measurable(ty@),
        fits(old(code)@, value_emission(*ctx, word_slot, ty@, *value)),
    ensures
        final(code)@ == old(code)@.then_code(value_emission(*ctx, word_slot, ty@, *value).code),
        tells(result, value_emission(*ctx, word_slot, ty@, *value)),
    decreases value, 2int,
{
    match ty {
        NativeType::I64 | NativeType::String => emit_then_insn(
            code,
            &value.code.word,
            store_local(word_slot),
        ),
        NativeType::Narrow { bytes, .. } => {
            let program = vec![lea(Rcx, frame(word_slot)), store_through_rcx(*bytes)];
            assert(program@ =~= seq![lea(Rcx, frame(word_slot)), store_through_rcx(*bytes)]);
            emit_then_program(code, &value.code.word, &program)
        },
        NativeType::F64 | NativeType::F32 => emit_then_insn(
            code,
            &value.code.float.0,
            store_float_local(word_slot, value.code.float.1),
        ),
        _ => lower_aggregate_init(ctx, word_slot, ty, value, code),
    }
}

/// Refuses a value without emitting anything.
pub(crate) fn refuse(code: &mut CodeBuffer, why: &str) -> (result: Result<(), String>)
    ensures
        final(code)@ == old(code)@.then_code(Emission::refused(why@).code),
        tells(result, Emission::refused(why@)),
{
    proof {
        lemma_emit_nothing(code@);
    }
    Err(why.to_owned())
}

/// Materializes an aggregate into the slots at `base_slot`: an array literal element by
/// element; a struct or enum constructor; a call that fills its slots; a struct read out
/// of a list; or a copy of another local or of an inline array, word by word.
pub fn lower_aggregate_init(
    ctx: &NativeCtx,
    base_slot: i32,
    ty: &NativeType,
    value: &BytecodeExpr,
    code: &mut CodeBuffer,
) -> (result: Result<(), String>)
    requires
        measurable(ty@),
        fits(old(code)@, aggregate_emission(*ctx, base_slot, ty@, *value)),
    ensures
        final(code)@ == old(code)@.then_code(
            aggregate_emission(*ctx, base_slot, ty@, *value).code,
        ),
        tells(result, aggregate_emission(*ctx, base_slot, ty@, *value)),
    decreases value, 1int,
{
    match &value.kind {
        BytecodeExprKind::Call { name, args } => {
            if is_slot_filling(name, args) {
                return emit(code, &value.code.into_slots);
            }
            if let NativeType::Struct { fields, .. } = ty {
                assert(ty@->Struct_fields == field_layouts(fields@));
                if is_heap_struct_read(ctx, name, args) {
                    return lower_heap_struct_read(base_slot, fields.len(), value, code);
                }
            }
            if ctx.is_compiled(name) {
                return emit(code, &value.code.into_slots);
            }
            match ty {
                NativeType::Struct { name: sname, fields } => {
                    if *name != *sname {
                        let why = message(
                            "constructor `",
                            name.as_str(),
                            "` does not match struct layout `",
                        ).concat(sname.as_str()).concat("`");
                        return refuse(code, why.as_str());
                    }
                    if args.len() != fields.len() {
                        let why = message(
                            "constructor `",
                            name.as_str(),
                            "` has wrong field count",
                        );
                        return refuse(code, why.as_str());
                    }
                    lower_fields(ctx, base_slot, fields, args, code)
                },
                NativeType::Enum { variants, .. } => lower_enum_construction(
                    base_slot,
                    variants,
                    name.as_str(),
                    args,
                    code,
                ),
                _ => refuse(code, "initializer is not a native aggregate constructor"),
            }
        },
        BytecodeExprKind::Array(elements) => match ty {
            NativeType::Array { elem, len } => {
                if elements.len() != *len {
                    return refuse(code, "array literal length does not match layout");
                }
                lower_elements(ctx, base_slot, elem, elements, code)
            },
            _ => refuse(code, "initializer is not a native aggregate constructor"),
        },
        BytecodeExprKind::Variable(source) => {
            let local = match ctx.local(source) {
                Ok(local) => local,
                Err(why) => {
                    return refuse(code, why.as_str());
                },
            };
            if !same_layout(&local.ty, ty) {
                return refuse(code, "aggregate copy between differing layouts");
            }
            copy_words(local.slot, base_slot, ty.words(), code);
            Ok(())
        },
        BytecodeExprKind::Field { .. } | BytecodeExprKind::Index { .. } => {
            match ty {
                NativeType::Array { .. } => {},
                _ => {
                    return refuse(code, "initializer is not a native aggregate constructor");
                },
            }
            match &value.code.source {
                Err(why) => refuse(code, why.as_str()),
                Ok((source, source_ty)) => {
                    if !same_layout(source_ty, ty) {
                        return refuse(code, "aggregate copy between differing layouts");
                    }
                    copy_words(*source, base_slot, ty.words(), code);
                    Ok(())
                },
            }
        },
        _ => refuse(code, "initializer is not a native aggregate constructor"),
    }
}

/// Copies a heap struct that `value` reads out of a list into the slots at `base`.
fn lower_heap_struct_read(base: i32, n: usize, value: &BytecodeExpr, code: &mut CodeBuffer) -> (
result: Result<(), String>)
    requires
        fits(
            old(code)@,
            value.code.heap_copy@.then_emit(
                Emission::of_program(seq![mov(Rcx, Rax)]).then_emit(
                    heap_words_emission(base, 0, n as int),
                ),
            ),
        ),
    ensures
        final(code)@ == old(code)@.then_code(
            value.code.heap_copy@.then_emit(
                Emission::of_program(seq![mov(Rcx, Rax)]).then_emit(
                    heap_words_emission(base, 0, n as int),
                ),
            ).code,
        ),
        tells(
            result,
            value.code.heap_copy@.then_emit(
                Emission::of_program(seq![mov(Rcx, Rax)]).then_emit(
                    heap_words_emission(base, 0, n as int),
                ),
            ),
        ),
{
    let ghost words = heap_words_emission(base, 0, n as int);
    let ghost moved = Emission::of_program(seq![mov(Rcx, Rax)]);
    proof {
        lemma_emit_step(code@, value.code.heap_copy@, moved.then_emit(words));
    }
    match emit(code, &value.code.heap_copy) {
        Ok(_) => {},
        Err(why) => {
            return Err(why);
        },
    }
    proof {
        lemma_emit_step(code@, moved, words);
    }
    emit_insn(code, mov(Rcx, Rax));
    copy_heap_words(base, n, code);
    Ok(())
}

/// Materializes struct fields in declaration order.
fn lower_fields(
    ctx: &NativeCtx,
    base_slot: i32,
    fields: &Vec<(String, NativeType)>,
    args: &Vec<BytecodeExpr>,
    code: &mut CodeBuffer,
) -> (result: Result<(), String>)
    requires
        args@.len() == fields@.len(),
        forall|i: int|
            0 <= i < fields@.len() ==> measurable((#[trigger] field_layouts(fields@)[i]).1),
        fits(old(code)@, fields_emission(*ctx, base_slot, field_layouts(fields@), args@, 0)),
    ensures
        final(code)@ == old(code)@.then_code(
            fields_emission(*ctx, base_slot, field_layouts(fields@), args@, 0).code,
        ),
        tells(result, fields_emission(*ctx, base_slot, field_layouts(fields@), args@, 0)),
    decreases args, 0int,
{
    let ghost views = field_layouts(fields@);
    let ghost whole = fields_emission(*ctx, base_slot, views, args@, 0);
    let ghost start = code@;
    let mut slot: i32 = base_slot;
    let mut k: usize = 0;
    while k < args.len()
        invariant
            k <= args@.len() == fields@.len(),
            views == field_layouts(fields@),
            forall|i: int| 0 <= i < fields@.len() ==> measurable((#[trigger] views[i]).1),
            whole == fields_emission(*ctx, base_slot, views, args@, 0),
            start == old(code)@,
            start.then_code(whole.code) == code@.then_code(
                fields_emission(*ctx, slot, views, args@, k as int).code,
            ),
            whole.error == fields_emission(*ctx, slot, views, args@, k as int).error,
            fits(code@, fields_emission(*ctx, slot, views, args@, k as int)),
        decreases args@.len() - k,
    {
        let ghost first = value_emission(*ctx, slot, views[k as int].1, args@[k as int]);
        let ghost next = slot_above(slot, words_of(views[k as int].1) as usize, 8);
        proof {
            assert(views[k as int].1 == fields@[k as int].1@);
            lemma_emit_step(code@, first, fields_emission(*ctx, next, views, args@, k + 1));
        }
        match lower_value_into(ctx, slot, &fields[k].1, &args[k], code) {
            Ok(_) => {},
            Err(why) => {
                return Err(why);
            },
        }
        slot = slot_above(slot, fields[k].1.words(), 8);
        k += 1;
    }
    proof {
        lemma_emit_nothing(code@);
    }
    Ok(())
}

/// Materializes array elements at ascending addresses.
fn lower_elements(
    ctx: &NativeCtx,
    base_slot: i32,
    elem: &NativeType,
    elements: &Vec<BytecodeExpr>,
    code: &mut CodeBuffer,
) -> (result: Result<(), String>)
    requires
        measurable(elem@),
        byte_size_of(elem@) <= usize::MAX,
        fits(
            old(code)@,
            elements_emission(
                *ctx,
                base_slot,
                elem@,
                byte_size_of(elem@) as usize as i32,
                elements@,
                0,
            ),
        ),
    ensures
        final(code)@ == old(code)@.then_code(
            elements_emission(
                *ctx,
                base_slot,
                elem@,
                byte_size_of(elem@) as usize as i32,
                elements@,
                0,
            ).code,
        ),
        tells(
            result,
            elements_emission(
                *ctx,
                base_slot,
                elem@,
                byte_size_of(elem@) as usize as i32,
                elements@,
                0,
            ),
        ),
    decreases elements, 0int,
{
    let stride: i32 = elem.byte_size() as i32;
    let ghost whole = elements_emission(*ctx, base_slot, elem@, stride, elements@, 0);
    let ghost start = code@;
    let mut k: usize = 0;
    while k < elements.len()
        invariant
            k <= elements@.len(),
            measurable(elem@),
            stride == byte_size_of(elem@) as usize as i32,
            whole == elements_emission(*ctx, base_slot, elem@, stride, elements@, 0),
            start == old(code)@,
            start.then_code(whole.code) == code@.then_code(
                elements_emission(*ctx, base_slot, elem@, stride, elements@, k as int).code,
            ),
            whole.error == elements_emission(
                *ctx,
                base_slot,
                elem@,
                stride,
                elements@,
                k as int,
            ).error,
            fits(
                code@,
                elements_emission(*ctx, base_slot, elem@, stride, elements@, k as int),
            ),
        decreases elements@.len() - k,
    {
        let slot = slot_above(base_slot, k, stride);
        proof {
            lemma_emit_step(
                code@,
                value_emission(*ctx, slot, elem@, elements@[k as int]),
                elements_emission(*ctx, base_slot, elem@, stride, elements@, k + 1),
            );
        }
        match lower_value_into(ctx, slot, elem, &elements[k], code) {
            Ok(_) => {},
            Err(why) => {
                return Err(why);
            },
        }
        k += 1;
    }
    proof {
        lemma_emit_nothing(code@);
    }
    Ok(())
}

} // verus!
