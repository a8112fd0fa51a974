//! Layouts of values, and how type spellings resolve to them.

use lullaby_ir::bytecode::{BytecodeExpr, BytecodeExprKind, ExprCode};
use lullaby_ir::assembler::CodeBuffer;
use lullaby_ir::emission::Emitted;
use lullaby_ir::init::{native_type_of_init, NativeSignature, Signatures};
use lullaby_ir::layout::{
    is_native_supported_generic_layout, is_scalar_only_layout, narrow_array_element,
    NativeEnumVariant, NativeType,
};
use lullaby_ir::resolve::{
    is_enum_type_name, is_fixed_int, is_heap_string_array, is_raw_pointer_type_name,
    native_collection_slot, resolve_enum_type, resolve_native_type, resolve_struct_fields,
    supported_list_element, supported_map_kv, IrEnumDef, IrEnumVariant, IrStructDef,
};
use lullaby_ir::signature::{
    native_signature_type_is_aggregate, resolve_return_native_type,
    resolve_signature_native_type, ArrayLengths, FAT_ARRAY_LEN, RETURN_ARRAY_KEY,
};
use lullaby_ir::spelling::{
    find_open_bracket, split_user_generic, subst_map, substitute_type, TypeRef,
};
use lullaby_ir::x86::FloatWidth;

fn ty(name: &str) -> TypeRef {
    TypeRef::new(name)
}

fn strukt(name: &str, params: &[&str], fields: &[(&str, &str)]) -> IrStructDef {
    IrStructDef {
        name: name.to_string(),
        type_params: params.iter().map(|p| p.to_string()).collect(),
        fields: fields.iter().map(|(n, t)| (n.to_string(), ty(t))).collect(),
    }
}

fn enumeration(name: &str, params: &[&str], variants: &[(&str, &[&str])]) -> IrEnumDef {
    IrEnumDef {
        name: name.to_string(),
        type_params: params.iter().map(|p| p.to_string()).collect(),
        variants: variants
            .iter()
            .map(|(n, payload)| IrEnumVariant {
                name: n.to_string(),
                payload: payload.iter().map(|t| ty(t)).collect(),
            })
            .collect(),
    }
}

fn nothing() -> Emitted {
    Emitted::done(CodeBuffer::new())
}

fn expr(kind: BytecodeExprKind, name: &str) -> BytecodeExpr {
    BytecodeExpr {
        kind,
        ty: ty(name),
        code: ExprCode {
            word: nothing(),
            float: (nothing(), FloatWidth::F64),
            returned: nothing(),
            heap_copy: nothing(),
            into_slots: nothing(),
            place: Err(String::new()),
            typed_place: Err(String::new()),
            source: Err(String::new()),
            survivor: None,
        },
    }
}

fn no_signatures() -> Signatures {
    Signatures { entries: vec![] }
}

#[test]
fn void_layout_is_zero_words_and_not_an_aggregate() {
    assert!(
        !NativeType::Void.is_aggregate(),
        "a void return must not be classified as an aggregate (it reserves no hidden \
         result pointer)"
    );
    assert_eq!(
        NativeType::Void.words(),
        0,
        "a void return occupies no stack words"
    );
}

#[test]
fn void_is_not_resolvable_as_a_non_return_type() {
    let void_ty = TypeRef::new("void");
    let lengths = ArrayLengths::new();

    // As a local/field type: refused.
    assert!(
        resolve_native_type(&void_ty, &[], &[]).is_err(),
        "`void` must not resolve as a local/field type"
    );
    // As a parameter (signature) type: refused.
    assert!(
        resolve_signature_native_type(&void_ty, &[], &[], &lengths, "p").is_err(),
        "`void` must not resolve as a parameter type"
    );
    // As a RETURN type: admitted, as `Void`.
    assert_eq!(
        resolve_return_native_type(&void_ty, &[], &[], &lengths).expect("void return resolves"),
        NativeType::Void,
        "`void` must resolve to `NativeType::Void` in return position"
    );
}

#[test]
fn native_type_words_flatten_nested_aggregates() {
    // Layout sizing: a nested all-i64 struct and a fixed array flatten to the
    // expected word counts.
    let structs = vec![
        IrStructDef {
            name: "Pair".to_string(),
            type_params: vec![],
            fields: vec![
                ("a".to_string(), TypeRef::new("i64")),
                ("b".to_string(), TypeRef::new("i64")),
            ],
        },
        IrStructDef {
            name: "Line".to_string(),
            type_params: vec![],
            fields: vec![
                ("start".to_string(), TypeRef::new("Pair")),
                ("end".to_string(), TypeRef::new("Pair")),
            ],
        },
    ];
    let line = resolve_native_type(&TypeRef::new("Line"), &structs, &[]).expect("resolve Line");
    assert_eq!(line.words(), 4, "Line flattens to four i64 words");

    let array = NativeType::Array {
        elem: Box::new(NativeType::I64),
        len: 5,
    };
    assert_eq!(array.words(), 5);
}

#[test]
fn string_is_not_a_by_pointer_aggregate() {
    // A `string` is a single immutable pointer word, so it is classified as a
    // scalar (register value), not a by-pointer aggregate — unlike a struct or
    // enum. This keeps a string parameter/return in an integer register with no
    // deep copy.
    assert!(!NativeType::String.is_aggregate());
    assert_eq!(NativeType::String.words(), 1);
    let native = resolve_native_type(&TypeRef::new("string"), &[], &[]).expect("resolve string");
    assert_eq!(native, NativeType::String);
    assert!(
        !native_signature_type_is_aggregate(&TypeRef::new("string"), &[], &[])
            .expect("string classifies"),
        "a string signature slot is a scalar (register), not an aggregate"
    );
}

#[test]
fn packed_arrays_round_up_to_words() {
    let bytes = |n: usize, len: usize| NativeType::Array {
        elem: Box::new(NativeType::Narrow { bytes: n, signed: false }),
        len,
    };
    assert_eq!(bytes(1, 0).words(), 0);
    assert_eq!(bytes(1, 8).words(), 1);
    assert_eq!(bytes(1, 9).words(), 2);
    assert_eq!(bytes(2, 5).words(), 2);
    assert_eq!(bytes(4, 3).words(), 2);
    assert_eq!(NativeType::Narrow { bytes: 2, signed: true }.byte_size(), 2);
    assert_eq!(NativeType::I64.byte_size(), 8);
    assert_eq!(bytes(1, 9).byte_size(), 16);
}

#[test]
fn narrow_elements_by_name() {
    let narrow = |bytes: usize, signed: bool| Some(NativeType::Narrow { bytes, signed });
    assert_eq!(narrow_array_element("i8"), narrow(1, true));
    assert_eq!(narrow_array_element("u8"), narrow(1, false));
    assert_eq!(narrow_array_element("i16"), narrow(2, true));
    assert_eq!(narrow_array_element("u16"), narrow(2, false));
    assert_eq!(narrow_array_element("i32"), narrow(4, true));
    assert_eq!(narrow_array_element("u32"), narrow(4, false));
    assert_eq!(narrow_array_element("i64"), None);
    assert_eq!(narrow_array_element("f32"), None);
}

#[test]
fn words_of_every_layout() {
    let word = || Box::new(NativeType::I64);
    assert_eq!(NativeType::I64.words(), 1);
    assert_eq!(NativeType::F64.words(), 1);
    assert_eq!(NativeType::F32.words(), 1);
    assert_eq!(NativeType::FatArray { elem: word() }.words(), 2);
    assert_eq!(NativeType::List { elem: word() }.words(), 1);
    assert_eq!(NativeType::Mapping { key: word(), value: word() }.words(), 1);
    assert_eq!(
        NativeType::HeapStruct {
            name: "S".to_string(),
            fields: vec![("a".to_string(), NativeType::I64), ("b".to_string(), NativeType::I64)],
        }
        .words(),
        1
    );
    assert_eq!(
        NativeType::Enum { name: "E".to_string(), variants: vec![], payload_words: 3 }.words(),
        4
    );
    assert!(!NativeType::FatArray { elem: word() }.is_aggregate());
}

#[test]
fn scalars_resolve_to_words() {
    for name in ["i64", "i8", "u64", "usize", "bool", "char", "byte"] {
        assert_eq!(resolve_native_type(&ty(name), &[], &[]), Ok(NativeType::I64), "{name}");
    }
    assert_eq!(resolve_native_type(&ty("f64"), &[], &[]), Ok(NativeType::F64));
    assert_eq!(resolve_native_type(&ty("f32"), &[], &[]), Ok(NativeType::F32));
    assert_eq!(resolve_native_type(&ty("ptr<f64>"), &[], &[]), Ok(NativeType::I64));
    assert_eq!(resolve_native_type(&ty("ptr_i64"), &[], &[]), Ok(NativeType::I64));
    assert!(is_raw_pointer_type_name("ptr<Node>"));
    assert!(!is_raw_pointer_type_name("pointer"));
    assert!(is_fixed_int("u16"));
    assert!(!is_fixed_int("i64"));
}

#[test]
fn unknown_types_are_refused() {
    assert_eq!(
        resolve_native_type(&ty("Nope"), &[], &[]),
        Err("type `Nope` is not in the native stack subset".to_string())
    );
    assert_eq!(
        resolve_native_type(&ty("array<i64>"), &[], &[]),
        Err("array length for `array<i64>` is unknown from its type".to_string())
    );
}

#[test]
fn collections_resolve_to_pointers() {
    let structs = [strukt("P", &[], &[("x", "i64"), ("s", "string")])];
    assert_eq!(
        resolve_native_type(&ty("list<f64>"), &structs, &[]),
        Ok(NativeType::List { elem: Box::new(NativeType::F64) })
    );
    assert_eq!(
        resolve_native_type(&ty("map<i64, string>"), &structs, &[]),
        Ok(NativeType::Mapping {
            key: Box::new(NativeType::I64),
            value: Box::new(NativeType::String),
        })
    );
    assert_eq!(
        resolve_native_type(&ty("list<P>"), &structs, &[]),
        Ok(NativeType::List {
            elem: Box::new(NativeType::HeapStruct {
                name: "P".to_string(),
                fields: vec![
                    ("x".to_string(), NativeType::I64),
                    ("s".to_string(), NativeType::String),
                ],
            }),
        })
    );
    assert_eq!(
        native_collection_slot(&ty("list<i64>"), &structs, 0),
        Some(NativeType::List { elem: Box::new(NativeType::I64) })
    );
    assert_eq!(native_collection_slot(&ty("list<i64>"), &structs, 1), None);
    assert_eq!(supported_list_element(&ty("list<list<i64>>")), Some(ty("list<i64>")));
    assert_eq!(supported_list_element(&ty("list<list<list<i64>>>")), None);
    assert_eq!(supported_map_kv(&ty("map<i64, f64>")), Some((ty("i64"), ty("f64"))));
    assert_eq!(supported_map_kv(&ty("map<string, i64>")), None);
}

#[test]
fn deep_collections_are_deferred() {
    assert_eq!(
        resolve_native_type(&ty("list<map<i64, i64>>"), &[], &[]),
        Err(
            "list element of `list<map<i64, i64>>` is not a native scalar, `string`, one-level struct, or one-level nested list (deeper nesting and map/array elements are deferred)"
                .to_string()
        )
    );
    assert_eq!(
        resolve_native_type(&ty("list<Unknown>"), &[], &[]),
        Err("list element of `list<Unknown>` is not layable-out (deferred)".to_string())
    );
    assert_eq!(
        resolve_native_type(&ty("map<f64, i64>"), &[], &[]),
        Err(
            "map `map<f64, i64>` key/value is not a supported native type (heap keys and float keys are deferred)"
                .to_string()
        )
    );
    assert_eq!(
        resolve_native_type(&ty("map<i64, Unknown>"), &[], &[]),
        Err("map value of `map<i64, Unknown>` is not layable-out (deferred)".to_string())
    );
}

#[test]
fn struct_fields_must_be_in_the_subset() {
    let structs = [
        strukt("Bad", &[], &[("x", "Nope")]),
        strukt("Single", &[], &[("x", "f32")]),
        strukt("Holder", &[], &[("x", "list<i64>")]),
        strukt("Double", &[], &[("x", "f64"), ("s", "string")]),
    ];
    assert_eq!(
        resolve_native_type(&ty("Bad"), &structs, &[]),
        Err("struct `Bad` field `x` is not an all-i64 native type".to_string())
    );
    assert_eq!(
        resolve_native_type(&ty("Single"), &structs, &[]),
        Err(
            "struct `Single` field `x` is an f32; f32 struct fields are not in the native subset (an f64 field is fine)"
                .to_string()
        )
    );
    assert_eq!(
        resolve_native_type(&ty("Holder"), &structs, &[]),
        Err(
            "struct `Holder` field `x` is a mutable heap value (list/map); mutable heap-value struct fields are not in the native subset (a `string` field is supported)"
                .to_string()
        )
    );
    assert_eq!(
        resolve_native_type(&ty("Double"), &structs, &[]),
        Ok(NativeType::Struct {
            name: "Double".to_string(),
            fields: vec![
                ("x".to_string(), NativeType::F64),
                ("s".to_string(), NativeType::String),
            ],
        })
    );
}

#[test]
fn generic_structs_take_their_arguments() {
    let structs = [strukt("Box2", &["T", "U"], &[("a", "T"), ("b", "U")])];
    let boxed = resolve_native_type(&ty("Box2<f64, i64>"), &structs, &[]).expect("resolves");
    assert_eq!(
        boxed,
        NativeType::Struct {
            name: "Box2".to_string(),
            fields: vec![("a".to_string(), NativeType::F64), ("b".to_string(), NativeType::I64)],
        }
    );
    assert_eq!(boxed.words(), 2);
}

#[test]
fn enums_number_their_variants_and_share_their_payload() {
    let enums = [enumeration("Shape", &[], &[("dot", &[]), ("rect", &["i64", "i64"]), ("disc", &["f64"])])];
    let shape = resolve_enum_type(&ty("Shape"), &[], &enums).expect("resolves");
    let variant = |name: &str, tag: i64, payload: Vec<NativeType>| NativeEnumVariant {
        name: name.to_string(),
        tag,
        payload,
    };
    assert_eq!(
        shape,
        NativeType::Enum {
            name: "Shape".to_string(),
            variants: vec![
                variant("dot", 0, vec![]),
                variant("rect", 1, vec![NativeType::I64, NativeType::I64]),
                variant("disc", 2, vec![NativeType::F64]),
            ],
            payload_words: 2,
        }
    );
    assert_eq!(shape.words(), 3);
    assert!(shape.is_aggregate());
    assert!(is_enum_type_name("Shape", &enums));
    assert!(is_enum_type_name("option<i64>", &[]));
    assert!(!is_enum_type_name("Shape", &[]));
    assert_eq!(
        resolve_native_type(&ty("option<string>"), &[], &[]),
        Ok(NativeType::Enum {
            name: "option".to_string(),
            variants: vec![
                variant("some", 0, vec![NativeType::String]),
                variant("none", 1, vec![]),
            ],
            payload_words: 1,
        })
    );
    assert_eq!(
        resolve_native_type(&ty("result<i64, string>"), &[], &[]),
        Ok(NativeType::Enum {
            name: "result".to_string(),
            variants: vec![
                variant("ok", 0, vec![NativeType::I64]),
                variant("err", 1, vec![NativeType::String]),
            ],
            payload_words: 1,
        })
    );
}

#[test]
fn enum_errors() {
    assert_eq!(
        resolve_enum_type(&ty("option"), &[], &[]),
        Err("native enum layout needs the concrete `option<T>` element type".to_string())
    );
    assert_eq!(
        resolve_enum_type(&ty("result<i64>"), &[], &[]),
        Err("native enum layout needs the concrete `result<T, E>` argument types".to_string())
    );
    assert_eq!(
        resolve_enum_type(&ty("Gone"), &[], &[]),
        Err("enum `Gone` is not declared".to_string())
    );
    assert_eq!(
        resolve_enum_type(&ty("option<map<i64, i64>>"), &[], &[]),
        Err(
            "enum `option` variant `some` payload type `map<i64, i64>` is not a native scalar, `string`, or one-level mutable aggregate (deeper payloads are deferred)"
                .to_string()
        )
    );
    let enums = [enumeration("Wrap", &["T"], &[("one", &["T"])])];
    assert_eq!(
        resolve_enum_type(&ty("Wrap<list<i64>>"), &[], &enums),
        Err(
            "generic enum instantiation `Wrap<list<i64>>` has a deeper-than-one-level heap payload after substitution (a mutable heap value or a nested heap-carrying aggregate); it is deferred to the interpreters"
                .to_string()
        )
    );
    assert!(resolve_enum_type(&ty("Wrap<i64>"), &[], &enums).is_ok());
}

#[test]
fn generic_types_with_a_heap_argument_are_deferred() {
    let structs = [
        strukt("Box", &["T"], &[("value", "T")]),
        strukt("Pair", &["K", "V"], &[("first", "K"), ("second", "V")]),
        strukt("Label", &[], &[("value", "string")]),
        strukt("Stack", &["T"], &[("items", "list<T>"), ("count", "i64")]),
    ];
    let enums = [
        enumeration("Either", &["L", "R"], &[("left", &["L"]), ("right", &["R"])]),
        enumeration("Word", &[], &[("word", &["string"])]),
    ];
    let of = |name: &str| resolve_native_type(&ty(name), &structs, &enums);
    assert_eq!(
        of("Box<string>"),
        Err(
            "generic struct instantiation `Box<string>` has a deeper-than-one-level heap field after substitution (a mutable heap value or a nested heap-carrying aggregate); it is deferred to the interpreters"
                .to_string()
        )
    );
    assert_eq!(
        of("Either<i64, string>"),
        Err(
            "generic enum instantiation `Either<i64, string>` has a deeper-than-one-level heap payload after substitution (a mutable heap value or a nested heap-carrying aggregate); it is deferred to the interpreters"
                .to_string()
        )
    );
    assert!(of("Pair<string, i64>").is_err());
    assert!(of("Box<Label>").is_err());
    assert!(of("Stack<i64>").is_err());
    assert!(of("Box<i64>").is_ok());
    assert!(of("Pair<i64, bool>").is_ok());
    assert!(of("Box<Pair<i64, f64>>").is_ok());
    assert!(of("Either<i64, f64>").is_ok());
    assert!(of("Label").is_ok());
    assert!(of("Word").is_ok());
    assert!(of("option<string>").is_ok());
}

#[test]
fn signature_slots_know_their_array_lengths() {
    let mut lengths = ArrayLengths::new();
    lengths.insert("p".to_string(), 3);
    lengths.insert("q".to_string(), FAT_ARRAY_LEN);
    lengths.insert(RETURN_ARRAY_KEY.to_string(), 2);
    assert_eq!(lengths.get("p"), Some(3));
    assert_eq!(lengths.get("r"), None);
    let slot = |key: &str| resolve_signature_native_type(&ty("array<u8>"), &[], &[], &lengths, key);
    assert_eq!(
        slot("p"),
        Ok(NativeType::Array {
            elem: Box::new(NativeType::Narrow { bytes: 1, signed: false }),
            len: 3,
        })
    );
    assert!(matches!(slot("q"), Ok(NativeType::FatArray { .. })));
    assert_eq!(
        slot("r"),
        Err("array length for signature slot `r` could not be inferred".to_string())
    );
    assert_eq!(
        resolve_return_native_type(&ty("array<i64>"), &[], &[], &lengths),
        Ok(NativeType::Array { elem: Box::new(NativeType::I64), len: 2 })
    );
    assert_eq!(
        resolve_signature_native_type(&ty("array<string>"), &[], &[], &lengths, "p"),
        Ok(NativeType::List { elem: Box::new(NativeType::String) })
    );
    assert!(is_heap_string_array(&ty("array<string>")));
    assert!(!is_heap_string_array(&ty("array<i64>")));
    assert_eq!(native_signature_type_is_aggregate(&ty("array<i64>"), &[], &[]), Ok(true));
    assert_eq!(native_signature_type_is_aggregate(&ty("i64"), &[], &[]), Ok(false));
    assert_eq!(native_signature_type_is_aggregate(&ty("option<i64>"), &[], &[]), Ok(true));
}

#[test]
fn spellings_come_apart_at_top_level_commas() {
    assert_eq!(
        ty("map<i64, list<f64>>").generic_args("map"),
        Some(vec![ty("i64"), ty("list<f64>")])
    );
    assert_eq!(ty("option<result<i64, string>>").option_element(), Some(ty("result<i64, string>")));
    assert_eq!(ty("result<i64, string>").result_args(), Some((ty("i64"), ty("string"))));
    assert_eq!(ty("list<i64>").list_element(), Some(ty("i64")));
    assert_eq!(ty("list<i64>").generic_args("map"), None);
    assert_eq!(ty("i64").generic_args("i64"), None);
    assert_eq!(find_open_bracket("Pair<i64>"), 4);
    assert_eq!(find_open_bracket("Pair"), 4);
    assert_eq!(
        split_user_generic(&ty("Pair<i64, f64>")),
        Some(("Pair".to_string(), vec![ty("i64"), ty("f64")]))
    );
    assert_eq!(split_user_generic(&ty("Pair")), None);
    let bindings = subst_map(&vec!["T".to_string(), "U".to_string()], &vec![ty("i64"), ty("f64")]);
    assert_eq!(substitute_type(&ty("T"), &bindings), ty("i64"));
    assert_eq!(substitute_type(&ty("list<U>"), &bindings), ty("list<f64>"));
    assert_eq!(substitute_type(&ty("V"), &bindings), ty("V"));
}

#[test]
fn initializers_give_locals_their_layouts() {
    let word = |n: i64| expr(BytecodeExprKind::Integer(n), "i64");
    let float = || expr(BytecodeExprKind::Other, "f64");
    let signatures = no_signatures();
    let of = |e: &BytecodeExpr| native_type_of_init(e, &[], &[], &signatures);
    assert_eq!(of(&word(1)), Ok(NativeType::I64));
    assert_eq!(
        of(&expr(BytecodeExprKind::Array(vec![word(1), word(2)]), "array<i64>")),
        Ok(NativeType::Array { elem: Box::new(NativeType::I64), len: 2 })
    );
    assert_eq!(
        of(&expr(BytecodeExprKind::Array(vec![]), "array<i64>")),
        Err("empty array literals are not in the native stack subset".to_string())
    );
    assert_eq!(
        of(&expr(BytecodeExprKind::Array(vec![word(1), float()]), "array<i64>")),
        Err("array literal elements have differing native layouts".to_string())
    );
    let known = Signatures {
        entries: vec![(
            "make".to_string(),
            NativeSignature {
                ret: NativeType::Array { elem: Box::new(NativeType::I64), len: 7 },
            },
        )],
    };
    let call = expr(
        BytecodeExprKind::Call { name: "make".to_string(), args: vec![] },
        "array<i64>",
    );
    assert_eq!(
        native_type_of_init(&call, &[], &[], &known),
        Ok(NativeType::Array { elem: Box::new(NativeType::I64), len: 7 })
    );
}

#[test]
fn layouts_hold_scalars_or_heap_values() {
    let pair = NativeType::Struct {
        name: "P".to_string(),
        fields: vec![("a".to_string(), NativeType::I64), ("b".to_string(), NativeType::F64)],
    };
    assert!(is_scalar_only_layout(&pair));
    assert!(!is_scalar_only_layout(&NativeType::String));
    assert!(is_native_supported_generic_layout(&pair));
    assert!(!is_native_supported_generic_layout(&NativeType::List {
        elem: Box::new(NativeType::I64),
    }));
}

#[test]
fn struct_fields_resolve_each_on_its_own() {
    let structs = [strukt("Point", &[], &[("x", "i64"), ("y", "f64")])];
    let fields = |named: &[(&str, &str)]| -> Vec<(String, TypeRef)> {
        named.iter().map(|(n, t)| (n.to_string(), ty(t))).collect()
    };
    let good = [("name", "string"), ("at", "Point"), ("n", "bool")];
    let resolved = resolve_struct_fields("Pin", &fields(&good), &structs, &[]);
    let expected: Vec<(String, NativeType)> = good
        .iter()
        .map(|(n, t)| (n.to_string(), resolve_native_type(&ty(t), &structs, &[]).unwrap()))
        .collect();
    assert_eq!(
        resolved,
        Ok(NativeType::Struct { name: "Pin".to_string(), fields: expected })
    );
    assert_eq!(
        resolve_struct_fields("Empty", &[], &structs, &[]),
        Ok(NativeType::Struct { name: "Empty".to_string(), fields: vec![] })
    );
    let why = |named: &[(&str, &str)]| {
        resolve_struct_fields("Pin", &fields(named), &structs, &[]).unwrap_err()
    };
    assert_eq!(
        why(&[("a", "i64"), ("b", "f32"), ("c", "nothing")]),
        "struct `Pin` field `b` is an f32; f32 struct fields are not in the native subset (an f64 field is fine)"
    );
    assert_eq!(
        why(&[("a", "map<i64, i64>")]),
        "struct `Pin` field `a` is a mutable heap value (list/map); mutable heap-value struct fields are not in the native subset (a `string` field is supported)"
    );
    assert_eq!(
        why(&[("a", "i64"), ("c", "nothing"), ("b", "f32")]),
        "struct `Pin` field `c` is not an all-i64 native type"
    );
}
