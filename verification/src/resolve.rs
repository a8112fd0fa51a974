//! Resolution of type spellings into native layouts.
//!
//! A type the native backend cannot lay out resolves to an error saying why, and the
//! function that uses it is left to the interpreters.

use crate::layout::{
    field_layouts, is_scalar_only_layout, optional_layout, scalar_only,
    type_layouts, variant_layouts, words_of, Layout, NativeEnumVariant, NativeType, Variant,
};
use crate::spelling::{
    begins_with, binding_views, both_args, find_open_bracket, generic_args_of, only_arg,
    open_bracket, spellings, split_user_generic, starts_with, subst_map, substitute_type,
    substituted, user_generic, zipped, TypeRef,
};
use crate::text::same_text;
use vstd::prelude::*;

verus! {

/// A struct declaration.
#[derive(Debug, PartialEq, Eq)]
pub struct IrStructDef {
    pub name: String,
    pub type_params: Vec<String>,
    pub fields: Vec<(String, TypeRef)>,
}

/// A variant of an enum declaration.
#[derive(Debug, PartialEq, Eq)]
pub struct IrEnumVariant {
    pub name: String,
    pub payload: Vec<TypeRef>,
}

/// An enum declaration.
#[derive(Debug, PartialEq, Eq)]
pub struct IrEnumDef {
    pub name: String,
    pub type_params: Vec<String>,
    pub variants: Vec<IrEnumVariant>,
}

/// A declared struct: its name, type parameters and fields.
pub struct StructDecl {
    pub name: Seq<char>,
    pub type_params: Seq<Seq<char>>,
    pub fields: Seq<(Seq<char>, Seq<char>)>,
}

/// A declared enum: its name, type parameters and variants with their payload types.
pub struct EnumDecl {
    pub name: Seq<char>,
    pub type_params: Seq<Seq<char>>,
    pub variants: Seq<(Seq<char>, Seq<Seq<char>>)>,
}

/// The texts of a list of strings.
pub open spec fn texts(strings: Seq<String>) -> Seq<Seq<char>> {
    strings.map_values(|s: String| s@)
}

impl View for IrStructDef {
    type V = StructDecl;

    open spec fn view(&self) -> StructDecl {
        StructDecl {
            name: self.name@,
            type_params: texts(self.type_params@),
            fields: binding_views(self.fields@),
        }
    }
}

impl View for IrEnumDef {
    type V = EnumDecl;

    open spec fn view(&self) -> EnumDecl {
        EnumDecl {
            name: self.name@,
            type_params: texts(self.type_params@),
            variants: self.variants@.map_values(
                |v: IrEnumVariant| (v.name@, spellings(v.payload@)),
            ),
        }
    }
}

/// The declarations of a list of structs.
pub open spec fn struct_decls(structs: Seq<IrStructDef>) -> Seq<StructDecl> {
    structs.map_values(|s: IrStructDef| s@)
}

/// The declarations of a list of enums.
pub open spec fn enum_decls(enums: Seq<IrEnumDef>) -> Seq<EnumDecl> {
    enums.map_values(|e: IrEnumDef| e@)
}

/// The first struct from `i` on called `name`.
pub open spec fn find_struct(structs: Seq<StructDecl>, name: Seq<char>, i: int) -> Option<
    StructDecl,
>
    decreases structs.len() - i,
{
    if i >= structs.len() {
        None
    } else if structs[i].name == name {
        Some(structs[i])
    } else {
        find_struct(structs, name, i + 1)
    }
}

/// The first enum from `i` on called `name`.
pub open spec fn find_enum(enums: Seq<EnumDecl>, name: Seq<char>, i: int) -> Option<EnumDecl>
    decreases enums.len() - i,
{
    if i >= enums.len() {
        None
    } else if enums[i].name == name {
        Some(enums[i])
    } else {
        find_enum(enums, name, i + 1)
    }
}

// Slots

/// Whether `name` is a fixed-width integer type other than `i64`.
pub open spec fn fixed_int(name: Seq<char>) -> bool {
    ||| name == "i8"@
    ||| name == "i16"@
    ||| name == "i32"@
    ||| name == "u8"@
    ||| name == "u16"@
    ||| name == "u32"@
    ||| name == "u64"@
    ||| name == "isize"@
    ||| name == "usize"@
}

/// The one-word layout of a scalar or string.
pub open spec fn scalar_layout(name: Seq<char>) -> Option<Layout> {
    if name == "i64"@ || fixed_int(name) || name == "bool"@ || name == "char"@ || name
        == "byte"@ {
        Some(Layout::I64)
    } else if name == "f64"@ {
        Some(Layout::F64)
    } else if name == "f32"@ {
        Some(Layout::F32)
    } else if name == "string"@ {
        Some(Layout::Text)
    } else {
        None
    }
}

/// Whether `name` is a raw pointer: `ptr<T>`, or the older spelling `ptr_T`.
pub open spec fn raw_pointer(name: Seq<char>) -> bool {
    starts_with(name, "ptr<"@) || starts_with(name, "ptr_"@)
}

/// Whether `name` is an array of strings, which lives on the heap like a list.
pub open spec fn heap_string_array(name: Seq<char>) -> bool {
    only_arg(name, "array"@) == Some("string"@)
}

/// Whether a type may stand in a list or as a map's value: no map or array, and a list
/// only of scalars or strings.
pub open spec fn element_allowed(name: Seq<char>) -> bool {
    &&& !starts_with(name, "map<"@)
    &&& !starts_with(name, "array<"@)
    &&& starts_with(name, "list<"@) ==> only_arg(name, "list"@) is Some && scalar_layout(
        only_arg(name, "list"@)->0,
    ) is Some
}

/// The element of a supported list.
pub open spec fn list_element_of(name: Seq<char>) -> Option<Seq<char>> {
    match only_arg(name, "list"@) {
        Some(element) => if element_allowed(element) {
            Some(element)
        } else {
            None
        },
        None => None,
    }
}

/// The key and value of a supported map: the key an integer cell.
pub open spec fn map_kv_of(name: Seq<char>) -> Option<(Seq<char>, Seq<char>)> {
    match both_args(name, "map"@) {
        Some((key, value)) => if scalar_layout(key) == Some(Layout::I64) && element_allowed(
            value,
        ) {
            Some((key, value))
        } else {
            None
        },
        None => None,
    }
}

/// The fields of a heap struct: scalars and strings only.
pub open spec fn heap_fields(fields: Seq<(Seq<char>, Seq<char>)>) -> Option<
    Seq<(Seq<char>, Layout)>,
> {
    if forall|i: int| 0 <= i < fields.len() ==> scalar_layout((#[trigger] fields[i]).1) is Some {
        Some(Seq::new(fields.len(), |i: int| (fields[i].0, scalar_layout(fields[i].1)->0)))
    } else {
        None
    }
}

/// The one-word layout of a collection slot at nesting `depth`: a scalar or string, and at
/// the outermost level a list of them or a heap struct of them.
pub open spec fn collection_slot(
    name: Seq<char>,
    structs: Seq<StructDecl>,
    depth: int,
) -> Option<Layout> {
    match scalar_layout(name) {
        Some(layout) => Some(layout),
        None => if depth > 0 {
            None
        } else if starts_with(name, "list<"@) {
            match only_arg(name, "list"@) {
                Some(element) => match scalar_layout(element) {
                    Some(layout) => Some(Layout::List { elem: Box::new(layout) }),
                    None => None,
                },
                None => None,
            }
        } else {
            match find_struct(structs, name, 0) {
                Some(decl) => match heap_fields(decl.fields) {
                    Some(fields) => Some(Layout::HeapStruct { name, fields }),
                    None => None,
                },
                None => None,
            }
        },
    }
}

// Enums

/// The constructor part of a spelling: what stands before its first `<`.
pub open spec fn ctor_name(name: Seq<char>) -> Seq<char> {
    name.take(open_bracket(name, 0))
}

/// Whether a spelling names an enum: `option`, `result` or a declared one.
pub open spec fn enum_type(name: Seq<char>, enums: Seq<EnumDecl>) -> bool {
    let ctor = ctor_name(name);
    ctor == "option"@ || ctor == "result"@ || find_enum(enums, ctor, 0) is Some
}

/// The variants of a generic declaration with its type parameters replaced.
pub open spec fn instantiated(
    variants: Seq<(Seq<char>, Seq<Seq<char>>)>,
    bindings: Seq<(Seq<char>, Seq<char>)>,
) -> Seq<(Seq<char>, Seq<Seq<char>>)> {
    variants.map_values(
        |v: (Seq<char>, Seq<Seq<char>>)|
            (v.0, v.1.map_values(|p: Seq<char>| substituted(p, bindings))),
    )
}

/// The variants of an enum type with their payload types.
pub open spec fn enum_variants(name: Seq<char>, enums: Seq<EnumDecl>) -> Result<
    Seq<(Seq<char>, Seq<Seq<char>>)>,
    Seq<char>,
> {
    let ctor = ctor_name(name);
    if ctor == "option"@ {
        match only_arg(name, "option"@) {
            Some(element) => Ok(seq![("some"@, seq![element]), ("none"@, seq![])]),
            None => Err("native enum layout needs the concrete `option<T>` element type"@),
        }
    } else if ctor == "result"@ {
        match both_args(name, "result"@) {
            Some((ok, err)) => Ok(seq![("ok"@, seq![ok]), ("err"@, seq![err])]),
            None => Err("native enum layout needs the concrete `result<T, E>` argument types"@),
        }
    } else {
        match find_enum(enums, ctor, 0) {
            None => Err("enum `"@ + ctor + "` is not declared"@),
            Some(decl) => if decl.type_params.len() == 0 {
                Ok(decl.variants)
            } else {
                let args = match generic_args_of(name, ctor) {
                    Some(args) => args,
                    None => seq![],
                };
                Ok(instantiated(decl.variants, zipped(decl.type_params, args)))
            },
        }
    }
}

/// Whether an enum type is an instantiation of a declared generic enum.
pub open spec fn generic_enum(name: Seq<char>, enums: Seq<EnumDecl>) -> bool {
    let ctor = ctor_name(name);
    &&& ctor != "option"@
    &&& ctor != "result"@
    &&& find_enum(enums, ctor, 0) matches Some(decl)
    &&& decl.type_params.len() > 0
}

/// Why a payload type is refused.
pub open spec fn payload_error(
    ctor: Seq<char>,
    variant: Seq<char>,
    payload: Seq<char>,
) -> Seq<char> {
    "enum `"@ + ctor + "` variant `"@ + variant + "` payload type `"@ + payload
        + "` is not a native scalar, `string`, or one-level mutable aggregate (deeper payloads are deferred)"@
}

/// The layouts of the first `n` payload types, or why the first bad one is refused.
pub open spec fn payload_layouts(
    ctor: Seq<char>,
    variant: Seq<char>,
    payload: Seq<Seq<char>>,
    structs: Seq<StructDecl>,
    n: int,
) -> Result<Seq<Layout>, Seq<char>>
    decreases n,
{
    if n <= 0 {
        Ok(seq![])
    } else {
        match payload_layouts(ctor, variant, payload, structs, n - 1) {
            Err(why) => Err(why),
            Ok(before) => match collection_slot(payload[n - 1], structs, 0) {
                Some(layout) => Ok(before.push(layout)),
                None => Err(payload_error(ctor, variant, payload[n - 1])),
            },
        }
    }
}

/// The layouts of the first `n` variants: a variant's tag is its index.
pub open spec fn variants_resolved(
    ctor: Seq<char>,
    variants: Seq<(Seq<char>, Seq<Seq<char>>)>,
    structs: Seq<StructDecl>,
    n: int,
) -> Result<Seq<Variant>, Seq<char>>
    decreases n,
{
    if n <= 0 {
        Ok(seq![])
    } else {
        match variants_resolved(ctor, variants, structs, n - 1) {
            Err(why) => Err(why),
            Ok(before) => {
                let (name, payload) = variants[n - 1];
                match payload_layouts(ctor, name, payload, structs, payload.len() as int) {
                    Err(why) => Err(why),
                    Ok(layouts) => Ok(
                        before.push(
                            Variant { name, tag: ((n - 1) as i64) as int, payload: layouts },
                        ),
                    ),
                }
            },
        }
    }
}

/// How many words the first `n` payload slots occupy.
pub open spec fn payload_span(payload: Seq<Layout>, n: int) -> int
    decreases n,
{
    if n <= 0 {
        0
    } else {
        payload_span(payload, n - 1) + words_of(payload[n - 1])
    }
}

/// The widest payload among the first `n` variants.
pub open spec fn widest(variants: Seq<Variant>, n: int) -> int
    decreases n,
{
    if n <= 0 {
        0
    } else {
        let before = widest(variants, n - 1);
        let this = payload_span(variants[n - 1].payload, variants[n - 1].payload.len() as int);
        if before >= this {
            before
        } else {
            this
        }
    }
}

/// The layout of an enum type, or why it has none.
pub open spec fn enum_layout(
    name: Seq<char>,
    structs: Seq<StructDecl>,
    enums: Seq<EnumDecl>,
) -> Result<Layout, Seq<char>> {
    let ctor = ctor_name(name);
    match enum_variants(name, enums) {
        Err(why) => Err(why),
        Ok(variants) => match variants_resolved(ctor, variants, structs, variants.len() as int) {
            Err(why) => Err(why),
            Ok(resolved) => {
                let layout = Layout::Enum {
                    name: ctor,
                    variants: resolved,
                    payload_words: widest(resolved, resolved.len() as int),
                };
                if generic_enum(name, enums) && !scalar_only(layout) {
                    Err(
                        "generic enum instantiation `"@ + name
                            + "` has a deeper-than-one-level heap payload after substitution (a mutable heap value or a nested heap-carrying aggregate); it is deferred to the interpreters"@,
                    )
                } else {
                    Ok(layout)
                }
            },
        },
    }
}

// Types

/// The layout of a type that is no struct; nothing where it may be one.
pub open spec fn plain_layout(
    name: Seq<char>,
    structs: Seq<StructDecl>,
    enums: Seq<EnumDecl>,
) -> Option<Result<Layout, Seq<char>>> {
    if scalar_layout(name) is Some {
        Some(Ok(scalar_layout(name)->0))
    } else if raw_pointer(name) {
        Some(Ok(Layout::I64))
    } else if heap_string_array(name) {
        Some(Ok(Layout::List { elem: Box::new(Layout::Text) }))
    } else if starts_with(name, "array<"@) {
        Some(Err("array length for `"@ + name + "` is unknown from its type"@))
    } else if starts_with(name, "list<"@) {
        Some(list_layout(name, structs))
    } else if starts_with(name, "map<"@) {
        Some(map_layout(name, structs))
    } else if enum_type(name, enums) {
        Some(enum_layout(name, structs, enums))
    } else {
        None
    }
}

/// The layout of a list type.
pub open spec fn list_layout(name: Seq<char>, structs: Seq<StructDecl>) -> Result<
    Layout,
    Seq<char>,
> {
    match list_element_of(name) {
        None => Err(
            "list element of `"@ + name
                + "` is not a native scalar, `string`, one-level struct, or one-level nested list (deeper nesting and map/array elements are deferred)"@,
        ),
        Some(element) => match collection_slot(element, structs, 0) {
            None => Err("list element of `"@ + name + "` is not layable-out (deferred)"@),
            Some(layout) => Ok(Layout::List { elem: Box::new(layout) }),
        },
    }
}

/// The layout of a map type.
pub open spec fn map_layout(name: Seq<char>, structs: Seq<StructDecl>) -> Result<
    Layout,
    Seq<char>,
> {
    match map_kv_of(name) {
        None => Err(
            "map `"@ + name
                + "` key/value is not a supported native type (heap keys and float keys are deferred)"@,
        ),
        Some((_, value)) => match collection_slot(value, structs, 0) {
            None => Err("map value of `"@ + name + "` is not layable-out (deferred)"@),
            Some(layout) => Ok(
                Layout::Mapping { key: Box::new(Layout::I64), value: Box::new(layout) },
            ),
        },
    }
}

/// A struct type: its base name, its fields with their types, and whether it is an
/// instantiation of a generic declaration.
pub open spec fn struct_shape(name: Seq<char>, structs: Seq<StructDecl>) -> Option<
    (Seq<char>, Seq<(Seq<char>, Seq<char>)>, bool),
> {
    match find_struct(structs, name, 0) {
        Some(decl) => Some((name, decl.fields, false)),
        None => match user_generic(name) {
            None => None,
            Some((head, args)) => match find_struct(structs, head, 0) {
                None => None,
                Some(decl) => if decl.type_params.len() == 0 {
                    None
                } else {
                    let bindings = zipped(decl.type_params, args);
                    Some(
                        (
                            head,
                            decl.fields.map_values(
                                |f: (Seq<char>, Seq<char>)| (f.0, substituted(f.1, bindings)),
                            ),
                            true,
                        ),
                    )
                },
            },
        },
    }
}

/// A resolved field type as a struct field, or why it cannot be one.
pub open spec fn field_checked(
    head: Seq<char>,
    field: Seq<char>,
    resolved: Result<Layout, Seq<char>>,
) -> Result<Layout, Seq<char>> {
    let subject = "struct `"@ + head + "` field `"@ + field;
    match resolved {
        Err(_) => Err(subject + "` is not an all-i64 native type"@),
        Ok(layout) => if layout is F32 {
            Err(
                subject
                    + "` is an f32; f32 struct fields are not in the native subset (an f64 field is fine)"@,
            )
        } else if layout is List || layout is Mapping {
            Err(
                subject
                    + "` is a mutable heap value (list/map); mutable heap-value struct fields are not in the native subset (a `string` field is supported)"@,
            )
        } else {
            Ok(layout)
        },
    }
}

/// The layouts of the first `k` fields of struct `head`, or why the first bad one is
/// refused; nothing when structs nest more than `depth` deep in them.
pub open spec fn fields_resolved(
    head: Seq<char>,
    fields: Seq<(Seq<char>, Seq<char>)>,
    k: int,
    structs: Seq<StructDecl>,
    enums: Seq<EnumDecl>,
    depth: nat,
) -> Option<Result<Seq<(Seq<char>, Layout)>, Seq<char>>>
    decreases depth, k,
{
    if k <= 0 {
        Some(Ok(seq![]))
    } else {
        match fields_resolved(head, fields, k - 1, structs, enums, depth) {
            None => None,
            Some(Err(why)) => Some(Err(why)),
            Some(Ok(before)) => match resolved(fields[k - 1].1, structs, enums, depth) {
                None => None,
                Some(result) => match field_checked(head, fields[k - 1].0, result) {
                    Err(why) => Some(Err(why)),
                    Ok(layout) => Some(Ok(before.push((fields[k - 1].0, layout)))),
                },
            },
        }
    }
}

/// The layout of a type or why it has none; nothing when structs nest more than `depth`
/// deep in it.
pub open spec fn resolved(
    name: Seq<char>,
    structs: Seq<StructDecl>,
    enums: Seq<EnumDecl>,
    depth: nat,
) -> Option<Result<Layout, Seq<char>>>
    decreases depth, 0int,
{
    match plain_layout(name, structs, enums) {
        Some(result) => Some(result),
        None => match struct_shape(name, structs) {
            None => Some(Err("type `"@ + name + "` is not in the native stack subset"@)),
            Some((head, fields, generic)) => if depth == 0 {
                None
            } else {
                match fields_resolved(
                    head,
                    fields,
                    fields.len() as int,
                    structs,
                    enums,
                    (depth - 1) as nat,
                ) {
                    None => None,
                    Some(Err(why)) => Some(Err(why)),
                    Some(Ok(layouts)) => {
                        let layout = Layout::Struct { name: head, fields: layouts };
                        if generic && !scalar_only(layout) {
                            Some(Err(generic_struct_error(name)))
                        } else {
                            Some(Ok(layout))
                        }
                    },
                }
            },
        },
    }
}

/// Whether a struct type is an instantiation of a declared generic struct.
pub open spec fn generic_struct(name: Seq<char>, structs: Seq<StructDecl>) -> bool {
    match struct_shape(name, structs) {
        Some((_, _, generic)) => generic,
        None => false,
    }
}

/// Why a generic struct instantiation is deferred.
pub open spec fn generic_struct_error(name: Seq<char>) -> Seq<char> {
    "generic struct instantiation `"@ + name
        + "` has a deeper-than-one-level heap field after substitution (a mutable heap value or a nested heap-carrying aggregate); it is deferred to the interpreters"@
}

/// Whether structs nest only finitely deep in a type. A struct that contains itself
/// expands for ever and has no layout.
pub open spec fn expands(
    name: Seq<char>,
    structs: Seq<StructDecl>,
    enums: Seq<EnumDecl>,
) -> bool {
    exists|depth: nat| (#[trigger] resolved(name, structs, enums, depth)) is Some
}

/// The layout of a type that expands, or why it has none.
pub open spec fn layout_of(
    name: Seq<char>,
    structs: Seq<StructDecl>,
    enums: Seq<EnumDecl>,
) -> Result<Layout, Seq<char>> {
    let depth = choose|depth: nat| (#[trigger] resolved(name, structs, enums, depth)) is Some;
    resolved(name, structs, enums, depth)->0
}

/// Whether structs nest only finitely deep in the fields of a struct, up to the first that
/// is refused.
pub open spec fn fields_expand(
    head: Seq<char>,
    fields: Seq<(Seq<char>, Seq<char>)>,
    structs: Seq<StructDecl>,
    enums: Seq<EnumDecl>,
) -> bool {
    exists|depth: nat|
        (#[trigger] fields_resolved(head, fields, fields.len() as int, structs, enums, depth))
            is Some
}

/// The layouts of the first `k` fields of struct `head`, or why the first bad one is
/// refused.
pub open spec fn fields_of(
    head: Seq<char>,
    fields: Seq<(Seq<char>, Seq<char>)>,
    k: int,
    structs: Seq<StructDecl>,
    enums: Seq<EnumDecl>,
) -> Result<Seq<(Seq<char>, Layout)>, Seq<char>>
    decreases k,
{
    if k <= 0 {
        Ok(seq![])
    } else {
        match fields_of(head, fields, k - 1, structs, enums) {
            Err(why) => Err(why),
            Ok(before) => match field_checked(
                head,
                fields[k - 1].0,
                layout_of(fields[k - 1].1, structs, enums),
            ) {
                Err(why) => Err(why),
                Ok(layout) => Ok(before.push((fields[k - 1].0, layout))),
            },
        }
    }
}

/// The layout of a struct with these fields, or why it has none.
pub open spec fn struct_of(
    head: Seq<char>,
    fields: Seq<(Seq<char>, Seq<char>)>,
    structs: Seq<StructDecl>,
    enums: Seq<EnumDecl>,
) -> Result<Layout, Seq<char>> {
    match fields_of(head, fields, fields.len() as int, structs, enums) {
        Ok(layouts) => Ok(Layout::Struct { name: head, fields: layouts }),
        Err(why) => Err(why),
    }
}

/// Whether a type's layout may stand in a struct.
pub open spec fn fits_in_struct(resolved: Result<Layout, Seq<char>>) -> bool {
    match resolved {
        Ok(layout) => !(layout is F32) && !(layout is List) && !(layout is Mapping),
        Err(_) => false,
    }
}

// Laws

/// Resolving a struct's fields succeeds exactly when every field type has a layout other than
/// an `f32`, a list or a map. The struct then has the fields in order, under their names and
/// with their own layouts; else the first field without such a layout says why.
pub proof fn law_struct_fields_resolve(
    head: Seq<char>,
    fields: Seq<(Seq<char>, Seq<char>)>,
    structs: Seq<StructDecl>,
    enums: Seq<EnumDecl>,
)
    ensures
        struct_of(head, fields, structs, enums) is Ok <==> forall|i: int|
            0 <= i < fields.len() ==> fits_in_struct(
                layout_of((#[trigger] fields[i]).1, structs, enums),
            ),
        match struct_of(head, fields, structs, enums) {
            Ok(layout) => layout == (Layout::Struct {
                name: head,
                fields: Seq::new(
                    fields.len(),
                    |i: int| (fields[i].0, layout_of(fields[i].1, structs, enums)->Ok_0),
                ),
            }),
            Err(why) => exists|i: int|
                {
                    &&& 0 <= i < fields.len()
                    &&& field_checked(
                        head,
                        (#[trigger] fields[i]).0,
                        layout_of(fields[i].1, structs, enums),
                    ) == Err::<Layout, _>(why)
                    &&& forall|j: int|
                        0 <= j < i ==> fits_in_struct(
                            layout_of((#[trigger] fields[j]).1, structs, enums),
                        )
                },
        },
{
    lemma_fields_of(head, fields, fields.len() as int, structs, enums);
    if let Ok(layouts) = fields_of(head, fields, fields.len() as int, structs, enums) {
        assert(layouts =~= Seq::new(
            fields.len(),
            |i: int| (fields[i].0, layout_of(fields[i].1, structs, enums)->Ok_0),
        ));
    }
}

proof fn lemma_fields_of(
    head: Seq<char>,
    fields: Seq<(Seq<char>, Seq<char>)>,
    k: int,
    structs: Seq<StructDecl>,
    enums: Seq<EnumDecl>,
)
    requires
        0 <= k <= fields.len(),
    ensures
        match fields_of(head, fields, k, structs, enums) {
            Ok(layouts) => {
                &&& layouts.len() == k
                &&& forall|i: int|
                    0 <= i < k ==> fits_in_struct(
                        layout_of((#[trigger] fields[i]).1, structs, enums),
                    )
                &&& forall|i: int|
                    0 <= i < k ==> #[trigger] layouts[i] == (
                        fields[i].0,
                        layout_of(fields[i].1, structs, enums)->Ok_0,
                    )
            },
            Err(why) => exists|i: int|
                {
                    &&& 0 <= i < k
                    &&& !fits_in_struct(layout_of(fields[i].1, structs, enums))
                    &&& field_checked(
                        head,
                        (#[trigger] fields[i]).0,
                        layout_of(fields[i].1, structs, enums),
                    ) == Err::<Layout, _>(why)
                    &&& forall|j: int|
                        0 <= j < i ==> fits_in_struct(
                            layout_of((#[trigger] fields[j]).1, structs, enums),
                        )
                },
        },
    decreases k,
{
    if k > 0 {
        lemma_fields_of(head, fields, k - 1, structs, enums);
        let last = fields[k - 1];
        assert(fits_in_struct(layout_of(last.1, structs, enums)) == field_checked(
            head,
            last.0,
            layout_of(last.1, structs, enums),
        ) is Ok);
    }
}

/// What a depth finds of the fields, it finds for good.
proof fn lemma_fields_agree(
    head: Seq<char>,
    fields: Seq<(Seq<char>, Seq<char>)>,
    k: int,
    structs: Seq<StructDecl>,
    enums: Seq<EnumDecl>,
    depth: nat,
)
    requires
        fields_resolved(head, fields, k, structs, enums, depth) is Some,
    ensures
        fields_resolved(head, fields, k, structs, enums, depth) == Some(
            fields_of(head, fields, k, structs, enums),
        ),
    decreases k,
{
    if k > 0 {
        lemma_fields_agree(head, fields, k - 1, structs, enums, depth);
        if fields_of(head, fields, k - 1, structs, enums) is Ok {
            law_layout_is_unique(fields[k - 1].1, structs, enums, depth);
        }
    }
}

/// Where every field type expands, the fields do.
pub proof fn law_expanding_fields_expand(
    head: Seq<char>,
    fields: Seq<(Seq<char>, Seq<char>)>,
    structs: Seq<StructDecl>,
    enums: Seq<EnumDecl>,
)
    requires
        forall|i: int| 0 <= i < fields.len() ==> expands((#[trigger] fields[i]).1, structs, enums),
    ensures
        fields_expand(head, fields, structs, enums),
{
    let depth = lemma_common_depth(head, fields, fields.len() as int, structs, enums);
    assert(fields_resolved(head, fields, fields.len() as int, structs, enums, depth) is Some);
}

/// The layout of a struct type is that of its fields; a generic one must besides be made of
/// scalars alone.
pub proof fn law_struct_types_resolve_by_their_fields(
    name: Seq<char>,
    structs: Seq<StructDecl>,
    enums: Seq<EnumDecl>,
)
    requires
        expands(name, structs, enums),
        plain_layout(name, structs, enums) is None,
        struct_shape(name, structs) is Some,
    ensures
        ({
            let (head, fields, generic) = struct_shape(name, structs)->0;
            layout_of(name, structs, enums) == match struct_of(head, fields, structs, enums) {
                Ok(layout) => if generic && !scalar_only(layout) {
                    Err(generic_struct_error(name))
                } else {
                    Ok(layout)
                },
                Err(why) => Err(why),
            }
        }),
{
    let (head, fields, generic) = struct_shape(name, structs)->0;
    let depth = choose|depth: nat| (#[trigger] resolved(name, structs, enums, depth)) is Some;
    lemma_fields_agree(
        head,
        fields,
        fields.len() as int,
        structs,
        enums,
        (depth - 1) as nat,
    );
}

/// An instantiation of a generic enum or struct has a layout only where that is made of
/// scalars alone: one that takes a heap value as its argument is deferred.
pub proof fn law_generic_types_are_scalar(
    name: Seq<char>,
    structs: Seq<StructDecl>,
    enums: Seq<EnumDecl>,
)
    ensures
        generic_enum(name, enums) ==> match enum_layout(name, structs, enums) {
            Ok(layout) => scalar_only(layout),
            Err(_) => true,
        },
        expands(name, structs, enums) && plain_layout(name, structs, enums) is None
            && generic_struct(name, structs) ==> match layout_of(name, structs, enums) {
            Ok(layout) => scalar_only(layout),
            Err(_) => true,
        },
{
    if expands(name, structs, enums) && plain_layout(name, structs, enums) is None
        && generic_struct(name, structs) {
        law_struct_types_resolve_by_their_fields(name, structs, enums);
    }
}

/// More depth changes nothing once a type is resolved.
proof fn lemma_resolved_stable(
    name: Seq<char>,
    structs: Seq<StructDecl>,
    enums: Seq<EnumDecl>,
    depth: nat,
    more: nat,
)
    requires
        depth <= more,
        resolved(name, structs, enums, depth) is Some,
    ensures
        resolved(name, structs, enums, more) == resolved(name, structs, enums, depth),
    decreases depth, 0int,
{
    if plain_layout(name, structs, enums) is None {
        if let Some((head, fields, _)) = struct_shape(name, structs) {
            lemma_fields_stable(
                head,
                fields,
                fields.len() as int,
                structs,
                enums,
                (depth - 1) as nat,
                (more - 1) as nat,
            );
        }
    }
}

proof fn lemma_fields_stable(
    head: Seq<char>,
    fields: Seq<(Seq<char>, Seq<char>)>,
    k: int,
    structs: Seq<StructDecl>,
    enums: Seq<EnumDecl>,
    depth: nat,
    more: nat,
)
    requires
        depth <= more,
        fields_resolved(head, fields, k, structs, enums, depth) is Some,
    ensures
        fields_resolved(head, fields, k, structs, enums, more) == fields_resolved(
            head,
            fields,
            k,
            structs,
            enums,
            depth,
        ),
    decreases depth, k,
{
    if k > 0 {
        lemma_fields_stable(head, fields, k - 1, structs, enums, depth, more);
        if fields_resolved(head, fields, k - 1, structs, enums, depth)->0 is Ok {
            lemma_resolved_stable(fields[k - 1].1, structs, enums, depth, more);
        }
    }
}

/// The layout of a type does not depend on how deep one looks, once one looks deep
/// enough.
pub proof fn law_layout_is_unique(
    name: Seq<char>,
    structs: Seq<StructDecl>,
    enums: Seq<EnumDecl>,
    depth: nat,
)
    requires
        resolved(name, structs, enums, depth) is Some,
    ensures
        expands(name, structs, enums),
        layout_of(name, structs, enums) == resolved(name, structs, enums, depth)->0,
{
    let other = choose|other: nat| (#[trigger] resolved(name, structs, enums, other)) is Some;
    if other <= depth {
        lemma_resolved_stable(name, structs, enums, other, depth);
    } else {
        lemma_resolved_stable(name, structs, enums, depth, other);
    }
}

/// A type that is no struct expands, and its layout stands in the declarations at once.
pub proof fn law_plain_types_expand(
    name: Seq<char>,
    structs: Seq<StructDecl>,
    enums: Seq<EnumDecl>,
)
    requires
        plain_layout(name, structs, enums) is Some || struct_shape(name, structs) is None,
    ensures
        expands(name, structs, enums),
        layout_of(name, structs, enums) == match plain_layout(name, structs, enums) {
            Some(result) => result,
            None => Err("type `"@ + name + "` is not in the native stack subset"@),
        },
{
    law_layout_is_unique(name, structs, enums, 0);
}

/// A struct whose field types expand expands.
pub proof fn law_structs_of_expanding_fields_expand(
    name: Seq<char>,
    structs: Seq<StructDecl>,
    enums: Seq<EnumDecl>,
)
    requires
        plain_layout(name, structs, enums) is None,
        struct_shape(name, structs) matches Some((_, fields, _)) && forall|i: int|
            0 <= i < fields.len() ==> expands((#[trigger] fields[i]).1, structs, enums),
    ensures
        expands(name, structs, enums),
{
    let (head, fields, _) = struct_shape(name, structs)->0;
    let depth = lemma_common_depth(head, fields, fields.len() as int, structs, enums);
    assert(resolved(name, structs, enums, depth + 1) is Some);
}

proof fn lemma_common_depth(
    head: Seq<char>,
    fields: Seq<(Seq<char>, Seq<char>)>,
    k: int,
    structs: Seq<StructDecl>,
    enums: Seq<EnumDecl>,
) -> (depth: nat)
    requires
        k <= fields.len(),
        forall|i: int| 0 <= i < k ==> expands((#[trigger] fields[i]).1, structs, enums),
    ensures
        fields_resolved(head, fields, k, structs, enums, depth) is Some,
    decreases k,
{
    if k <= 0 {
        0
    } else {
        let before = lemma_common_depth(head, fields, k - 1, structs, enums);
        let last = fields[k - 1].1;
        assert(expands(last, structs, enums));
        let own = choose|depth: nat| (#[trigger] resolved(last, structs, enums, depth)) is Some;
        let depth = if before <= own {
            own
        } else {
            before
        };
        lemma_fields_stable(head, fields, k - 1, structs, enums, before, depth);
        lemma_resolved_stable(last, structs, enums, own, depth);
        depth
    }
}

/// Whether a layout holds neither an absent value nor a packed element, at any depth.
pub open spec fn solid(l: Layout) -> bool
    decreases l,
{
    match l {
        Layout::Void | Layout::Narrow { .. } => false,
        Layout::Struct { fields, .. } => forall|i: int|
            0 <= i < fields.len() ==> solid((#[trigger] fields[i]).1),
        Layout::HeapStruct { fields, .. } => forall|i: int|
            0 <= i < fields.len() ==> solid((#[trigger] fields[i]).1),
        Layout::Array { elem, .. } => solid(*elem),
        Layout::FatArray { elem } => solid(*elem),
        Layout::List { elem } => solid(*elem),
        Layout::Mapping { key, value } => solid(*key) && solid(*value),
        Layout::Enum { variants, .. } => forall|i: int, k: int|
            0 <= i < variants.len() && 0 <= k < variants[i].payload.len() ==> solid(
                #[trigger] variants[i].payload[k],
            ),
        _ => true,
    }
}

proof fn lemma_slot_solid(name: Seq<char>, structs: Seq<StructDecl>, depth: int)
    ensures
        collection_slot(name, structs, depth) matches Some(l) ==> {
            &&& solid(l)
            &&& words_of(l) == 1
            &&& !crate::layout::aggregate(l)
        },
{
    if let Some(l) = collection_slot(name, structs, depth) {
        match l {
            Layout::List { elem } => {
                assert(solid(*elem));
            },
            Layout::HeapStruct { fields, .. } => {
                assert forall|i: int| 0 <= i < fields.len() implies solid(
                    (#[trigger] fields[i]).1,
                ) by {
                    let decl = find_struct(structs, name, 0)->0;
                    assert(scalar_layout(decl.fields[i].1) is Some);
                }
            },
            _ => {},
        }
    }
}

proof fn lemma_payload_solid(
    ctor: Seq<char>,
    variant: Seq<char>,
    payload: Seq<Seq<char>>,
    structs: Seq<StructDecl>,
    n: int,
)
    requires
        0 <= n <= payload.len(),
    ensures
        payload_layouts(ctor, variant, payload, structs, n) matches Ok(layouts) ==> {
            &&& layouts.len() == n
            &&& forall|i: int| 0 <= i < n ==> solid(#[trigger] layouts[i])
            &&& forall|i: int| 0 <= i < n ==> words_of(#[trigger] layouts[i]) == 1
        },
    decreases n,
{
    if n > 0 {
        lemma_payload_solid(ctor, variant, payload, structs, n - 1);
        lemma_slot_solid(payload[n - 1], structs, 0);
    }
}

/// A payload slot of a resolved enum is one word, so a payload is as wide as it has
/// slots.
proof fn lemma_payload_span(payload: Seq<Layout>, n: int)
    requires
        0 <= n <= payload.len(),
        forall|i: int| 0 <= i < payload.len() ==> words_of(#[trigger] payload[i]) == 1,
    ensures
        payload_span(payload, n) == n,
    decreases n,
{
    if n > 0 {
        lemma_payload_span(payload, n - 1);
    }
}

proof fn lemma_variants_solid(
    ctor: Seq<char>,
    variants: Seq<(Seq<char>, Seq<Seq<char>>)>,
    structs: Seq<StructDecl>,
    n: int,
)
    requires
        0 <= n <= variants.len(),
    ensures
        variants_resolved(ctor, variants, structs, n) matches Ok(all) ==> {
            &&& all.len() == n
            &&& forall|i: int|
                0 <= i < n ==> {
                    &&& (#[trigger] all[i]).name == variants[i].0
                    &&& all[i].tag == (i as i64) as int
                    &&& all[i].payload.len() == variants[i].1.len()
                }
            &&& forall|i: int, k: int|
                0 <= i < n && 0 <= k < all[i].payload.len() ==> solid(
                    #[trigger] all[i].payload[k],
                )
            &&& forall|i: int, k: int|
                0 <= i < n && 0 <= k < all[i].payload.len() ==> words_of(
                    #[trigger] all[i].payload[k],
                ) == 1
        },
    decreases n,
{
    if n > 0 {
        lemma_variants_solid(ctor, variants, structs, n - 1);
        let (name, payload) = variants[n - 1];
        lemma_payload_solid(ctor, name, payload, structs, payload.len() as int);
    }
}

proof fn lemma_widest(variants: Seq<Variant>, n: int)
    requires
        0 <= n <= variants.len(),
    ensures
        widest(variants, n) >= 0,
        forall|i: int|
            0 <= i < n ==> payload_span(
                (#[trigger] variants[i]).payload,
                variants[i].payload.len() as int,
            ) <= widest(variants, n),
        widest(variants, n) == 0 || exists|i: int|
            0 <= i < n && payload_span(
                (#[trigger] variants[i]).payload,
                variants[i].payload.len() as int,
            ) == widest(variants, n),
    decreases n,
{
    if n > 0 {
        lemma_widest(variants, n - 1);
        let last = variants[n - 1];
        assert(payload_span(last.payload, last.payload.len() as int) <= widest(variants, n));
        if widest(variants, n) != widest(variants, n - 1) {
            assert(payload_span(variants[n - 1].payload, variants[n - 1].payload.len() as int)
                == widest(variants, n));
        }
    }
}

/// In a resolved enum, a variant's tag is its index in declaration order, every payload
/// slot is one word, and the payload region is exactly as wide as the widest payload.
pub proof fn law_enum_layout(
    name: Seq<char>,
    structs: Seq<StructDecl>,
    enums: Seq<EnumDecl>,
)
    requires
        enum_layout(name, structs, enums) is Ok,
        enum_variants(name, enums)->Ok_0.len() <= i64::MAX,
    ensures
        ({
            let declared = enum_variants(name, enums)->Ok_0;
            let layout = enum_layout(name, structs, enums)->Ok_0;
            &&& layout matches Layout::Enum { name: ctor, variants, payload_words }
            &&& ctor == ctor_name(name)
            &&& variants.len() == declared.len()
            &&& forall|i: int|
                0 <= i < variants.len() ==> {
                    &&& (#[trigger] variants[i]).name == declared[i].0
                    &&& variants[i].tag == i
                    &&& variants[i].payload.len() == declared[i].1.len() <= payload_words
                }
            &&& payload_words == 0 || exists|i: int|
                0 <= i < variants.len() && (#[trigger] variants[i]).payload.len() == payload_words
        }),
{
    let ctor = ctor_name(name);
    let declared = enum_variants(name, enums)->Ok_0;
    let all = variants_resolved(ctor, declared, structs, declared.len() as int)->Ok_0;
    lemma_variants_solid(ctor, declared, structs, declared.len() as int);
    lemma_widest(all, all.len() as int);
    assert forall|i: int| 0 <= i < all.len() implies payload_span(
        (#[trigger] all[i]).payload,
        all[i].payload.len() as int,
    ) == all[i].payload.len() by {
        lemma_payload_span(all[i].payload, all[i].payload.len() as int);
    }
}

/// No type resolves to the absent value or to a packed element, nor to a layout that
/// holds one: the first comes in return position alone, the second as an array element
/// alone.
pub proof fn law_resolved_layouts_are_solid(
    name: Seq<char>,
    structs: Seq<StructDecl>,
    enums: Seq<EnumDecl>,
    depth: nat,
)
    ensures
        resolved(name, structs, enums, depth) matches Some(Ok(layout)) ==> solid(layout),
    decreases depth, 0int,
{
    match plain_layout(name, structs, enums) {
        Some(Ok(layout)) => {
            if scalar_layout(name) is Some || raw_pointer(name) {
            } else if heap_string_array(name) {
                assert(solid(Layout::Text));
            } else if starts_with(name, "list<"@) {
                lemma_slot_solid(list_element_of(name)->0, structs, 0);
            } else if starts_with(name, "map<"@) {
                lemma_slot_solid((map_kv_of(name)->0).1, structs, 0);
                assert(solid(Layout::I64));
            } else {
                let ctor = ctor_name(name);
                let declared = enum_variants(name, enums)->Ok_0;
                lemma_variants_solid(ctor, declared, structs, declared.len() as int);
            }
        },
        Some(Err(_)) => {},
        None => {
            if let Some((head, fields, _)) = struct_shape(name, structs) {
                if depth > 0 {
                    lemma_fields_solid(
                        head,
                        fields,
                        fields.len() as int,
                        structs,
                        enums,
                        (depth - 1) as nat,
                    );
                }
            }
        },
    }
}

proof fn lemma_fields_solid(
    head: Seq<char>,
    fields: Seq<(Seq<char>, Seq<char>)>,
    k: int,
    structs: Seq<StructDecl>,
    enums: Seq<EnumDecl>,
    depth: nat,
)
    ensures
        fields_resolved(head, fields, k, structs, enums, depth) matches Some(Ok(layouts))
            ==> forall|i: int| 0 <= i < layouts.len() ==> solid((#[trigger] layouts[i]).1),
    decreases depth, k,
{
    if k > 0 {
        lemma_fields_solid(head, fields, k - 1, structs, enums, depth);
        law_resolved_layouts_are_solid(fields[k - 1].1, structs, enums, depth);
    }
}

// Resolving

/// `before`, then `name`, then `after`.
pub(crate) fn message(before: &str, name: &str, after: &str) -> (text: String)
    ensures
        text@ == before@ + name@ + after@,
{
    before.to_owned().concat(name).concat(after)
}

/// The layout a result stands for.
pub open spec fn result_layout(result: Result<NativeType, String>) -> Result<Layout, Seq<char>> {
    match result {
        Ok(ty) => Ok(ty@),
        Err(why) => Err(why@),
    }
}

/// Whether `name` is a fixed-width integer type other than `i64`.
pub fn is_fixed_int(name: &str) -> (is: bool)
    ensures
        is == fixed_int(name@),
{
    same_text(name, "i8") || same_text(name, "i16") || same_text(name, "i32") || same_text(
        name,
        "u8",
    ) || same_text(name, "u16") || same_text(name, "u32") || same_text(name, "u64")
        || same_text(name, "isize") || same_text(name, "usize")
}

/// The one-word layout of a scalar or string.
pub fn scalar_type(name: &str) -> (ty: Option<NativeType>)
    ensures
        optional_layout(ty) == scalar_layout(name@),
{
    if same_text(name, "i64") || is_fixed_int(name) || same_text(name, "bool") || same_text(
        name,
        "char",
    ) || same_text(name, "byte") {
        Some(NativeType::I64)
    } else if same_text(name, "f64") {
        Some(NativeType::F64)
    } else if same_text(name, "f32") {
        Some(NativeType::F32)
    } else if same_text(name, "string") {
        Some(NativeType::String)
    } else {
        None
    }
}

/// Whether `name` is a raw pointer type.
pub fn is_raw_pointer_type_name(name: &str) -> (is: bool)
    ensures
        is == raw_pointer(name@),
{
    begins_with(name, "ptr<") || begins_with(name, "ptr_")
}

/// Whether a type is an array of strings, which lives on the heap like a list.
pub fn is_heap_string_array(ty: &TypeRef) -> (is: bool)
    ensures
        is == heap_string_array(ty@),
{
    match ty.only_arg("array") {
        Some(element) => same_text(element.name.as_str(), "string"),
        None => false,
    }
}

/// Whether a type may stand in a list or as a map's value.
fn is_element_allowed(ty: &TypeRef) -> (allowed: bool)
    ensures
        allowed == element_allowed(ty@),
{
    let name = ty.name.as_str();
    if begins_with(name, "map<") || begins_with(name, "array<") {
        return false;
    }
    if begins_with(name, "list<") {
        match ty.list_element() {
            Some(element) => scalar_type(element.name.as_str()).is_some(),
            None => false,
        }
    } else {
        true
    }
}

/// The element of a supported list type: a scalar, a string, a struct, or a list of
/// scalars or strings.
pub fn supported_list_element(ty: &TypeRef) -> (element: Option<TypeRef>)
    ensures
        match element {
            Some(t) => list_element_of(ty@) == Some(t@),
            None => list_element_of(ty@) is None,
        },
{
    match ty.list_element() {
        Some(element) => if is_element_allowed(&element) {
            Some(element)
        } else {
            None
        },
        None => None,
    }
}

/// The key and value of a supported map type: the key an integer cell.
pub fn supported_map_kv(ty: &TypeRef) -> (kv: Option<(TypeRef, TypeRef)>)
    ensures
        match kv {
            Some((k, v)) => map_kv_of(ty@) == Some((k@, v@)),
            None => map_kv_of(ty@) is None,
        },
{
    match ty.both_args("map") {
        Some((key, value)) => {
            let cell = match scalar_type(key.name.as_str()) {
                Some(NativeType::I64) => true,
                _ => false,
            };
            if cell && is_element_allowed(&value) {
                Some((key, value))
            } else {
                None
            }
        },
        None => None,
    }
}

/// The first struct called `name`.
pub fn lookup_struct<'a>(structs: &'a [IrStructDef], name: &str) -> (found: Option<
    &'a IrStructDef,
>)
    ensures
        match found {
            Some(def) => find_struct(struct_decls(structs@), name@, 0) == Some(def@),
            None => find_struct(struct_decls(structs@), name@, 0) is None,
        },
{
    let ghost decls = struct_decls(structs@);
    let mut i: usize = 0;
    while i < structs.len()
        invariant
            i <= structs@.len(),
            decls == struct_decls(structs@),
            find_struct(decls, name@, 0) == find_struct(decls, name@, i as int),
        decreases structs@.len() - i,
    {
        assert(decls[i as int] == structs@[i as int]@);
        if same_text(structs[i].name.as_str(), name) {
            return Some(&structs[i]);
        }
        i += 1;
    }
    None
}

/// The first enum called `name`.
pub fn lookup_enum<'a>(enums: &'a [IrEnumDef], name: &str) -> (found: Option<&'a IrEnumDef>)
    ensures
        match found {
            Some(def) => find_enum(enum_decls(enums@), name@, 0) == Some(def@),
            None => find_enum(enum_decls(enums@), name@, 0) is None,
        },
{
    let ghost decls = enum_decls(enums@);
    let mut i: usize = 0;
    while i < enums.len()
        invariant
            i <= enums@.len(),
            decls == enum_decls(enums@),
            find_enum(decls, name@, 0) == find_enum(decls, name@, i as int),
        decreases enums@.len() - i,
    {
        assert(decls[i as int] == enums@[i as int]@);
        if same_text(enums[i].name.as_str(), name) {
            return Some(&enums[i]);
        }
        i += 1;
    }
    None
}

/// The fields of a heap struct.
fn resolve_heap_fields(fields: &Vec<(String, TypeRef)>) -> (resolved: Option<
    Vec<(String, NativeType)>,
>)
    ensures
        match resolved {
            Some(all) => heap_fields(binding_views(fields@)) == Some(field_layouts(all@)),
            None => heap_fields(binding_views(fields@)) is None,
        },
{
    let ghost views = binding_views(fields@);
    let mut all: Vec<(String, NativeType)> = Vec::new();
    let mut i: usize = 0;
    while i < fields.len()
        invariant
            i <= fields@.len(),
            all@.len() == i,
            views == binding_views(fields@),
            forall|k: int|
                0 <= k < i ==> scalar_layout((#[trigger] views[k]).1) is Some && all@[k].0@
                    == views[k].0 && all@[k].1@ == scalar_layout(views[k].1)->0,
        decreases fields@.len() - i,
    {
        assert(views[i as int] == (fields@[i as int].0@, fields@[i as int].1@));
        match scalar_type(fields[i].1.name.as_str()) {
            Some(ty) => all.push((fields[i].0.clone(), ty)),
            None => {
                return None;
            },
        }
        i += 1;
    }
    proof {
        assert forall|k: int| 0 <= k < views.len() implies field_layouts(all@)[k] == (
            views[k].0,
            scalar_layout(views[k].1)->0,
        ) by {
            assert(scalar_layout(views[k].1) is Some);
        }
        assert(field_layouts(all@) =~= heap_fields(views)->0);
    }
    Some(all)
}

/// The one-word layout of a collection slot at nesting `depth`: a scalar or string, and at
/// the outermost level a list of them or a heap struct of them.
pub fn native_collection_slot(ty: &TypeRef, structs: &[IrStructDef], depth: usize) -> (slot:
    Option<NativeType>)
    ensures
        optional_layout(slot) == collection_slot(ty@, struct_decls(structs@), depth as int),
{
    let name = ty.name.as_str();
    if let Some(scalar) = scalar_type(name) {
        return Some(scalar);
    }
    if depth > 0 {
        return None;
    }
    if begins_with(name, "list<") {
        return match ty.list_element() {
            Some(element) => match scalar_type(element.name.as_str()) {
                Some(scalar) => Some(NativeType::List { elem: Box::new(scalar) }),
                None => None,
            },
            None => None,
        };
    }
    match lookup_struct(structs, name) {
        Some(def) => match resolve_heap_fields(&def.fields) {
            Some(fields) => Some(NativeType::HeapStruct { name: ty.name.clone(), fields }),
            None => None,
        },
        None => None,
    }
}

/// The constructor name of an enum spelling: `option` for `option<i64>`, the enum's name
/// for a declared one.
pub fn enum_ctor_name(name: &str) -> (ctor: &str)
    ensures
        ctor@ == ctor_name(name@),
{
    name.substring_char(0, find_open_bracket(name))
}

/// Whether a spelling names an enum: the built-in `option` and `result`, or a declared
/// enum.
pub fn is_enum_type_name(name: &str, enums: &[IrEnumDef]) -> (is: bool)
    ensures
        is == enum_type(name@, enum_decls(enums@)),
{
    let ctor = enum_ctor_name(name);
    same_text(ctor, "option") || same_text(ctor, "result") || lookup_enum(enums, ctor).is_some()
}

/// The variants a list of names and payload types stands for.
pub open spec fn variant_specs(specs: Seq<(String, Vec<TypeRef>)>) -> Seq<
    (Seq<char>, Seq<Seq<char>>),
> {
    specs.map_values(|v: (String, Vec<TypeRef>)| (v.0@, spellings(v.1@)))
}

/// Appends a variant.
fn push_variant(specs: &mut Vec<(String, Vec<TypeRef>)>, name: String, payload: Vec<TypeRef>)
    ensures
        variant_specs(final(specs)@) == variant_specs(old(specs)@).push(
            (name@, spellings(payload@)),
        ),
{
    let ghost view = (name@, spellings(payload@));
    specs.push((name, payload));
    assert(variant_specs(specs@) =~= variant_specs(old(specs)@).push(view));
}

/// The payload types of a variant, with type parameters replaced.
fn concrete_payload(payload: &Vec<TypeRef>, bindings: &Vec<(String, TypeRef)>) -> (types: Vec<
    TypeRef,
>)
    ensures
        spellings(types@) == spellings(payload@).map_values(
            |p: Seq<char>| substituted(p, binding_views(bindings@)),
        ),
{
    let ghost all = spellings(payload@).map_values(
        |p: Seq<char>| substituted(p, binding_views(bindings@)),
    );
    let mut types: Vec<TypeRef> = Vec::new();
    let mut i: usize = 0;
    while i < payload.len()
        invariant
            i <= payload@.len(),
            types@.len() == i,
            forall|k: int|
                0 <= k < i ==> (#[trigger] types@[k])@ == substituted(
                    payload@[k]@,
                    binding_views(bindings@),
                ),
        decreases payload@.len() - i,
    {
        types.push(substitute_type(&payload[i], bindings));
        i += 1;
    }
    assert(spellings(types@) =~= all);
    types
}

/// The payload types of a variant.
fn same_payload(payload: &Vec<TypeRef>) -> (types: Vec<TypeRef>)
    ensures
        spellings(types@) == spellings(payload@),
{
    let mut types: Vec<TypeRef> = Vec::new();
    let mut i: usize = 0;
    while i < payload.len()
        invariant
            i <= payload@.len(),
            types@.len() == i,
            forall|k: int| 0 <= k < i ==> (#[trigger] types@[k])@ == payload@[k]@,
        decreases payload@.len() - i,
    {
        types.push(payload[i].duplicate());
        i += 1;
    }
    assert(spellings(types@) =~= spellings(payload@));
    types
}

/// The variants of a declaration; with `bindings`, their type parameters replaced.
fn declared_variants(def: &IrEnumDef, bindings: Option<&Vec<(String, TypeRef)>>) -> (specs: Vec<
    (String, Vec<TypeRef>),
>)
    ensures
        variant_specs(specs@) == match bindings {
            Some(bindings) => instantiated(def@.variants, binding_views(bindings@)),
            None => def@.variants,
        },
{
    let ghost all = match bindings {
        Some(bindings) => instantiated(def@.variants, binding_views(bindings@)),
        None => def@.variants,
    };
    let mut specs: Vec<(String, Vec<TypeRef>)> = Vec::new();
    assert(variant_specs(specs@) =~= all.take(0));
    let mut i: usize = 0;
    while i < def.variants.len()
        invariant
            i <= def.variants@.len() == all.len(),
            all == (match bindings {
                Some(bindings) => instantiated(def@.variants, binding_views(bindings@)),
                None => def@.variants,
            }),
            variant_specs(specs@) == all.take(i as int),
        decreases def.variants@.len() - i,
    {
        let variant = &def.variants[i];
        let payload = match bindings {
            Some(bindings) => concrete_payload(&variant.payload, bindings),
            None => same_payload(&variant.payload),
        };
        push_variant(&mut specs, variant.name.clone(), payload);
        proof {
            assert(all[i as int] == (variant.name@, spellings(payload@)));
            assert(all.take(i + 1) =~= all.take(i as int).push(all[i as int]));
        }
        i += 1;
    }
    assert(all.take(i as int) =~= all);
    specs
}

/// The variants of an enum type, and whether it instantiates a declared generic enum.
fn variants_of(ty: &TypeRef, enums: &[IrEnumDef]) -> (specs: Result<
    (Vec<(String, Vec<TypeRef>)>, bool),
    String,
>)
    ensures
        match specs {
            Ok((specs, generic)) => {
                &&& enum_variants(ty@, enum_decls(enums@)) == Ok::<_, Seq<char>>(
                    variant_specs(specs@),
                )
                &&& generic == generic_enum(ty@, enum_decls(enums@))
            },
            Err(why) => enum_variants(ty@, enum_decls(enums@)) == Err::<
                Seq<(Seq<char>, Seq<Seq<char>>)>,
                _,
            >(why@),
        },
{
    let ctor = enum_ctor_name(ty.name.as_str());
    let mut specs: Vec<(String, Vec<TypeRef>)> = Vec::new();
    assert(variant_specs(specs@) =~= seq![]);
    if same_text(ctor, "option") {
        match ty.option_element() {
            Some(element) => {
                let some = vec![element];
                let none: Vec<TypeRef> = Vec::new();
                proof {
                    assert(spellings(some@) =~= seq![element@]);
                    assert(spellings(none@) =~= seq![]);
                }
                push_variant(&mut specs, "some".to_owned(), some);
                push_variant(&mut specs, "none".to_owned(), none);
                assert(variant_specs(specs@) =~= seq![
                    ("some"@, seq![element@]),
                    ("none"@, seq![]),
                ]);
                Ok((specs, false))
            },
            None => Err(
                "native enum layout needs the concrete `option<T>` element type".to_owned(),
            ),
        }
    } else if same_text(ctor, "result") {
        match ty.result_args() {
            Some((ok_ty, err_ty)) => {
                let ok = vec![ok_ty];
                let err = vec![err_ty];
                proof {
                    assert(spellings(ok@) =~= seq![ok_ty@]);
                    assert(spellings(err@) =~= seq![err_ty@]);
                }
                push_variant(&mut specs, "ok".to_owned(), ok);
                push_variant(&mut specs, "err".to_owned(), err);
                assert(variant_specs(specs@) =~= seq![
                    ("ok"@, seq![ok_ty@]),
                    ("err"@, seq![err_ty@]),
                ]);
                Ok((specs, false))
            },
            None => Err(
                "native enum layout needs the concrete `result<T, E>` argument types".to_owned(),
            ),
        }
    } else {
        match lookup_enum(enums, ctor) {
            None => Err(message("enum `", ctor, "` is not declared")),
            Some(def) => if def.type_params.len() == 0 {
                Ok((declared_variants(def, None), false))
            } else {
                let args = match ty.generic_args(ctor) {
                    Some(args) => args,
                    None => {
                        let none: Vec<TypeRef> = Vec::new();
                        assert(spellings(none@) =~= seq![]);
                        none
                    },
                };
                let bindings = subst_map(&def.type_params, &args);
                Ok((declared_variants(def, Some(&bindings)), true))
            },
        }
    }
}

/// The layouts of a variant's payload.
fn resolve_payload(ctor: &str, variant: &str, payload: &Vec<TypeRef>,
    structs: &[IrStructDef]) -> (layouts: Result<Vec<NativeType>, String>)
    ensures
        match layouts {
            Ok(all) => payload_layouts(
                ctor@,
                variant@,
                spellings(payload@),
                struct_decls(structs@),
                payload@.len() as int,
            ) == Ok::<_, Seq<char>>(type_layouts(all@)),
            Err(why) => payload_layouts(
                ctor@,
                variant@,
                spellings(payload@),
                struct_decls(structs@),
                payload@.len() as int,
            ) == Err::<Seq<Layout>, _>(why@),
        },
{
    let ghost decls = struct_decls(structs@);
    let ghost spelled = spellings(payload@);
    let ghost n = payload@.len() as int;
    let mut all: Vec<NativeType> = Vec::new();
    assert(type_layouts(all@) =~= seq![]);
    let mut i: usize = 0;
    while i < payload.len()
        invariant
            i <= payload@.len() == n,
            decls == struct_decls(structs@),
            spelled == spellings(payload@),
            payload_layouts(ctor@, variant@, spelled, decls, i as int) == Ok::<_, Seq<char>>(
                type_layouts(all@),
            ),
        decreases payload@.len() - i,
    {
        assert(spelled[i as int] == payload@[i as int]@);
        let ghost before = type_layouts(all@);
        match native_collection_slot(&payload[i], structs, 0) {
            Some(ty) => {
                let ghost view = ty@;
                all.push(ty);
                assert(type_layouts(all@) =~= before.push(view));
            },
            None => {
                proof {
                    lemma_payload_error_stays(ctor@, variant@, spelled, decls, i + 1, n);
                }
                return Err(
                    message("enum `", ctor, "` variant `").concat(variant).concat(
                        "` payload type `",
                    ).concat(payload[i].name.as_str()).concat(
                        "` is not a native scalar, `string`, or one-level mutable aggregate (deeper payloads are deferred)",
                    ),
                );
            },
        }
        i += 1;
    }
    Ok(all)
}

/// A refused payload slot refuses the payload.
proof fn lemma_payload_error_stays(
    ctor: Seq<char>,
    variant: Seq<char>,
    payload: Seq<Seq<char>>,
    structs: Seq<StructDecl>,
    i: int,
    n: int,
)
    requires
        i <= n,
        payload_layouts(ctor, variant, payload, structs, i) is Err,
    ensures
        payload_layouts(ctor, variant, payload, structs, n) == payload_layouts(
            ctor,
            variant,
            payload,
            structs,
            i,
        ),
    decreases n,
{
    if i < n {
        lemma_payload_error_stays(ctor, variant, payload, structs, i, n - 1);
    }
}

/// A refused variant refuses the enum.
proof fn lemma_variant_error_stays(
    ctor: Seq<char>,
    variants: Seq<(Seq<char>, Seq<Seq<char>>)>,
    structs: Seq<StructDecl>,
    i: int,
    n: int,
)
    requires
        i <= n,
        variants_resolved(ctor, variants, structs, i) is Err,
    ensures
        variants_resolved(ctor, variants, structs, n) == variants_resolved(
            ctor,
            variants,
            structs,
            i,
        ),
    decreases n,
{
    if i < n {
        lemma_variant_error_stays(ctor, variants, structs, i, n - 1);
    }
}

/// How many words a payload occupies.
fn payload_width(payload: &Vec<NativeType>) -> (words: usize)
    requires
        forall|i: int|
            0 <= i < payload@.len() ==> words_of(#[trigger] type_layouts(payload@)[i]) == 1,
    ensures
        words == payload_span(type_layouts(payload@), payload@.len() as int),
        words == payload@.len(),
{
    proof {
        lemma_payload_span(type_layouts(payload@), payload@.len() as int);
    }
    payload.len()
}

/// Resolves an enum type into its layout: the variants in declaration order, each with
/// its index as its tag, and the width of the shared payload region.
pub fn resolve_enum_type(
    ty: &TypeRef,
    structs: &[IrStructDef],
    enums: &[IrEnumDef],
) -> (result: Result<NativeType, String>)
    ensures
        result_layout(result) == enum_layout(ty@, struct_decls(structs@), enum_decls(enums@)),
{
    let ghost decls = struct_decls(structs@);
    let ctor = enum_ctor_name(ty.name.as_str());
    let (specs, generic) = match variants_of(ty, enums) {
        Ok(found) => found,
        Err(why) => {
            return Err(why);
        },
    };
    let ghost declared = variant_specs(specs@);
    let ghost n = declared.len() as int;
    let mut variants: Vec<NativeEnumVariant> = Vec::new();
    let mut payload_words: usize = 0;
    assert(variant_layouts(variants@) =~= seq![]);
    let mut i: usize = 0;
    while i < specs.len()
        invariant
            i <= specs@.len() == n,
            decls == struct_decls(structs@),
            declared == variant_specs(specs@),
            n == declared.len(),
            ctor@ == ctor_name(ty@),
            enum_variants(ty@, enum_decls(enums@)) == Ok::<_, Seq<char>>(declared),
            variants@.len() == i,
            variants_resolved(ctor@, declared, decls, i as int) == Ok::<_, Seq<char>>(
                variant_layouts(variants@),
            ),
            payload_words == widest(variant_layouts(variants@), i as int),
        decreases specs@.len() - i,
    {
        let (name, payload_types) = &specs[i];
        assert(declared[i as int] == (name@, spellings(payload_types@)));
        let payload = match resolve_payload(ctor, name.as_str(), payload_types, structs) {
            Ok(payload) => payload,
            Err(why) => {
                proof {
                    lemma_variant_error_stays(ctor@, declared, decls, i + 1, n);
                }
                return Err(why);
            },
        };
        proof {
            lemma_payload_solid(
                ctor@,
                name@,
                spellings(payload_types@),
                decls,
                payload_types@.len() as int,
            );
        }
        let words = payload_width(&payload);
        let ghost before = variant_layouts(variants@);
        let variant = NativeEnumVariant { name: name.clone(), tag: i as i64, payload };
        let ghost view = variant.layout();
        variants.push(variant);
        proof {
            assert(variant_layouts(variants@) =~= before.push(view));
            lemma_widest_prefix(before, variant_layouts(variants@), i as int);
            assert(variant_layouts(variants@)[i as int].payload == type_layouts(payload@));
        }
        if payload_words < words {
            payload_words = words;
        }
        i += 1;
    }
    let native = NativeType::Enum { name: ctor.to_owned(), variants, payload_words };
    if generic && !is_scalar_only_layout(&native) {
        return Err(
            message(
                "generic enum instantiation `",
                ty.name.as_str(),
                "` has a deeper-than-one-level heap payload after substitution (a mutable heap value or a nested heap-carrying aggregate); it is deferred to the interpreters",
            ),
        );
    }
    Ok(native)
}

/// The widest payload of the first variants does not depend on later ones.
proof fn lemma_widest_prefix(a: Seq<Variant>, b: Seq<Variant>, n: int)
    requires
        n <= a.len() <= b.len(),
        forall|i: int| 0 <= i < a.len() ==> a[i] == b[i],
    ensures
        widest(a, n) == widest(b, n),
    decreases n,
{
    if n > 0 {
        lemma_widest_prefix(a, b, n - 1);
        assert(a[n - 1] == b[n - 1]);
    }
}

/// Why a field cannot stand in a struct.
fn field_message(head: &str, field: &str, why: &str) -> (text: String)
    ensures
        text@ == "struct `"@ + head@ + "` field `"@ + field@ + why@,
{
    message("struct `", head, "` field `").concat(field).concat(why)
}

/// Resolves the fields of a struct, where structs nest at most `depth` deep in them.
fn resolve_fields_within(
    head: &str,
    field_defs: &[(String, TypeRef)],
    structs: &[IrStructDef],
    enums: &[IrEnumDef],
    Ghost(depth): Ghost<nat>,
) -> (result: Result<Vec<(String, NativeType)>, String>)
    requires
        fields_resolved(
            head@,
            binding_views(field_defs@),
            field_defs@.len() as int,
            struct_decls(structs@),
            enum_decls(enums@),
            depth,
        ) is Some,
    ensures
        ({
            let expected = fields_resolved(
                head@,
                binding_views(field_defs@),
                field_defs@.len() as int,
                struct_decls(structs@),
                enum_decls(enums@),
                depth,
            );
            match result {
                Ok(fields) => expected == Some(Ok::<_, Seq<char>>(field_layouts(fields@))),
                Err(why) => expected == Some(Err::<Seq<(Seq<char>, Layout)>, _>(why@)),
            }
        }),
    decreases depth, 1int,
{
    let ghost decls = struct_decls(structs@);
    let ghost enumerated = enum_decls(enums@);
    let ghost views = binding_views(field_defs@);
    let ghost n = views.len() as int;
    let mut fields: Vec<(String, NativeType)> = Vec::new();
    assert(field_layouts(fields@) =~= seq![]);
    let mut i: usize = 0;
    while i < field_defs.len()
        invariant
            i <= field_defs@.len() == n,
            decls == struct_decls(structs@),
            enumerated == enum_decls(enums@),
            views == binding_views(field_defs@),
            n == views.len(),
            fields_resolved(head@, views, n, decls, enumerated, depth) is Some,
            fields_resolved(head@, views, i as int, decls, enumerated, depth) == Some(
                Ok::<_, Seq<char>>(field_layouts(fields@)),
            ),
        decreases field_defs@.len() - i,
    {
        let (field, field_ty) = &field_defs[i];
        proof {
            assert(views[i as int] == (field@, field_ty@));
            lemma_fields_prefix(head@, views, i + 1, n, decls, enumerated, depth);
        }
        let ghost before = field_layouts(fields@);
        let native = match resolve_within(field_ty, structs, enums, Ghost(depth)) {
            Ok(native) => native,
            Err(_) => {
                return Err(
                    field_message(head, field.as_str(), "` is not an all-i64 native type"),
                );
            },
        };
        match native {
            NativeType::F32 => {
                return Err(
                    field_message(
                        head,
                        field.as_str(),
                        "` is an f32; f32 struct fields are not in the native subset (an f64 field is fine)",
                    ),
                );
            },
            NativeType::List { .. } | NativeType::Mapping { .. } => {
                return Err(
                    field_message(
                        head,
                        field.as_str(),
                        "` is a mutable heap value (list/map); mutable heap-value struct fields are not in the native subset (a `string` field is supported)",
                    ),
                );
            },
            _ => {},
        }
        let ghost view = (field@, native@);
        fields.push((field.clone(), native));
        assert(field_layouts(fields@) =~= before.push(view));
        i += 1;
    }
    Ok(fields)
}

/// What refuses the first fields refuses them all, and what they need of depth all need.
proof fn lemma_fields_prefix(
    head: Seq<char>,
    fields: Seq<(Seq<char>, Seq<char>)>,
    i: int,
    n: int,
    structs: Seq<StructDecl>,
    enums: Seq<EnumDecl>,
    depth: nat,
)
    requires
        0 <= i <= n,
        fields_resolved(head, fields, n, structs, enums, depth) is Some,
    ensures
        fields_resolved(head, fields, i, structs, enums, depth) is Some,
        fields_resolved(head, fields, i, structs, enums, depth)->0 is Err ==> fields_resolved(
            head,
            fields,
            n,
            structs,
            enums,
            depth,
        ) == fields_resolved(head, fields, i, structs, enums, depth),
    decreases n,
{
    if i < n {
        lemma_fields_prefix(head, fields, i, n - 1, structs, enums, depth);
    }
}

/// The fields of a generic struct with its type parameters replaced.
fn concrete_fields(fields: &Vec<(String, TypeRef)>, bindings: &Vec<(String, TypeRef)>) -> (all:
    Vec<(String, TypeRef)>)
    ensures
        binding_views(all@) == binding_views(fields@).map_values(
            |f: (Seq<char>, Seq<char>)| (f.0, substituted(f.1, binding_views(bindings@))),
        ),
{
    let mut all: Vec<(String, TypeRef)> = Vec::new();
    let mut i: usize = 0;
    while i < fields.len()
        invariant
            i <= fields@.len(),
            all@.len() == i,
            forall|k: int|
                0 <= k < i ==> (#[trigger] all@[k]).0@ == fields@[k].0@ && all@[k].1@
                    == substituted(fields@[k].1@, binding_views(bindings@)),
        decreases fields@.len() - i,
    {
        all.push((fields[i].0.clone(), substitute_type(&fields[i].1, bindings)));
        i += 1;
    }
    assert(binding_views(all@) =~= binding_views(fields@).map_values(
        |f: (Seq<char>, Seq<char>)| (f.0, substituted(f.1, binding_views(bindings@))),
    ));
    all
}

/// The layout of a type that is no struct.
fn resolve_plain(ty: &TypeRef, structs: &[IrStructDef], enums: &[IrEnumDef]) -> (result:
    Option<Result<NativeType, String>>)
    ensures
        match result {
            Some(result) => plain_layout(ty@, struct_decls(structs@), enum_decls(enums@)) == Some(
                result_layout(result),
            ),
            None => plain_layout(ty@, struct_decls(structs@), enum_decls(enums@)) is None,
        },
{
    let name = ty.name.as_str();
    proof {
        assert(NativeType::I64@ == Layout::I64);
        assert(NativeType::String@ == Layout::Text);
    }
    if let Some(scalar) = scalar_type(name) {
        return Some(Ok(scalar));
    }
    if is_raw_pointer_type_name(name) {
        Some(Ok(NativeType::I64))
    } else if is_heap_string_array(ty) {
        Some(Ok(NativeType::List { elem: Box::new(NativeType::String) }))
    } else if begins_with(name, "array<") {
        Some(Err(message("array length for `", name, "` is unknown from its type")))
    } else if begins_with(name, "list<") {
        match supported_list_element(ty) {
            None => Some(
                Err(
                    message(
                        "list element of `",
                        name,
                        "` is not a native scalar, `string`, one-level struct, or one-level nested list (deeper nesting and map/array elements are deferred)",
                    ),
                ),
            ),
            Some(element) => match native_collection_slot(&element, structs, 0) {
                None => Some(
                    Err(
                        message(
                            "list element of `",
                            name,
                            "` is not layable-out (deferred)",
                        ),
                    ),
                ),
                Some(slot) => Some(Ok(NativeType::List { elem: Box::new(slot) })),
            },
        }
    } else if begins_with(name, "map<") {
        match supported_map_kv(ty) {
            None => Some(
                Err(
                    message(
                        "map `",
                        name,
                        "` key/value is not a supported native type (heap keys and float keys are deferred)",
                    ),
                ),
            ),
            Some((_, value)) => match native_collection_slot(&value, structs, 0) {
                None => Some(
                    Err(message("map value of `", name, "` is not layable-out (deferred)")),
                ),
                Some(slot) => Some(
                    Ok(
                        NativeType::Mapping {
                            key: Box::new(NativeType::I64),
                            value: Box::new(slot),
                        },
                    ),
                ),
            },
        }
    } else if is_enum_type_name(name, enums) {
        Some(resolve_enum_type(ty, structs, enums))
    } else {
        None
    }
}

/// Resolves a type in which structs nest at most `depth` deep.
fn resolve_within(
    ty: &TypeRef,
    structs: &[IrStructDef],
    enums: &[IrEnumDef],
    Ghost(depth): Ghost<nat>,
) -> (result: Result<NativeType, String>)
    requires
        resolved(ty@, struct_decls(structs@), enum_decls(enums@), depth) is Some,
    ensures
        resolved(ty@, struct_decls(structs@), enum_decls(enums@), depth) == Some(
            result_layout(result),
        ),
    decreases depth, 0int,
{
    let name = ty.name.as_str();
    if let Some(result) = resolve_plain(ty, structs, enums) {
        return result;
    }
    let ghost below = (depth - 1) as nat;
    if let Some(def) = lookup_struct(structs, name) {
        return match resolve_fields_within(name, &def.fields, structs, enums, Ghost(below)) {
            Ok(fields) => Ok(NativeType::Struct { name: ty.name.clone(), fields }),
            Err(why) => Err(why),
        };
    }
    if let Some((head, args)) = split_user_generic(ty) {
        if let Some(def) = lookup_struct(structs, head.as_str()) {
            if def.type_params.len() > 0 {
                let bindings = subst_map(&def.type_params, &args);
                let concrete = concrete_fields(&def.fields, &bindings);
                let native = match resolve_fields_within(
                    head.as_str(),
                    &concrete,
                    structs,
                    enums,
                    Ghost(below),
                ) {
                    Ok(fields) => NativeType::Struct { name: head, fields },
                    Err(why) => {
                        return Err(why);
                    },
                };
                if !is_scalar_only_layout(&native) {
                    return Err(
                        message(
                            "generic struct instantiation `",
                            name,
                            "` has a deeper-than-one-level heap field after substitution (a mutable heap value or a nested heap-carrying aggregate); it is deferred to the interpreters",
                        ),
                    );
                }
                return Ok(native);
            }
        }
    }
    Err(message("type `", name, "` is not in the native stack subset"))
}

/// Resolves a declared type into its native layout. An array type is refused here: its
/// length does not stand in its spelling.
pub fn resolve_native_type(
    ty: &TypeRef,
    structs: &[IrStructDef],
    enums: &[IrEnumDef],
) -> (result: Result<NativeType, String>)
    requires
        expands(ty@, struct_decls(structs@), enum_decls(enums@)),
    ensures
        result_layout(result) == layout_of(ty@, struct_decls(structs@), enum_decls(enums@)),
{
    let ghost depth = choose|depth: nat|
        (#[trigger] resolved(ty@, struct_decls(structs@), enum_decls(enums@), depth)) is Some;
    resolve_within(ty, structs, enums, Ghost(depth))
}

/// Resolves a struct's fields into its flattened layout. A field that is no native type,
/// an `f32` or a mutable heap value is refused; a string is fine.
pub fn resolve_struct_fields(
    name: &str,
    field_defs: &[(String, TypeRef)],
    structs: &[IrStructDef],
    enums: &[IrEnumDef],
) -> (result: Result<NativeType, String>)
    requires
        fields_expand(
            name@,
            binding_views(field_defs@),
            struct_decls(structs@),
            enum_decls(enums@),
        ),
    ensures
        result_layout(result) == struct_of(
            name@,
            binding_views(field_defs@),
            struct_decls(structs@),
            enum_decls(enums@),
        ),
{
    let ghost views = binding_views(field_defs@);
    let ghost decls = struct_decls(structs@);
    let ghost enumerated = enum_decls(enums@);
    let ghost depth = choose|depth: nat|
        (#[trigger] fields_resolved(
            name@,
            views,
            views.len() as int,
            decls,
            enumerated,
            depth,
        )) is Some;
    proof {
        lemma_fields_agree(name@, views, views.len() as int, decls, enumerated, depth);
    }
    match resolve_fields_within(name, field_defs, structs, enums, Ghost(depth)) {
        Ok(fields) => Ok(NativeType::Struct { name: name.to_owned(), fields }),
        Err(why) => Err(why),
    }
}

} // verus!
