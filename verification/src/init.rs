//! Layouts of initializers.
//!
//! An array's length enters its layout here: from the number of a literal's elements, or
//! from the layout a called function returns.

use crate::bytecode::{BytecodeExpr, BytecodeExprKind};
use crate::layout::{narrow_array_element, narrow_element, same_layout, Layout, NativeType};
use crate::resolve::{
    enum_decls, expands, layout_of, resolve_native_type, result_layout, struct_decls, EnumDecl,
    IrEnumDef, IrStructDef, StructDecl,
};
use crate::spelling::{begins_with, starts_with};
use vstd::prelude::*;

verus! {

/// The signature of a compiled function: the layout it returns.
#[derive(Debug, PartialEq, Eq)]
pub struct NativeSignature {
    pub ret: NativeType,
}

/// The signatures of the compiled functions, by name.
#[derive(Debug, PartialEq, Eq)]
pub struct Signatures {
    pub entries: Vec<(String, NativeSignature)>,
}

/// The first signature from `i` on under `name`.
pub open spec fn find_signature(
    entries: Seq<(String, NativeSignature)>,
    name: Seq<char>,
    i: int,
) -> Option<NativeSignature>
    decreases entries.len() - i,
{
    if i >= entries.len() {
        None
    } else if entries[i].0@ == name {
        Some(entries[i].1)
    } else {
        find_signature(entries, name, i + 1)
    }
}

impl Signatures {
    /// The layout that the function `name` returns.
    pub open spec fn returns_of(self, name: Seq<char>) -> Option<Layout> {
        match find_signature(self.entries@, name, 0) {
            Some(signature) => Some(signature.ret@),
            None => None,
        }
    }

    /// The signature of the function `name`.
    pub fn get(&self, name: &String) -> (signature: Option<&NativeSignature>)
        ensures
            match signature {
                Some(signature) => self.returns_of(name@) == Some(signature.ret@),
                None => self.returns_of(name@) is None,
            },
    {
        let mut i: usize = 0;
        while i < self.entries.len()
            invariant
                i <= self.entries@.len(),
                find_signature(self.entries@, name@, 0) == find_signature(
                    self.entries@,
                    name@,
                    i as int,
                ),
            decreases self.entries@.len() - i,
        {
            if self.entries[i].0 == *name {
                return Some(&self.entries[i].1);
            }
            i += 1;
        }
        None
    }
}

/// The array layout that a call returns, where `expr` is such a call.
pub open spec fn returned_array(expr: BytecodeExpr, signatures: Signatures) -> Option<Layout> {
    match expr.kind {
        BytecodeExprKind::Call { name, .. } => if starts_with(expr.ty@, "array<"@) {
            match signatures.returns_of(name@) {
                Some(layout) => if layout is Array {
                    Some(layout)
                } else {
                    None
                },
                None => None,
            }
        } else {
            None
        },
        _ => None,
    }
}

/// The layout of an element of an array literal: packed for a narrow integer.
pub open spec fn element_layout(
    expr: BytecodeExpr,
    structs: Seq<StructDecl>,
    enums: Seq<EnumDecl>,
    signatures: Signatures,
) -> Result<Layout, Seq<char>>
    decreases expr, 1int,
{
    match narrow_element(expr.ty@) {
        Some(packed) => Ok(packed),
        None => init_layout(expr, structs, enums, signatures),
    }
}

/// The layout the elements from `k` on agree with, given the first one's.
pub open spec fn agreeing(
    elements: Seq<BytecodeExpr>,
    k: int,
    elem: Layout,
    structs: Seq<StructDecl>,
    enums: Seq<EnumDecl>,
    signatures: Signatures,
) -> Result<Layout, Seq<char>>
    decreases elements, elements.len() - k,
{
    if k < 0 || k >= elements.len() {
        Ok(elem)
    } else {
        match element_layout(elements[k], structs, enums, signatures) {
            Err(why) => Err(why),
            Ok(other) => if other != elem {
                Err("array literal elements have differing native layouts"@)
            } else {
                agreeing(elements, k + 1, elem, structs, enums, signatures)
            },
        }
    }
}

/// The layout of an initializer, or why it has none.
pub open spec fn init_layout(
    expr: BytecodeExpr,
    structs: Seq<StructDecl>,
    enums: Seq<EnumDecl>,
    signatures: Signatures,
) -> Result<Layout, Seq<char>>
    decreases expr, 0int,
{
    match expr.kind {
        BytecodeExprKind::Array(elements) => if elements@.len() == 0 {
            Err("empty array literals are not in the native stack subset"@)
        } else {
            match element_layout(elements@[0], structs, enums, signatures) {
                Err(why) => Err(why),
                Ok(elem) => match agreeing(elements@, 1, elem, structs, enums, signatures) {
                    Err(why) => Err(why),
                    Ok(elem) => Ok(
                        Layout::Array { elem: Box::new(elem), len: elements@.len() as int },
                    ),
                },
            }
        },
        _ => match returned_array(expr, signatures) {
            Some(layout) => Ok(layout),
            None => layout_of(expr.ty@, structs, enums),
        },
    }
}

/// Whether structs nest finitely deep in every type an initializer's layout is taken
/// from.
pub open spec fn init_expands(
    expr: BytecodeExpr,
    structs: Seq<StructDecl>,
    enums: Seq<EnumDecl>,
) -> bool
    decreases expr,
{
    match expr.kind {
        BytecodeExprKind::Array(elements) => forall|i: int|
            0 <= i < elements@.len() ==> init_expands(#[trigger] elements@[i], structs, enums),
        _ => expands(expr.ty@, structs, enums),
    }
}

/// Infers the layout of an initializer from its type and, for an array, from the number of
/// its literal's elements or the layout its function returns.
pub fn native_type_of_init(
    expr: &BytecodeExpr,
    structs: &[IrStructDef],
    enums: &[IrEnumDef],
    signatures: &Signatures,
) -> (result: Result<NativeType, String>)
    requires
        init_expands(*expr, struct_decls(structs@), enum_decls(enums@)),
    ensures
        result_layout(result) == init_layout(
            *expr,
            struct_decls(structs@),
            enum_decls(enums@),
            *signatures,
        ),
    decreases expr, 0int,
{
    let ghost decls = struct_decls(structs@);
    let ghost enumerated = enum_decls(enums@);
    match &expr.kind {
        BytecodeExprKind::Array(elements) => {
            if elements.len() == 0 {
                return Err("empty array literals are not in the native stack subset".to_owned());
            }
            let elem = match native_type_of_element(&elements[0], structs, enums, signatures) {
                Ok(elem) => elem,
                Err(why) => {
                    return Err(why);
                },
            };
            let mut i: usize = 1;
            while i < elements.len()
                invariant
                    1 <= i <= elements@.len(),
                    decreases_to!(expr => elements),
                    decls == struct_decls(structs@),
                    enumerated == enum_decls(enums@),
                    forall|k: int|
                        0 <= k < elements@.len() ==> init_expands(
                            #[trigger] elements@[k],
                            decls,
                            enumerated,
                        ),
                    expr.kind == BytecodeExprKind::Array(*elements),
                    element_layout(elements@[0], decls, enumerated, *signatures) == Ok::<
                        Layout,
                        Seq<char>,
                    >(elem@),
                    agreeing(elements@, 1, elem@, decls, enumerated, *signatures) == agreeing(
                        elements@,
                        i as int,
                        elem@,
                        decls,
                        enumerated,
                        *signatures,
                    ),
                decreases elements@.len() - i,
            {
                match native_type_of_element(&elements[i], structs, enums, signatures) {
                    Ok(other) => {
                        if !same_layout(&other, &elem) {
                            return Err(
                                "array literal elements have differing native layouts".to_owned(),
                            );
                        }
                    },
                    Err(why) => {
                        return Err(why);
                    },
                }
                i += 1;
            }
            return Ok(NativeType::Array { elem: Box::new(elem), len: elements.len() });
        },
        BytecodeExprKind::Call { name, .. } => {
            if begins_with(expr.ty.name.as_str(), "array<") {
                if let Some(signature) = signatures.get(name) {
                    match signature.ret {
                        NativeType::Array { .. } => {
                            return Ok(signature.ret.duplicate());
                        },
                        _ => {},
                    }
                }
            }
        },
        _ => {},
    }
    resolve_native_type(&expr.ty, structs, enums)
}

fn native_type_of_element(
    expr: &BytecodeExpr,
    structs: &[IrStructDef],
    enums: &[IrEnumDef],
    signatures: &Signatures,
) -> (result: Result<NativeType, String>)
    requires
        init_expands(*expr, struct_decls(structs@), enum_decls(enums@)),
    ensures
        result_layout(result) == element_layout(
            *expr,
            struct_decls(structs@),
            enum_decls(enums@),
            *signatures,
        ),
    decreases expr, 1int,
{
    match narrow_array_element(expr.ty.name.as_str()) {
        Some(packed) => Ok(packed),
        None => native_type_of_init(expr, structs, enums, signatures),
    }
}

/// An array literal has a layout exactly when it has elements and all of them have one and
/// the same; it is then as long as it has elements, of that layout each.
pub proof fn law_array_literals_are_uniform(
    elements: Vec<BytecodeExpr>,
    expr: BytecodeExpr,
    structs: Seq<StructDecl>,
    enums: Seq<EnumDecl>,
    signatures: Signatures,
)
    requires
        expr.kind == BytecodeExprKind::Array(elements),
    ensures
        ({
            let first = element_layout(elements@[0], structs, enums, signatures);
            let layout = init_layout(expr, structs, enums, signatures);
            &&& layout is Ok <==> {
                &&& elements@.len() > 0
                &&& first is Ok
                &&& forall|k: int|
                    0 <= k < elements@.len() ==> element_layout(
                        #[trigger] elements@[k],
                        structs,
                        enums,
                        signatures,
                    ) == first
            }
            &&& layout is Ok ==> layout == Ok::<_, Seq<char>>(
                Layout::Array { elem: Box::new(first->Ok_0), len: elements@.len() as int },
            )
        }),
{
    if elements@.len() > 0 {
        if let Ok(elem) = element_layout(elements@[0], structs, enums, signatures) {
            lemma_agreeing(elements@, 1, elem, structs, enums, signatures);
        }
    }
}

proof fn lemma_agreeing(
    elements: Seq<BytecodeExpr>,
    i: int,
    elem: Layout,
    structs: Seq<StructDecl>,
    enums: Seq<EnumDecl>,
    signatures: Signatures,
)
    requires
        0 <= i,
    ensures
        ({
            let result = agreeing(elements, i, elem, structs, enums, signatures);
            &&& result is Ok ==> result == Ok::<_, Seq<char>>(elem)
            &&& result is Ok <==> forall|k: int|
                i <= k < elements.len() ==> element_layout(
                    #[trigger] elements[k],
                    structs,
                    enums,
                    signatures,
                ) == Ok::<_, Seq<char>>(elem)
        }),
    decreases elements.len() - i,
{
    if i < elements.len() {
        lemma_agreeing(elements, i + 1, elem, structs, enums, signatures);
    }
}

} // verus!
