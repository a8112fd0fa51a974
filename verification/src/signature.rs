//! Layouts of parameter and return types.
//!
//! An array type carries no length, so a signature slot takes it from the lengths that
//! were inferred for the function.

use crate::layout::{
    aggregate, narrow_array_element, narrow_element, Layout, NativeType,
};
use crate::resolve::{
    enum_decls, expands, heap_string_array, is_heap_string_array, layout_of, message,
    resolve_native_type, result_layout, struct_decls, EnumDecl, IrEnumDef, IrStructDef, StructDecl,
};
use crate::spelling::{begins_with, starts_with, TypeRef};
use vstd::prelude::*;

verus! {

/// The key of a function's return array in its [`ArrayLengths`].
pub const RETURN_ARRAY_KEY: &'static str = "\0return";

/// The length that marks an array parameter as a fat pointer: a read-only array whose
/// length is known at run time only.
pub const FAT_ARRAY_LEN: usize = usize::MAX;

/// The lengths of a function's array-typed signature slots, by parameter name; the
/// return array's stands under [`RETURN_ARRAY_KEY`].
#[derive(Debug, PartialEq, Eq)]
pub struct ArrayLengths {
    pub entries: Vec<(String, usize)>,
}

/// The last of the first `n` entries under `key`.
pub open spec fn entry_of(entries: Seq<(String, usize)>, key: Seq<char>, n: int) -> Option<usize>
    decreases n,
{
    if n <= 0 {
        None
    } else if entries[n - 1].0@ == key {
        Some(entries[n - 1].1)
    } else {
        entry_of(entries, key, n - 1)
    }
}

impl ArrayLengths {
    /// The length of the slot `key`.
    pub open spec fn length(self, key: Seq<char>) -> Option<usize> {
        entry_of(self.entries@, key, self.entries@.len() as int)
    }

    /// No lengths.
    pub fn new() -> (lengths: ArrayLengths)
        ensures
            forall|key: Seq<char>| (#[trigger] lengths.length(key)) is None,
    {
        ArrayLengths { entries: Vec::new() }
    }

    /// Sets the length of the slot `key`.
    pub fn insert(&mut self, key: String, len: usize)
        ensures
            forall|other: Seq<char>|
                (#[trigger] final(self).length(other)) == if other == key@ {
                    Some(len)
                } else {
                    old(self).length(other)
                },
    {
        let ghost before = self.entries@;
        self.entries.push((key, len));
        proof {
            assert forall|other: Seq<char>| (#[trigger] self.length(other)) == if other == key@ {
                Some(len)
            } else {
                old(self).length(other)
            } by {
                lemma_entries_prefix(before, self.entries@, other, before.len() as int);
            }
        }
    }

    /// The length of the slot `key`.
    pub fn get(&self, key: &str) -> (len: Option<usize>)
        ensures
            len == self.length(key@),
    {
        let wanted = key.to_owned();
        let mut i: usize = self.entries.len();
        while i > 0
            invariant
                i <= self.entries@.len(),
                wanted@ == key@,
                self.length(key@) == entry_of(self.entries@, key@, i as int),
            decreases i,
        {
            if self.entries[i - 1].0 == wanted {
                return Some(self.entries[i - 1].1);
            }
            i -= 1;
        }
        None
    }
}

proof fn lemma_entries_prefix(
    a: Seq<(String, usize)>,
    b: Seq<(String, usize)>,
    key: Seq<char>,
    n: int,
)
    requires
        n <= a.len() <= b.len(),
        forall|i: int| 0 <= i < a.len() ==> a[i] == b[i],
    ensures
        entry_of(a, key, n) == entry_of(b, key, n),
    decreases n,
{
    if n > 0 {
        lemma_entries_prefix(a, b, key, n - 1);
        assert(a[n - 1] == b[n - 1]);
    }
}

/// The element spelling of an array type.
pub open spec fn array_element(name: Seq<char>) -> Seq<char> {
    let rest = name.skip(6);
    if rest.len() > 0 && rest.last() == '>' {
        rest.drop_last()
    } else {
        rest
    }
}

/// Whether a signature type can be resolved: structs nest finitely deep in it, or in its
/// innermost array element.
pub open spec fn signature_expands(
    name: Seq<char>,
    structs: Seq<StructDecl>,
    enums: Seq<EnumDecl>,
) -> bool
    decreases name.len(),
{
    if heap_string_array(name) {
        true
    } else if starts_with(name, "array<"@) && name.len() >= 6 {
        let element = array_element(name);
        narrow_element(element) is Some || signature_expands(element, structs, enums)
    } else {
        expands(name, structs, enums)
    }
}

/// The layout of a signature type, its arrays of length `len`; or why it has none.
pub open spec fn signature_layout(
    name: Seq<char>,
    structs: Seq<StructDecl>,
    enums: Seq<EnumDecl>,
    len: Option<usize>,
    key: Seq<char>,
) -> Result<Layout, Seq<char>>
    decreases name.len(),
{
    if heap_string_array(name) {
        Ok(Layout::List { elem: Box::new(Layout::Text) })
    } else if starts_with(name, "array<"@) && name.len() >= 6 {
        let element = array_element(name);
        let resolved = match narrow_element(element) {
            Some(packed) => Ok(packed),
            None => signature_layout(element, structs, enums, len, key),
        };
        match resolved {
            Err(why) => Err(why),
            Ok(elem) => match len {
                None => Err(
                    "array length for signature slot `"@ + key + "` could not be inferred"@,
                ),
                Some(n) => if n == FAT_ARRAY_LEN {
                    Ok(Layout::FatArray { elem: Box::new(elem) })
                } else {
                    Ok(Layout::Array { elem: Box::new(elem), len: n as int })
                },
            },
        }
    } else {
        layout_of(name, structs, enums)
    }
}

/// The layout of a return type: the absent value for `void`.
pub open spec fn return_layout(
    name: Seq<char>,
    structs: Seq<StructDecl>,
    enums: Seq<EnumDecl>,
    len: Option<usize>,
) -> Result<Layout, Seq<char>> {
    if name == "void"@ {
        Ok(Layout::Void)
    } else {
        signature_layout(name, structs, enums, len, RETURN_ARRAY_KEY@)
    }
}

/// Resolves a parameter or return type. An array takes its length from `array_lengths`
/// under `key`; a narrow integer element packs to its own width.
pub fn resolve_signature_native_type(
    ty: &TypeRef,
    structs: &[IrStructDef],
    enums: &[IrEnumDef],
    array_lengths: &ArrayLengths,
    key: &str,
) -> (result: Result<NativeType, String>)
    requires
        signature_expands(ty@, struct_decls(structs@), enum_decls(enums@)),
    ensures
        result_layout(result) == signature_layout(
            ty@,
            struct_decls(structs@),
            enum_decls(enums@),
            array_lengths.length(key@),
            key@,
        ),
    decreases ty@.len(),
{
    proof {
        reveal_strlit("array<");
        assert(NativeType::String@ == Layout::Text);
    }
    if is_heap_string_array(ty) {
        return Ok(NativeType::List { elem: Box::new(NativeType::String) });
    }
    let name = ty.name.as_str();
    if begins_with(name, "array<") {
        let n: usize = name.unicode_len();
        let ghost rest = name@.skip(6);
        let end: usize = if n > 6 && name.get_char(n - 1) == '>' {
            n - 1
        } else {
            n
        };
        let elem_name = name.substring_char(6, end);
        assert(elem_name@ =~= array_element(name@));
        let elem = match narrow_array_element(elem_name) {
            Some(packed) => packed,
            None => match resolve_signature_native_type(
                &TypeRef::new(elem_name),
                structs,
                enums,
                array_lengths,
                key,
            ) {
                Ok(elem) => elem,
                Err(why) => {
                    return Err(why);
                },
            },
        };
        let len = match array_lengths.get(key) {
            Some(len) => len,
            None => {
                return Err(
                    message(
                        "array length for signature slot `",
                        key,
                        "` could not be inferred",
                    ),
                );
            },
        };
        if len == FAT_ARRAY_LEN {
            return Ok(NativeType::FatArray { elem: Box::new(elem) });
        }
        return Ok(NativeType::Array { elem: Box::new(elem), len });
    }
    resolve_native_type(ty, structs, enums)
}

/// Resolves a return type. Here alone `void` resolves: it is the absence of a value.
pub fn resolve_return_native_type(
    ty: &TypeRef,
    structs: &[IrStructDef],
    enums: &[IrEnumDef],
    array_lengths: &ArrayLengths,
) -> (result: Result<NativeType, String>)
    requires
        ty@ == "void"@ || signature_expands(ty@, struct_decls(structs@), enum_decls(enums@)),
    ensures
        result_layout(result) == return_layout(
            ty@,
            struct_decls(structs@),
            enum_decls(enums@),
            array_lengths.length(RETURN_ARRAY_KEY@),
        ),
{
    if ty.is_void() {
        return Ok(NativeType::Void);
    }
    resolve_signature_native_type(ty, structs, enums, array_lengths, RETURN_ARRAY_KEY)
}

/// Whether a signature slot crosses a call by pointer: a fixed array, or a type whose
/// layout is an aggregate.
pub open spec fn crosses_by_pointer(
    name: Seq<char>,
    structs: Seq<StructDecl>,
    enums: Seq<EnumDecl>,
) -> Result<bool, Seq<char>> {
    if heap_string_array(name) {
        Ok(false)
    } else if starts_with(name, "array<"@) {
        Ok(true)
    } else {
        match layout_of(name, structs, enums) {
            Ok(layout) => Ok(aggregate(layout)),
            Err(why) => Err(why),
        }
    }
}

/// Whether a signature slot crosses a call by pointer.
pub fn native_signature_type_is_aggregate(
    ty: &TypeRef,
    structs: &[IrStructDef],
    enums: &[IrEnumDef],
) -> (result: Result<bool, String>)
    requires
        expands(ty@, struct_decls(structs@), enum_decls(enums@)),
    ensures
        match result {
            Ok(is) => crosses_by_pointer(ty@, struct_decls(structs@), enum_decls(enums@)) == Ok::<
                bool,
                Seq<char>,
            >(is),
            Err(why) => crosses_by_pointer(ty@, struct_decls(structs@), enum_decls(enums@))
                == Err::<bool, Seq<char>>(why@),
        },
{
    if is_heap_string_array(ty) {
        return Ok(false);
    }
    if begins_with(ty.name.as_str(), "array<") {
        return Ok(true);
    }
    match resolve_native_type(ty, structs, enums) {
        Ok(native) => Ok(native.is_aggregate()),
        Err(why) => Err(why),
    }
}

// Laws

/// A signature slot never resolves to the absent value: that comes from a `void` return
/// alone.
pub proof fn law_void_comes_from_returns_alone(
    name: Seq<char>,
    structs: Seq<StructDecl>,
    enums: Seq<EnumDecl>,
    len: Option<usize>,
    key: Seq<char>,
)
    requires
        signature_expands(name, structs, enums),
    ensures
        signature_layout(name, structs, enums, len, key) matches Ok(layout) ==> !(layout is Void),
        return_layout(name, structs, enums, len) matches Ok(layout) ==> (layout is Void <==> name
            == "void"@),
{
    lemma_signature_is_valued(name, structs, enums, len, key);
    lemma_signature_is_valued(name, structs, enums, len, RETURN_ARRAY_KEY@);
}

proof fn lemma_signature_is_valued(
    name: Seq<char>,
    structs: Seq<StructDecl>,
    enums: Seq<EnumDecl>,
    len: Option<usize>,
    key: Seq<char>,
)
    requires
        signature_expands(name, structs, enums),
    ensures
        signature_layout(name, structs, enums, len, key) matches Ok(layout) ==> !(layout is Void)
            && !(layout is Narrow),
{
    if !heap_string_array(name) && !(starts_with(name, "array<"@) && name.len() >= 6) {
        let depth = choose|depth: nat|
            (#[trigger] crate::resolve::resolved(name, structs, enums, depth)) is Some;
        crate::resolve::law_resolved_layouts_are_solid(name, structs, enums, depth);
    }
}

/// `void` is no type of a value: it resolves nowhere but as a return type, unless a struct
/// or enum takes its name.
pub proof fn law_void_is_no_value_type(
    structs: Seq<StructDecl>,
    enums: Seq<EnumDecl>,
    len: Option<usize>,
    key: Seq<char>,
)
    requires
        crate::resolve::find_struct(structs, "void"@, 0) is None,
        crate::resolve::find_enum(enums, "void"@, 0) is None,
    ensures
        signature_expands("void"@, structs, enums),
        signature_layout("void"@, structs, enums, len, key) is Err,
        layout_of("void"@, structs, enums) is Err,
        return_layout("void"@, structs, enums, len) == Ok::<Layout, Seq<char>>(Layout::Void),
{
    reveal_strlit("void");
    reveal_strlit("array<");
    reveal_strlit("array");
    reveal_strlit("ptr<");
    reveal_strlit("ptr_");
    reveal_strlit("list<");
    reveal_strlit("map<");
    reveal_strlit("option");
    reveal_strlit("result");
    let name = "void"@;
    assert(crate::spelling::open_bracket(name, 0) == 4) by {
        reveal_with_fuel(crate::spelling::open_bracket, 6);
    }
    assert(crate::resolve::ctor_name(name) =~= name);
    lemma_void_is_no_scalar();
    assert(name.take(4)[0] == 'v');
    assert("ptr<"@[0] == 'p' && "ptr_"@[0] == 'p' && "map<"@[0] == 'm');
    assert(!starts_with(name, "ptr<"@));
    assert(!starts_with(name, "ptr_"@));
    assert(!starts_with(name, "map<"@));
    crate::resolve::law_plain_types_expand(name, structs, enums);
}

proof fn lemma_void_is_no_scalar()
    ensures
        crate::resolve::scalar_layout("void"@) is None,
{
    reveal_strlit("void");
    reveal_strlit("i64");
    reveal_strlit("i8");
    reveal_strlit("i16");
    reveal_strlit("i32");
    reveal_strlit("u8");
    reveal_strlit("u16");
    reveal_strlit("u32");
    reveal_strlit("u64");
    reveal_strlit("isize");
    reveal_strlit("usize");
    reveal_strlit("bool");
    reveal_strlit("char");
    reveal_strlit("byte");
    reveal_strlit("f64");
    reveal_strlit("f32");
    reveal_strlit("string");
    assert("void"@[0] == 'v');
    assert("bool"@[0] == 'b');
    assert("char"@[0] == 'c');
    assert("byte"@[0] == 'b');
}

/// An array type in a signature resolves as its element does, packed where that is a narrow
/// integer: an array of the given length, or one that carries its length along.
pub proof fn law_arrays_resolve_by_their_element(
    element: Seq<char>,
    structs: Seq<StructDecl>,
    enums: Seq<EnumDecl>,
    len: Option<usize>,
    key: Seq<char>,
)
    requires
        !heap_string_array("array<"@ + element + ">"@),
    ensures
        ({
            let whole = signature_layout("array<"@ + element + ">"@, structs, enums, len, key);
            let part = match narrow_element(element) {
                Some(packed) => Ok(packed),
                None => signature_layout(element, structs, enums, len, key),
            };
            match part {
                Err(why) => whole == Err::<Layout, Seq<char>>(why),
                Ok(elem) => match len {
                    None => whole is Err,
                    Some(n) => if n == FAT_ARRAY_LEN {
                        whole == Ok::<Layout, Seq<char>>(Layout::FatArray { elem: Box::new(elem) })
                    } else {
                        whole == Ok::<Layout, Seq<char>>(
                            Layout::Array { elem: Box::new(elem), len: n as int },
                        )
                    },
                },
            }
        }),
{
    let name = "array<"@ + element + ">"@;
    reveal_strlit("array<");
    reveal_strlit(">");
    assert(name.take(6) =~= "array<"@);
    assert(name.skip(6) =~= element + ">"@);
    assert(name.skip(6).drop_last() =~= element);
}

/// A slot whose layout is an aggregate crosses a call by pointer, and one whose layout is
/// not crosses it in a register, but for an array that carries its length along: that is
/// passed by pointer too.
pub proof fn law_aggregates_cross_by_pointer(
    name: Seq<char>,
    structs: Seq<StructDecl>,
    enums: Seq<EnumDecl>,
    len: Option<usize>,
    key: Seq<char>,
)
    requires
        signature_layout(name, structs, enums, len, key) is Ok,
    ensures
        ({
            let layout = signature_layout(name, structs, enums, len, key)->Ok_0;
            crosses_by_pointer(name, structs, enums) == Ok::<bool, Seq<char>>(
                aggregate(layout) || (starts_with(name, "array<"@) && layout is FatArray),
            )
        }),
{
    reveal_strlit("array<");
}

} // verus!
