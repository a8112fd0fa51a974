//! How values are laid out on the native stack.
//!
//! A value occupies a run of 8-byte words in its function's frame: a scalar or a heap
//! pointer one word, a struct the words of its fields in order, an array the span of its
//! elements, an enum one tag word and the payload words of its widest variant.

use crate::text::{decimal, same_text};
use crate::x86::FloatWidth;
use vstd::prelude::*;

verus! {

/// The stack layout of a native local value.
#[derive(Debug, PartialEq, Eq)]
pub enum NativeType {
    /// No value at all: the return layout of a function that declares no return type.
    /// It is the absence of a value, in return position only.
    Void,
    /// A single 8-byte integer word.
    I64,
    /// A single 8-byte word holding a double.
    F64,
    /// A single 8-byte word whose low four bytes hold a single.
    F32,
    /// A heap string: one word pointing to an immutable record.
    String,
    /// A struct flattened on the stack: its fields in order.
    Struct { name: String, fields: Vec<(String, NativeType)> },
    /// A struct on the heap: one word pointing to its field words. A struct takes this
    /// form as a collection element, a map value or an enum payload.
    HeapStruct { name: String, fields: Vec<(String, NativeType)> },
    /// A packed narrow integer of 1, 2 or 4 bytes. It appears only as the element of a
    /// fixed array; a narrow scalar is a full `I64` cell.
    Narrow { bytes: usize, signed: bool },
    /// A fixed-length array: its elements lie contiguously at their own width, in a
    /// whole number of words.
    Array { elem: Box<NativeType>, len: usize },
    /// A read-only array parameter of unknown length: a data pointer word, then the
    /// length word.
    FatArray { elem: Box<NativeType> },
    /// A growable list: one word pointing to its block.
    List { elem: Box<NativeType> },
    /// A growable map: one word pointing to its block.
    Mapping { key: Box<NativeType>, value: Box<NativeType> },
    /// A tagged enum: a tag word, then the shared payload region.
    Enum { name: String, variants: Vec<NativeEnumVariant>, payload_words: usize },
}

/// One variant of an enum layout: its name, its tag and its payload layouts.
#[derive(Debug, PartialEq, Eq)]
pub struct NativeEnumVariant {
    pub name: String,
    pub tag: i64,
    pub payload: Vec<NativeType>,
}

/// A layout.
#[verifier::ext_equal]
pub enum Layout {
    Void,
    I64,
    F64,
    F32,
    Text,
    Struct { name: Seq<char>, fields: Seq<(Seq<char>, Layout)> },
    HeapStruct { name: Seq<char>, fields: Seq<(Seq<char>, Layout)> },
    Narrow { bytes: int, signed: bool },
    Array { elem: Box<Layout>, len: int },
    FatArray { elem: Box<Layout> },
    List { elem: Box<Layout> },
    Mapping { key: Box<Layout>, value: Box<Layout> },
    Enum { name: Seq<char>, variants: Seq<Variant>, payload_words: int },
}

/// An enum variant.
#[verifier::ext_equal]
pub struct Variant {
    pub name: Seq<char>,
    pub tag: int,
    pub payload: Seq<Layout>,
}

/// The layouts of named fields.
pub open spec fn field_layouts(fields: Seq<(String, NativeType)>) -> Seq<(Seq<char>, Layout)>
    decreases fields,
{
    Seq::new(
        fields.len(),
        |i: int|
            if 0 <= i < fields.len() {
                (fields[i].0@, fields[i].1.layout())
            } else {
                (seq![], Layout::Void)
            },
    )
}

/// The layouts of a list.
pub open spec fn type_layouts(types: Seq<NativeType>) -> Seq<Layout>
    decreases types,
{
    Seq::new(
        types.len(),
        |i: int|
            if 0 <= i < types.len() {
                types[i].layout()
            } else {
                Layout::Void
            },
    )
}

/// The variants a list stands for.
pub open spec fn variant_layouts(variants: Seq<NativeEnumVariant>) -> Seq<Variant>
    decreases variants,
{
    Seq::new(
        variants.len(),
        |i: int|
            if 0 <= i < variants.len() {
                variants[i].layout()
            } else {
                Variant { name: seq![], tag: 0, payload: seq![] }
            },
    )
}

impl NativeEnumVariant {
    /// The variant this stands for.
    pub open spec fn layout(self) -> Variant
        decreases self,
    {
        Variant {
            name: self.name@,
            tag: self.tag as int,
            payload: type_layouts(self.payload@),
        }
    }
}

impl NativeType {
    /// The layout this stands for.
    pub open spec fn layout(self) -> Layout
        decreases self,
    {
        match self {
            NativeType::Void => Layout::Void,
            NativeType::I64 => Layout::I64,
            NativeType::F64 => Layout::F64,
            NativeType::F32 => Layout::F32,
            NativeType::String => Layout::Text,
            NativeType::Struct { name, fields } => Layout::Struct {
                name: name@,
                fields: field_layouts(fields@),
            },
            NativeType::HeapStruct { name, fields } => Layout::HeapStruct {
                name: name@,
                fields: field_layouts(fields@),
            },
            NativeType::Narrow { bytes, signed } => Layout::Narrow { bytes: bytes as int, signed },
            NativeType::Array { elem, len } => Layout::Array {
                elem: Box::new(elem.layout()),
                len: len as int,
            },
            NativeType::FatArray { elem } => Layout::FatArray { elem: Box::new(elem.layout()) },
            NativeType::List { elem } => Layout::List { elem: Box::new(elem.layout()) },
            NativeType::Mapping { key, value } => Layout::Mapping {
                key: Box::new(key.layout()),
                value: Box::new(value.layout()),
            },
            NativeType::Enum { name, variants, payload_words } => Layout::Enum {
                name: name@,
                variants: variant_layouts(variants@),
                payload_words: payload_words as int,
            },
        }
    }
}

impl View for NativeType {
    type V = Layout;

    open spec fn view(&self) -> Layout {
        self.layout()
    }
}

// Sizes

/// How many words the first `n` fields occupy.
pub open spec fn fields_words(fields: Seq<(Seq<char>, Layout)>, n: int) -> int
    decreases fields, n,
{
    if n <= 0 || n > fields.len() {
        0
    } else {
        fields_words(fields, n - 1) + words_of(fields[n - 1].1)
    }
}

/// The element stride: a packed element's own width, else whole words.
pub open spec fn byte_size_of(l: Layout) -> int
    decreases l, 1int,
{
    match l {
        Layout::Narrow { bytes, .. } => bytes,
        _ => 8 * words_of(l),
    }
}

/// How many 8-byte words a value of this layout occupies.
pub open spec fn words_of(l: Layout) -> int
    decreases l, 0int,
{
    match l {
        Layout::Void => 0,
        Layout::Struct { fields, .. } => fields_words(fields, fields.len() as int),
        Layout::Array { elem, len } => (byte_size_of(*elem) * len + 7) / 8,
        Layout::FatArray { .. } => 2,
        Layout::Enum { payload_words, .. } => 1 + payload_words,
        _ => 1,
    }
}

/// Whether every size computed for a value of this layout fits in a machine word.
pub open spec fn measurable(l: Layout) -> bool
    decreases l,
{
    match l {
        Layout::Struct { fields, .. } => {
            &&& forall|i: int| 0 <= i < fields.len() ==> measurable((#[trigger] fields[i]).1)
            &&& fields_words(fields, fields.len() as int) <= usize::MAX
        },
        Layout::Array { elem, len } => {
            &&& measurable(*elem)
            &&& byte_size_of(*elem) <= usize::MAX
            &&& byte_size_of(*elem) * len <= usize::MAX
        },
        Layout::Enum { payload_words, .. } => 1 + payload_words <= usize::MAX,
        _ => true,
    }
}

/// Whether a value crosses a call by pointer rather than in a register.
pub open spec fn aggregate(l: Layout) -> bool {
    l is Struct || l is Array || l is Enum
}

/// Whether a layout is made of scalars alone: no heap word anywhere.
pub open spec fn scalar_only(l: Layout) -> bool
    decreases l,
{
    match l {
        Layout::I64 | Layout::F64 | Layout::F32 | Layout::Narrow { .. } => true,
        Layout::Struct { fields, .. } => forall|i: int|
            0 <= i < fields.len() ==> scalar_only((#[trigger] fields[i]).1),
        Layout::Array { elem, .. } => scalar_only(*elem),
        Layout::Enum { variants, .. } => forall|i: int, k: int|
            0 <= i < variants.len() && 0 <= k < variants[i].payload.len() ==> scalar_only(
                #[trigger] variants[i].payload[k],
            ),
        _ => false,
    }
}

/// Whether a slot is an immutable string word or scalars alone.
pub open spec fn string_or_scalar(l: Layout) -> bool {
    l is Text || scalar_only(l)
}

/// Whether a layout holds strings one level deep at most: scalars alone, or a struct or enum
/// whose immediate slots are scalars and string words.
pub open spec fn supported_generic(l: Layout) -> bool {
    scalar_only(l) || match l {
        Layout::Struct { fields, .. } => forall|i: int|
            0 <= i < fields.len() ==> string_or_scalar((#[trigger] fields[i]).1),
        Layout::Enum { variants, .. } => forall|i: int, k: int|
            0 <= i < variants.len() && 0 <= k < variants[i].payload.len() ==> string_or_scalar(
                #[trigger] variants[i].payload[k],
            ),
        _ => false,
    }
}

// Laws

/// No value occupies no words and is no aggregate, so it reserves no result pointer.
pub proof fn law_void_occupies_nothing()
    ensures
        words_of(Layout::Void) == 0,
        !aggregate(Layout::Void),
{
}

/// An array's words cover its elements, with less than one word of padding.
pub proof fn law_array_words_cover_elements(elem: Layout, len: int)
    ensures
        ({
            let span = byte_size_of(elem) * len;
            let words = words_of(Layout::Array { elem: Box::new(elem), len });
            span <= 8 * words < span + 8
        }),
{
}

/// An array of whole-word elements is its elements' words, without padding.
pub proof fn law_word_array_is_unpadded(elem: Layout, len: int)
    requires
        !(elem is Narrow),
    ensures
        words_of(Layout::Array { elem: Box::new(elem), len }) == words_of(elem) * len,
{
    let w = words_of(elem);
    assert((8 * w) * len == 8 * (w * len)) by (nonlinear_arith);
}

/// Sizes are never negative where a length is none.
pub proof fn law_words_are_natural(l: Layout)
    requires
        natural(l),
    ensures
        words_of(l) >= 0,
    decreases l, 0int,
{
    match l {
        Layout::Struct { fields, .. } => {
            lemma_fields_words_natural(fields, fields.len() as int);
        },
        Layout::Array { elem, len } => {
            law_words_are_natural(*elem);
            let size = byte_size_of(*elem);
            assert(natural(*elem));
            assert(size * len >= 0) by (nonlinear_arith)
                requires
                    size >= 0,
                    len >= 0,
            ;
        },
        _ => {},
    }
}

proof fn lemma_fields_words_natural(fields: Seq<(Seq<char>, Layout)>, n: int)
    requires
        forall|i: int| 0 <= i < fields.len() ==> natural((#[trigger] fields[i]).1),
    ensures
        fields_words(fields, n) >= 0,
    decreases fields, n,
{
    if 0 < n <= fields.len() {
        lemma_fields_words_natural(fields, n - 1);
        law_words_are_natural(fields[n - 1].1);
    }
}

/// Whether every length in a layout is a natural number.
pub open spec fn natural(l: Layout) -> bool
    decreases l,
{
    match l {
        Layout::Struct { fields, .. } => forall|i: int|
            0 <= i < fields.len() ==> natural((#[trigger] fields[i]).1),
        Layout::Narrow { bytes, .. } => bytes >= 0,
        Layout::Array { elem, len } => natural(*elem) && len >= 0,
        Layout::Enum { payload_words, .. } => payload_words >= 0,
        _ => true,
    }
}

proof fn lemma_natural(ty: NativeType)
    ensures
        natural(ty@),
    decreases ty,
{
    match ty {
        NativeType::Struct { fields, .. } => {
            let views = field_layouts(fields@);
            assert forall|i: int| 0 <= i < views.len() implies natural((#[trigger] views[i]).1) by {
                lemma_natural(fields@[i].1);
            }
        },
        NativeType::Array { elem, .. } => {
            lemma_natural(*elem);
        },
        _ => {},
    }
}

// Measuring

impl NativeType {
    /// Whether this is an aggregate (struct, fixed array or enum), a value that crosses a
    /// call by pointer, rather than a scalar that passes in a register.
    pub fn is_aggregate(&self) -> (is: bool)
        ensures
            is == aggregate(self@),
    {
        match self {
            NativeType::Struct { .. } | NativeType::Array { .. } | NativeType::Enum { .. } => true,
            _ => false,
        }
    }

    /// The size in bytes when this sits as an array element.
    pub fn byte_size(&self) -> (size: usize)
        requires
            measurable(self@),
            byte_size_of(self@) <= usize::MAX,
        ensures
            size == byte_size_of(self@),
        decreases self, 1int,
    {
        proof {
            lemma_natural(*self);
            law_words_are_natural(self@);
        }
        match self {
            NativeType::Narrow { bytes, .. } => *bytes,
            _ => self.words() * 8,
        }
    }

    /// The number of 8-byte words this occupies on the stack.
    pub fn words(&self) -> (words: usize)
        requires
            measurable(self@),
        ensures
            words == words_of(self@),
        decreases self, 0int,
    {
        match self {
            NativeType::Void => 0,
            NativeType::Struct { fields, .. } => {
                let ghost views = field_layouts(fields@);
                let ghost n = views.len() as int;
                let mut total: usize = 0;
                let mut i: usize = 0;
                while i < fields.len()
                    invariant
                        i <= fields@.len(),
                        decreases_to!(self => fields),
                        views == field_layouts(fields@),
                        n == views.len(),
                        total == fields_words(views, i as int),
                        fields_words(views, n) <= usize::MAX,
                        forall|k: int| 0 <= k < n ==> measurable((#[trigger] views[k]).1),
                    decreases fields@.len() - i,
                {
                    proof {
                        assert(views[i as int].1 == fields@[i as int].1@);
                        lemma_fields_natural(fields@);
                        lemma_fields_words_grow(views, i + 1, n);
                        assert(fields_words(views, i + 1) == fields_words(views, i as int)
                            + words_of(views[i as int].1));
                    }
                    total = total + fields[i].1.words();
                    i += 1;
                }
                total
            },
            NativeType::Array { elem, len } => {
                proof {
                    lemma_natural(**elem);
                    law_words_are_natural(elem@);
                    let size = byte_size_of(elem@);
                    let count = *len as int;
                    assert(natural(elem@));
                    assert(size * count >= 0) by (nonlinear_arith)
                        requires
                            size >= 0,
                            count >= 0,
                    ;
                }
                let span: usize = elem.byte_size() * *len;
                if span % 8 == 0 {
                    span / 8
                } else {
                    span / 8 + 1
                }
            },
            NativeType::FatArray { .. } => 2,
            NativeType::Enum { payload_words, .. } => 1 + *payload_words,
            _ => 1,
        }
    }
}

proof fn lemma_fields_natural(fields: Seq<(String, NativeType)>)
    ensures
        forall|i: int|
            0 <= i < fields.len() ==> natural((#[trigger] field_layouts(fields)[i]).1),
{
    assert forall|i: int| 0 <= i < fields.len() implies natural(
        (#[trigger] field_layouts(fields)[i]).1,
    ) by {
        lemma_natural(fields[i].1);
    }
}

/// More fields occupy no fewer words.
pub proof fn lemma_fields_words_grow(fields: Seq<(Seq<char>, Layout)>, i: int, n: int)
    requires
        0 <= i <= n <= fields.len(),
        forall|k: int| 0 <= k < fields.len() ==> natural((#[trigger] fields[k]).1),
    ensures
        0 <= fields_words(fields, i) <= fields_words(fields, n),
    decreases n,
{
    lemma_fields_words_natural(fields, i);
    if i < n {
        lemma_fields_words_grow(fields, i, n - 1);
        law_words_are_natural(fields[n - 1].1);
    }
}

/// Whether a layout is made of scalars alone: integer cells, floats, packed elements, and
/// structs, arrays and enums of them. Any heap word makes it non-scalar, and an instantiation
/// of a generic type with such a layout is deferred.
pub fn is_scalar_only_layout(ty: &NativeType) -> (is: bool)
    ensures
        is == scalar_only(ty@),
    decreases ty,
{
    match ty {
        NativeType::I64 | NativeType::F64 | NativeType::F32 | NativeType::Narrow { .. } => true,
        NativeType::Struct { fields, .. } => {
            let ghost views = field_layouts(fields@);
            let mut i: usize = 0;
            while i < fields.len()
                invariant
                    i <= fields@.len(),
                    decreases_to!(ty => fields),
                    ty@ is Struct && ty@->Struct_fields == views,
                    views == field_layouts(fields@),
                    forall|k: int| 0 <= k < i ==> scalar_only((#[trigger] views[k]).1),
                decreases fields@.len() - i,
            {
                assert(views[i as int].1 == fields@[i as int].1@);
                if !is_scalar_only_layout(&fields[i].1) {
                    return false;
                }
                i += 1;
            }
            true
        },
        NativeType::Array { elem, .. } => is_scalar_only_layout(elem),
        NativeType::Enum { variants, .. } => {
            let ghost views = variant_layouts(variants@);
            let mut i: usize = 0;
            while i < variants.len()
                invariant
                    i <= variants@.len(),
                    decreases_to!(ty => variants),
                    ty@ is Enum && ty@->variants == views,
                    views == variant_layouts(variants@),
                    forall|m: int, k: int|
                        0 <= m < i && 0 <= k < views[m].payload.len() ==> scalar_only(
                            #[trigger] views[m].payload[k],
                        ),
                decreases variants@.len() - i,
            {
                let payload = &variants[i].payload;
                assert(views[i as int].payload == type_layouts(payload@));
                let mut j: usize = 0;
                while j < payload.len()
                    invariant
                        i < variants@.len(),
                        j <= payload@.len(),
                        decreases_to!(ty => variants),
                        ty@ is Enum && ty@->variants == views,
                        views == variant_layouts(variants@),
                        payload == variants@[i as int].payload,
                        views[i as int].payload == type_layouts(payload@),
                        forall|k: int|
                            0 <= k < j ==> scalar_only(
                                #[trigger] views[i as int].payload[k],
                            ),
                    decreases payload@.len() - j,
                {
                    assert(views[i as int].payload[j as int] == payload@[j as int]@);
                    if !is_scalar_only_layout(&payload[j]) {
                        return false;
                    }
                    j += 1;
                }
                i += 1;
            }
            true
        },
        _ => false,
    }
}

/// Whether a layout goes no deeper than one level of immutable strings: scalars alone, or a
/// struct or enum whose immediate fields or payloads are scalars and strings. An instantiation
/// of a generic type is held to [`is_scalar_only_layout`], which is narrower.
pub fn is_native_supported_generic_layout(ty: &NativeType) -> (is: bool)
    ensures
        is == supported_generic(ty@),
{
    if is_scalar_only_layout(ty) {
        return true;
    }
    match ty {
        NativeType::Struct { fields, .. } => {
            let ghost views = field_layouts(fields@);
            let mut i: usize = 0;
            while i < fields.len()
                invariant
                    i <= fields@.len(),
                    !scalar_only(ty@),
                    ty@ is Struct && ty@->Struct_fields == views,
                    views == field_layouts(fields@),
                    forall|k: int| 0 <= k < i ==> string_or_scalar((#[trigger] views[k]).1),
                decreases fields@.len() - i,
            {
                assert(views[i as int].1 == fields@[i as int].1@);
                if !is_one_level_string_or_scalar(&fields[i].1) {
                    return false;
                }
                i += 1;
            }
            true
        },
        NativeType::Enum { variants, .. } => {
            let ghost views = variant_layouts(variants@);
            let mut i: usize = 0;
            while i < variants.len()
                invariant
                    i <= variants@.len(),
                    !scalar_only(ty@),
                    ty@ is Enum && ty@->variants == views,
                    views == variant_layouts(variants@),
                    forall|m: int, k: int|
                        0 <= m < i && 0 <= k < views[m].payload.len() ==> string_or_scalar(
                            #[trigger] views[m].payload[k],
                        ),
                decreases variants@.len() - i,
            {
                let payload = &variants[i].payload;
                assert(views[i as int].payload == type_layouts(payload@));
                let mut j: usize = 0;
                while j < payload.len()
                    invariant
                        i < variants@.len(),
                        j <= payload@.len(),
                        !scalar_only(ty@),
                        ty@ is Enum && ty@->variants == views,
                        views == variant_layouts(variants@),
                        payload == variants@[i as int].payload,
                        views[i as int].payload == type_layouts(payload@),
                        forall|k: int|
                            0 <= k < j ==> string_or_scalar(
                                #[trigger] views[i as int].payload[k],
                            ),
                    decreases payload@.len() - j,
                {
                    assert(views[i as int].payload[j as int] == payload@[j as int]@);
                    if !is_one_level_string_or_scalar(&payload[j]) {
                        return false;
                    }
                    j += 1;
                }
                i += 1;
            }
            true
        },
        _ => false,
    }
}

/// Whether a slot may stand at the top level of a generic instantiation: an immutable
/// string word, or scalars alone.
fn is_one_level_string_or_scalar(ty: &NativeType) -> (is: bool)
    ensures
        is == string_or_scalar(ty@),
{
    match ty {
        NativeType::String => true,
        _ => is_scalar_only_layout(ty),
    }
}

/// Whether two types have the same layout.
pub fn same_layout(a: &NativeType, b: &NativeType) -> (same: bool)
    ensures
        same == (a@ == b@),
    decreases a,
{
    match (a, b) {
        (NativeType::Void, NativeType::Void) => true,
        (NativeType::I64, NativeType::I64) => true,
        (NativeType::F64, NativeType::F64) => true,
        (NativeType::F32, NativeType::F32) => true,
        (NativeType::String, NativeType::String) => true,
        (
            NativeType::Struct { name: m, fields: f },
            NativeType::Struct { name: n, fields: g },
        ) => *m == *n && same_fields(f, g),
        (
            NativeType::HeapStruct { name: m, fields: f },
            NativeType::HeapStruct { name: n, fields: g },
        ) => *m == *n && same_fields(f, g),
        (
            NativeType::Narrow { bytes: m, signed: s },
            NativeType::Narrow { bytes: n, signed: t },
        ) => *m == *n && *s == *t,
        (NativeType::Array { elem: e, len: m }, NativeType::Array { elem: f, len: n }) => *m == *n
            && same_layout(e, f),
        (NativeType::FatArray { elem: e }, NativeType::FatArray { elem: f }) => same_layout(e, f),
        (NativeType::List { elem: e }, NativeType::List { elem: f }) => same_layout(e, f),
        (
            NativeType::Mapping { key: k, value: v },
            NativeType::Mapping { key: l, value: w },
        ) => same_layout(k, l) && same_layout(v, w),
        (
            NativeType::Enum { name: m, variants: v, payload_words: p },
            NativeType::Enum { name: n, variants: w, payload_words: q },
        ) => *m == *n && *p == *q && same_variants(v, w),
        _ => false,
    }
}

fn same_fields(a: &Vec<(String, NativeType)>, b: &Vec<(String, NativeType)>) -> (same: bool)
    ensures
        same == (field_layouts(a@) == field_layouts(b@)),
    decreases a,
{
    let ghost f = field_layouts(a@);
    let ghost g = field_layouts(b@);
    if a.len() != b.len() {
        assert(f.len() != g.len());
        return false;
    }
    let mut i: usize = 0;
    while i < a.len()
        invariant
            i <= a@.len() == b@.len(),
            f == field_layouts(a@),
            g == field_layouts(b@),
            forall|k: int| 0 <= k < i ==> f[k] == g[k],
        decreases a@.len() - i,
    {
        assert(f[i as int] == (a@[i as int].0@, a@[i as int].1@));
        assert(g[i as int] == (b@[i as int].0@, b@[i as int].1@));
        if a[i].0 != b[i].0 || !same_layout(&a[i].1, &b[i].1) {
            return false;
        }
        i += 1;
    }
    assert(f =~= g);
    true
}

fn same_types(a: &Vec<NativeType>, b: &Vec<NativeType>) -> (same: bool)
    ensures
        same == (type_layouts(a@) == type_layouts(b@)),
    decreases a,
{
    let ghost f = type_layouts(a@);
    let ghost g = type_layouts(b@);
    if a.len() != b.len() {
        assert(f.len() != g.len());
        return false;
    }
    let mut i: usize = 0;
    while i < a.len()
        invariant
            i <= a@.len() == b@.len(),
            f == type_layouts(a@),
            g == type_layouts(b@),
            forall|k: int| 0 <= k < i ==> f[k] == g[k],
        decreases a@.len() - i,
    {
        assert(f[i as int] == a@[i as int]@);
        assert(g[i as int] == b@[i as int]@);
        if !same_layout(&a[i], &b[i]) {
            return false;
        }
        i += 1;
    }
    assert(f =~= g);
    true
}

fn same_variants(a: &Vec<NativeEnumVariant>, b: &Vec<NativeEnumVariant>) -> (same: bool)
    ensures
        same == (variant_layouts(a@) == variant_layouts(b@)),
    decreases a,
{
    let ghost f = variant_layouts(a@);
    let ghost g = variant_layouts(b@);
    if a.len() != b.len() {
        assert(f.len() != g.len());
        return false;
    }
    let mut i: usize = 0;
    while i < a.len()
        invariant
            i <= a@.len() == b@.len(),
            f == variant_layouts(a@),
            g == variant_layouts(b@),
            forall|k: int| 0 <= k < i ==> f[k] == g[k],
        decreases a@.len() - i,
    {
        assert(f[i as int] == a@[i as int].layout());
        assert(g[i as int] == b@[i as int].layout());
        if a[i].name != b[i].name || a[i].tag != b[i].tag || !same_types(
            &a[i].payload,
            &b[i].payload,
        ) {
            return false;
        }
        i += 1;
    }
    assert(f =~= g);
    true
}

impl NativeType {
    /// Another value with the same layout.
    pub fn duplicate(&self) -> (ty: NativeType)
        ensures
            ty@ == self@,
        decreases self,
    {
        match self {
            NativeType::Void => NativeType::Void,
            NativeType::I64 => NativeType::I64,
            NativeType::F64 => NativeType::F64,
            NativeType::F32 => NativeType::F32,
            NativeType::String => NativeType::String,
            NativeType::Struct { name, fields } => NativeType::Struct {
                name: name.clone(),
                fields: duplicate_fields(fields),
            },
            NativeType::HeapStruct { name, fields } => NativeType::HeapStruct {
                name: name.clone(),
                fields: duplicate_fields(fields),
            },
            NativeType::Narrow { bytes, signed } => NativeType::Narrow {
                bytes: *bytes,
                signed: *signed,
            },
            NativeType::Array { elem, len } => NativeType::Array {
                elem: Box::new(elem.duplicate()),
                len: *len,
            },
            NativeType::FatArray { elem } => NativeType::FatArray {
                elem: Box::new(elem.duplicate()),
            },
            NativeType::List { elem } => NativeType::List { elem: Box::new(elem.duplicate()) },
            NativeType::Mapping { key, value } => NativeType::Mapping {
                key: Box::new(key.duplicate()),
                value: Box::new(value.duplicate()),
            },
            NativeType::Enum { name, variants, payload_words } => NativeType::Enum {
                name: name.clone(),
                variants: duplicate_variants(variants),
                payload_words: *payload_words,
            },
        }
    }
}

fn duplicate_fields(fields: &Vec<(String, NativeType)>) -> (copy: Vec<(String, NativeType)>)
    ensures
        field_layouts(copy@) == field_layouts(fields@),
    decreases fields,
{
    let mut copy: Vec<(String, NativeType)> = Vec::new();
    let mut i: usize = 0;
    while i < fields.len()
        invariant
            i <= fields@.len(),
            copy@.len() == i,
            forall|k: int|
                0 <= k < i ==> (#[trigger] copy@[k]).0@ == fields@[k].0@ && copy@[k].1@
                    == fields@[k].1@,
        decreases fields@.len() - i,
    {
        copy.push((fields[i].0.clone(), fields[i].1.duplicate()));
        i += 1;
    }
    assert(field_layouts(copy@) =~= field_layouts(fields@));
    copy
}

fn duplicate_types(types: &Vec<NativeType>) -> (copy: Vec<NativeType>)
    ensures
        type_layouts(copy@) == type_layouts(types@),
    decreases types,
{
    let mut copy: Vec<NativeType> = Vec::new();
    let mut i: usize = 0;
    while i < types.len()
        invariant
            i <= types@.len(),
            copy@.len() == i,
            forall|k: int| 0 <= k < i ==> (#[trigger] copy@[k])@ == types@[k]@,
        decreases types@.len() - i,
    {
        copy.push(types[i].duplicate());
        i += 1;
    }
    assert(type_layouts(copy@) =~= type_layouts(types@));
    copy
}

fn duplicate_variants(variants: &Vec<NativeEnumVariant>) -> (copy: Vec<NativeEnumVariant>)
    ensures
        variant_layouts(copy@) == variant_layouts(variants@),
    decreases variants,
{
    let mut copy: Vec<NativeEnumVariant> = Vec::new();
    let mut i: usize = 0;
    while i < variants.len()
        invariant
            i <= variants@.len(),
            copy@.len() == i,
            forall|k: int| 0 <= k < i ==> (#[trigger] copy@[k]).layout() == variants@[k].layout(),
        decreases variants@.len() - i,
    {
        copy.push(
            NativeEnumVariant {
                name: variants[i].name.clone(),
                tag: variants[i].tag,
                payload: duplicate_types(&variants[i].payload),
            },
        );
        i += 1;
    }
    assert(variant_layouts(copy@) =~= variant_layouts(variants@));
    copy
}

// Names

/// The float width a type name stands for.
pub open spec fn float_width(name: Seq<char>) -> Option<FloatWidth> {
    if name == "f64"@ {
        Some(FloatWidth::F64)
    } else if name == "f32"@ {
        Some(FloatWidth::F32)
    } else {
        None
    }
}

impl FloatWidth {
    /// The float width a type name stands for, or nothing for a non-float type.
    pub fn from_type_name(name: &str) -> (width: Option<FloatWidth>)
        ensures
            width == float_width(name@),
    {
        if same_text(name, "f64") {
            Some(FloatWidth::F64)
        } else if same_text(name, "f32") {
            Some(FloatWidth::F32)
        } else {
            None
        }
    }
}

/// The packed layout of a narrow integer array element.
pub open spec fn narrow_element(name: Seq<char>) -> Option<Layout> {
    if name == "i8"@ {
        Some(Layout::Narrow { bytes: 1, signed: true })
    } else if name == "i16"@ {
        Some(Layout::Narrow { bytes: 2, signed: true })
    } else if name == "i32"@ {
        Some(Layout::Narrow { bytes: 4, signed: true })
    } else if name == "u8"@ || name == "byte"@ {
        Some(Layout::Narrow { bytes: 1, signed: false })
    } else if name == "u16"@ {
        Some(Layout::Narrow { bytes: 2, signed: false })
    } else if name == "u32"@ {
        Some(Layout::Narrow { bytes: 4, signed: false })
    } else {
        None
    }
}

/// The layout an optional type stands for.
pub open spec fn optional_layout(ty: Option<NativeType>) -> Option<Layout> {
    match ty {
        Some(ty) => Some(ty@),
        None => None,
    }
}

/// The packed layout of a narrow integer array element, or nothing for every other
/// element type, which keeps its whole words.
pub fn narrow_array_element(name: &str) -> (element: Option<NativeType>)
    ensures
        optional_layout(element) == narrow_element(name@),
{
    if same_text(name, "i8") {
        Some(NativeType::Narrow { bytes: 1, signed: true })
    } else if same_text(name, "i16") {
        Some(NativeType::Narrow { bytes: 2, signed: true })
    } else if same_text(name, "i32") {
        Some(NativeType::Narrow { bytes: 4, signed: true })
    } else if same_text(name, "u8") || same_text(name, "byte") {
        Some(NativeType::Narrow { bytes: 1, signed: false })
    } else if same_text(name, "u16") {
        Some(NativeType::Narrow { bytes: 2, signed: false })
    } else if same_text(name, "u32") {
        Some(NativeType::Narrow { bytes: 4, signed: false })
    } else {
        None
    }
}

/// A packed element's stride is a power of two, less than a word.
pub proof fn law_packed_strides(name: Seq<char>)
    requires
        narrow_element(name) is Some,
    ensures
        ({
            let stride = byte_size_of(narrow_element(name)->0);
            stride == 1 || stride == 2 || stride == 4
        }),
{
}

/// The words of a struct add up over its fields, wherever the list of fields is cut.
pub proof fn law_struct_words_add_up(
    name: Seq<char>,
    a: Seq<(Seq<char>, Layout)>,
    b: Seq<(Seq<char>, Layout)>,
)
    ensures
        words_of(Layout::Struct { name, fields: a + b }) == words_of(
            Layout::Struct { name, fields: a },
        ) + words_of(Layout::Struct { name, fields: b }),
        a.len() == 1 ==> words_of(Layout::Struct { name, fields: a }) == words_of(a[0].1),
{
    lemma_fields_words_join(a, b, b.len() as int);
    if a.len() == 1 {
        reveal_with_fuel(fields_words, 2);
    }
}

proof fn lemma_fields_words_join(
    a: Seq<(Seq<char>, Layout)>,
    b: Seq<(Seq<char>, Layout)>,
    n: int,
)
    requires
        0 <= n <= b.len(),
    ensures
        fields_words(a + b, a.len() + n) == fields_words(a, a.len() as int) + fields_words(b, n),
    decreases n,
{
    if n > 0 {
        lemma_fields_words_join(a, b, n - 1);
        assert((a + b)[a.len() + n - 1] == b[n - 1]);
    } else {
        lemma_fields_words_front(a, b, a.len() as int);
    }
}

proof fn lemma_fields_words_front(
    a: Seq<(Seq<char>, Layout)>,
    b: Seq<(Seq<char>, Layout)>,
    n: int,
)
    requires
        0 <= n <= a.len(),
    ensures
        fields_words(a + b, n) == fields_words(a, n),
    decreases n,
{
    if n > 0 {
        lemma_fields_words_front(a, b, n - 1);
        assert((a + b)[n - 1] == a[n - 1]);
    }
}

/// An integer type's name gives its sign and its width in bits: up to 32 bits its array
/// elements take that many bits, and from 64 on whole words.
pub proof fn law_integer_names_give_their_width(signed: bool, bytes: int)
    requires
        bytes == 1 || bytes == 2 || bytes == 4 || bytes == 8,
    ensures
        ({
            let sign = if signed {
                'i'
            } else {
                'u'
            };
            narrow_element(seq![sign] + decimal(8 * bytes)) == if bytes < 8 {
                Some(Layout::Narrow { bytes, signed })
            } else {
                None
            }
        }),
{
    reveal_strlit("i8");
    reveal_strlit("i16");
    reveal_strlit("i32");
    reveal_strlit("u8");
    reveal_strlit("u16");
    reveal_strlit("u32");
    reveal_strlit("byte");
    reveal_with_fuel(decimal, 3);
    let sign = if signed {
        'i'
    } else {
        'u'
    };
    let name = seq![sign] + decimal(8 * bytes);
    if bytes == 1 {
        assert(decimal(8) =~= seq!['8']);
        assert(name =~= seq![sign, '8']);
        assert(name =~= if signed { "i8"@ } else { "u8"@ });
    } else if bytes == 2 {
        assert(decimal(16) =~= seq!['1', '6']);
        assert(name =~= if signed { "i16"@ } else { "u16"@ });
    } else if bytes == 4 {
        assert(decimal(32) =~= seq!['3', '2']);
        assert(name =~= if signed { "i32"@ } else { "u32"@ });
    } else {
        assert(decimal(64) =~= seq!['6', '4']);
        assert(name =~= seq![sign, '6', '4']);
    }
    assert("i8"@[0] == 'i' && "i8"@.len() == 2 && "i8"@[1] == '8');
    assert("u8"@[0] == 'u' && "u8"@.len() == 2 && "u8"@[1] == '8');
    assert("i16"@[0] == 'i' && "i16"@.len() == 3 && "i16"@[1] == '1');
    assert("u16"@[0] == 'u' && "u16"@.len() == 3 && "u16"@[1] == '1');
    assert("i32"@[0] == 'i' && "i32"@.len() == 3 && "i32"@[1] == '3');
    assert("u32"@[0] == 'u' && "u32"@.len() == 3 && "u32"@[1] == '3');
    assert("byte"@.len() == 4);
}

} // verus!
