//! The target-neutral object model of a whole program.

use crate::assembler::{
    assembled, bytes_upto, law_assembled_is_tidy, offset, placed, references, refs_upto, Code,
    CodeRelocation, Reference,
};
use crate::bytes::le32;
use crate::entry::{
    freestanding_stub, freestanding_stub_program, windows_stub_program, ELF_ENTRY_SYMBOL, EntryStub,
    MACHO_ENTRY_SYMBOL, PlatformAbi,
};
use crate::image::{
    addressable, fields_inside, function_blobs, image, last_named, law_image_fields_inside,
    law_image_is_ordered, law_routines_are_aligned, lemma_last_named, offset_of, ordered, padded,
    start_of, Blob, LoweredNativeFunction, TextImage,
};
use crate::object_model::{
    ObjectMachine, ObjectModel, ObjectRelocation, ObjectRelocationKind, ObjectSection,
    ObjectSectionKind, ObjectSymbol, ObjectSymbolKind,
};
use crate::program_object::{
    lay_out, pack_strings, program_blobs, program_data, program_text, program_uses_heap_helpers,
    string_data, string_name, ALLOC_MODE_OFFSET, HEAP_BSS_SIZE, StringPool,
};
use crate::runtime::set::{helper_program, helper_symbols};
use crate::symbols::{
    lemma_name_starts, ALLOC_MODE_SYMBOL, HEAP_BASE_SYMBOL, HEAP_FREE_HEAD_SYMBOL, HEAP_NEXT_SYMBOL,
    MAIN_SYMBOL,
};
use crate::text::decimal_text;
use crate::x86::{rm_form, Insn};
use vstd::prelude::*;

verus! {

/// A symbol of the model.
pub struct NeutralSymbol {
    pub name: Seq<char>,
    pub section: Option<int>,
    pub value: int,
    pub kind: ObjectSymbolKind,
}

impl View for ObjectSymbol {
    type V = NeutralSymbol;

    open spec fn view(&self) -> NeutralSymbol {
        NeutralSymbol {
            name: self.name@,
            section: match self.section {
                Some(n) => Some(n as int),
                None => None,
            },
            value: self.value as int,
            kind: self.kind,
        }
    }
}

/// The symbols a symbol list stands for.
pub open spec fn neutral_views(symbols: Seq<ObjectSymbol>) -> Seq<NeutralSymbol> {
    symbols.map_values(|s: ObjectSymbol| s@)
}

/// The first symbol from position `i` on called `name`; the table's length when there
/// is none.
pub open spec fn index_from(symbols: Seq<NeutralSymbol>, name: Seq<char>, i: int) -> int
    decreases symbols.len() - i,
{
    if i >= symbols.len() {
        symbols.len() as int
    } else if symbols[i].name == name {
        i
    } else {
        index_from(symbols, name, i + 1)
    }
}

/// The index a reference to `name` resolves to.
pub open spec fn index_of(symbols: Seq<NeutralSymbol>, name: Seq<char>) -> int {
    index_from(symbols, name, 0)
}

/// A function symbol of the code section.
pub open spec fn code_symbol(name: Seq<char>, value: int) -> NeutralSymbol {
    NeutralSymbol { name, section: Some(0), value, kind: ObjectSymbolKind::Function }
}

/// A data symbol.
pub open spec fn data_symbol(name: Seq<char>, section: int, value: int) -> NeutralSymbol {
    NeutralSymbol { name, section: Some(section), value, kind: ObjectSymbolKind::Data }
}

/// A symbol that the linker binds.
pub open spec fn undefined(name: Seq<char>) -> NeutralSymbol {
    NeutralSymbol { name, section: None, value: 0, kind: ObjectSymbolKind::Function }
}

/// `symbols` with an undefined symbol added for each name among the first `n`
/// references that is not in the table yet.
pub open spec fn with_undefined(symbols: Seq<NeutralSymbol>, refs: Seq<Reference>, n: int) -> Seq<
    NeutralSymbol,
>
    decreases n,
{
    if n <= 0 {
        symbols
    } else {
        let before = with_undefined(symbols, refs, n - 1);
        if index_of(before, refs[n - 1].symbol) < before.len() {
            before
        } else {
            before.push(undefined(refs[n - 1].symbol))
        }
    }
}

/// The whole code of a program: the freestanding stub, the functions, and the helpers
/// where it has data.
pub open spec fn model_text(
    functions: Seq<LoweredNativeFunction>,
    strings: Option<Seq<Seq<char>>>,
    stub: EntryStub,
    abi: PlatformAbi,
) -> Code {
    let blobs = program_blobs(functions, strings);
    image(assembled(freestanding_stub_program(stub, abi)), blobs, blobs.len() as int)
}

/// One symbol per routine.
pub open spec fn routine_symbols(stub: Code, blobs: Seq<Blob>) -> Seq<NeutralSymbol> {
    Seq::new(
        blobs.len(),
        |i: int| code_symbol(blobs[i].name, offset_of(stub, blobs, blobs[i].name)),
    )
}

/// The entry point's symbol, when there is a stub.
pub open spec fn entry_symbols(stub: EntryStub, abi: PlatformAbi) -> Seq<NeutralSymbol> {
    if stub.emits() {
        seq![code_symbol(abi.spec_entry_symbol(), 0)]
    } else {
        seq![]
    }
}

/// The symbols of the string constants.
pub open spec fn string_symbols(strings: Seq<Seq<char>>) -> Seq<NeutralSymbol> {
    Seq::new(
        strings.len(),
        |i: int| data_symbol(string_name(i), 1, string_data(strings, i).len() as int),
    )
}

/// The symbols of the heap cells and region.
pub open spec fn heap_symbols() -> Seq<NeutralSymbol> {
    seq![
        data_symbol(HEAP_NEXT_SYMBOL@, 2, 0),
        data_symbol(HEAP_FREE_HEAD_SYMBOL@, 2, 8),
        data_symbol(HEAP_BASE_SYMBOL@, 2, 16),
        data_symbol(ALLOC_MODE_SYMBOL@, 2, ALLOC_MODE_OFFSET as int),
    ]
}

/// The symbols a program defines.
pub open spec fn defined_symbols(
    functions: Seq<LoweredNativeFunction>,
    strings: Option<Seq<Seq<char>>>,
    stub: EntryStub,
    abi: PlatformAbi,
) -> Seq<NeutralSymbol> {
    entry_symbols(stub, abi) + routine_symbols(
        assembled(freestanding_stub_program(stub, abi)),
        program_blobs(functions, strings),
    ) + match strings {
        Some(texts) => string_symbols(texts) + heap_symbols(),
        None => seq![],
    }
}

/// The symbol table: defined symbols first, then undefined externals.
pub open spec fn model_symbols(
    functions: Seq<LoweredNativeFunction>,
    strings: Option<Seq<Seq<char>>>,
    stub: EntryStub,
    abi: PlatformAbi,
) -> Seq<NeutralSymbol> {
    let refs = model_text(functions, strings, stub, abi).refs;
    with_undefined(defined_symbols(functions, strings, stub, abi), refs, refs.len() as int)
}

/// A code reference as a relocation: a branch to a function, a PC-relative access to
/// data.
pub open spec fn model_relocation(symbols: Seq<NeutralSymbol>, r: Reference) -> ObjectRelocation {
    let index = index_of(symbols, r.symbol);
    ObjectRelocation {
        offset: r.offset as u64,
        symbol: index as usize,
        kind: if symbols[index].kind == ObjectSymbolKind::Function {
            ObjectRelocationKind::Branch
        } else {
            ObjectRelocationKind::PcRel32
        },
    }
}

/// Whether `section` holds exactly `data`, of kind `kind`, without relocations.
pub open spec fn plain_section(
    section: ObjectSection,
    kind: ObjectSectionKind,
    data: Seq<u8>,
    size: int,
) -> bool {
    &&& section.kind == kind
    &&& section.data@ == data
    &&& section.size == size
    &&& section.relocations@.len() == 0
}

/// Whether `model` is the model of a program; `strings` is `None` for one without data.
pub open spec fn models(
    model: ObjectModel,
    functions: Seq<LoweredNativeFunction>,
    strings: Option<Seq<Seq<char>>>,
    stub: EntryStub,
    abi: PlatformAbi,
) -> bool {
    let text = model_text(functions, strings, stub, abi);
    let symbols = model_symbols(functions, strings, stub, abi);
    &&& model.machine == ObjectMachine::X86_64
    &&& neutral_views(model.symbols@) == symbols
    &&& match model.entry_symbol {
        Some(name) => stub.emits() && name@ == abi.spec_entry_symbol(),
        None => !stub.emits(),
    }
    &&& model.sections@.len() == if strings is Some {
        3int
    } else {
        1int
    }
    &&& model.sections@[0].kind == ObjectSectionKind::Text
    &&& model.sections@[0].data@ == text.bytes
    &&& model.sections@[0].size == text.bytes.len()
    &&& model.sections@[0].relocations@ == text.refs.map_values(
        |r: Reference| model_relocation(symbols, r),
    )
    &&& strings matches Some(texts) ==> {
        let data = string_data(texts, texts.len() as int);
        &&& plain_section(
            model.sections@[1],
            ObjectSectionKind::ReadOnlyData,
            data,
            data.len() as int,
        )
        &&& plain_section(
            model.sections@[2],
            ObjectSectionKind::Bss,
            seq![],
            HEAP_BSS_SIZE as int,
        )
    }
}

// Facts

proof fn lemma_index_from(symbols: Seq<NeutralSymbol>, name: Seq<char>, i: int)
    requires
        0 <= i <= symbols.len(),
    ensures
        i <= index_from(symbols, name, i) <= symbols.len(),
        index_from(symbols, name, i) < symbols.len() ==> symbols[index_from(
            symbols,
            name,
            i,
        )].name == name,
        forall|k: int|
            i <= k < index_from(symbols, name, i) ==> (#[trigger] symbols[k]).name != name,
    decreases symbols.len() - i,
{
    if i < symbols.len() && symbols[i].name != name {
        lemma_index_from(symbols, name, i + 1);
    }
}

/// Adding undefined symbols keeps the table, adds only undefined ones, and covers the
/// references.
proof fn lemma_with_undefined(symbols: Seq<NeutralSymbol>, refs: Seq<Reference>, n: int)
    requires
        0 <= n <= refs.len(),
    ensures
        ({
            let all = with_undefined(symbols, refs, n);
            &&& symbols.len() <= all.len() <= symbols.len() + n
            &&& forall|k: int| 0 <= k < symbols.len() ==> all[k] == symbols[k]
            &&& forall|k: int|
                symbols.len() <= k < all.len() ==> (#[trigger] all[k]).section is None
            &&& forall|j: int|
                0 <= j < n ==> exists|k: int|
                    0 <= k < all.len() && (#[trigger] all[k]).name == (#[trigger] refs[j]).symbol
        }),
    decreases n,
{
    if n > 0 {
        lemma_with_undefined(symbols, refs, n - 1);
        let before = with_undefined(symbols, refs, n - 1);
        let all = with_undefined(symbols, refs, n);
        lemma_index_from(before, refs[n - 1].symbol, 0);
        assert forall|j: int| 0 <= j < n implies exists|k: int|
            0 <= k < all.len() && (#[trigger] all[k]).name == (#[trigger] refs[j]).symbol by {
            if j < n - 1 {
                let k = choose|k: int|
                    0 <= k < before.len() && (#[trigger] before[k]).name == refs[j].symbol;
                assert(all[k] == before[k]);
            } else {
                let found = index_of(before, refs[j].symbol);
                if found < before.len() {
                    assert(all[found].name == refs[j].symbol);
                } else {
                    assert(all[before.len() as int].name == refs[j].symbol);
                }
            }
        }
    }
}

/// Every code reference resolves to a symbol of that name.
pub proof fn law_model_references_resolve(
    functions: Seq<LoweredNativeFunction>,
    strings: Option<Seq<Seq<char>>>,
    stub: EntryStub,
    abi: PlatformAbi,
    j: int,
)
    requires
        0 <= j < model_text(functions, strings, stub, abi).refs.len(),
    ensures
        ({
            let r = model_text(functions, strings, stub, abi).refs[j];
            let symbols = model_symbols(functions, strings, stub, abi);
            &&& 0 <= index_of(symbols, r.symbol) < symbols.len()
            &&& symbols[index_of(symbols, r.symbol)].name == r.symbol
        }),
{
    let refs = model_text(functions, strings, stub, abi).refs;
    let symbols = model_symbols(functions, strings, stub, abi);
    lemma_with_undefined(
        defined_symbols(functions, strings, stub, abi),
        refs,
        refs.len() as int,
    );
    assert(refs[j].symbol == refs[j].symbol);
    lemma_index_from(symbols, refs[j].symbol, 0);
}

/// Defined symbols come before undefined ones.
pub proof fn law_defined_symbols_come_first(
    functions: Seq<LoweredNativeFunction>,
    strings: Option<Seq<Seq<char>>>,
    stub: EntryStub,
    abi: PlatformAbi,
    i: int,
)
    requires
        0 <= i < model_symbols(functions, strings, stub, abi).len(),
    ensures
        model_symbols(functions, strings, stub, abi)[i].section is Some <==> i < defined_symbols(
            functions,
            strings,
            stub,
            abi,
        ).len(),
{
    let refs = model_text(functions, strings, stub, abi).refs;
    lemma_with_undefined(
        defined_symbols(functions, strings, stub, abi),
        refs,
        refs.len() as int,
    );
    assert(i < defined_symbols(functions, strings, stub, abi).len() ==> defined_symbols(
        functions,
        strings,
        stub,
        abi,
    )[i].section is Some);
}

/// A program's model hangs together: see [`ObjectModel::well_formed`].
pub proof fn law_model_is_well_formed(
    model: ObjectModel,
    functions: Seq<LoweredNativeFunction>,
    strings: Option<Seq<Seq<char>>>,
    stub: EntryStub,
    abi: PlatformAbi,
)
    requires
        models(model, functions, strings, stub, abi),
    ensures
        model.well_formed(),
{
    let text = model_text(functions, strings, stub, abi);
    let symbols = model_symbols(functions, strings, stub, abi);
    let defined = defined_symbols(functions, strings, stub, abi);
    assert(symbols.len() == model.symbols@.len());
    assert forall|i: int, j: int|
        0 <= i < model.sections@.len() && 0 <= j < model.sections@[i].relocations@.len() implies (
    #[trigger] model.sections@[i].relocations@[j]).symbol < model.symbols@.len() by {
        if i == 0 {
            law_model_references_resolve(functions, strings, stub, abi, j);
            assert(model.sections@[0].relocations@[j] == model_relocation(symbols, text.refs[j]));
        }
    }
    lemma_with_undefined(defined, text.refs, text.refs.len() as int);
    assert forall|i: int| 0 <= i < model.symbols@.len() implies match (
    #[trigger] model.symbols@[i]).section {
        Some(section) => section < model.sections@.len(),
        None => true,
    } by {
        assert(model.symbols@[i]@ == symbols[i]);
        if i < defined.len() {
            assert(symbols[i] == defined[i]);
        }
    }
}

/// The code section's relocations come in strictly ascending order of offset, provided each
/// function lists its own in such an order and inside its code.
pub proof fn law_model_relocations_ascend(
    model: ObjectModel,
    functions: Seq<LoweredNativeFunction>,
    strings: Option<Seq<Seq<char>>>,
    stub: EntryStub,
    abi: PlatformAbi,
    i: int,
    j: int,
)
    requires
        models(model, functions, strings, stub, abi),
        forall|k: int| 0 <= k < functions.len() ==> ordered((#[trigger] functions[k])@.code),
        0 <= i < j < model.sections@[0].relocations@.len(),
    ensures
        model.sections@[0].relocations@[i].offset < model.sections@[0].relocations@[j].offset,
{
    let text = model_text(functions, strings, stub, abi);
    let symbols = model_symbols(functions, strings, stub, abi);
    let blobs = program_blobs(functions, strings);
    let own = function_blobs(functions);
    let start = assembled(freestanding_stub_program(stub, abi));
    law_assembled_is_tidy(freestanding_stub_program(stub, abi));
    assert(ordered(start));
    assert forall|k: int| 0 <= k < blobs.len() implies ordered((#[trigger] blobs[k]).code) by {
        if k < own.len() {
            assert(blobs[k] == functions[k]@);
        } else {
            law_assembled_is_tidy(helper_program(helper_symbols()[k - own.len()]));
        }
    }
    law_image_is_ordered(start, blobs, blobs.len() as int);
    assert(model.sections@[0].relocations@[i] == model_relocation(symbols, text.refs[i]));
    assert(model.sections@[0].relocations@[j] == model_relocation(symbols, text.refs[j]));
    assert(text.refs[i].offset < text.refs[j].offset);
}

/// The four bytes that a relocation of the code section fills in lie inside the section,
/// provided those of each function lie inside its code.
pub proof fn law_model_relocations_stay_inside(
    model: ObjectModel,
    functions: Seq<LoweredNativeFunction>,
    strings: Option<Seq<Seq<char>>>,
    stub: EntryStub,
    abi: PlatformAbi,
    i: int,
)
    requires
        models(model, functions, strings, stub, abi),
        forall|k: int| 0 <= k < functions.len() ==> fields_inside((#[trigger] functions[k])@.code),
        0 <= i < model.sections@[0].relocations@.len(),
    ensures
        model.sections@[0].relocations@[i].offset + 4 <= model.sections@[0].size,
{
    let text = model_text(functions, strings, stub, abi);
    let symbols = model_symbols(functions, strings, stub, abi);
    let blobs = program_blobs(functions, strings);
    let own = function_blobs(functions);
    let start = assembled(freestanding_stub_program(stub, abi));
    law_assembled_is_tidy(freestanding_stub_program(stub, abi));
    assert(fields_inside(start));
    assert forall|k: int| 0 <= k < blobs.len() implies fields_inside((#[trigger] blobs[k]).code) by {
        if k < own.len() {
            assert(blobs[k] == functions[k]@);
        } else {
            law_assembled_is_tidy(helper_program(helper_symbols()[k - own.len()]));
        }
    }
    law_image_fields_inside(start, blobs, blobs.len() as int);
    assert(model.sections@[0].relocations@[i] == model_relocation(symbols, text.refs[i]));
    assert(text.refs[i].offset + 4 <= text.bytes.len());
}

// Platforms

/// Where the stub's system-call number stands in the code.
pub open spec fn in_exit_call(i: int) -> bool {
    12 <= i < 16
}

/// Whether two pieces of code differ in the system-call number at most.
pub open spec fn alike(a: Code, b: Code) -> bool {
    &&& 16 <= a.bytes.len()
    &&& a.bytes.len() == b.bytes.len()
    &&& a.refs == b.refs
    &&& forall|i: int|
        0 <= i < a.bytes.len() && !in_exit_call(i) ==> #[trigger] a.bytes[i] == b.bytes[i]
}

/// Whether no reference is to an entry point.
pub open spec fn spares_entry(refs: Seq<Reference>) -> bool {
    forall|j: int|
        0 <= j < refs.len() ==> (#[trigger] refs[j]).symbol != ELF_ENTRY_SYMBOL@ && refs[j].symbol
            != MACHO_ENTRY_SYMBOL@
}

/// The first bytes of the stub.
#[verifier::rlimit(20)]
proof fn lemma_stub_bytes(stub: EntryStub, abi: PlatformAbi)
    requires
        stub.emits(),
    ensures
        ({
            let code = assembled(freestanding_stub_program(stub, abi));
            let set = if stub == EntryStub::MainVoid {
                0x31u8
            } else {
                0x89
            };
            let reg = if stub == EntryStub::MainVoid {
                0xFFu8
            } else {
                0xC7
            };
            &&& code.bytes == seq![0x48u8, 0x83, 0xEC, 0x20, 0xE8, 0, 0, 0, 0, set, reg, 0xB8]
                + le32(abi.exit_call() as int) + seq![0x0Fu8, 0x05, 0xCC]
            &&& code.refs == seq![Reference { offset: 5, symbol: MAIN_SYMBOL@ }]
        }),
{
    let program = freestanding_stub_program(stub, abi);
    reveal(assembled);
    reveal(rm_form);
    reveal_with_fuel(bytes_upto, 7);
    reveal_with_fuel(refs_upto, 7);
    reveal_with_fuel(offset, 7);
    assert(program.len() == 6);
    assert(placed(program, 0) =~= seq![0x48u8, 0x83, 0xEC, 0x20]);
    assert(placed(program, 1) =~= seq![0xE8u8, 0, 0, 0, 0]);
    assert(placed(program, 2).len() == 2);
    assert(placed(program, 3) =~= seq![0xB8u8] + le32(abi.exit_call() as int));
    assert(placed(program, 4) =~= seq![0x0Fu8, 0x05]);
    assert(placed(program, 5) =~= seq![0xCCu8]);
}

proof fn lemma_images_alike(a: Code, b: Code, blobs: Seq<Blob>, n: int)
    requires
        alike(a, b),
        0 <= n <= blobs.len(),
    ensures
        alike(image(a, blobs, n), image(b, blobs, n)),
        forall|i: int|
            0 <= i < a.bytes.len() ==> #[trigger] image(a, blobs, n).bytes[i] == a.bytes[i],
        a.bytes.len() <= image(a, blobs, n).bytes.len(),
    decreases n,
{
    if n > 0 {
        lemma_images_alike(a, b, blobs, n - 1);
        let x = image(a, blobs, n - 1);
        let y = image(b, blobs, n - 1);
        assert(padded(x).bytes.len() == padded(y).bytes.len());
        let u = image(a, blobs, n);
        let v = image(b, blobs, n);
        assert(u.refs =~= v.refs);
        assert forall|i: int| 0 <= i < u.bytes.len()
            && !in_exit_call(i) implies #[trigger] u.bytes[i]
            == v.bytes[i] by {
            if i < x.bytes.len() {
                assert(x.bytes[i] == y.bytes[i]);
            }
        }
        assert forall|i: int| 0 <= i < a.bytes.len() implies #[trigger] u.bytes[i] == a.bytes[i] by {
            assert(x.bytes[i] == a.bytes[i]);
        }
    }
}

proof fn lemma_assembled_spares_entry(program: Seq<Insn>, n: int)
    requires
        0 <= n <= program.len(),
    ensures
        spares_entry(refs_upto(program, n)),
    decreases n,
{
    reveal_strlit("_start");
    reveal_strlit("start");
    if n > 0 {
        lemma_assembled_spares_entry(program, n - 1);
        if let Some(symbol) = program[n - 1].reference() {
            lemma_name_starts(symbol);
            assert(ELF_ENTRY_SYMBOL@[1] == 's');
            assert(MACHO_ENTRY_SYMBOL@[0] == 's');
        }
    }
}

proof fn lemma_image_spares_entry(stub: Code, blobs: Seq<Blob>, n: int)
    requires
        0 <= n <= blobs.len(),
        spares_entry(stub.refs),
        forall|k: int| 0 <= k < blobs.len() ==> spares_entry((#[trigger] blobs[k]).code.refs),
    ensures
        spares_entry(image(stub, blobs, n).refs),
    decreases n,
{
    if n > 0 {
        lemma_image_spares_entry(stub, blobs, n - 1);
        let before = padded(image(stub, blobs, n - 1));
        let last = blobs[n - 1].code;
        let whole = image(stub, blobs, n);
        assert(spares_entry(last.refs));
        assert forall|j: int| 0 <= j < whole.refs.len() implies (
        #[trigger] whole.refs[j]).symbol != ELF_ENTRY_SYMBOL@ && whole.refs[j].symbol
            != MACHO_ENTRY_SYMBOL@ by {
            if j < before.refs.len() {
                assert(whole.refs[j] == before.refs[j]);
            } else {
                let k = j - before.refs.len();
                assert(whole.refs[j].symbol == last.refs[k].symbol);
            }
        }
    }
}

/// Whether two symbol tables differ in the name of their first symbol at most, and that is
/// the entry point's.
pub open spec fn same_but_entry(a: Seq<NeutralSymbol>, b: Seq<NeutralSymbol>) -> bool {
    &&& 0 < a.len()
    &&& a.len() == b.len()
    &&& a[0] == code_symbol(ELF_ENTRY_SYMBOL@, 0)
    &&& b[0] == code_symbol(MACHO_ENTRY_SYMBOL@, 0)
    &&& forall|i: int| 0 < i < a.len() ==> #[trigger] a[i] == b[i]
}

proof fn lemma_same_index(a: Seq<NeutralSymbol>, b: Seq<NeutralSymbol>, name: Seq<char>, i: int)
    requires
        same_but_entry(a, b),
        name != ELF_ENTRY_SYMBOL@,
        name != MACHO_ENTRY_SYMBOL@,
        0 <= i <= a.len(),
    ensures
        index_from(a, name, i) == index_from(b, name, i),
        0 < index_from(a, name, i),
    decreases a.len() - i,
{
    if i < a.len() {
        lemma_same_index(a, b, name, i + 1);
        assert(i > 0 ==> a[i] == b[i]);
    }
}

proof fn lemma_same_undefined(
    a: Seq<NeutralSymbol>,
    b: Seq<NeutralSymbol>,
    refs: Seq<Reference>,
    n: int,
)
    requires
        same_but_entry(a, b),
        spares_entry(refs),
        0 <= n <= refs.len(),
    ensures
        same_but_entry(with_undefined(a, refs, n), with_undefined(b, refs, n)),
    decreases n,
{
    if n > 0 {
        lemma_same_undefined(a, b, refs, n - 1);
        lemma_same_index(
            with_undefined(a, refs, n - 1),
            with_undefined(b, refs, n - 1),
            refs[n - 1].symbol,
            0,
        );
    }
}

/// Whether two sections are the same.
pub open spec fn same_section(a: ObjectSection, b: ObjectSection) -> bool {
    &&& a.kind == b.kind
    &&& a.data@ == b.data@
    &&& a.size == b.size
    &&& a.relocations@ == b.relocations@
}

/// What the models of one program for Linux and for macOS share: all but the name of the
/// entry point and the four bytes of the system-call number.
pub open spec fn differ_in_exit_only(linux: ObjectModel, macos: ObjectModel) -> bool {
    let a = linux.sections@[0];
    let b = macos.sections@[0];
    &&& linux.machine == macos.machine
    &&& linux.entry_symbol matches Some(name) && name@ == ELF_ENTRY_SYMBOL@
    &&& macos.entry_symbol matches Some(name) && name@ == MACHO_ENTRY_SYMBOL@
    &&& same_but_entry(neutral_views(linux.symbols@), neutral_views(macos.symbols@))
    &&& linux.sections@.len() == macos.sections@.len()
    &&& forall|i: int|
        0 < i < linux.sections@.len() ==> same_section(
            #[trigger] linux.sections@[i],
            macos.sections@[i],
        )
    &&& a.kind == b.kind
    &&& a.size == b.size
    &&& a.relocations@ == b.relocations@
    &&& 16 <= a.data@.len()
    &&& a.data@.len() == b.data@.len()
    &&& forall|i: int|
        0 <= i < a.data@.len() && !in_exit_call(i) ==> #[trigger] a.data@[i] == b.data@[i]
    &&& a.data@.subrange(12, 16) == seq![0x3Cu8, 0, 0, 0]
    &&& b.data@.subrange(12, 16) == seq![1u8, 0, 0, 2]
}

proof fn lemma_text_spares_entry(
    functions: Seq<LoweredNativeFunction>,
    strings: Option<Seq<Seq<char>>>,
    stub: EntryStub,
    abi: PlatformAbi,
)
    requires
        forall|k: int|
            0 <= k < functions.len() ==> spares_entry((#[trigger] functions[k])@.code.refs),
    ensures
        spares_entry(model_text(functions, strings, stub, abi).refs),
{
    let start = freestanding_stub_program(stub, abi);
    let blobs = program_blobs(functions, strings);
    let own = function_blobs(functions);
    reveal(assembled);
    lemma_assembled_spares_entry(start, start.len() as int);
    assert forall|k: int| 0 <= k < blobs.len() implies spares_entry(
        (#[trigger] blobs[k]).code.refs,
    ) by {
        if k < own.len() {
            assert(blobs[k] == functions[k]@);
        } else {
            let program = helper_program(helper_symbols()[k - own.len()]);
            lemma_assembled_spares_entry(program, program.len() as int);
        }
    }
    lemma_image_spares_entry(assembled(start), blobs, blobs.len() as int);
}

/// The stubs of the two platforms differ in the system-call number only.
proof fn lemma_stubs_alike(stub: EntryStub)
    requires
        stub.emits(),
    ensures
        alike(
            assembled(freestanding_stub_program(stub, PlatformAbi::Linux)),
            assembled(freestanding_stub_program(stub, PlatformAbi::MacOs)),
        ),
        alike(
            assembled(freestanding_stub_program(stub, PlatformAbi::MacOs)),
            assembled(freestanding_stub_program(stub, PlatformAbi::Linux)),
        ),
{
    lemma_stub_bytes(stub, PlatformAbi::Linux);
    lemma_stub_bytes(stub, PlatformAbi::MacOs);
}

proof fn lemma_symbols_alike(
    functions: Seq<LoweredNativeFunction>,
    strings: Option<Seq<Seq<char>>>,
    stub: EntryStub,
)
    requires
        stub.emits(),
        spares_entry(model_text(functions, strings, stub, PlatformAbi::Linux).refs),
    ensures
        same_but_entry(
            model_symbols(functions, strings, stub, PlatformAbi::Linux),
            model_symbols(functions, strings, stub, PlatformAbi::MacOs),
        ),
{
    let one = assembled(freestanding_stub_program(stub, PlatformAbi::Linux));
    let other = assembled(freestanding_stub_program(stub, PlatformAbi::MacOs));
    let blobs = program_blobs(functions, strings);
    let n = blobs.len() as int;
    let refs = model_text(functions, strings, stub, PlatformAbi::Linux).refs;
    lemma_stubs_alike(stub);
    lemma_images_alike(one, other, blobs, n);
    let a = defined_symbols(functions, strings, stub, PlatformAbi::Linux);
    let b = defined_symbols(functions, strings, stub, PlatformAbi::MacOs);
    assert forall|i: int| 0 <= i < blobs.len() implies offset_of(
        one,
        blobs,
        (#[trigger] blobs[i]).name,
    ) == offset_of(other, blobs, blobs[i].name) by {
        let at = last_named(blobs, blobs[i].name, n);
        lemma_last_named(blobs, blobs[i].name, n);
        lemma_images_alike(one, other, blobs, at);
    }
    assert(routine_symbols(one, blobs) =~= routine_symbols(other, blobs));
    assert(same_but_entry(a, b));
    lemma_same_undefined(a, b, refs, refs.len() as int);
}

/// The Linux and the macOS model of one program differ in the entry symbol's name and in the
/// number of the system call that ends the process, and in nothing else, provided no function
/// refers to an entry point.
#[verifier::rlimit(40)]
pub proof fn law_platforms_differ_in_exit_only(
    linux: ObjectModel,
    macos: ObjectModel,
    functions: Seq<LoweredNativeFunction>,
    strings: Option<Seq<Seq<char>>>,
    stub: EntryStub,
)
    requires
        stub.emits(),
        models(linux, functions, strings, stub, PlatformAbi::Linux),
        models(macos, functions, strings, stub, PlatformAbi::MacOs),
        forall|k: int|
            0 <= k < functions.len() ==> spares_entry((#[trigger] functions[k])@.code.refs),
    ensures
        differ_in_exit_only(linux, macos),
{
    let one = assembled(freestanding_stub_program(stub, PlatformAbi::Linux));
    let other = assembled(freestanding_stub_program(stub, PlatformAbi::MacOs));
    let blobs = program_blobs(functions, strings);
    let n = blobs.len() as int;
    let text = image(one, blobs, n);
    let twin = image(other, blobs, n);
    lemma_stub_bytes(stub, PlatformAbi::Linux);
    lemma_stub_bytes(stub, PlatformAbi::MacOs);
    lemma_stubs_alike(stub);
    lemma_images_alike(one, other, blobs, n);
    lemma_images_alike(other, one, blobs, n);
    lemma_text_spares_entry(functions, strings, stub, PlatformAbi::Linux);
    lemma_symbols_alike(functions, strings, stub);
    let all = model_symbols(functions, strings, stub, PlatformAbi::Linux);
    let twins = model_symbols(functions, strings, stub, PlatformAbi::MacOs);
    assert forall|j: int| 0 <= j < text.refs.len() implies model_relocation(
        all,
        #[trigger] text.refs[j],
    ) == model_relocation(twins, text.refs[j]) by {
        law_model_references_resolve(functions, strings, stub, PlatformAbi::Linux, j);
        lemma_same_index(all, twins, text.refs[j].symbol, 0);
    }
    assert(linux.sections@[0].relocations@ =~= macos.sections@[0].relocations@);
    assert(linux.sections@[0].data@.subrange(12, 16) =~= le32(60)) by {
        assert forall|i: int| 12 <= i < 16 implies #[trigger] text.bytes[i] == le32(60)[i - 12] by {
            assert(text.bytes[i] == one.bytes[i]);
        }
    }
    assert(macos.sections@[0].data@.subrange(12, 16) =~= le32(0x200_0001)) by {
        assert forall|i: int| 12 <= i < 16 implies #[trigger] twin.bytes[i] == le32(
            0x200_0001,
        )[i - 12] by {
            assert(twin.bytes[i] == other.bytes[i]);
        }
    }
    assert(le32(60) =~= seq![0x3Cu8, 0, 0, 0]);
    assert(le32(0x200_0001) =~= seq![1u8, 0, 0, 2]);
    assert forall|i: int| 0 < i < linux.sections@.len() implies same_section(
        #[trigger] linux.sections@[i],
        macos.sections@[i],
    ) by {
        assert(linux.sections@[i].relocations@ =~= macos.sections@[i].relocations@);
    }
    assert forall|i: int| 0 <= i < text.bytes.len()
        && !in_exit_call(i) implies #[trigger] text.bytes[i]
        == twin.bytes[i] by {}
}

// Formats

/// Whether two images are the same but for the stubs they start with: from `from` on they
/// hold the same bytes, and after the stubs' own references the same references.
pub open spec fn same_after_stubs(
    one: Code,
    other: Code,
    stub: Code,
    other_stub: Code,
    from: int,
) -> bool {
    &&& one.bytes.len() == other.bytes.len()
    &&& forall|i: int|
        from <= i < one.bytes.len() ==> #[trigger] one.bytes[i] == other.bytes[i]
    &&& stub.refs.len() <= one.refs.len()
    &&& one.refs.len() - stub.refs.len() == other.refs.len() - other_stub.refs.len()
    &&& one.refs.take(stub.refs.len() as int) == stub.refs
    &&& other.refs.take(other_stub.refs.len() as int) == other_stub.refs
    &&& one.refs.skip(stub.refs.len() as int) == other.refs.skip(other_stub.refs.len() as int)
}

proof fn lemma_images_share(a: Code, b: Code, blobs: Seq<Blob>, n: int)
    requires
        padded(a).bytes.len() == padded(b).bytes.len(),
        0 < n <= blobs.len(),
    ensures
        padded(a).bytes.len() <= image(a, blobs, n).bytes.len(),
        same_after_stubs(
            image(a, blobs, n),
            image(b, blobs, n),
            a,
            b,
            padded(a).bytes.len() as int,
        ),
    decreases n,
{
    let u = image(a, blobs, n);
    let v = image(b, blobs, n);
    let x = image(a, blobs, n - 1);
    let y = image(b, blobs, n - 1);
    let from = padded(a).bytes.len() as int;
    if n > 1 {
        lemma_images_share(a, b, blobs, n - 1);
    }
    assert(padded(x).bytes.len() == padded(y).bytes.len());
    assert forall|i: int| from <= i < u.bytes.len() implies #[trigger] u.bytes[i]
        == v.bytes[i] by {
        if n > 1 && i < x.bytes.len() {
            assert(x.bytes[i] == y.bytes[i]);
        }
    }
    let more = blobs[n - 1].code.refs_at(padded(x).bytes.len() as int);
    assert(u.refs == x.refs + more);
    assert(v.refs == y.refs + more);
    assert(x.refs.len() >= a.refs.len() && y.refs.len() >= b.refs.len());
    assert(x.refs.take(a.refs.len() as int) =~= a.refs);
    assert(y.refs.take(b.refs.len() as int) =~= b.refs);
    assert(u.refs.take(a.refs.len() as int) =~= x.refs.take(a.refs.len() as int));
    assert(v.refs.take(b.refs.len() as int) =~= y.refs.take(b.refs.len() as int));
    assert(x.refs.skip(a.refs.len() as int) =~= y.refs.skip(b.refs.len() as int));
    assert(u.refs.skip(a.refs.len() as int) =~= x.refs.skip(a.refs.len() as int) + more);
    assert(v.refs.skip(b.refs.len() as int) =~= y.refs.skip(b.refs.len() as int) + more);
}

/// The Windows stub takes seventeen bytes and refers to `main` and to the exit import.
proof fn lemma_windows_stub(stub: EntryStub)
    requires
        stub.emits(),
    ensures
        assembled(windows_stub_program(stub)).bytes.len() == 17,
        assembled(windows_stub_program(stub)).refs.len() == 2,
{
    let program = windows_stub_program(stub);
    reveal(assembled);
    reveal(rm_form);
    reveal_with_fuel(bytes_upto, 6);
    reveal_with_fuel(refs_upto, 6);
    assert(program.len() == 5);
    assert(placed(program, 0).len() == 4);
    assert(placed(program, 1).len() == 5);
    assert(placed(program, 2).len() == 2);
    assert(placed(program, 3).len() == 5);
    assert(placed(program, 4).len() == 1);
}

/// The code of a program in a COFF object and in the neutral model differs in the entry stub
/// only. With a stub and a routine after it, both are equally long, agree from byte 32 on, and
/// refer to the same symbols at the same places after the stub's own references; without a
/// stub they are equal. Routines start at the same offsets.
pub proof fn law_formats_differ_in_stub_only(
    functions: Seq<LoweredNativeFunction>,
    strings: Option<Seq<Seq<char>>>,
    stub: EntryStub,
    abi: PlatformAbi,
)
    ensures
        ({
            let blobs = program_blobs(functions, strings);
            let windows = assembled(windows_stub_program(stub));
            let freestanding = assembled(freestanding_stub_program(stub, abi));
            let coff = program_text(functions, strings, stub);
            let neutral = model_text(functions, strings, stub, abi);
            &&& !stub.emits() ==> coff == neutral
            &&& stub.emits() && blobs.len() > 0 ==> same_after_stubs(
                coff,
                neutral,
                windows,
                freestanding,
                32,
            )
            &&& forall|i: int|
                0 <= i < blobs.len() ==> #[trigger] start_of(windows, blobs, i) == start_of(
                    freestanding,
                    blobs,
                    i,
                )
        }),
{
    let blobs = program_blobs(functions, strings);
    let windows = assembled(windows_stub_program(stub));
    let freestanding = assembled(freestanding_stub_program(stub, abi));
    if stub.emits() {
        lemma_windows_stub(stub);
        lemma_stub_bytes(stub, abi);
        assert(padded(windows).bytes.len() == 32);
        assert(padded(freestanding).bytes.len() == 32);
        if blobs.len() > 0 {
            lemma_images_share(windows, freestanding, blobs, blobs.len() as int);
        }
        assert forall|i: int| 0 <= i < blobs.len() implies #[trigger] start_of(windows, blobs, i)
            == start_of(freestanding, blobs, i) by {
            if i > 0 {
                lemma_images_share(windows, freestanding, blobs, i);
            }
        }
    }
}

// Building

/// The position of the first symbol called `name`; the table's length when there is
/// none.
fn position(symbols: &Vec<ObjectSymbol>, name: &String) -> (at: usize)
    ensures
        at == index_of(neutral_views(symbols@), name@),
        at <= symbols@.len(),
{
    let ghost views = neutral_views(symbols@);
    let mut i: usize = 0;
    while i < symbols.len()
        invariant
            i <= symbols@.len(),
            views == neutral_views(symbols@),
            index_of(views, name@) == index_from(views, name@, i as int),
        decreases symbols@.len() - i,
    {
        assert(views[i as int].name == symbols@[i as int].name@);
        if symbols[i].name == *name {
            return i;
        }
        i += 1;
    }
    i
}

/// Appends a symbol.
fn push_symbol(
    symbols: &mut Vec<ObjectSymbol>,
    name: String,
    section: Option<usize>,
    value: u64,
    kind: ObjectSymbolKind,
)
    ensures
        neutral_views(final(symbols)@) == neutral_views(old(symbols)@).push(
            NeutralSymbol {
                name: name@,
                section: match section {
                    Some(n) => Some(n as int),
                    None => None,
                },
                value: value as int,
                kind,
            },
        ),
{
    let symbol = ObjectSymbol { name, section, value, kind };
    let ghost view = symbol@;
    symbols.push(symbol);
    proof {
        assert(neutral_views(symbols@) =~= neutral_views(old(symbols)@).push(view));
    }
}

/// Appends the symbols of all routines.
fn push_routine_symbols(
    symbols: &mut Vec<ObjectSymbol>,
    text: &TextImage,
    Ghost(stub): Ghost<Code>,
    Ghost(blobs): Ghost<Seq<Blob>>,
)
    requires
        text.lays_out(stub, blobs),
    ensures
        neutral_views(final(symbols)@) == neutral_views(old(symbols)@) + routine_symbols(
            stub,
            blobs,
        ),
{
    let ghost start = neutral_views(symbols@);
    let ghost added = routine_symbols(stub, blobs);
    let mut i: usize = 0;
    while i < text.names.len()
        invariant
            i <= blobs.len(),
            text.lays_out(stub, blobs),
            added == routine_symbols(stub, blobs),
            neutral_views(symbols@) =~= start + added.take(i as int),
        decreases blobs.len() - i,
    {
        proof {
            assert(blobs[i as int].name == text.names@[i as int]@);
        }
        let value = text.offset_of(text.names[i].as_str(), Ghost(stub), Ghost(blobs));
        push_symbol(
            symbols,
            text.names[i].clone(),
            Some(0),
            value as u64,
            ObjectSymbolKind::Function,
        );
        proof {
            assert(added.take(i + 1) =~= added.take(i as int).push(added[i as int]));
        }
        i += 1;
    }
    assert(added.take(blobs.len() as int) =~= added);
}

/// Appends the symbols of the string constants and of the heap cells.
fn push_data_symbols(symbols: &mut Vec<ObjectSymbol>, offsets: &Vec<u32>, Ghost(texts): Ghost<
    Seq<Seq<char>>,
>)
    requires
        offsets@.len() == texts.len(),
        forall|i: int|
            0 <= i < offsets@.len() ==> #[trigger] offsets@[i] == string_data(texts, i).len(),
    ensures
        neutral_views(final(symbols)@) == neutral_views(old(symbols)@) + (string_symbols(texts)
            + heap_symbols()),
{
    let ghost start = neutral_views(symbols@);
    let ghost added = string_symbols(texts);
    let mut i: usize = 0;
    while i < offsets.len()
        invariant
            i <= offsets@.len() == texts.len(),
            added == string_symbols(texts),
            forall|k: int|
                0 <= k < offsets@.len() ==> #[trigger] offsets@[k] == string_data(texts, k).len(),
            neutral_views(symbols@) =~= start + added.take(i as int),
        decreases offsets@.len() - i,
    {
        let name = "__str".to_owned().concat(decimal_text(i).as_str());
        push_symbol(symbols, name, Some(1), offsets[i] as u64, ObjectSymbolKind::Data);
        proof {
            assert(added.take(i + 1) =~= added.take(i as int).push(added[i as int]));
        }
        i += 1;
    }
    assert(added.take(texts.len() as int) =~= added);
    let data = ObjectSymbolKind::Data;
    push_symbol(symbols, HEAP_NEXT_SYMBOL.to_owned(), Some(2), 0, data);
    push_symbol(symbols, HEAP_FREE_HEAD_SYMBOL.to_owned(), Some(2), 8, data);
    push_symbol(symbols, HEAP_BASE_SYMBOL.to_owned(), Some(2), 16, data);
    push_symbol(symbols, ALLOC_MODE_SYMBOL.to_owned(), Some(2), ALLOC_MODE_OFFSET as u64, data);
    proof {
        assert(neutral_views(symbols@) =~= start + (added + heap_symbols()));
    }
}

/// Adds an undefined symbol for every referenced name that is not in the table.
fn add_undefined(symbols: &mut Vec<ObjectSymbol>, relocations: &Vec<CodeRelocation>)
    ensures
        neutral_views(final(symbols)@) == with_undefined(
            neutral_views(old(symbols)@),
            references(relocations@),
            relocations@.len() as int,
        ),
{
    let ghost start = neutral_views(symbols@);
    let ghost refs = references(relocations@);
    let mut i: usize = 0;
    while i < relocations.len()
        invariant
            i <= relocations@.len(),
            refs == references(relocations@),
            neutral_views(symbols@) == with_undefined(start, refs, i as int),
        decreases relocations@.len() - i,
    {
        assert(refs[i as int] == relocations@[i as int]@);
        let at = position(symbols, &relocations[i].symbol);
        if at == symbols.len() {
            push_symbol(
                symbols,
                relocations[i].symbol.clone(),
                None,
                0,
                ObjectSymbolKind::Function,
            );
        }
        i += 1;
    }
}

/// Resolves code references to relocations.
fn resolve(symbols: &Vec<ObjectSymbol>, relocations: &Vec<CodeRelocation>) -> (records: Vec<
    ObjectRelocation,
>)
    requires
        forall|j: int|
            0 <= j < relocations@.len() ==> index_of(
                neutral_views(symbols@),
                (#[trigger] relocations@[j]).symbol@,
            ) < symbols@.len(),
    ensures
        records@ == references(relocations@).map_values(
            |r: Reference| model_relocation(neutral_views(symbols@), r),
        ),
{
    let ghost views = neutral_views(symbols@);
    let ghost all = references(relocations@).map_values(
        |r: Reference| model_relocation(views, r),
    );
    let mut records: Vec<ObjectRelocation> = Vec::new();
    let mut i: usize = 0;
    while i < relocations.len()
        invariant
            i <= relocations@.len() == all.len(),
            views == neutral_views(symbols@),
            all == references(relocations@).map_values(|r: Reference| model_relocation(views, r)),
            records@ =~= all.take(i as int),
            forall|j: int|
                0 <= j < relocations@.len() ==> index_of(
                    views,
                    (#[trigger] relocations@[j]).symbol@,
                ) < symbols@.len(),
        decreases relocations@.len() - i,
    {
        let at = position(symbols, &relocations[i].symbol);
        assert(views[at as int].kind == symbols@[at as int].kind);
        let kind = if symbols[at].kind == ObjectSymbolKind::Function {
            ObjectRelocationKind::Branch
        } else {
            ObjectRelocationKind::PcRel32
        };
        records.push(
            ObjectRelocation { offset: relocations[i].offset as u64, symbol: at, kind },
        );
        i += 1;
    }
    assert(all.take(i as int) =~= all);
    records
}

/// Builds the model of a native program for the ELF and Mach-O writers: the same code,
/// read-only data and zero-initialized data as the COFF object's, but led by the
/// freestanding entry stub.
pub fn build_object_model(
    functions: &Vec<LoweredNativeFunction>,
    strings: &StringPool,
    entry_stub: EntryStub,
    abi: PlatformAbi,
) -> (model: ObjectModel)
    requires
        addressable(
            model_text(functions@, program_data(functions@, strings.texts()), entry_stub, abi),
        ),
        string_data(strings.texts(), strings.texts().len() as int).len() <= u32::MAX,
    ensures
        models(
            model,
            functions@,
            program_data(functions@, strings.texts()),
            entry_stub,
            abi,
        ),
{
    let use_heap = !strings.is_empty() || program_uses_heap_helpers(functions);
    let ghost texts = program_data(functions@, strings.texts());
    let ghost code = assembled(freestanding_stub_program(entry_stub, abi));
    let ghost blobs = program_blobs(functions@, texts);
    let text = lay_out(functions, freestanding_stub(entry_stub, abi), use_heap, Ghost(texts));
    let mut symbols: Vec<ObjectSymbol> = Vec::new();
    assert(neutral_views(symbols@) =~= seq![]);
    let mut entry_symbol: Option<String> = None;
    if entry_stub.emits() {
        push_symbol(
            &mut symbols,
            abi.entry_symbol().to_owned(),
            Some(0),
            0,
            ObjectSymbolKind::Function,
        );
        entry_symbol = Some(abi.entry_symbol().to_owned());
    }
    assert(neutral_views(symbols@) =~= entry_symbols(entry_stub, abi));
    push_routine_symbols(&mut symbols, &text, Ghost(code), Ghost(blobs));
    let mut data_sections: Vec<ObjectSection> = Vec::new();
    if use_heap {
        let (rdata, offsets) = pack_strings(strings);
        push_data_symbols(&mut symbols, &offsets, Ghost(strings.texts()));
        let size: u64 = rdata.len() as u64;
        data_sections.push(
            ObjectSection {
                kind: ObjectSectionKind::ReadOnlyData,
                data: rdata,
                size,
                relocations: Vec::new(),
            },
        );
        data_sections.push(
            ObjectSection {
                kind: ObjectSectionKind::Bss,
                data: Vec::new(),
                size: HEAP_BSS_SIZE as u64,
                relocations: Vec::new(),
            },
        );
    }
    proof {
        assert(neutral_views(symbols@) =~= defined_symbols(functions@, texts, entry_stub, abi));
    }
    add_undefined(&mut symbols, &text.buffer.relocations);
    let ghost refs = references(text.buffer.relocations@);
    proof {
        assert forall|j: int| 0 <= j < text.buffer.relocations@.len() implies index_of(
            neutral_views(symbols@),
            (#[trigger] text.buffer.relocations@[j]).symbol@,
        ) < symbols@.len() by {
            assert(refs[j] == text.buffer.relocations@[j]@);
            law_model_references_resolve(functions@, texts, entry_stub, abi, j);
        }
    }
    let relocations = resolve(&symbols, &text.buffer.relocations);
    let size: u64 = text.buffer.code.len() as u64;
    let mut sections: Vec<ObjectSection> = Vec::new();
    sections.push(
        ObjectSection {
            kind: ObjectSectionKind::Text,
            data: text.buffer.code,
            size,
            relocations,
        },
    );
    sections.append(&mut data_sections);
    ObjectModel { sections, symbols, entry_symbol, machine: ObjectMachine::X86_64 }
}

/// A reader of the model who follows a relocation of its code section finds the place that
/// the code refers from, and a symbol with the name that it refers to there; the relocation
/// is a branch where that symbol is a function.
pub proof fn law_model_relocations_name_their_symbols(
    model: ObjectModel,
    functions: Seq<LoweredNativeFunction>,
    strings: Option<Seq<Seq<char>>>,
    stub: EntryStub,
    abi: PlatformAbi,
    j: int,
)
    requires
        models(model, functions, strings, stub, abi),
        addressable(model_text(functions, strings, stub, abi)),
        0 <= j < model_text(functions, strings, stub, abi).refs.len(),
        0 <= model_text(functions, strings, stub, abi).refs[j].offset,
    ensures
        model.sections@[0].relocations@.len() == model_text(
            functions,
            strings,
            stub,
            abi,
        ).refs.len(),
        ({
            let relocation = model.sections@[0].relocations@[j];
            let r = model_text(functions, strings, stub, abi).refs[j];
            &&& relocation.offset == r.offset
            &&& relocation.symbol < model.symbols@.len()
            &&& model.symbols@[relocation.symbol as int].name@ == r.symbol
            &&& (relocation.kind == ObjectRelocationKind::Branch) == (
            model.symbols@[relocation.symbol as int].kind == ObjectSymbolKind::Function)
        }),
{
    let symbols = model_symbols(functions, strings, stub, abi);
    let text = model_text(functions, strings, stub, abi);
    law_model_references_resolve(functions, strings, stub, abi, j);
    assert(model.sections@[0].relocations@[j] == model_relocation(symbols, text.refs[j]));
    assert(symbols.len() == model.symbols@.len());
    let index = index_of(symbols, text.refs[j].symbol);
    assert(model.symbols.len() == symbols.len());
    assert(index as usize == index);
    assert(text.refs[j].offset <= u32::MAX);
    assert(text.refs[j].offset as u64 == text.refs[j].offset);
    assert(neutral_views(model.symbols@)[index] == model.symbols@[index]@);
    assert(model.symbols@[index].name@ == symbols[index].name);
    assert(model.symbols@[index].kind == symbols[index].kind);
}

/// The symbol of each routine whose name is its own gives the place in the code section
/// where the routine's code stands, at a multiple of sixteen.
pub proof fn law_model_routines_stand_at_their_symbols(stub: Code, blobs: Seq<Blob>, i: int)
    requires
        0 <= i < blobs.len(),
        forall|k: int| i < k < blobs.len() ==> (#[trigger] blobs[k]).name != blobs[i].name,
    ensures
        ({
            let symbol = routine_symbols(stub, blobs)[i];
            let text = image(stub, blobs, blobs.len() as int).bytes;
            let length = blobs[i].code.bytes.len();
            &&& symbol.name == blobs[i].name
            &&& symbol.section == Some(0int)
            &&& symbol.kind == ObjectSymbolKind::Function
            &&& symbol.value % 16 == 0
            &&& 0 <= symbol.value
            &&& symbol.value + length <= text.len()
            &&& text.subrange(symbol.value, symbol.value + length) == blobs[i].code.bytes
        }),
{
    lemma_last_named(blobs, blobs[i].name, blobs.len() as int);
    law_routines_are_aligned(stub, blobs, i, blobs.len() as int);
}

/// The symbols of the string constants and of the heap cells stand for the same places in
/// the model as in a COFF object, whose sections are numbered one higher.
pub proof fn law_data_symbols_agree_with_coff(strings: Seq<Seq<char>>)
    ensures
        ({
            let here = string_symbols(strings) + heap_symbols();
            let coff = crate::program_object::string_symbols(strings)
                + crate::program_object::heap_symbols();
            &&& here.len() == coff.len()
            &&& forall|i: int|
                0 <= i < here.len() ==> {
                    &&& (#[trigger] here[i]).name == coff[i].name
                    &&& here[i].section == Some(coff[i].section_number - 1)
                    &&& here[i].value == coff[i].value
                    &&& here[i].kind != ObjectSymbolKind::Function
                    &&& !coff[i].is_function
                }
        }),
{
}

} // verus!
