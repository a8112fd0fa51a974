//! COFF objects of whole programs.
//!
//! A program that needs no heap gets one code section: the entry stub followed by
//! every compiled function. One that does gets read-only data (the NUL-terminated
//! string constants, each named `__str{i}`) and a zero-initialized section (the heap
//! cells and region) besides, and the runtime helpers behind its functions. Relative
//! relocations bind every reference to its symbol.

use crate::assembler::{assembled, references, Code, CodeBuffer, CodeRelocation, Reference};
use crate::codeview::{
    build_debug_section, debug_refs, debug_section, line_views, refs_upto, DebugFunctionLine,
    DebugOptions, DebugReference, DebugReloc, LineEntry,
};
use crate::bytes::{read_le16, read_le32};
use crate::coff::{
    coff_object, coff_size, law_relocation_reads_back, lemma_layout_monotone, section_views,
    symbol_views, writable, write_coff, BSS_CHARACTERISTICS, DEBUG_S_CHARACTERISTICS,
    IMAGE_REL_AMD64_REL32, RDATA_CHARACTERISTICS, Section, SectionImage, SectionRelocation,
    SymbolDef, SymbolRecord, TEXT_CHARACTERISTICS,
};
use crate::entry::{windows_stub, windows_stub_program, EntryStub};
use crate::image::{
    addressable, function_blobs, image, law_routines_are_aligned, lemma_image_grows,
    lemma_image_prefix, lemma_last_named, offset_of, Blob, LoweredNativeFunction, TextImage,
};
use crate::runtime::HEAP_REGION_SIZE;
use crate::runtime::set::{
    heap_helper_symbols, heap_runtime_helpers, helper_blobs, helper_symbols, is_helper,
};
use crate::symbols::{
    ALLOC_MODE_SYMBOL, EXIT_PROCESS_SYMBOL, HEAP_BASE_SYMBOL, HEAP_FREE_HEAD_SYMBOL,
    HEAP_NEXT_SYMBOL, NATIVE_ENTRY_SYMBOL, Symbol,
};
use crate::text::{decimal, decimal_text, same_text};
use vstd::prelude::*;
use vstd::utf8::{encode_utf8, is_ascii_chars_encode_utf8};

verus! {

/// Where the arena-mode flag lies in the zero-initialized section: behind the bump
/// pointer, the free-list head and the heap region.
pub const ALLOC_MODE_OFFSET: u32 = 0x10_0010;

/// The size of the zero-initialized section.
pub const HEAP_BSS_SIZE: u32 = 0x10_0018;

/// The interned string constants of a program.
#[derive(Debug, PartialEq, Eq)]
pub struct StringPool {
    pub entries: Vec<String>,
}

impl StringPool {
    /// The constants.
    pub open spec fn texts(self) -> Seq<Seq<char>> {
        self.entries@.map_values(|s: String| s@)
    }

    /// Whether no constant was interned.
    pub fn is_empty(&self) -> (empty: bool)
        ensures
            empty == (self.texts().len() == 0),
    {
        self.entries.len() == 0
    }
}

// Symbols

/// The first symbol from position `i` on called `name`; the table's length when there
/// is none.
pub open spec fn index_from(symbols: Seq<SymbolRecord>, name: Seq<char>, i: int) -> int
    decreases symbols.len() - i,
{
    if i >= symbols.len() {
        symbols.len() as int
    } else if symbols[i].name == name {
        i
    } else {
        index_from(symbols, name, i + 1)
    }
}

/// The index a reference to `name` resolves to.
pub open spec fn index_of(symbols: Seq<SymbolRecord>, name: Seq<char>) -> int {
    index_from(symbols, name, 0)
}

/// A symbol that the linker binds.
pub open spec fn undefined(name: Seq<char>) -> SymbolRecord {
    SymbolRecord { name, section_number: 0, value: 0, is_function: true }
}

/// `symbols` with an undefined symbol added for each name among the first `n`
/// references that is not in the table yet.
pub open spec fn with_undefined(symbols: Seq<SymbolRecord>, refs: Seq<Reference>, n: int) -> Seq<
    SymbolRecord,
>
    decreases n,
{
    if n <= 0 {
        symbols
    } else {
        let before = with_undefined(symbols, refs, n - 1);
        if index_of(before, refs[n - 1].symbol) < before.len() {
            before
        } else {
            before.push(undefined(refs[n - 1].symbol))
        }
    }
}

/// A routine's symbol.
pub open spec fn routine_symbol(stub: Code, blobs: Seq<Blob>, i: int) -> SymbolRecord {
    SymbolRecord {
        name: blobs[i].name,
        section_number: 1,
        value: offset_of(stub, blobs, blobs[i].name),
        is_function: true,
    }
}

/// One symbol per routine.
pub open spec fn routine_symbols(stub: Code, blobs: Seq<Blob>) -> Seq<SymbolRecord> {
    Seq::new(blobs.len(), |i: int| routine_symbol(stub, blobs, i))
}

/// The entry point's symbol, when there is a stub.
pub open spec fn entry_symbols(stub: EntryStub) -> Seq<SymbolRecord> {
    if stub.emits() {
        seq![
            SymbolRecord {
                name: NATIVE_ENTRY_SYMBOL@,
                section_number: 1,
                value: 0,
                is_function: true,
            },
        ]
    } else {
        seq![]
    }
}

/// The imported process-exit routine, when there is a stub.
pub open spec fn exit_symbols(stub: EntryStub) -> Seq<SymbolRecord> {
    if stub.emits() {
        seq![undefined(EXIT_PROCESS_SYMBOL@)]
    } else {
        seq![]
    }
}

/// The name of string constant `i`.
pub open spec fn string_name(i: int) -> Seq<char> {
    "__str"@ + decimal(i)
}

/// The first `n` string constants, each ended by a NUL.
pub open spec fn string_data(strings: Seq<Seq<char>>, n: int) -> Seq<u8>
    decreases n,
{
    if n <= 0 {
        seq![]
    } else {
        string_data(strings, n - 1) + encode_utf8(strings[n - 1]) + seq![0u8]
    }
}

/// A data symbol.
pub open spec fn data_symbol(name: Seq<char>, section: int, value: int) -> SymbolRecord {
    SymbolRecord { name, section_number: section, value, is_function: false }
}

/// The symbols of the string constants.
pub open spec fn string_symbols(strings: Seq<Seq<char>>) -> Seq<SymbolRecord> {
    Seq::new(
        strings.len(),
        |i: int| data_symbol(string_name(i), 2, string_data(strings, i).len() as int),
    )
}

/// The symbols of the heap cells and region.
pub open spec fn heap_symbols() -> Seq<SymbolRecord> {
    seq![
        data_symbol(HEAP_NEXT_SYMBOL@, 3, 0),
        data_symbol(HEAP_FREE_HEAD_SYMBOL@, 3, 8),
        data_symbol(HEAP_BASE_SYMBOL@, 3, 16),
        data_symbol(ALLOC_MODE_SYMBOL@, 3, ALLOC_MODE_OFFSET as int),
    ]
}

// Objects

/// The routines of a program: its functions, then the helpers where it has data.
pub open spec fn program_blobs(
    functions: Seq<LoweredNativeFunction>,
    strings: Option<Seq<Seq<char>>>,
) -> Seq<Blob> {
    match strings {
        Some(_) => function_blobs(functions) + helper_blobs(),
        None => function_blobs(functions),
    }
}

/// The whole code of a program.
pub open spec fn program_text(
    functions: Seq<LoweredNativeFunction>,
    strings: Option<Seq<Seq<char>>>,
    stub: EntryStub,
) -> Code {
    let blobs = program_blobs(functions, strings);
    image(assembled(windows_stub_program(stub)), blobs, blobs.len() as int)
}

/// The symbols a program defines or imports by itself.
pub open spec fn own_symbols(
    functions: Seq<LoweredNativeFunction>,
    strings: Option<Seq<Seq<char>>>,
    stub: EntryStub,
) -> Seq<SymbolRecord> {
    entry_symbols(stub) + routine_symbols(
        assembled(windows_stub_program(stub)),
        program_blobs(functions, strings),
    ) + exit_symbols(stub) + match strings {
        Some(texts) => string_symbols(texts) + heap_symbols(),
        None => seq![],
    }
}

/// The symbol table of a program.
pub open spec fn program_symbols(
    functions: Seq<LoweredNativeFunction>,
    strings: Option<Seq<Seq<char>>>,
    stub: EntryStub,
) -> Seq<SymbolRecord> {
    let refs = program_text(functions, strings, stub).refs;
    with_undefined(own_symbols(functions, strings, stub), refs, refs.len() as int)
}

/// A code reference as a relocation record.
pub open spec fn text_relocation(symbols: Seq<SymbolRecord>, r: Reference) -> SectionRelocation {
    SectionRelocation {
        offset: r.offset as u32,
        symbol: index_of(symbols, r.symbol) as u32,
        kind: IMAGE_REL_AMD64_REL32,
    }
}

/// A debug reference as a relocation record.
pub open spec fn debug_relocation(
    symbols: Seq<SymbolRecord>,
    r: DebugReference,
) -> SectionRelocation {
    SectionRelocation {
        offset: r.offset as u32,
        symbol: index_of(symbols, r.symbol) as u32,
        kind: r.kind,
    }
}

/// The code section.
pub open spec fn text_section(text: Code, symbols: Seq<SymbolRecord>) -> Section {
    Section {
        name: encode_utf8(".text"@),
        data: text.bytes,
        reserved: None,
        relocations: text.refs.map_values(|r: Reference| text_relocation(symbols, r)),
        characteristics: TEXT_CHARACTERISTICS as int,
    }
}

/// The read-only data and the zero-initialized section.
pub open spec fn data_sections(strings: Seq<Seq<char>>) -> Seq<Section> {
    seq![
        Section {
            name: encode_utf8(".rdata"@),
            data: string_data(strings, strings.len() as int),
            reserved: None,
            relocations: seq![],
            characteristics: RDATA_CHARACTERISTICS as int,
        },
        Section {
            name: encode_utf8(".bss"@),
            data: seq![],
            reserved: Some(HEAP_BSS_SIZE as int),
            relocations: seq![],
            characteristics: BSS_CHARACTERISTICS as int,
        },
    ]
}

/// One line entry per function.
pub open spec fn line_entries(functions: Seq<LoweredNativeFunction>) -> Seq<LineEntry> {
    functions.map_values(
        |f: LoweredNativeFunction|
            LineEntry { symbol: f.name@, code_len: f.code@.len() as int, line: f.line },
    )
}

/// The debug section.
pub open spec fn debug_info_section(
    source_file: Seq<char>,
    functions: Seq<LoweredNativeFunction>,
    symbols: Seq<SymbolRecord>,
) -> Section {
    let entries = line_entries(functions);
    Section {
        name: encode_utf8(".debug$S"@),
        data: debug_section(source_file, entries),
        reserved: None,
        relocations: refs_upto(entries, entries.len() as int).map_values(
            |r: DebugReference| debug_relocation(symbols, r),
        ),
        characteristics: DEBUG_S_CHARACTERISTICS as int,
    }
}

/// The sections of a program: code; read-only and zero-initialized data where it has
/// data; debug information where it is asked for.
pub open spec fn program_sections(
    functions: Seq<LoweredNativeFunction>,
    strings: Option<Seq<Seq<char>>>,
    stub: EntryStub,
    debug: Option<Seq<char>>,
) -> Seq<Section> {
    let symbols = program_symbols(functions, strings, stub);
    seq![text_section(program_text(functions, strings, stub), symbols)] + (match strings {
        Some(texts) => data_sections(texts),
        None => seq![],
    }) + match debug {
        Some(source_file) => seq![debug_info_section(source_file, functions, symbols)],
        None => seq![],
    }
}

/// The COFF object of a program; `strings` is `None` for one without data.
pub open spec fn program_object(
    functions: Seq<LoweredNativeFunction>,
    strings: Option<Seq<Seq<char>>>,
    stub: EntryStub,
    debug: Option<Seq<char>>,
) -> Seq<u8> {
    coff_object(
        program_sections(functions, strings, stub, debug),
        program_symbols(functions, strings, stub),
    )
}

/// Whether every 32-bit field of the object can hold what it stands for.
pub open spec fn program_fits(
    functions: Seq<LoweredNativeFunction>,
    strings: Option<Seq<Seq<char>>>,
    stub: EntryStub,
    debug: Option<Seq<char>>,
) -> bool {
    &&& addressable(program_text(functions, strings, stub))
    &&& coff_size(
        program_sections(functions, strings, stub, debug),
        program_symbols(functions, strings, stub),
    ) <= u32::MAX
}

/// The debug request's source file.
pub open spec fn debug_source(debug: Option<&DebugOptions>) -> Option<Seq<char>> {
    match debug {
        Some(options) => Some(options.source_file@),
        None => None,
    }
}

/// Whether `name` belongs to the heap runtime: a helper's name, the bump pointer or the
/// arena-mode flag.
pub open spec fn needs_heap(name: Seq<char>) -> bool {
    ||| exists|i: int|
        0 <= i < helper_symbols().len() && (#[trigger] helper_symbols()[i]).spec_name() == name
    ||| name == HEAP_NEXT_SYMBOL@
    ||| name == ALLOC_MODE_SYMBOL@
}

/// Whether a function refers to the heap runtime.
pub open spec fn function_needs_heap(function: LoweredNativeFunction) -> bool {
    exists|j: int|
        0 <= j < function.relocations@.len() && needs_heap(
            (#[trigger] function.relocations@[j]).symbol@,
        )
}

/// Whether some function refers to the heap runtime.
pub open spec fn functions_need_heap(functions: Seq<LoweredNativeFunction>) -> bool {
    exists|i: int| 0 <= i < functions.len() && function_needs_heap(#[trigger] functions[i])
}

/// The data a program needs: none where it has no constants and does not refer to the
/// heap runtime.
pub open spec fn program_data(
    functions: Seq<LoweredNativeFunction>,
    strings: Seq<Seq<char>>,
) -> Option<Seq<Seq<char>>> {
    if strings.len() == 0 && !functions_need_heap(functions) {
        None
    } else {
        Some(strings)
    }
}

// Facts

pub proof fn lemma_index_from(symbols: Seq<SymbolRecord>, name: Seq<char>, i: int)
    requires
        0 <= i <= symbols.len(),
    ensures
        i <= index_from(symbols, name, i) <= symbols.len(),
        index_from(symbols, name, i) < symbols.len() ==> symbols[index_from(
            symbols,
            name,
            i,
        )].name == name,
        forall|k: int|
            i <= k < index_from(symbols, name, i) ==> (#[trigger] symbols[k]).name != name,
    decreases symbols.len() - i,
{
    if i < symbols.len() && symbols[i].name != name {
        lemma_index_from(symbols, name, i + 1);
    }
}

/// Adding undefined symbols keeps the table and covers the references.
pub proof fn lemma_with_undefined(symbols: Seq<SymbolRecord>, refs: Seq<Reference>, n: int)
    requires
        0 <= n <= refs.len(),
    ensures
        ({
            let all = with_undefined(symbols, refs, n);
            &&& symbols.len() <= all.len() <= symbols.len() + n
            &&& forall|k: int| 0 <= k < symbols.len() ==> all[k] == symbols[k]
            &&& forall|k: int|
                symbols.len() <= k < all.len() ==> (#[trigger] all[k]).section_number == 0
            &&& forall|j: int|
                0 <= j < n ==> exists|k: int|
                    0 <= k < all.len() && (#[trigger] all[k]).name == (#[trigger] refs[j]).symbol
        }),
    decreases n,
{
    if n > 0 {
        lemma_with_undefined(symbols, refs, n - 1);
        let before = with_undefined(symbols, refs, n - 1);
        let all = with_undefined(symbols, refs, n);
        lemma_index_from(before, refs[n - 1].symbol, 0);
        assert forall|j: int| 0 <= j < n implies exists|k: int|
            0 <= k < all.len() && (#[trigger] all[k]).name == (#[trigger] refs[j]).symbol by {
            if j < n - 1 {
                let k = choose|k: int|
                    0 <= k < before.len() && (#[trigger] before[k]).name == refs[j].symbol;
                assert(all[k] == before[k]);
            } else {
                let found = index_of(before, refs[j].symbol);
                if found < before.len() {
                    assert(all[found].name == refs[j].symbol);
                } else {
                    assert(all[before.len() as int].name == refs[j].symbol);
                }
            }
        }
    }
}

/// A name in the table is found.
pub proof fn lemma_index_of_found(symbols: Seq<SymbolRecord>, name: Seq<char>)
    requires
        exists|k: int| 0 <= k < symbols.len() && (#[trigger] symbols[k]).name == name,
    ensures
        0 <= index_of(symbols, name) < symbols.len(),
        symbols[index_of(symbols, name)].name == name,
{
    lemma_index_from(symbols, name, 0);
}

/// Every code reference of a program resolves to a symbol of that name.
pub proof fn law_references_resolve(
    functions: Seq<LoweredNativeFunction>,
    strings: Option<Seq<Seq<char>>>,
    stub: EntryStub,
    j: int,
)
    requires
        0 <= j < program_text(functions, strings, stub).refs.len(),
    ensures
        ({
            let r = program_text(functions, strings, stub).refs[j];
            let symbols = program_symbols(functions, strings, stub);
            &&& 0 <= index_of(symbols, r.symbol) < symbols.len()
            &&& symbols[index_of(symbols, r.symbol)].name == r.symbol
        }),
{
    let refs = program_text(functions, strings, stub).refs;
    let symbols = program_symbols(functions, strings, stub);
    lemma_with_undefined(own_symbols(functions, strings, stub), refs, refs.len() as int);
    assert(refs[j].symbol == refs[j].symbol);
    lemma_index_of_found(symbols, refs[j].symbol);
}

/// The debug request adds one section and nothing else: code, data and symbols are the
/// same with and without it.
pub proof fn law_debug_is_additive(
    functions: Seq<LoweredNativeFunction>,
    strings: Option<Seq<Seq<char>>>,
    stub: EntryStub,
    source_file: Seq<char>,
)
    ensures
        ({
            let plain = program_sections(functions, strings, stub, None);
            let debug = program_sections(functions, strings, stub, Some(source_file));
            &&& debug.len() == plain.len() + 1
            &&& debug.drop_last() == plain
            &&& debug.last().name == encode_utf8(".debug$S"@)
        }),
{
    let plain = program_sections(functions, strings, stub, None);
    let debug = program_sections(functions, strings, stub, Some(source_file));
    assert(debug.drop_last() =~= plain);
}

/// A program without data has a single section, one with data three.
pub proof fn law_section_count(
    functions: Seq<LoweredNativeFunction>,
    strings: Option<Seq<Seq<char>>>,
    stub: EntryStub,
)
    ensures
        program_sections(functions, strings, stub, None).len() == if strings is Some {
            3nat
        } else {
            1nat
        },
{
}

proof fn lemma_section_names()
    ensures
        encode_utf8(".text"@).len() == 5,
        encode_utf8(".rdata"@).len() == 6,
        encode_utf8(".bss"@).len() == 4,
        encode_utf8(".debug$S"@).len() == 8,
{
    reveal_strlit(".text");
    reveal_strlit(".rdata");
    reveal_strlit(".bss");
    reveal_strlit(".debug$S");
    is_ascii_chars_encode_utf8(".text"@);
    is_ascii_chars_encode_utf8(".rdata"@);
    is_ascii_chars_encode_utf8(".bss"@);
    is_ascii_chars_encode_utf8(".debug$S"@);
}

// Building

/// The position of the first symbol called `name`; the table's length when there is
/// none.
fn position(symbols: &Vec<SymbolDef>, name: &String) -> (at: usize)
    ensures
        at == index_of(symbol_views(symbols@), name@),
        at <= symbols@.len(),
{
    let ghost views = symbol_views(symbols@);
    let mut i: usize = 0;
    while i < symbols.len()
        invariant
            i <= symbols@.len(),
            views == symbol_views(symbols@),
            index_of(views, name@) == index_from(views, name@, i as int),
        decreases symbols@.len() - i,
    {
        assert(views[i as int].name == symbols@[i as int].name@);
        if symbols[i].name == *name {
            return i;
        }
        i += 1;
    }
    i
}

/// Appends a symbol.
fn push_symbol(
    symbols: &mut Vec<SymbolDef>,
    name: String,
    section_number: u16,
    value: u32,
    is_function: bool,
)
    ensures
        symbol_views(final(symbols)@) == symbol_views(old(symbols)@).push(
            SymbolRecord {
                name: name@,
                section_number: section_number as int,
                value: value as int,
                is_function,
            },
        ),
{
    let symbol = SymbolDef { name, section_number, value, is_function };
    let ghost view = symbol@;
    symbols.push(symbol);
    proof {
        assert(symbol_views(symbols@) =~= symbol_views(old(symbols)@).push(view));
    }
}

/// Adds an undefined symbol for every referenced name that is not in the table.
fn add_undefined(symbols: &mut Vec<SymbolDef>, relocations: &Vec<CodeRelocation>)
    ensures
        symbol_views(final(symbols)@) == with_undefined(
            symbol_views(old(symbols)@),
            references(relocations@),
            relocations@.len() as int,
        ),
{
    let ghost start = symbol_views(symbols@);
    let ghost refs = references(relocations@);
    let mut i: usize = 0;
    while i < relocations.len()
        invariant
            i <= relocations@.len(),
            refs == references(relocations@),
            symbol_views(symbols@) == with_undefined(start, refs, i as int),
        decreases relocations@.len() - i,
    {
        assert(refs[i as int] == relocations@[i as int]@);
        let at = position(symbols, &relocations[i].symbol);
        if at == symbols.len() {
            push_symbol(symbols, relocations[i].symbol.clone(), 0, 0, true);
        }
        i += 1;
    }
}

/// Lays out the program's code behind the code of its entry stub.
pub(crate) fn lay_out(
    functions: &Vec<LoweredNativeFunction>,
    stub: CodeBuffer,
    with_helpers: bool,
    Ghost(strings): Ghost<Option<Seq<Seq<char>>>>,
) -> (text: TextImage)
    requires
        with_helpers == (strings is Some),
        ({
            let blobs = program_blobs(functions@, strings);
            addressable(image(stub@, blobs, blobs.len() as int))
        }),
    ensures
        text.lays_out(stub@, program_blobs(functions@, strings)),
{
    let ghost code = stub@;
    let ghost all = program_blobs(functions@, strings);
    let ghost own = function_blobs(functions@);
    let mut text = TextImage::new(stub);
    assert(own.take(0) =~= seq![]);
    let mut i: usize = 0;
    while i < functions.len()
        invariant
            i <= functions@.len(),
            own == function_blobs(functions@),
            all == program_blobs(functions@, strings),
            addressable(image(code, all, all.len() as int)),
            text.lays_out(code, own.take(i as int)),
        decreases functions@.len() - i,
    {
        let function = &functions[i];
        proof {
            assert(own[i as int] == function@);
            assert(own.take(i + 1) =~= own.take(i as int).push(function@));
            lemma_addressable_prefix(code, own.take(i + 1), all);
        }
        text.append_routine(
            &function.name,
            &function.code,
            &function.relocations,
            Ghost(code),
            Ghost(own.take(i as int)),
        );
        i += 1;
    }
    assert(own.take(functions@.len() as int) =~= own);
    if with_helpers {
        let helpers = heap_runtime_helpers();
        let ghost tail = helper_blobs();
        assert(own + tail.take(0) =~= own);
        let mut k: usize = 0;
        while k < helpers.len()
            invariant
                k <= helpers@.len() == tail.len(),
                tail == helper_blobs(),
                helpers@.len() == helper_symbols().len(),
                forall|m: int|
                    0 <= m < helpers@.len() ==> is_helper(
                        #[trigger] helpers@[m],
                        helper_symbols()[m],
                    ),
                all == own + tail,
                addressable(image(code, all, all.len() as int)),
                text.lays_out(code, own + tail.take(k as int)),
            decreases helpers@.len() - k,
        {
            let helper = &helpers[k];
            proof {
                assert(is_helper(helpers@[k as int], helper_symbols()[k as int]));
                assert((own + tail.take(k + 1)) =~= (own + tail.take(k as int)).push(
                    Blob { name: helper.name@, code: helper@ },
                ));
                lemma_addressable_prefix(code, own + tail.take(k + 1), all);
            }
            text.append_routine(
                &helper.name,
                &helper.code,
                &helper.relocations,
                Ghost(code),
                Ghost(own + tail.take(k as int)),
            );
            k += 1;
        }
        assert(tail.take(tail.len() as int) =~= tail);
    }
    text
}

/// What is addressable in the whole image is in the image of its first routines.
pub proof fn lemma_addressable_prefix(stub: Code, some: Seq<Blob>, all: Seq<Blob>)
    requires
        some.len() <= all.len(),
        forall|i: int| 0 <= i < some.len() ==> some[i] == all[i],
        addressable(image(stub, all, all.len() as int)),
    ensures
        addressable(image(stub, some, some.len() as int)),
{
    let n = some.len() as int;
    lemma_image_prefix(stub, some, all, n);
    lemma_image_grows(stub, all, n, all.len() as int);
    let whole = image(stub, all, all.len() as int);
    let part = image(stub, some, n);
    assert forall|j: int| 0 <= j < part.refs.len() implies (#[trigger] part.refs[j]).offset
        <= u32::MAX by {
        assert(whole.refs[j] == part.refs[j]);
    }
}

/// Appends the symbols of all routines.
fn push_routine_symbols(
    symbols: &mut Vec<SymbolDef>,
    text: &TextImage,
    Ghost(stub): Ghost<Code>,
    Ghost(blobs): Ghost<Seq<Blob>>,
)
    requires
        text.lays_out(stub, blobs),
    ensures
        symbol_views(final(symbols)@) == symbol_views(old(symbols)@) + routine_symbols(
            stub,
            blobs,
        ),
{
    let ghost start = symbol_views(symbols@);
    let ghost added = routine_symbols(stub, blobs);
    let mut i: usize = 0;
    while i < text.names.len()
        invariant
            i <= blobs.len(),
            text.lays_out(stub, blobs),
            added == routine_symbols(stub, blobs),
            symbol_views(symbols@) =~= start + added.take(i as int),
        decreases blobs.len() - i,
    {
        proof {
            assert(blobs[i as int].name == text.names@[i as int]@);
        }
        let value = text.offset_of(text.names[i].as_str(), Ghost(stub), Ghost(blobs));
        push_symbol(symbols, text.names[i].clone(), 1, value, true);
        proof {
            assert(added.take(i + 1) =~= added.take(i as int).push(added[i as int]));
        }
        i += 1;
    }
    assert(added.take(blobs.len() as int) =~= added);
}

/// The string constants as read-only data, with the place of each.
pub(crate) fn pack_strings(strings: &StringPool) -> (packed: (Vec<u8>, Vec<u32>))
    requires
        string_data(strings.texts(), strings.texts().len() as int).len() <= u32::MAX,
    ensures
        packed.0@ == string_data(strings.texts(), strings.texts().len() as int),
        packed.1@.len() == strings.texts().len(),
        forall|i: int|
            0 <= i < packed.1@.len() ==> #[trigger] packed.1@[i] == string_data(
                strings.texts(),
                i,
            ).len(),
{
    let ghost texts = strings.texts();
    let mut data: Vec<u8> = Vec::new();
    let mut offsets: Vec<u32> = Vec::new();
    let mut i: usize = 0;
    while i < strings.entries.len()
        invariant
            i <= strings.entries@.len() == texts.len(),
            texts == strings.texts(),
            data@ == string_data(texts, i as int),
            string_data(texts, texts.len() as int).len() <= u32::MAX,
            offsets@.len() == i,
            forall|k: int|
                0 <= k < offsets@.len() ==> #[trigger] offsets@[k] == string_data(texts, k).len(),
        decreases strings.entries@.len() - i,
    {
        proof {
            lemma_string_data_grows(texts, i as int, texts.len() as int);
            assert(texts[i as int] == strings.entries@[i as int]@);
        }
        offsets.push(data.len() as u32);
        data.extend_from_slice(strings.entries[i].as_str().as_bytes());
        data.push(0);
        proof {
            assert(data@ =~= string_data(texts, i + 1));
        }
        i += 1;
    }
    (data, offsets)
}

proof fn lemma_string_data_grows(strings: Seq<Seq<char>>, i: int, n: int)
    requires
        0 <= i <= n <= strings.len(),
    ensures
        string_data(strings, i).len() <= string_data(strings, n).len(),
    decreases n,
{
    if i < n {
        lemma_string_data_grows(strings, i, n - 1);
    }
}

/// Appends the symbols of the string constants and of the heap cells.
fn push_data_symbols(symbols: &mut Vec<SymbolDef>, offsets: &Vec<u32>, Ghost(texts): Ghost<
    Seq<Seq<char>>,
>)
    requires
        offsets@.len() == texts.len(),
        forall|i: int|
            0 <= i < offsets@.len() ==> #[trigger] offsets@[i] == string_data(texts, i).len(),
    ensures
        symbol_views(final(symbols)@) == symbol_views(old(symbols)@) + (string_symbols(texts)
            + heap_symbols()),
{
    let ghost start = symbol_views(symbols@);
    let ghost added = string_symbols(texts);
    let mut i: usize = 0;
    while i < offsets.len()
        invariant
            i <= offsets@.len() == texts.len(),
            added == string_symbols(texts),
            forall|k: int|
                0 <= k < offsets@.len() ==> #[trigger] offsets@[k] == string_data(texts, k).len(),
            symbol_views(symbols@) =~= start + added.take(i as int),
        decreases offsets@.len() - i,
    {
        let name = "__str".to_owned().concat(decimal_text(i).as_str());
        push_symbol(symbols, name, 2, offsets[i], false);
        proof {
            assert(added.take(i + 1) =~= added.take(i as int).push(added[i as int]));
        }
        i += 1;
    }
    assert(added.take(texts.len() as int) =~= added);
    push_symbol(symbols, HEAP_NEXT_SYMBOL.to_owned(), 3, 0, false);
    push_symbol(symbols, HEAP_FREE_HEAD_SYMBOL.to_owned(), 3, 8, false);
    push_symbol(symbols, HEAP_BASE_SYMBOL.to_owned(), 3, 16, false);
    push_symbol(symbols, ALLOC_MODE_SYMBOL.to_owned(), 3, ALLOC_MODE_OFFSET, false);
    proof {
        assert(symbol_views(symbols@) =~= start + (added + heap_symbols()));
    }
}

/// Resolves code references to relocation records.
fn resolve_text(symbols: &Vec<SymbolDef>, relocations: &Vec<CodeRelocation>) -> (records: Vec<
    SectionRelocation,
>)
    requires
        symbols@.len() <= u32::MAX,
    ensures
        records@ == references(relocations@).map_values(
            |r: Reference| text_relocation(symbol_views(symbols@), r),
        ),
{
    let ghost views = symbol_views(symbols@);
    let ghost all = references(relocations@).map_values(
        |r: Reference| text_relocation(views, r),
    );
    let mut records: Vec<SectionRelocation> = Vec::new();
    let mut i: usize = 0;
    while i < relocations.len()
        invariant
            i <= relocations@.len() == all.len(),
            symbols@.len() <= u32::MAX,
            views == symbol_views(symbols@),
            all == references(relocations@).map_values(|r: Reference| text_relocation(views, r)),
            records@ =~= all.take(i as int),
        decreases relocations@.len() - i,
    {
        let at = position(symbols, &relocations[i].symbol);
        records.push(
            SectionRelocation {
                offset: relocations[i].offset,
                symbol: at as u32,
                kind: IMAGE_REL_AMD64_REL32,
            },
        );
        i += 1;
    }
    assert(all.take(i as int) =~= all);
    records
}

/// Resolves debug references to relocation records.
fn resolve_debug(symbols: &Vec<SymbolDef>, relocations: &Vec<DebugReloc>) -> (records: Vec<
    SectionRelocation,
>)
    requires
        symbols@.len() <= u32::MAX,
    ensures
        records@ == debug_refs(relocations@).map_values(
            |r: DebugReference| debug_relocation(symbol_views(symbols@), r),
        ),
{
    let ghost views = symbol_views(symbols@);
    let ghost all = debug_refs(relocations@).map_values(
        |r: DebugReference| debug_relocation(views, r),
    );
    let mut records: Vec<SectionRelocation> = Vec::new();
    let mut i: usize = 0;
    while i < relocations.len()
        invariant
            i <= relocations@.len() == all.len(),
            symbols@.len() <= u32::MAX,
            views == symbol_views(symbols@),
            all == debug_refs(relocations@).map_values(
                |r: DebugReference| debug_relocation(views, r),
            ),
            records@ =~= all.take(i as int),
        decreases relocations@.len() - i,
    {
        let at = position(symbols, &relocations[i].symbol);
        records.push(
            SectionRelocation {
                offset: relocations[i].offset,
                symbol: at as u32,
                kind: relocations[i].reloc_type,
            },
        );
        i += 1;
    }
    assert(all.take(i as int) =~= all);
    records
}

/// One line entry per function.
fn debug_lines(functions: &Vec<LoweredNativeFunction>) -> (lines: Vec<DebugFunctionLine>)
    requires
        forall|i: int|
            0 <= i < functions@.len() ==> (#[trigger] functions@[i]).code@.len() <= u32::MAX,
    ensures
        line_views(lines@) == line_entries(functions@),
{
    let ghost all = line_entries(functions@);
    let mut lines: Vec<DebugFunctionLine> = Vec::new();
    let mut i: usize = 0;
    while i < functions.len()
        invariant
            i <= functions@.len(),
            all == line_entries(functions@),
            line_views(lines@) =~= all.take(i as int),
            forall|k: int|
                0 <= k < functions@.len() ==> (#[trigger] functions@[k]).code@.len() <= u32::MAX,
        decreases functions@.len() - i,
    {
        let line = DebugFunctionLine {
            symbol: functions[i].name.clone(),
            code_len: functions[i].code.len() as u32,
            line: functions[i].line,
        };
        let ghost before = line_views(lines@);
        let ghost view = line@;
        lines.push(line);
        proof {
            assert(all[i as int] == view);
            assert(line_views(lines@) =~= before.push(view));
            assert(all.take(i + 1) =~= all.take(i as int).push(view));
        }
        i += 1;
    }
    assert(all.take(i as int) =~= all);
    lines
}

/// Writes the object of a program whose code is laid out and whose own symbols are
/// collected.
fn finish_object(
    functions: &Vec<LoweredNativeFunction>,
    text: TextImage,
    symbols: &mut Vec<SymbolDef>,
    data: Vec<SectionImage>,
    debug: Option<&DebugOptions>,
    Ghost(stub): Ghost<EntryStub>,
    Ghost(strings): Ghost<Option<Seq<Seq<char>>>>,
) -> (bytes: Vec<u8>)
    requires
        text.buffer@ == program_text(functions@, strings, stub),
        symbol_views(old(symbols)@) == own_symbols(functions@, strings, stub),
        section_views(data@) == (match strings {
            Some(texts) => data_sections(texts),
            None => seq![],
        }),
        program_fits(functions@, strings, stub, debug_source(debug)),
    ensures
        bytes@ == program_object(functions@, strings, stub, debug_source(debug)),
{
    let ghost source = debug_source(debug);
    let ghost sections_spec = program_sections(functions@, strings, stub, source);
    let ghost symbols_spec = program_symbols(functions@, strings, stub);
    add_undefined(symbols, &text.buffer.relocations);
    proof {
        assert(symbol_views(symbols@) == symbols_spec);
        lemma_layout_monotone(sections_spec, 0);
        lemma_layout_monotone(sections_spec, sections_spec.len() as int);
        assert(symbols@.len() <= u32::MAX);
        lemma_section_names();
        lemma_program_sections(functions@, strings, stub, source);
    }
    let text_relocations = resolve_text(symbols, &text.buffer.relocations);
    let mut sections: Vec<SectionImage> = Vec::new();
    let code_section = SectionImage {
        name: ".text".to_owned(),
        data: text.buffer.code,
        reserved: None,
        relocations: text_relocations,
        characteristics: TEXT_CHARACTERISTICS,
    };
    let ghost code_view = code_section@;
    proof {
        assert(code_view == text_section(program_text(functions@, strings, stub), symbols_spec));
    }
    sections.push(code_section);
    let mut rest = data;
    sections.append(&mut rest);
    proof {
        assert(section_views(sections@) =~= seq![code_view] + section_views(data@));
    }
    if let Some(options) = debug {
        let lines = debug_lines(functions);
        let (bytes, relocs) = build_debug_section(options.source_file.as_str(), &lines);
        let debug_relocations = resolve_debug(symbols, &relocs);
        let debug_image = SectionImage {
            name: ".debug$S".to_owned(),
            data: bytes,
            reserved: None,
            relocations: debug_relocations,
            characteristics: DEBUG_S_CHARACTERISTICS,
        };
        let ghost debug_view = debug_image@;
        let ghost before = section_views(sections@);
        proof {
            assert(debug_view == debug_info_section(
                options.source_file@,
                functions@,
                symbols_spec,
            ));
        }
        sections.push(debug_image);
        proof {
            assert(section_views(sections@) =~= before.push(debug_view));
        }
    }
    proof {
        assert(section_views(sections@) =~= sections_spec);
    }
    write_coff(&sections, symbols)
}

/// The sections of a program can be written, and the debug section is as long as the
/// object allows.
proof fn lemma_program_sections(
    functions: Seq<LoweredNativeFunction>,
    strings: Option<Seq<Seq<char>>>,
    stub: EntryStub,
    debug: Option<Seq<char>>,
)
    requires
        program_fits(functions, strings, stub, debug),
    ensures
        writable(program_sections(functions, strings, stub, debug)),
        debug matches Some(source_file) ==> debug_section(
            source_file,
            line_entries(functions),
        ).len() <= u32::MAX,
        forall|i: int|
            0 <= i < functions.len() ==> (#[trigger] functions[i]).code@.len() <= u32::MAX,
{
    lemma_section_names();
    let sections = program_sections(functions, strings, stub, debug);
    let symbols = program_symbols(functions, strings, stub);
    let n = sections.len() as int;
    assert forall|i: int| 0 <= i < sections.len() implies {
        &&& (#[trigger] sections[i]).name.len() <= 8
        &&& sections[i].reserved is Some ==> sections[i].data.len() == 0
    } by {
        assert(i <= 3);
    }
    lemma_layout_monotone(sections, n - 1);
    lemma_layout_monotone(sections, n);
    if let Some(source_file) = debug {
        assert(sections[n - 1] == debug_info_section(source_file, functions, symbols));
    }
    let code = assembled(windows_stub_program(stub));
    let blobs = program_blobs(functions, strings);
    assert forall|i: int| 0 <= i < functions.len() implies (#[trigger] functions[i]).code@.len()
        <= u32::MAX by {
        law_routines_are_aligned(code, blobs, i, blobs.len() as int);
        assert(blobs[i] == functions[i]@);
    }
}

/// Writes the object of a program that needs no heap: one code section holding the
/// entry stub and the functions.
pub fn write_text_only_object(
    functions: &Vec<LoweredNativeFunction>,
    entry_stub: EntryStub,
    debug: Option<&DebugOptions>,
) -> (bytes: Vec<u8>)
    requires
        program_fits(functions@, None, entry_stub, debug_source(debug)),
    ensures
        bytes@ == program_object(functions@, None, entry_stub, debug_source(debug)),
{
    let ghost code = assembled(windows_stub_program(entry_stub));
    let ghost blobs = program_blobs(functions@, None);
    let text = lay_out(functions, windows_stub(entry_stub), false, Ghost(None));
    let mut symbols: Vec<SymbolDef> = Vec::new();
    assert(symbol_views(symbols@) =~= seq![]);
    if entry_stub.emits() {
        push_symbol(&mut symbols, NATIVE_ENTRY_SYMBOL.to_owned(), 1, 0, true);
    }
    assert(symbol_views(symbols@) =~= entry_symbols(entry_stub));
    push_routine_symbols(&mut symbols, &text, Ghost(code), Ghost(blobs));
    if entry_stub.emits() {
        push_symbol(&mut symbols, EXIT_PROCESS_SYMBOL.to_owned(), 0, 0, true);
    }
    let data: Vec<SectionImage> = Vec::new();
    proof {
        assert(symbol_views(symbols@) =~= own_symbols(functions@, None, entry_stub));
        assert(section_views(data@) =~= seq![]);
    }
    finish_object(functions, text, &mut symbols, data, debug, Ghost(entry_stub), Ghost(None))
}

/// Writes the object of a program that needs the heap: code, read-only data and
/// zero-initialized data.
pub fn write_object_with_data(
    functions: &Vec<LoweredNativeFunction>,
    strings: &StringPool,
    entry_stub: EntryStub,
    debug: Option<&DebugOptions>,
) -> (bytes: Vec<u8>)
    requires
        program_fits(functions@, Some(strings.texts()), entry_stub, debug_source(debug)),
    ensures
        bytes@ == program_object(
            functions@,
            Some(strings.texts()),
            entry_stub,
            debug_source(debug),
        ),
{
    let ghost texts = Some(strings.texts());
    let ghost code = assembled(windows_stub_program(entry_stub));
    let ghost blobs = program_blobs(functions@, texts);
    let text = lay_out(functions, windows_stub(entry_stub), true, Ghost(texts));
    proof {
        let sections = program_sections(functions@, texts, entry_stub, debug_source(debug));
        lemma_layout_monotone(sections, 1);
        lemma_layout_monotone(sections, sections.len() as int);
        assert(sections[1] == data_sections(strings.texts())[0]);
    }
    let (rdata, offsets) = pack_strings(strings);
    let mut symbols: Vec<SymbolDef> = Vec::new();
    assert(symbol_views(symbols@) =~= seq![]);
    if entry_stub.emits() {
        push_symbol(&mut symbols, NATIVE_ENTRY_SYMBOL.to_owned(), 1, 0, true);
    }
    assert(symbol_views(symbols@) =~= entry_symbols(entry_stub));
    push_routine_symbols(&mut symbols, &text, Ghost(code), Ghost(blobs));
    if entry_stub.emits() {
        push_symbol(&mut symbols, EXIT_PROCESS_SYMBOL.to_owned(), 0, 0, true);
    }
    assert(symbol_views(symbols@) =~= entry_symbols(entry_stub) + routine_symbols(code, blobs)
        + exit_symbols(entry_stub));
    push_data_symbols(&mut symbols, &offsets, Ghost(strings.texts()));
    let constants = SectionImage {
        name: ".rdata".to_owned(),
        data: rdata,
        reserved: None,
        relocations: Vec::new(),
        characteristics: RDATA_CHARACTERISTICS,
    };
    let heap = SectionImage {
        name: ".bss".to_owned(),
        data: Vec::new(),
        reserved: Some(HEAP_BSS_SIZE),
        relocations: Vec::new(),
        characteristics: BSS_CHARACTERISTICS,
    };
    let ghost constants_view = constants@;
    let ghost heap_view = heap@;
    let mut data: Vec<SectionImage> = Vec::new();
    data.push(constants);
    data.push(heap);
    proof {
        assert(section_views(data@) =~= seq![constants_view, heap_view]);
        assert(constants_view == data_sections(strings.texts())[0]);
        assert(heap_view == data_sections(strings.texts())[1]);
        assert(section_views(data@) =~= data_sections(strings.texts()));
    }
    finish_object(functions, text, &mut symbols, data, debug, Ghost(entry_stub), Ghost(texts))
}

/// Whether any compiled function refers to the heap runtime, which requires the heap
/// sections and the helpers even when the program interns no string constant.
pub fn program_uses_heap_helpers(functions: &Vec<LoweredNativeFunction>) -> (uses: bool)
    ensures
        uses == functions_need_heap(functions@),
{
    let symbols = heap_helper_symbols();
    let mut i: usize = 0;
    while i < functions.len()
        invariant
            i <= functions@.len(),
            symbols@ == helper_symbols(),
            forall|k: int| 0 <= k < i ==> !function_needs_heap(#[trigger] functions@[k]),
        decreases functions@.len() - i,
    {
        let relocations = &functions[i].relocations;
        let mut j: usize = 0;
        while j < relocations.len()
            invariant
                i < functions@.len(),
                relocations == functions@[i as int].relocations,
                j <= relocations@.len(),
                symbols@ == helper_symbols(),
                forall|k: int| 0 <= k < j ==> !needs_heap((#[trigger] relocations@[k]).symbol@),
            decreases relocations@.len() - j,
        {
            if symbol_needs_heap(&relocations[j].symbol, &symbols) {
                assert(needs_heap(functions@[i as int].relocations@[j as int].symbol@));
                assert(function_needs_heap(functions@[i as int]));
                return true;
            }
            j += 1;
        }
        i += 1;
    }
    false
}

/// Whether `name` belongs to the heap runtime.
fn symbol_needs_heap(name: &String, symbols: &Vec<Symbol>) -> (needs: bool)
    requires
        symbols@ == helper_symbols(),
    ensures
        needs == needs_heap(name@),
{
    if same_text(name.as_str(), HEAP_NEXT_SYMBOL) || same_text(name.as_str(), ALLOC_MODE_SYMBOL) {
        return true;
    }
    let mut i: usize = 0;
    while i < symbols.len()
        invariant
            i <= symbols@.len(),
            symbols@ == helper_symbols(),
            forall|k: int|
                0 <= k < i ==> (#[trigger] helper_symbols()[k]).spec_name() != name@,
        decreases symbols@.len() - i,
    {
        if same_text(symbols[i].name(), name.as_str()) {
            assert(helper_symbols()[i as int].spec_name() == name@);
            return true;
        }
        i += 1;
    }
    false
}

/// Writes the COFF object of a program: the single-section layout where it needs no
/// heap, else the layout with data.
pub fn write_native_program_object(
    functions: &Vec<LoweredNativeFunction>,
    strings: &StringPool,
    entry_stub: EntryStub,
    debug: Option<&DebugOptions>,
) -> (bytes: Vec<u8>)
    requires
        program_fits(
            functions@,
            program_data(functions@, strings.texts()),
            entry_stub,
            debug_source(debug),
        ),
    ensures
        bytes@ == program_object(
            functions@,
            program_data(functions@, strings.texts()),
            entry_stub,
            debug_source(debug),
        ),
{
    if strings.is_empty() && !program_uses_heap_helpers(functions) {
        write_text_only_object(functions, entry_stub, debug)
    } else {
        write_object_with_data(functions, strings, entry_stub, debug)
    }
}

/// The symbol of each string constant gives the place in the data section where the string
/// stands, ended by a NUL.
pub proof fn law_strings_stand_at_their_symbols(strings: Seq<Seq<char>>, i: int, n: int)
    requires
        0 <= i < n <= strings.len(),
    ensures
        ({
            let at = string_symbols(strings)[i].value;
            let text = encode_utf8(strings[i]);
            let data = string_data(strings, n);
            &&& string_symbols(strings)[i].section_number == 2
            &&& 0 <= at
            &&& at + text.len() < data.len()
            &&& data.subrange(at, at + text.len()) == text
            &&& data[at + text.len()] == 0
        }),
    decreases n,
{
    let at = string_symbols(strings)[i].value;
    let text = encode_utf8(strings[i]);
    let data = string_data(strings, n);
    if i < n - 1 {
        law_strings_stand_at_their_symbols(strings, i, n - 1);
        let before = string_data(strings, n - 1);
        assert(data.subrange(at, at + text.len()) =~= before.subrange(at, at + text.len()));
    } else {
        assert(data.subrange(at, at + text.len()) =~= text);
    }
}

/// The symbol of each routine whose name is its own gives the place in the code section
/// where the routine's code stands, at a multiple of sixteen.
pub proof fn law_routines_stand_at_their_symbols(stub: Code, blobs: Seq<Blob>, i: int)
    requires
        0 <= i < blobs.len(),
        forall|k: int| i < k < blobs.len() ==> (#[trigger] blobs[k]).name != blobs[i].name,
    ensures
        ({
            let symbol = routine_symbols(stub, blobs)[i];
            let text = image(stub, blobs, blobs.len() as int).bytes;
            let length = blobs[i].code.bytes.len();
            &&& symbol.name == blobs[i].name
            &&& symbol.section_number == 1
            &&& symbol.is_function
            &&& symbol.value % 16 == 0
            &&& 0 <= symbol.value
            &&& symbol.value + length <= text.len()
            &&& text.subrange(symbol.value, symbol.value + length) == blobs[i].code.bytes
        }),
{
    lemma_last_named(blobs, blobs[i].name, blobs.len() as int);
    law_routines_are_aligned(stub, blobs, i, blobs.len() as int);
}

/// A reader of the object who follows a relocation of its code section finds the place that
/// the code refers from, and a symbol with the name that it refers to there.
pub proof fn law_relocations_name_their_symbols(
    functions: Seq<LoweredNativeFunction>,
    strings: Option<Seq<Seq<char>>>,
    stub: EntryStub,
    debug: Option<Seq<char>>,
    j: int,
)
    requires
        program_fits(functions, strings, stub, debug),
        0 <= j < program_text(functions, strings, stub).refs.len() < 0x1_0000,
        0 <= program_text(functions, strings, stub).refs[j].offset,
        program_symbols(functions, strings, stub).len() <= u32::MAX,
    ensures
        ({
            let object = program_object(functions, strings, stub, debug);
            let symbols = program_symbols(functions, strings, stub);
            let r = program_text(functions, strings, stub).refs[j];
            let at = read_le32(object, 44) + 10 * j;
            let index = read_le32(object, at + 4);
            &&& read_le32(object, at) == r.offset
            &&& 0 <= index < symbols.len()
            &&& symbols[index].name == r.symbol
            &&& read_le16(object, at + 8) == 4
        }),
{
    let sections = program_sections(functions, strings, stub, debug);
    let symbols = program_symbols(functions, strings, stub);
    let text = program_text(functions, strings, stub);
    lemma_program_sections(functions, strings, stub, debug);
    assert(sections[0] == text_section(text, symbols));
    law_references_resolve(functions, strings, stub, j);
    law_relocation_reads_back(sections, symbols, 0, j);
    assert(sections[0].relocations[j] == text_relocation(symbols, text.refs[j]));
}

/// The cells of the heap and its region lie apart from each other, and inside the
/// zero-initialized section.
pub proof fn law_heap_cells_lie_apart()
    ensures
        ({
            let cells = heap_symbols();
            let sizes = seq![8, 8, HEAP_REGION_SIZE as int, 8];
            &&& cells.len() == 4
            &&& cells[0].name == HEAP_NEXT_SYMBOL@
            &&& cells[1].name == HEAP_FREE_HEAD_SYMBOL@
            &&& cells[2].name == HEAP_BASE_SYMBOL@
            &&& cells[3].name == ALLOC_MODE_SYMBOL@
            &&& forall|i: int|
                0 <= i < 4 ==> (#[trigger] cells[i]).section_number == 3 && !cells[i].is_function
                    && 0 <= cells[i].value && cells[i].value + sizes[i] <= HEAP_BSS_SIZE
            &&& forall|i: int, k: int|
                0 <= i < k < 4 ==> (#[trigger] cells[i]).value + sizes[i] <= (
                #[trigger] cells[k]).value
        }),
{
}

} // verus!
