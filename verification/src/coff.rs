//! The COFF relocatable-object container: header, section headers, section data,
//! relocation records, symbol records, string table.

use crate::bytes::{
    law_le16_reads_back, law_le32_reads_back, le16, le32, low_byte, push_all, push_u16, push_u32,
        push_zeros, read_le16, read_le32, zeros,
};
use vstd::prelude::*;
use vstd::utf8::encode_utf8;

verus! {

pub const AMD64_MACHINE: u16 = 0x8664;

pub const COFF_HEADER_SIZE: u32 = 20;

pub const SECTION_HEADER_SIZE: u32 = 40;

pub const COFF_RELOC_SIZE: u32 = 10;

pub const COFF_SYMBOL_SIZE: u32 = 18;

pub const IMAGE_REL_AMD64_REL32: u16 = 4;

pub const IMAGE_REL_AMD64_SECTION: u16 = 0x0A;

pub const IMAGE_REL_AMD64_SECREL: u16 = 0x0B;

/// Code, execute, read, 16-byte alignment.
pub const TEXT_CHARACTERISTICS: u32 = 0x6050_0020;

/// Initialized data, read, 8-byte alignment.
pub const RDATA_CHARACTERISTICS: u32 = 0x4040_0040;

/// Uninitialized data, read, write, 8-byte alignment.
pub const BSS_CHARACTERISTICS: u32 = 0xC040_0080;

/// Initialized data, discardable, read, 1-byte alignment.
pub const DEBUG_S_CHARACTERISTICS: u32 = 0x4210_0040;

/// A relocation record.
#[derive(Clone, Copy, PartialEq, Eq, Structural, Debug)]
pub struct SectionRelocation {
    /// Byte offset of the field within its section.
    pub offset: u32,
    /// Index into the symbol table.
    pub symbol: u32,
    /// The relocation type.
    pub kind: u16,
}

/// A section to write.
#[derive(Debug, PartialEq, Eq)]
pub struct SectionImage {
    /// The name: at most eight bytes.
    pub name: String,
    /// The stored bytes; empty for an uninitialized section.
    pub data: Vec<u8>,
    /// The number of bytes an uninitialized section reserves; `None` for a section
    /// that stores its data.
    pub reserved: Option<u32>,
    pub relocations: Vec<SectionRelocation>,
    pub characteristics: u32,
}

/// A symbol to write.
#[derive(Debug, PartialEq, Eq)]
pub struct SymbolDef {
    pub name: String,
    /// One-based index of the defining section; 0 when undefined.
    pub section_number: u16,
    /// Offset within the defining section.
    pub value: u32,
    pub is_function: bool,
}

/// A section, as the format sees it.
pub struct Section {
    pub name: Seq<u8>,
    pub data: Seq<u8>,
    pub reserved: Option<int>,
    pub relocations: Seq<SectionRelocation>,
    pub characteristics: int,
}

/// A symbol, as the format sees it.
pub struct SymbolRecord {
    pub name: Seq<char>,
    pub section_number: int,
    pub value: int,
    pub is_function: bool,
}

impl View for SectionImage {
    type V = Section;

    open spec fn view(&self) -> Section {
        Section {
            name: encode_utf8(self.name@),
            data: self.data@,
            reserved: match self.reserved {
                Some(n) => Some(n as int),
                None => None,
            },
            relocations: self.relocations@,
            characteristics: self.characteristics as int,
        }
    }
}

impl View for SymbolDef {
    type V = SymbolRecord;

    open spec fn view(&self) -> SymbolRecord {
        SymbolRecord {
            name: self.name@,
            section_number: self.section_number as int,
            value: self.value as int,
            is_function: self.is_function,
        }
    }
}

/// The sections a section list stands for.
pub open spec fn section_views(sections: Seq<SectionImage>) -> Seq<Section> {
    sections.map_values(|s: SectionImage| s@)
}

/// The symbols a symbol list stands for.
pub open spec fn symbol_views(symbols: Seq<SymbolDef>) -> Seq<SymbolRecord> {
    symbols.map_values(|s: SymbolDef| s@)
}

// Layout

/// The stored bytes of the first `n` sections.
pub open spec fn raw_len(sections: Seq<Section>, n: int) -> int
    decreases n,
{
    if n <= 0 {
        0
    } else {
        raw_len(sections, n - 1) + sections[n - 1].data.len()
    }
}

/// The relocation records of the first `n` sections.
pub open spec fn reloc_count(sections: Seq<Section>, n: int) -> int
    decreases n,
{
    if n <= 0 {
        0
    } else {
        reloc_count(sections, n - 1) + sections[n - 1].relocations.len()
    }
}

/// Where the headers end.
pub open spec fn headers_end(sections: Seq<Section>) -> int {
    20 + 40 * sections.len() as int
}

/// Where the data of section `i` starts.
pub open spec fn raw_at(sections: Seq<Section>, i: int) -> int {
    headers_end(sections) + raw_len(sections, i)
}

/// Where the relocation records of section `i` start.
pub open spec fn relocs_at(sections: Seq<Section>, i: int) -> int {
    raw_at(sections, sections.len() as int) + 10 * reloc_count(sections, i)
}

/// Where the symbol records start.
pub open spec fn symbols_at(sections: Seq<Section>) -> int {
    relocs_at(sections, sections.len() as int)
}

/// Where the string table starts.
pub open spec fn strings_at(sections: Seq<Section>, symbols: Seq<SymbolRecord>) -> int {
    symbols_at(sections) + 18 * symbols.len()
}

// Contents

/// A name in an 8-byte field, padded with zeros.
pub open spec fn fixed_name(name: Seq<u8>) -> Seq<u8> {
    name + zeros((8 - name.len()) as nat)
}

/// The file header.
pub open spec fn header(sections: Seq<Section>, symbols: Seq<SymbolRecord>) -> Seq<u8> {
    le16(AMD64_MACHINE as int) + le16(sections.len() as int) + le32(0) + le32(symbols_at(sections))
        + le32(symbols.len() as int) + le16(0) + le16(0)
}

/// The header of section `i`.
pub open spec fn section_header(sections: Seq<Section>, i: int) -> Seq<u8> {
    let section = sections[i];
    fixed_name(section.name) + le32(0) + le32(0) + le32(
        match section.reserved {
            Some(n) => n,
            None => section.data.len() as int,
        },
    ) + le32(
        if section.reserved is Some {
            0
        } else {
            raw_at(sections, i)
        },
    ) + le32(
        if section.relocations.len() == 0 {
            0
        } else {
            relocs_at(sections, i)
        },
    ) + le32(0) + le16(section.relocations.len() as int) + le16(0) + le32(section.characteristics)
}

/// The first `n` section headers.
pub open spec fn section_headers(sections: Seq<Section>, n: int) -> Seq<u8>
    decreases n,
{
    if n <= 0 {
        seq![]
    } else {
        section_headers(sections, n - 1) + section_header(sections, n - 1)
    }
}

/// The data of the first `n` sections.
pub open spec fn raw_data(sections: Seq<Section>, n: int) -> Seq<u8>
    decreases n,
{
    if n <= 0 {
        seq![]
    } else {
        raw_data(sections, n - 1) + sections[n - 1].data
    }
}

/// One relocation record.
pub open spec fn reloc_record(r: SectionRelocation) -> Seq<u8> {
    le32(r.offset as int) + le32(r.symbol as int) + le16(r.kind as int)
}

/// The first `n` records of a relocation list.
pub open spec fn reloc_records(relocations: Seq<SectionRelocation>, n: int) -> Seq<u8>
    decreases n,
{
    if n <= 0 {
        seq![]
    } else {
        reloc_records(relocations, n - 1) + reloc_record(relocations[n - 1])
    }
}

/// The relocation records of the first `n` sections.
pub open spec fn reloc_tables(sections: Seq<Section>, n: int) -> Seq<u8>
    decreases n,
{
    if n <= 0 {
        seq![]
    } else {
        reloc_tables(sections, n - 1) + reloc_records(
            sections[n - 1].relocations,
            sections[n - 1].relocations.len() as int,
        )
    }
}

/// Whether a symbol's name fits its 8-byte field.
pub open spec fn short_name(symbol: SymbolRecord) -> bool {
    encode_utf8(symbol.name).len() <= 8
}

/// The long names of the first `n` symbols, each ended by a NUL.
pub open spec fn long_names(symbols: Seq<SymbolRecord>, n: int) -> Seq<u8>
    decreases n,
{
    if n <= 0 {
        seq![]
    } else if short_name(symbols[n - 1]) {
        long_names(symbols, n - 1)
    } else {
        long_names(symbols, n - 1) + encode_utf8(symbols[n - 1].name) + seq![0u8]
    }
}

/// The name field of symbol `i`: the name itself, or four zeros and the name's
/// offset in the string table.
pub open spec fn name_field(symbols: Seq<SymbolRecord>, i: int) -> Seq<u8> {
    if short_name(symbols[i]) {
        fixed_name(encode_utf8(symbols[i].name))
    } else {
        le32(0) + le32(4 + long_names(symbols, i).len() as int)
    }
}

/// The record of symbol `i`: name, value, section number, type, storage class
/// (external), no auxiliary records.
pub open spec fn symbol_record(symbols: Seq<SymbolRecord>, i: int) -> Seq<u8> {
    name_field(symbols, i) + le32(symbols[i].value) + le16(symbols[i].section_number) + le16(
        if symbols[i].is_function {
            0x20
        } else {
            0
        },
    ) + seq![2u8, 0u8]
}

/// The first `n` symbol records.
pub open spec fn symbol_records(symbols: Seq<SymbolRecord>, n: int) -> Seq<u8>
    decreases n,
{
    if n <= 0 {
        seq![]
    } else {
        symbol_records(symbols, n - 1) + symbol_record(symbols, n - 1)
    }
}

/// The string table: its own size, then the long names.
pub open spec fn string_table(symbols: Seq<SymbolRecord>) -> Seq<u8> {
    le32(4 + long_names(symbols, symbols.len() as int).len() as int) + long_names(
        symbols,
        symbols.len() as int,
    )
}

/// The whole object file.
pub open spec fn coff_object(sections: Seq<Section>, symbols: Seq<SymbolRecord>) -> Seq<u8> {
    let n = sections.len() as int;
    header(sections, symbols) + section_headers(sections, n) + raw_data(sections, n)
        + reloc_tables(sections, n) + symbol_records(symbols, symbols.len() as int) + string_table(
        symbols,
    )
}

/// The object's size in bytes.
pub open spec fn coff_size(sections: Seq<Section>, symbols: Seq<SymbolRecord>) -> int {
    strings_at(sections, symbols) + 4 + long_names(symbols, symbols.len() as int).len()
}

/// Whether the sections can be written: names fit their fields, and an
/// uninitialized section stores nothing.
pub open spec fn writable(sections: Seq<Section>) -> bool {
    forall|i: int|
        0 <= i < sections.len() ==> {
            &&& (#[trigger] sections[i]).name.len() <= 8
            &&& sections[i].reserved is Some ==> sections[i].data.len() == 0
        }
}

// Lengths

proof fn lemma_raw_data_len(sections: Seq<Section>, n: int)
    requires
        0 <= n <= sections.len(),
    ensures
        raw_data(sections, n).len() == raw_len(sections, n),
        raw_len(sections, n) >= 0,
    decreases n,
{
    if n > 0 {
        lemma_raw_data_len(sections, n - 1);
    }
}

proof fn lemma_headers_len(sections: Seq<Section>, n: int)
    requires
        0 <= n <= sections.len(),
        writable(sections),
    ensures
        section_headers(sections, n).len() == 40 * n,
    decreases n,
{
    if n > 0 {
        lemma_headers_len(sections, n - 1);
        assert(sections[n - 1].name.len() <= 8);
    }
}

proof fn lemma_reloc_records_len(relocations: Seq<SectionRelocation>, n: int)
    requires
        0 <= n <= relocations.len(),
    ensures
        reloc_records(relocations, n).len() == 10 * n,
    decreases n,
{
    if n > 0 {
        lemma_reloc_records_len(relocations, n - 1);
    }
}

proof fn lemma_reloc_tables_len(sections: Seq<Section>, n: int)
    requires
        0 <= n <= sections.len(),
    ensures
        reloc_tables(sections, n).len() == 10 * reloc_count(sections, n),
        reloc_count(sections, n) >= 0,
    decreases n,
{
    if n > 0 {
        lemma_reloc_tables_len(sections, n - 1);
        lemma_reloc_records_len(
            sections[n - 1].relocations,
            sections[n - 1].relocations.len() as int,
        );
    }
}

proof fn lemma_symbol_record_len(symbols: Seq<SymbolRecord>, i: int)
    requires
        0 <= i < symbols.len(),
    ensures
        name_field(symbols, i).len() == 8,
        symbol_record(symbols, i).len() == 18,
{
}

proof fn lemma_symbol_records_len(symbols: Seq<SymbolRecord>, n: int)
    requires
        0 <= n <= symbols.len(),
    ensures
        symbol_records(symbols, n).len() == 18 * n,
    decreases n,
{
    if n > 0 {
        lemma_symbol_records_len(symbols, n - 1);
        lemma_symbol_record_len(symbols, n - 1);
    }
}

/// The parts of an object end where the layout says the next one starts.
pub proof fn lemma_object_parts(sections: Seq<Section>, symbols: Seq<SymbolRecord>)
    requires
        writable(sections),
    ensures
        ({
            let n = sections.len() as int;
            &&& header(sections, symbols).len() == 20
            &&& section_headers(sections, n).len() == 40 * n
            &&& raw_data(sections, n).len() == raw_len(sections, n)
            &&& reloc_tables(sections, n).len() == 10 * reloc_count(sections, n)
            &&& symbol_records(symbols, symbols.len() as int).len() == 18 * symbols.len()
            &&& coff_object(sections, symbols).len() == coff_size(sections, symbols)
        }),
{
    let n = sections.len() as int;
    lemma_headers_len(sections, n);
    lemma_raw_data_len(sections, n);
    lemma_reloc_tables_len(sections, n);
    lemma_symbol_records_len(symbols, symbols.len() as int);
}

/// Layout positions grow with the section index.
pub proof fn lemma_layout_monotone(sections: Seq<Section>, i: int)
    requires
        0 <= i <= sections.len(),
    ensures
        0 <= raw_len(sections, i) <= raw_len(sections, sections.len() as int),
        0 <= reloc_count(sections, i) <= reloc_count(sections, sections.len() as int),
        i < sections.len() ==> raw_len(sections, i) + sections[i].data.len() <= raw_len(
            sections,
            sections.len() as int,
        ),
        i < sections.len() ==> reloc_count(sections, i) + sections[i].relocations.len()
            <= reloc_count(sections, sections.len() as int),
    decreases sections.len() - i,
{
    lemma_raw_data_len(sections, i);
    lemma_reloc_tables_len(sections, i);
    if i < sections.len() {
        lemma_layout_monotone(sections, i + 1);
    }
}

// Reading back

proof fn lemma_section_header_at(sections: Seq<Section>, i: int, n: int)
    requires
        writable(sections),
        0 <= i < n <= sections.len(),
    ensures
        section_header(sections, i).len() == 40,
        section_headers(sections, n).len() == 40 * n,
        section_headers(sections, n).subrange(40 * i, 40 * i + 40) == section_header(sections, i),
    decreases n,
{
    lemma_headers_len(sections, n);
    lemma_headers_len(sections, n - 1);
    assert(sections[i].name.len() <= 8);
    if i < n - 1 {
        lemma_section_header_at(sections, i, n - 1);
        assert(section_headers(sections, n).subrange(40 * i, 40 * i + 40) =~= section_headers(
            sections,
            n - 1,
        ).subrange(40 * i, 40 * i + 40));
    } else {
        assert(section_headers(sections, n).subrange(40 * i, 40 * i + 40) =~= section_header(
            sections,
            i,
        ));
    }
}

proof fn lemma_raw_data_at(sections: Seq<Section>, i: int, n: int)
    requires
        0 <= i < n <= sections.len(),
    ensures
        0 <= raw_len(sections, i),
        raw_len(sections, i) + sections[i].data.len() <= raw_len(sections, n),
        raw_data(sections, n).len() == raw_len(sections, n),
        raw_data(sections, n).subrange(
            raw_len(sections, i),
            raw_len(sections, i) + sections[i].data.len(),
        ) == sections[i].data,
    decreases n,
{
    lemma_raw_data_len(sections, n);
    lemma_raw_data_len(sections, n - 1);
    let from = raw_len(sections, i);
    let to = from + sections[i].data.len();
    if i < n - 1 {
        lemma_raw_data_at(sections, i, n - 1);
        assert(raw_data(sections, n).subrange(from, to) =~= raw_data(sections, n - 1).subrange(
            from,
            to,
        ));
    } else {
        assert(raw_data(sections, n).subrange(from, to) =~= sections[i].data);
    }
}

proof fn lemma_reloc_table_at(sections: Seq<Section>, i: int, n: int)
    requires
        0 <= i < n <= sections.len(),
    ensures
        0 <= reloc_count(sections, i),
        reloc_count(sections, i) + sections[i].relocations.len() <= reloc_count(sections, n),
        reloc_tables(sections, n).len() == 10 * reloc_count(sections, n),
        reloc_tables(sections, n).subrange(
            10 * reloc_count(sections, i),
            10 * (reloc_count(sections, i) + sections[i].relocations.len()),
        ) == reloc_records(sections[i].relocations, sections[i].relocations.len() as int),
    decreases n,
{
    lemma_reloc_tables_len(sections, n);
    lemma_reloc_tables_len(sections, n - 1);
    let count = sections[i].relocations.len() as int;
    lemma_reloc_records_len(sections[i].relocations, count);
    let from = 10 * reloc_count(sections, i);
    let to = from + 10 * count;
    if i < n - 1 {
        lemma_reloc_table_at(sections, i, n - 1);
        assert(reloc_tables(sections, n).subrange(from, to) =~= reloc_tables(
            sections,
            n - 1,
        ).subrange(from, to));
    } else {
        assert(reloc_tables(sections, n).subrange(from, to) =~= reloc_records(
            sections[i].relocations,
            count,
        ));
    }
}

proof fn lemma_symbol_record_at(symbols: Seq<SymbolRecord>, i: int, n: int)
    requires
        0 <= i < n <= symbols.len(),
    ensures
        symbol_records(symbols, n).len() == 18 * n,
        symbol_records(symbols, n).subrange(18 * i, 18 * i + 18) == symbol_record(symbols, i),
    decreases n,
{
    lemma_symbol_records_len(symbols, n);
    lemma_symbol_records_len(symbols, n - 1);
    lemma_symbol_record_len(symbols, n - 1);
    if i < n - 1 {
        lemma_symbol_record_at(symbols, i, n - 1);
        assert(symbol_records(symbols, n).subrange(18 * i, 18 * i + 18) =~= symbol_records(
            symbols,
            n - 1,
        ).subrange(18 * i, 18 * i + 18));
    } else {
        assert(symbol_records(symbols, n).subrange(18 * i, 18 * i + 18) =~= symbol_record(
            symbols,
            i,
        ));
    }
}

proof fn lemma_long_name_at(symbols: Seq<SymbolRecord>, i: int, n: int)
    requires
        0 <= i < n <= symbols.len(),
        !short_name(symbols[i]),
    ensures
        ({
            let from = long_names(symbols, i).len() as int;
            let name = encode_utf8(symbols[i].name);
            &&& from + name.len() + 1 <= long_names(symbols, n).len()
            &&& long_names(symbols, n).subrange(from, from + name.len()) == name
            &&& long_names(symbols, n)[from + name.len()] == 0
        }),
    decreases n,
{
    let from = long_names(symbols, i).len() as int;
    let name = encode_utf8(symbols[i].name);
    if i < n - 1 {
        lemma_long_name_at(symbols, i, n - 1);
        assert(long_names(symbols, n).subrange(from, from + name.len()) =~= long_names(
            symbols,
            n - 1,
        ).subrange(from, from + name.len()));
    } else {
        assert(long_names(symbols, n).subrange(from, from + name.len()) =~= name);
    }
}

proof fn lemma_field32(bytes: Seq<u8>, at: int, value: int)
    requires
        0 <= at,
        at + 4 <= bytes.len(),
        bytes.subrange(at, at + 4) == le32(value),
        0 <= value < 0x1_0000_0000,
    ensures
        read_le32(bytes, at) == value,
{
    law_le32_reads_back(value);
    let field = bytes.subrange(at, at + 4);
    assert(field[0] == bytes[at] && field[1] == bytes[at + 1] && field[2] == bytes[at + 2]
        && field[3] == bytes[at + 3]);
}

proof fn lemma_field16(bytes: Seq<u8>, at: int, value: int)
    requires
        0 <= at,
        at + 2 <= bytes.len(),
        bytes.subrange(at, at + 2) == le16(value),
        0 <= value < 0x1_0000,
    ensures
        read_le16(bytes, at) == value,
{
    law_le16_reads_back(value);
    let field = bytes.subrange(at, at + 2);
    assert(field[0] == bytes[at] && field[1] == bytes[at + 1]);
}

/// A slice of a slice.
proof fn lemma_slice(bytes: Seq<u8>, from: int, to: int, a: int, b: int)
    requires
        0 <= from <= to <= bytes.len(),
        0 <= a <= b <= to - from,
    ensures
        bytes.subrange(from + a, from + b) == bytes.subrange(from, to).subrange(a, b),
{
    assert(bytes.subrange(from + a, from + b) =~= bytes.subrange(from, to).subrange(a, b));
}

/// The parts of a concatenation are its slices.
proof fn lemma_concat_slices(
    a: Seq<u8>,
    b: Seq<u8>,
    c: Seq<u8>,
    d: Seq<u8>,
    e: Seq<u8>,
    f: Seq<u8>,
)
    ensures
        ({
            let whole = a + b + c + d + e + f;
            let (ab, ac) = (a.len() + b.len(), a.len() + b.len() + c.len());
            let (ad, ae) = (ac + d.len(), ac + d.len() + e.len());
            &&& whole.subrange(0, a.len() as int) == a
            &&& whole.subrange(a.len() as int, ab as int) == b
            &&& whole.subrange(ab as int, ac as int) == c
            &&& whole.subrange(ac as int, ad as int) == d
            &&& whole.subrange(ad as int, ae as int) == e
            &&& whole.subrange(ae as int, (ae + f.len()) as int) == f
        }),
{
    let whole = a + b + c + d + e + f;
    let (ab, ac) = (a.len() + b.len(), a.len() + b.len() + c.len());
    let (ad, ae) = (ac + d.len(), ac + d.len() + e.len());
    assert(whole.subrange(0, a.len() as int) =~= a);
    assert(whole.subrange(a.len() as int, ab as int) =~= b);
    assert(whole.subrange(ab as int, ac as int) =~= c);
    assert(whole.subrange(ac as int, ad as int) =~= d);
    assert(whole.subrange(ad as int, ae as int) =~= e);
    assert(whole.subrange(ae as int, (ae + f.len()) as int) =~= f);
}

/// Each part of an object stands where the layout says.
proof fn lemma_object_slices(sections: Seq<Section>, symbols: Seq<SymbolRecord>)
    requires
        writable(sections),
    ensures
        ({
            let n = sections.len() as int;
            let object = coff_object(sections, symbols);
            &&& object.len() == coff_size(sections, symbols)
            &&& 20 <= headers_end(sections) <= raw_at(sections, n) <= symbols_at(sections)
                <= strings_at(sections, symbols) <= object.len() - 4
            &&& object.subrange(0, 20) == header(sections, symbols)
            &&& object.subrange(20, headers_end(sections)) == section_headers(sections, n)
            &&& object.subrange(headers_end(sections), raw_at(sections, n)) == raw_data(sections, n)
            &&& object.subrange(raw_at(sections, n), symbols_at(sections)) == reloc_tables(
                sections,
                n,
            )
            &&& object.subrange(symbols_at(sections), strings_at(sections, symbols))
                == symbol_records(symbols, symbols.len() as int)
            &&& object.subrange(strings_at(sections, symbols), object.len() as int) == string_table(
                symbols,
            )
        }),
{
    let n = sections.len() as int;
    lemma_object_parts(sections, symbols);
    lemma_layout_monotone(sections, n);
    lemma_concat_slices(
        header(sections, symbols),
        section_headers(sections, n),
        raw_data(sections, n),
        reloc_tables(sections, n),
        symbol_records(symbols, symbols.len() as int),
        string_table(symbols),
    );
}

proof fn lemma_header_fields(sections: Seq<Section>, symbols: Seq<SymbolRecord>)
    ensures
        ({
            let head = header(sections, symbols);
            &&& head.len() == 20
            &&& head.subrange(0, 2) == le16(AMD64_MACHINE as int)
            &&& head.subrange(2, 4) == le16(sections.len() as int)
            &&& head.subrange(8, 12) == le32(symbols_at(sections))
            &&& head.subrange(12, 16) == le32(symbols.len() as int)
        }),
{
    let head = header(sections, symbols);
    assert(head.subrange(0, 2) =~= le16(AMD64_MACHINE as int));
    assert(head.subrange(2, 4) =~= le16(sections.len() as int));
    assert(head.subrange(8, 12) =~= le32(symbols_at(sections)));
    assert(head.subrange(12, 16) =~= le32(symbols.len() as int));
}

proof fn lemma_section_header_fields(sections: Seq<Section>, i: int)
    requires
        0 <= i < sections.len(),
        sections[i].name.len() <= 8,
    ensures
        ({
            let head = section_header(sections, i);
            let section = sections[i];
            &&& head.len() == 40
            &&& head.subrange(0, 8) == fixed_name(section.name)
            &&& section.reserved is None ==> {
                &&& head.subrange(16, 20) == le32(section.data.len() as int)
                &&& head.subrange(20, 24) == le32(raw_at(sections, i))
            }
            &&& section.relocations.len() > 0 ==> head.subrange(24, 28) == le32(
                relocs_at(sections, i),
            )
        }),
{
    let head = section_header(sections, i);
    let section = sections[i];
    assert(head.subrange(0, 8) =~= fixed_name(section.name));
    if section.reserved is None {
        assert(head.subrange(16, 20) =~= le32(section.data.len() as int));
        assert(head.subrange(20, 24) =~= le32(raw_at(sections, i)));
    }
    if section.relocations.len() > 0 {
        assert(head.subrange(24, 28) =~= le32(relocs_at(sections, i)));
    }
}

proof fn lemma_symbol_record_fields(symbols: Seq<SymbolRecord>, i: int)
    requires
        0 <= i < symbols.len(),
    ensures
        ({
            let record = symbol_record(symbols, i);
            let name = encode_utf8(symbols[i].name);
            &&& record.len() == 18
            &&& record.subrange(8, 12) == le32(symbols[i].value)
            &&& record.subrange(12, 14) == le16(symbols[i].section_number)
            &&& record[16] == 2
            &&& name.len() <= 8 ==> record.subrange(0, 8) == fixed_name(name)
            &&& name.len() > 8 ==> {
                &&& record.subrange(0, 4) == le32(0)
                &&& record.subrange(4, 8) == le32(4 + long_names(symbols, i).len() as int)
            }
        }),
{
    let record = symbol_record(symbols, i);
    let name = encode_utf8(symbols[i].name);
    lemma_symbol_record_len(symbols, i);
    assert(record.subrange(8, 12) =~= le32(symbols[i].value));
    assert(record.subrange(12, 14) =~= le16(symbols[i].section_number));
    if name.len() <= 8 {
        assert(record.subrange(0, 8) =~= fixed_name(name));
    } else {
        assert(record.subrange(0, 4) =~= le32(0));
        assert(record.subrange(4, 8) =~= le32(4 + long_names(symbols, i).len() as int));
    }
}

/// The file header of a written object names the machine, the number of sections,
/// and the place and number of the symbol records; the object is exactly as long as
/// its parts.
pub proof fn law_header_describes_object(sections: Seq<Section>, symbols: Seq<SymbolRecord>)
    requires
        writable(sections),
        sections.len() < 0x1_0000,
        coff_size(sections, symbols) <= u32::MAX,
    ensures
        ({
            let object = coff_object(sections, symbols);
            &&& object.len() == coff_size(sections, symbols)
            &&& read_le16(object, 0) == AMD64_MACHINE
            &&& read_le16(object, 2) == sections.len()
            &&& read_le32(object, 8) == symbols_at(sections)
            &&& read_le32(object, 12) == symbols.len()
        }),
{
    let object = coff_object(sections, symbols);
    lemma_object_slices(sections, symbols);
    lemma_header_fields(sections, symbols);
    lemma_slice(object, 0, 20, 0, 2);
    lemma_slice(object, 0, 20, 2, 4);
    lemma_slice(object, 0, 20, 8, 12);
    lemma_slice(object, 0, 20, 12, 16);
    lemma_field16(object, 0, AMD64_MACHINE as int);
    lemma_field16(object, 2, sections.len() as int);
    lemma_field32(object, 8, symbols_at(sections));
    lemma_field32(object, 12, symbols.len() as int);
}

/// Section `i` of a written object can be read back: its header stands in place,
/// gives the size and place of its data and of its relocation records, and both
/// stand there.
pub proof fn law_section_reads_back(sections: Seq<Section>, symbols: Seq<SymbolRecord>, i: int)
    requires
        writable(sections),
        coff_size(sections, symbols) <= u32::MAX,
        0 <= i < sections.len(),
    ensures
        ({
            let object = coff_object(sections, symbols);
            let at = 20 + 40 * i;
            let section = sections[i];
            &&& object.subrange(at, at + 8) == fixed_name(section.name)
            &&& section.reserved is None ==> {
                &&& read_le32(object, at + 16) == section.data.len()
                &&& read_le32(object, at + 20) == raw_at(sections, i)
            }
            &&& object.subrange(raw_at(sections, i), raw_at(sections, i) + section.data.len())
                == section.data
            &&& section.relocations.len() > 0 ==> read_le32(object, at + 24) == relocs_at(
                sections,
                i,
            )
            &&& object.subrange(
                relocs_at(sections, i),
                relocs_at(sections, i) + 10 * section.relocations.len(),
            ) == reloc_records(section.relocations, section.relocations.len() as int)
        }),
{
    let object = coff_object(sections, symbols);
    let n = sections.len() as int;
    let at = 20 + 40 * i;
    let section = sections[i];
    let count = section.relocations.len() as int;
    lemma_object_slices(sections, symbols);
    lemma_layout_monotone(sections, i);
    lemma_section_header_at(sections, i, n);
    lemma_section_header_fields(sections, i);
    lemma_raw_data_at(sections, i, n);
    lemma_reloc_table_at(sections, i, n);
    lemma_slice(object, 20, headers_end(sections), 40 * i, 40 * i + 40);
    lemma_slice(object, at, at + 40, 0, 8);
    if section.reserved is None {
        lemma_slice(object, at, at + 40, 16, 20);
        lemma_field32(object, at + 16, section.data.len() as int);
        lemma_slice(object, at, at + 40, 20, 24);
        lemma_field32(object, at + 20, raw_at(sections, i));
    }
    if count > 0 {
        lemma_slice(object, at, at + 40, 24, 28);
        lemma_field32(object, at + 24, relocs_at(sections, i));
    }
    let from = raw_len(sections, i);
    lemma_slice(
        object,
        headers_end(sections),
        raw_at(sections, n),
        from,
        from + section.data.len(),
    );
    let first = 10 * reloc_count(sections, i);
    lemma_slice(object, raw_at(sections, n), symbols_at(sections), first, first + 10 * count);
}

/// Symbol `i` of a written object can be read back: its record stands in place with
/// its value and section number, and its name is found, in the record or in the
/// string table the record points into.
pub proof fn law_symbol_reads_back(sections: Seq<Section>, symbols: Seq<SymbolRecord>, i: int)
    requires
        writable(sections),
        coff_size(sections, symbols) <= u32::MAX,
        0 <= i < symbols.len(),
        0 <= symbols[i].value <= u32::MAX,
        0 <= symbols[i].section_number < 0x1_0000,
    ensures
        ({
            let object = coff_object(sections, symbols);
            let at = symbols_at(sections) + 18 * i;
            let table = strings_at(sections, symbols);
            let name = encode_utf8(symbols[i].name);
            &&& read_le32(object, at + 8) == symbols[i].value
            &&& read_le16(object, at + 12) == symbols[i].section_number
            &&& object[at + 16] == 2
            &&& if name.len() <= 8 {
                object.subrange(at, at + 8) == fixed_name(name)
            } else {
                let offset = read_le32(object, at + 4);
                &&& read_le32(object, at) == 0
                &&& object.subrange(table + offset, table + offset + name.len()) == name
                &&& object[table + offset + name.len()] == 0
            }
        }),
{
    let object = coff_object(sections, symbols);
    let count = symbols.len() as int;
    let start = symbols_at(sections);
    let at = start + 18 * i;
    let table = strings_at(sections, symbols);
    let name = encode_utf8(symbols[i].name);
    lemma_object_slices(sections, symbols);
    lemma_symbol_record_at(symbols, i, count);
    lemma_symbol_record_fields(symbols, i);
    lemma_slice(object, start, table, 18 * i, 18 * i + 18);
    let record = symbol_record(symbols, i);
    assert(object.subrange(at, at + 18) == record);
    lemma_slice(object, at, at + 18, 8, 12);
    lemma_field32(object, at + 8, symbols[i].value);
    lemma_slice(object, at, at + 18, 12, 14);
    lemma_field16(object, at + 12, symbols[i].section_number);
    assert(object.subrange(at, at + 18)[16] == object[at + 16]);
    if name.len() <= 8 {
        lemma_slice(object, at, at + 18, 0, 8);
    } else {
        let from = long_names(symbols, i).len() as int;
        lemma_long_name_at(symbols, i, count);
        lemma_slice(object, at, at + 18, 0, 4);
        lemma_field32(object, at, 0);
        lemma_slice(object, at, at + 18, 4, 8);
        lemma_field32(object, at + 4, 4 + from);
        let all = long_names(symbols, count);
        let strings = string_table(symbols);
        let end = object.len() as int;
        assert(strings.subrange(4, 4 + all.len() as int) =~= all);
        lemma_slice(object, table, end, 4 + from, 4 + from + name.len());
        lemma_slice(strings, 4, 4 + all.len() as int, from, from + name.len());
        assert(object.subrange(table, end)[4 + from + name.len()] == object[table + 4 + from
            + name.len()]);
        assert(strings[4 + from + name.len()] == all[from + name.len()]);
    }
}

/// The string table starts with its own size, which reaches to the end of the file.
pub proof fn law_string_table_size(sections: Seq<Section>, symbols: Seq<SymbolRecord>)
    requires
        writable(sections),
        coff_size(sections, symbols) <= u32::MAX,
    ensures
        ({
            let object = coff_object(sections, symbols);
            let table = strings_at(sections, symbols);
            table + read_le32(object, table) == object.len()
        }),
{
    let object = coff_object(sections, symbols);
    let table = strings_at(sections, symbols);
    let n = sections.len() as int;
    let size = 4 + long_names(symbols, symbols.len() as int).len() as int;
    lemma_object_parts(sections, symbols);
    lemma_layout_monotone(sections, n);
    assert(object.subrange(table, table + 4) =~= le32(size));
    lemma_field32(object, table, size);
}

// Writing

/// Appends the low 16 bits of a count.
fn push_count(bytes: &mut Vec<u8>, count: usize)
    ensures
        final(bytes)@ == old(bytes)@ + le16(count as int),
{
    let low: u16 = (count % 0x1_0000) as u16;
    push_u16(bytes, low);
    proof {
        assert(low_byte(count as int) == low_byte(low as int));
        assert(low_byte(count as int / 256) == low_byte(low as int / 256));
        assert(le16(low as int) == le16(count as int));
    }
}

/// Appends a name of at most `width` bytes, padded with zeros to `width`.
pub fn push_fixed_name(bytes: &mut Vec<u8>, name: &str, width: usize)
    requires
        encode_utf8(name@).len() <= width,
    ensures
        final(bytes)@ == old(bytes)@ + encode_utf8(name@) + zeros(
            (width - encode_utf8(name@).len()) as nat,
        ),
{
    let raw = name.as_bytes();
    bytes.extend_from_slice(raw);
    push_zeros(bytes, width - raw.len());
}

fn push_section_header(
    bytes: &mut Vec<u8>,
    section: &SectionImage,
    raw_offset: u32,
    reloc_offset: u32,
    Ghost(sections): Ghost<Seq<Section>>,
    Ghost(i): Ghost<int>,
)
    requires
        0 <= i < sections.len(),
        sections[i] == section@,
        section@.name.len() <= 8,
        section.data@.len() <= u32::MAX,
        raw_offset == raw_at(sections, i),
        reloc_offset == relocs_at(sections, i),
    ensures
        final(bytes)@ == old(bytes)@ + section_header(sections, i),
{
    let ghost start = bytes@;
    push_fixed_name(bytes, section.name.as_str(), 8);
    push_u32(bytes, 0);  // VirtualSize
    push_u32(bytes, 0);  // VirtualAddress
    match section.reserved {
        Some(size) => {
            push_u32(bytes, size);  // SizeOfRawData
            push_u32(bytes, 0);  // PointerToRawData
        },
        None => {
            push_u32(bytes, section.data.len() as u32);
            push_u32(bytes, raw_offset);
        },
    }
    let relocs: u32 = if section.relocations.len() == 0 {
        0
    } else {
        reloc_offset
    };
    push_u32(bytes, relocs);  // PointerToRelocations
    push_u32(bytes, 0);  // PointerToLinenumbers
    push_count(bytes, section.relocations.len());  // NumberOfRelocations
    push_u16(bytes, 0);  // NumberOfLinenumbers
    push_u32(bytes, section.characteristics);
    proof {
        assert(bytes@ =~= start + section_header(sections, i));
    }
}

fn push_relocations(bytes: &mut Vec<u8>, relocations: &Vec<SectionRelocation>)
    ensures
        final(bytes)@ == old(bytes)@ + reloc_records(relocations@, relocations@.len() as int),
{
    let ghost start = bytes@;
    let mut i: usize = 0;
    while i < relocations.len()
        invariant
            i <= relocations@.len(),
            bytes@ == start + reloc_records(relocations@, i as int),
        decreases relocations@.len() - i,
    {
        let r: SectionRelocation = relocations[i];
        push_u32(bytes, r.offset);
        push_u32(bytes, r.symbol);
        push_u16(bytes, r.kind);
        proof {
            assert(bytes@ =~= start + reloc_records(relocations@, i + 1));
        }
        i += 1;
    }
}

/// Writes the symbol records and, behind them, the string table.
fn push_symbols(bytes: &mut Vec<u8>, symbols: &Vec<SymbolDef>)
    requires
        4 + long_names(symbol_views(symbols@), symbols@.len() as int).len() <= u32::MAX,
    ensures
        final(bytes)@ == old(bytes)@ + symbol_records(
            symbol_views(symbols@),
            symbols@.len() as int,
        ) + string_table(symbol_views(symbols@)),
{
    let ghost start = bytes@;
    let ghost views = symbol_views(symbols@);
    let mut names: Vec<u8> = Vec::new();
    let mut i: usize = 0;
    while i < symbols.len()
        invariant
            i <= symbols@.len(),
            views == symbol_views(symbols@),
            names@ == long_names(views, i as int),
            4 + long_names(views, symbols@.len() as int).len() <= u32::MAX,
            bytes@ == start + symbol_records(views, i as int),
        decreases symbols@.len() - i,
    {
        proof {
            lemma_long_names_monotone(views, i as int, symbols@.len() as int);
        }
        let symbol = &symbols[i];
        let raw = symbol.name.as_str().as_bytes();
        let ghost before = bytes@;
        assert(views[i as int] == symbol@);
        if raw.len() <= 8 {
            push_fixed_name(bytes, symbol.name.as_str(), 8);
        } else {
            push_u32(bytes, 0);
            push_u32(bytes, 4 + names.len() as u32);
            names.extend_from_slice(raw);
            names.push(0);
            proof {
                assert(names@ =~= long_names(views, i + 1));
            }
        }
        proof {
            assert(bytes@ =~= before + name_field(views, i as int));
        }
        push_u32(bytes, symbol.value);
        push_u16(bytes, symbol.section_number);
        let kind: u16 = if symbol.is_function {
            0x20
        } else {
            0
        };
        push_u16(bytes, kind);
        bytes.push(2);
        bytes.push(0);
        proof {
            assert(bytes@ =~= before + symbol_record(views, i as int));
            assert(bytes@ =~= start + symbol_records(views, i + 1));
        }
        i += 1;
    }
    push_u32(bytes, 4 + names.len() as u32);
    push_all(bytes, &names);
    proof {
        assert(bytes@ =~= start + symbol_records(views, symbols@.len() as int) + string_table(
            views,
        ));
    }
}

proof fn lemma_long_names_monotone(symbols: Seq<SymbolRecord>, i: int, n: int)
    requires
        0 <= i <= n <= symbols.len(),
    ensures
        long_names(symbols, i).len() <= long_names(symbols, n).len(),
    decreases n - i,
{
    if i < n {
        lemma_long_names_monotone(symbols, i, n - 1);
    }
}

/// Writes a COFF object.
pub fn write_coff(sections: &Vec<SectionImage>, symbols: &Vec<SymbolDef>) -> (bytes: Vec<u8>)
    requires
        writable(section_views(sections@)),
        coff_size(section_views(sections@), symbol_views(symbols@)) <= u32::MAX,
    ensures
        bytes@ == coff_object(section_views(sections@), symbol_views(symbols@)),
{
    let ghost views = section_views(sections@);
    let ghost syms = symbol_views(symbols@);
    let count: usize = sections.len();
    let ghost n = count as int;
    proof {
        lemma_object_parts(views, syms);
        lemma_layout_monotone(views, n);
    }
    let base: u32 = COFF_HEADER_SIZE + count as u32 * SECTION_HEADER_SIZE;
    // Where the data ends and how many relocation records there are.
    let mut raw: u32 = 0;
    let mut relocs: u32 = 0;
    let mut i: usize = 0;
    while i < count
        invariant
            i <= count == sections@.len(),
            views == section_views(sections@),
            raw == raw_len(views, i as int),
            relocs == reloc_count(views, i as int),
            20 + 40 * count + raw_len(views, count as int) + 10 * reloc_count(views, count as int)
                <= u32::MAX,
        decreases count - i,
    {
        proof {
            lemma_layout_monotone(views, i as int);
            assert(views[i as int] == sections@[i as int]@);
        }
        raw = raw + sections[i].data.len() as u32;
        relocs = relocs + sections[i].relocations.len() as u32;
        i += 1;
    }
    let table: u32 = base + raw;
    let mut bytes: Vec<u8> = Vec::new();
    push_u16(&mut bytes, AMD64_MACHINE);
    push_count(&mut bytes, count);
    push_u32(&mut bytes, 0);  // timestamp
    push_u32(&mut bytes, table + relocs * COFF_RELOC_SIZE);
    push_u32(&mut bytes, symbols.len() as u32);
    push_u16(&mut bytes, 0);  // optional header size
    push_u16(&mut bytes, 0);  // characteristics
    proof {
        assert(bytes@ =~= header(views, syms));
    }
    let mut raw_before: u32 = 0;
    let mut relocs_before: u32 = 0;
    i = 0;
    while i < count
        invariant
            i <= count == sections@.len(),
            views == section_views(sections@),
            writable(views),
            base == headers_end(views),
            table == base + raw_len(views, count as int),
            raw_before == raw_len(views, i as int),
            relocs_before == reloc_count(views, i as int),
            table + 10 * reloc_count(views, count as int) <= u32::MAX,
            bytes@ == header(views, syms) + section_headers(views, i as int),
        decreases count - i,
    {
        proof {
            lemma_layout_monotone(views, i as int);
            assert(views[i as int] == sections@[i as int]@);
        }
        let ghost before = bytes@;
        push_section_header(
            &mut bytes,
            &sections[i],
            base + raw_before,
            table + relocs_before * COFF_RELOC_SIZE,
            Ghost(views),
            Ghost(i as int),
        );
        proof {
            assert(bytes@ =~= header(views, syms) + section_headers(views, i + 1));
        }
        raw_before = raw_before + sections[i].data.len() as u32;
        relocs_before = relocs_before + sections[i].relocations.len() as u32;
        i += 1;
    }
    let ghost headers = bytes@;
    i = 0;
    while i < count
        invariant
            i <= count == sections@.len(),
            views == section_views(sections@),
            bytes@ == headers + raw_data(views, i as int),
        decreases count - i,
    {
        push_all(&mut bytes, &sections[i].data);
        proof {
            assert(views[i as int] == sections@[i as int]@);
            assert(bytes@ =~= headers + raw_data(views, i + 1));
        }
        i += 1;
    }
    let ghost through_data = bytes@;
    i = 0;
    while i < count
        invariant
            i <= count == sections@.len(),
            views == section_views(sections@),
            bytes@ == through_data + reloc_tables(views, i as int),
        decreases count - i,
    {
        push_relocations(&mut bytes, &sections[i].relocations);
        proof {
            assert(views[i as int] == sections@[i as int]@);
            assert(bytes@ =~= through_data + reloc_tables(views, i + 1));
        }
        i += 1;
    }
    push_symbols(&mut bytes, symbols);
    bytes
}

proof fn lemma_reloc_record_at(relocations: Seq<SectionRelocation>, j: int, n: int)
    requires
        0 <= j < n <= relocations.len(),
    ensures
        reloc_records(relocations, j).len() == 10 * j,
        reloc_records(relocations, n).len() == 10 * n,
        reloc_records(relocations, n).subrange(10 * j, 10 * j + 10) == reloc_record(relocations[j]),
    decreases n,
{
    let record = reloc_record(relocations[n - 1]);
    assert(record.len() == 10);
    if j < n - 1 {
        lemma_reloc_record_at(relocations, j, n - 1);
        assert(reloc_records(relocations, n).subrange(10 * j, 10 * j + 10) =~= reloc_records(
            relocations,
            n - 1,
        ).subrange(10 * j, 10 * j + 10));
    } else {
        if n > 1 {
            lemma_reloc_record_at(relocations, n - 2, n - 1);
        }
        assert(reloc_records(relocations, n).subrange(10 * j, 10 * j + 10) =~= record);
    }
}

proof fn lemma_reloc_record_fields(r: SectionRelocation)
    ensures
        reloc_record(r).len() == 10,
        reloc_record(r).subrange(0, 4) == le32(r.offset as int),
        reloc_record(r).subrange(4, 8) == le32(r.symbol as int),
        reloc_record(r).subrange(8, 10) == le16(r.kind as int),
{
    let record = reloc_record(r);
    assert(record.subrange(0, 4) =~= le32(r.offset as int));
    assert(record.subrange(4, 8) =~= le32(r.symbol as int));
    assert(record.subrange(8, 10) =~= le16(r.kind as int));
}

proof fn lemma_reloc_record_reads(object: Seq<u8>, at: int, r: SectionRelocation)
    requires
        0 <= at,
        at + 10 <= object.len(),
        object.subrange(at, at + 10) == reloc_record(r),
    ensures
        read_le32(object, at) == r.offset,
        read_le32(object, at + 4) == r.symbol,
        read_le16(object, at + 8) == r.kind,
{
    lemma_reloc_record_fields(r);
    lemma_slice(object, at, at + 10, 0, 4);
    lemma_field32(object, at, r.offset as int);
    lemma_slice(object, at, at + 10, 4, 8);
    lemma_field32(object, at + 4, r.symbol as int);
    lemma_slice(object, at, at + 10, 8, 10);
    lemma_field16(object, at + 8, r.kind as int);
}

proof fn lemma_section_header_rest(sections: Seq<Section>, i: int)
    requires
        0 <= i < sections.len(),
        sections[i].name.len() <= 8,
    ensures
        ({
            let head = section_header(sections, i);
            let section = sections[i];
            &&& head.len() == 40
            &&& section.reserved matches Some(size) ==> {
                &&& head.subrange(16, 20) == le32(size)
                &&& head.subrange(20, 24) == le32(0)
            }
            &&& section.relocations.len() == 0 ==> head.subrange(24, 28) == le32(0)
            &&& head.subrange(32, 34) == le16(section.relocations.len() as int)
            &&& head.subrange(36, 40) == le32(section.characteristics)
        }),
{
    let head = section_header(sections, i);
    let section = sections[i];
    lemma_section_header_fields(sections, i);
    if let Some(size) = section.reserved {
        assert(head.subrange(16, 20) =~= le32(size));
        assert(head.subrange(20, 24) =~= le32(0));
    }
    if section.relocations.len() == 0 {
        assert(head.subrange(24, 28) =~= le32(0));
    }
    assert(head.subrange(32, 34) =~= le16(section.relocations.len() as int));
    assert(head.subrange(36, 40) =~= le32(section.characteristics));
}

/// The header of section `i` stands in the object.
#[verifier::rlimit(30)]
proof fn lemma_header_in_object(sections: Seq<Section>, symbols: Seq<SymbolRecord>, i: int)
    requires
        writable(sections),
        0 <= i < sections.len(),
    ensures
        20 + 40 * i + 40 <= coff_object(sections, symbols).len(),
        coff_object(sections, symbols).subrange(20 + 40 * i, 60 + 40 * i) == section_header(
            sections,
            i,
        ),
{
    lemma_object_slices(sections, symbols);
    lemma_section_header_at(sections, i, sections.len() as int);
    lemma_slice(
        coff_object(sections, symbols),
        20,
        headers_end(sections),
        40 * i,
        40 * i + 40,
    );
}

/// The relocations of section `i` stand in the object, where its header says.
#[verifier::rlimit(40)]
proof fn lemma_relocs_in_object(sections: Seq<Section>, symbols: Seq<SymbolRecord>, i: int)
    requires
        writable(sections),
        coff_size(sections, symbols) <= u32::MAX,
        0 <= i < sections.len(),
        0 < sections[i].relocations.len(),
    ensures
        0 <= relocs_at(sections, i),
        relocs_at(sections, i) + 10 * sections[i].relocations.len() <= coff_object(
            sections,
            symbols,
        ).len(),
        read_le32(coff_object(sections, symbols), 44 + 40 * i) == relocs_at(sections, i),
        coff_object(sections, symbols).subrange(
            relocs_at(sections, i),
            relocs_at(sections, i) + 10 * sections[i].relocations.len(),
        ) == reloc_records(sections[i].relocations, sections[i].relocations.len() as int),
{
    lemma_object_slices(sections, symbols);
    lemma_layout_monotone(sections, i);
    lemma_reloc_table_at(sections, i, sections.len() as int);
    law_section_reads_back(sections, symbols, i);
}

proof fn lemma_relocation_reads(
    object: Seq<u8>,
    header: int,
    base: int,
    sections: Seq<Section>,
    i: int,
    j: int,
)
    requires
        0 <= i < sections.len(),
        sections[i].name.len() <= 8,
        0 <= j < sections[i].relocations.len() < 0x1_0000,
        0 <= header,
        header + 40 <= object.len(),
        object.subrange(header, header + 40) == section_header(sections, i),
        0 <= base,
        base + 10 * sections[i].relocations.len() <= object.len(),
        object.subrange(base, base + 10 * sections[i].relocations.len()) == reloc_records(
            sections[i].relocations,
            sections[i].relocations.len() as int,
        ),
    ensures
        ({
            let at = base + 10 * j;
            let relocation = sections[i].relocations[j];
            &&& read_le16(object, header + 32) == sections[i].relocations.len()
            &&& at + 10 <= object.len()
            &&& read_le32(object, at) == relocation.offset
            &&& read_le32(object, at + 4) == relocation.symbol
            &&& read_le16(object, at + 8) == relocation.kind
        }),
{
    let relocations = sections[i].relocations;
    let count = relocations.len() as int;
    lemma_section_header_rest(sections, i);
    lemma_slice(object, header, header + 40, 32, 34);
    lemma_field16(object, header + 32, count);
    lemma_reloc_record_at(relocations, j, count);
    lemma_slice(object, base, base + 10 * count, 10 * j, 10 * j + 10);
    lemma_reloc_record_reads(object, base + 10 * j, relocations[j]);
}

/// The header of a section says how many relocations it has and where they are, and there
/// each relocation reads back: the place it patches, the symbol it is against, its kind.
#[verifier::rlimit(40)]
pub proof fn law_relocation_reads_back(
    sections: Seq<Section>,
    symbols: Seq<SymbolRecord>,
    i: int,
    j: int,
)
    requires
        writable(sections),
        coff_size(sections, symbols) <= u32::MAX,
        0 <= i < sections.len(),
        0 <= j < sections[i].relocations.len() < 0x1_0000,
    ensures
        ({
            let object = coff_object(sections, symbols);
            let header = 20 + 40 * i;
            let at = read_le32(object, header + 24) + 10 * j;
            let relocation = sections[i].relocations[j];
            &&& read_le16(object, header + 32) == sections[i].relocations.len()
            &&& 0 <= at
            &&& at + 10 <= object.len()
            &&& read_le32(object, at) == relocation.offset
            &&& read_le32(object, at + 4) == relocation.symbol
            &&& read_le16(object, at + 8) == relocation.kind
        }),
{
    lemma_header_in_object(sections, symbols, i);
    lemma_relocs_in_object(sections, symbols, i);
    lemma_relocation_reads(
        coff_object(sections, symbols),
        20 + 40 * i,
        relocs_at(sections, i),
        sections,
        i,
        j,
    );
}

proof fn lemma_header_reads(object: Seq<u8>, header: int, sections: Seq<Section>, i: int)
    requires
        0 <= i < sections.len(),
        sections[i].name.len() <= 8,
        0 <= header,
        header + 40 <= object.len(),
        object.subrange(header, header + 40) == section_header(sections, i),
        0 <= sections[i].characteristics <= u32::MAX,
        sections[i].reserved matches Some(size) ==> 0 <= size <= u32::MAX,
    ensures
        ({
            let section = sections[i];
            &&& read_le32(object, header + 36) == section.characteristics
            &&& section.reserved matches Some(size) ==> {
                &&& read_le32(object, header + 16) == size
                &&& read_le32(object, header + 20) == 0
            }
            &&& section.relocations.len() == 0 ==> {
                &&& read_le32(object, header + 24) == 0
                &&& read_le16(object, header + 32) == 0
            }
        }),
{
    lemma_section_header_rest(sections, i);
    lemma_slice(object, header, header + 40, 36, 40);
    lemma_field32(object, header + 36, sections[i].characteristics);
    if let Some(size) = sections[i].reserved {
        lemma_slice(object, header, header + 40, 16, 20);
        lemma_field32(object, header + 16, size);
        lemma_slice(object, header, header + 40, 20, 24);
        lemma_field32(object, header + 20, 0);
    }
    if sections[i].relocations.len() == 0 {
        lemma_slice(object, header, header + 40, 24, 28);
        lemma_field32(object, header + 24, 0);
        lemma_slice(object, header, header + 40, 32, 34);
        lemma_field16(object, header + 32, 0);
    }
}

/// The header of a section gives its attributes; one that stores nothing gives the size it
/// reserves and no place for data, and one without relocations gives no place for those.
pub proof fn law_section_attributes_read_back(
    sections: Seq<Section>,
    symbols: Seq<SymbolRecord>,
    i: int,
)
    requires
        writable(sections),
        0 <= i < sections.len(),
        0 <= sections[i].characteristics <= u32::MAX,
        sections[i].reserved matches Some(size) ==> 0 <= size <= u32::MAX,
    ensures
        ({
            let object = coff_object(sections, symbols);
            let header = 20 + 40 * i;
            let section = sections[i];
            &&& read_le32(object, header + 36) == section.characteristics
            &&& section.reserved matches Some(size) ==> {
                &&& read_le32(object, header + 16) == size
                &&& read_le32(object, header + 20) == 0
            }
            &&& section.relocations.len() == 0 ==> {
                &&& read_le32(object, header + 24) == 0
                &&& read_le16(object, header + 32) == 0
            }
        }),
{
    lemma_header_in_object(sections, symbols, i);
    lemma_header_reads(coff_object(sections, symbols), 20 + 40 * i, sections, i);
}

/// A symbol's record says whether it is a function, and that no auxiliary record follows.
pub proof fn law_symbol_type_reads_back(
    sections: Seq<Section>,
    symbols: Seq<SymbolRecord>,
    i: int,
)
    requires
        writable(sections),
        0 <= i < symbols.len(),
    ensures
        ({
            let object = coff_object(sections, symbols);
            let at = symbols_at(sections) + 18 * i;
            &&& read_le16(object, at + 14) == if symbols[i].is_function {
                0x20int
            } else {
                0
            }
            &&& object[at + 17] == 0
        }),
{
    let object = coff_object(sections, symbols);
    let start = symbols_at(sections);
    let at = start + 18 * i;
    let record = symbol_record(symbols, i);
    let kind = if symbols[i].is_function {
        0x20int
    } else {
        0
    };
    lemma_object_slices(sections, symbols);
    lemma_symbol_record_at(symbols, i, symbols.len() as int);
    lemma_symbol_record_len(symbols, i);
    lemma_slice(object, start, strings_at(sections, symbols), 18 * i, 18 * i + 18);
    lemma_slice(object, at, at + 18, 14, 16);
    assert(record.subrange(14, 16) =~= le16(kind));
    lemma_field16(object, at + 14, kind);
    assert(object.subrange(at, at + 18)[17] == object[at + 17]);
}

} // verus!
