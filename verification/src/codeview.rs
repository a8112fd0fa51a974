//! CodeView source-line debug information: the contents of `.debug$S`.
//!
//! The stream is a signature, a symbols subsection with one compiler record, one
//! lines subsection per function (its function-offset and segment fields are
//! relocated against the function's symbol), a file-checksum table with one entry,
//! and a string table holding the source file's name. Line granularity is one
//! record per function, at its entry.

use crate::bytes::{
    law_le32_reads_back, le16, le32, push_all, push_u16, push_u32, push_zeros, read_le32, zeros,
};
use crate::coff::{IMAGE_REL_AMD64_SECREL, IMAGE_REL_AMD64_SECTION};
use vstd::prelude::*;
use vstd::utf8::encode_utf8;

verus! {

pub const CV_SIGNATURE_C13: u32 = 4;

pub const DEBUG_S_SYMBOLS: u32 = 0xF1;

pub const DEBUG_S_LINES: u32 = 0xF2;

pub const DEBUG_S_STRINGTABLE: u32 = 0xF3;

pub const DEBUG_S_FILECHKSMS: u32 = 0xF4;

pub const S_COMPILE3: u16 = 0x113C;

/// The `.debug$S` request of a compilation.
#[derive(Debug, PartialEq, Eq)]
pub struct DebugOptions {
    /// The source file name to record.
    pub source_file: String,
}

/// A relocation the debug section needs against a function's symbol.
#[derive(Debug, PartialEq, Eq)]
pub struct DebugReloc {
    /// Byte offset of the field within the section.
    pub offset: u32,
    pub symbol: String,
    pub reloc_type: u16,
}

/// One function's line entry: its symbol, its code length in bytes, and its source
/// declaration line.
#[derive(Debug, PartialEq, Eq)]
pub struct DebugFunctionLine {
    pub symbol: String,
    pub code_len: u32,
    pub line: u32,
}

/// A line entry, as the format sees it.
pub struct LineEntry {
    pub symbol: Seq<char>,
    pub code_len: int,
    pub line: u32,
}

/// A debug relocation, as the format sees it.
pub struct DebugReference {
    pub offset: int,
    pub symbol: Seq<char>,
    pub kind: u16,
}

impl View for DebugReloc {
    type V = DebugReference;

    open spec fn view(&self) -> DebugReference {
        DebugReference { offset: self.offset as int, symbol: self.symbol@, kind: self.reloc_type }
    }
}

impl View for DebugFunctionLine {
    type V = LineEntry;

    open spec fn view(&self) -> LineEntry {
        LineEntry { symbol: self.symbol@, code_len: self.code_len as int, line: self.line }
    }
}

/// The entries an entry list stands for.
pub open spec fn line_views(functions: Seq<DebugFunctionLine>) -> Seq<LineEntry> {
    functions.map_values(|f: DebugFunctionLine| f@)
}

/// The references a debug relocation list stands for.
pub open spec fn debug_refs(relocs: Seq<DebugReloc>) -> Seq<DebugReference> {
    relocs.map_values(|r: DebugReloc| r@)
}

/// How many bytes bring `len` to a multiple of four.
pub open spec fn pad4(len: int) -> int {
    (4 - len % 4) % 4
}

/// A section with one more subsection: kind, length, data, padding to a four-byte
/// boundary.
pub open spec fn with_subsection(section: Seq<u8>, kind: int, data: Seq<u8>) -> Seq<u8> {
    let unpadded = section + le32(kind) + le32(data.len() as int) + data;
    unpadded + zeros(pad4(unpadded.len() as int) as nat)
}

/// A subsection's padding keeps the stream aligned to four bytes.
pub proof fn law_subsections_keep_alignment(section: Seq<u8>, kind: int, data: Seq<u8>)
    ensures
        with_subsection(section, kind, data).len() % 4 == 0,
{
}

/// The compiler's name in its record: `lullaby native`.
pub open spec fn compiler_name() -> Seq<u8> {
    seq![0x6C, 0x75, 0x6C, 0x6C, 0x61, 0x62, 0x79, 0x20, 0x6E, 0x61, 0x74, 0x69, 0x76, 0x65]
}

/// The compiler record: kind, flags, machine (x64), eight version words, name.
pub open spec fn compile_record() -> Seq<u8> {
    le16(S_COMPILE3 as int) + le32(0) + le16(0xD0) + zeros(16) + compiler_name() + seq![0u8]
}

/// The contents of the symbols subsection: the record behind its length.
pub open spec fn symbols_data() -> Seq<u8> {
    le16(compile_record().len() as int) + compile_record()
}

/// The contents of one function's lines subsection: offset and segment (both
/// relocated), flags, code size; then one file block with one statement line at code
/// offset 0.
pub open spec fn lines_data(entry: LineEntry) -> Seq<u8> {
    le32(0) + le16(0) + le16(0) + le32(entry.code_len) + le32(0) + le32(1) + le32(20) + le32(0)
        + le32((entry.line | 0x8000_0000) as int)
}

/// The section up to the lines of the first `n` functions.
pub open spec fn section_upto(entries: Seq<LineEntry>, n: int) -> Seq<u8>
    decreases n,
{
    if n <= 0 {
        with_subsection(le32(CV_SIGNATURE_C13 as int), DEBUG_S_SYMBOLS as int, symbols_data())
    } else {
        with_subsection(
            section_upto(entries, n - 1),
            DEBUG_S_LINES as int,
            lines_data(entries[n - 1]),
        )
    }
}

/// The relocations of the lines of the first `n` functions: for each its offset
/// field, then its segment field.
pub open spec fn refs_upto(entries: Seq<LineEntry>, n: int) -> Seq<DebugReference>
    decreases n,
{
    if n <= 0 {
        seq![]
    } else {
        let data_start = section_upto(entries, n - 1).len() + 8;
        refs_upto(entries, n - 1).push(
            DebugReference {
                offset: data_start as int,
                symbol: entries[n - 1].symbol,
                kind: IMAGE_REL_AMD64_SECREL,
            },
        ).push(
            DebugReference {
                offset: (data_start + 4) as int,
                symbol: entries[n - 1].symbol,
                kind: IMAGE_REL_AMD64_SECTION,
            },
        )
    }
}

/// The string table: the empty string, then the source file's name.
pub open spec fn name_table(source_file: Seq<char>) -> Seq<u8> {
    seq![0u8] + encode_utf8(source_file) + seq![0u8]
}

/// The file table: one entry naming the source file, without a checksum.
pub open spec fn file_table() -> Seq<u8> {
    le32(1) + zeros(4)
}

/// The whole section.
pub open spec fn debug_section(source_file: Seq<char>, entries: Seq<LineEntry>) -> Seq<u8> {
    with_subsection(
        with_subsection(
            section_upto(entries, entries.len() as int),
            DEBUG_S_FILECHKSMS as int,
            file_table(),
        ),
        DEBUG_S_STRINGTABLE as int,
        name_table(source_file),
    )
}

/// The section grows with its entries.
pub proof fn lemma_section_upto_len(entries: Seq<LineEntry>, n: int)
    requires
        0 <= n,
    ensures
        section_upto(entries, n).len() == 56 + 40 * n,
    decreases n,
{
    assert(compile_record().len() == 39);
    if n > 0 {
        lemma_section_upto_len(entries, n - 1);
        assert(lines_data(entries[n - 1]).len() == 32);
    } else {
        assert(symbols_data().len() == 41);
    }
}

/// Each function is located by two relocations, against its own symbol and at fixed
/// places: its offset field by `SECREL`, its segment field by `SECTION`.
pub proof fn law_two_relocations_per_function(entries: Seq<LineEntry>, n: int, i: int)
    requires
        0 <= i < n <= entries.len(),
    ensures
        refs_upto(entries, n).len() == 2 * n,
        refs_upto(entries, n)[2 * i] == (DebugReference {
            offset: 64 + 40 * i,
            symbol: entries[i].symbol,
            kind: IMAGE_REL_AMD64_SECREL,
        }),
        refs_upto(entries, n)[2 * i + 1] == (DebugReference {
            offset: 68 + 40 * i,
            symbol: entries[i].symbol,
            kind: IMAGE_REL_AMD64_SECTION,
        }),
    decreases n,
{
    reveal_with_fuel(refs_upto, 2);
    lemma_section_upto_len(entries, n - 1);
    if i < n - 1 {
        law_two_relocations_per_function(entries, n - 1, i);
    } else if n > 1 {
        law_two_relocations_per_function(entries, n - 1, 0);
    }
}

/// Appends a subsection.
pub fn push_subsection(section: &mut Vec<u8>, kind: u32, data: &Vec<u8>)
    requires
        data@.len() <= u32::MAX,
    ensures
        final(section)@ == with_subsection(old(section)@, kind as int, data@),
{
    push_u32(section, kind);
    push_u32(section, data.len() as u32);
    push_all(section, data);
    let over: usize = section.len() % 4;
    if over != 0 {
        push_zeros(section, 4 - over);
    }
    proof {
        assert(section@ =~= with_subsection(old(section)@, kind as int, data@));
    }
}

fn compile_subsection() -> (data: Vec<u8>)
    ensures
        data@ == symbols_data(),
{
    let mut record: Vec<u8> = Vec::new();
    push_u16(&mut record, S_COMPILE3);
    push_u32(&mut record, 0);
    push_u16(&mut record, 0x00D0);
    push_zeros(&mut record, 16);
    let mut name: Vec<u8> = vec![
        0x6C, 0x75, 0x6C, 0x6C, 0x61, 0x62, 0x79, 0x20, 0x6E, 0x61, 0x74, 0x69, 0x76, 0x65,
    ];
    assert(name@ =~= compiler_name());
    record.append(&mut name);
    record.push(0);
    assert(record@ =~= compile_record());
    let mut data: Vec<u8> = Vec::new();
    push_u16(&mut data, record.len() as u16);
    push_all(&mut data, &record);
    assert(data@ =~= symbols_data());
    data
}

fn lines_subsection(entry: &DebugFunctionLine) -> (data: Vec<u8>)
    ensures
        data@ == lines_data(entry@),
{
    let mut lines: Vec<u8> = Vec::new();
    push_u32(&mut lines, 0);  // offset, relocated
    push_u16(&mut lines, 0);  // segment, relocated
    push_u16(&mut lines, 0);  // flags
    push_u32(&mut lines, entry.code_len);
    push_u32(&mut lines, 0);  // the file's entry in the file table
    push_u32(&mut lines, 1);  // one line entry
    push_u32(&mut lines, 20);  // block size
    push_u32(&mut lines, 0);  // code offset within the function
    push_u32(&mut lines, entry.line | 0x8000_0000);
    assert(lines@ =~= lines_data(entry@));
    lines
}

/// Builds the debug section and its relocations.
pub fn build_debug_section(source_file: &str, functions: &Vec<DebugFunctionLine>) -> (built: (
    Vec<u8>,
    Vec<DebugReloc>,
))
    requires
        debug_section(source_file@, line_views(functions@)).len() <= u32::MAX,
    ensures
        built.0@ == debug_section(source_file@, line_views(functions@)),
        debug_refs(built.1@) == refs_upto(line_views(functions@), functions@.len() as int),
{
    let ghost entries = line_views(functions@);
    proof {
        lemma_section_upto_len(entries, functions@.len() as int);
    }
    let mut section: Vec<u8> = Vec::new();
    let mut relocs: Vec<DebugReloc> = Vec::new();
    push_u32(&mut section, CV_SIGNATURE_C13);
    assert(section@ =~= le32(CV_SIGNATURE_C13 as int));
    let symbols = compile_subsection();
    proof {
        assert(symbols_data().len() == 41);
    }
    push_subsection(&mut section, DEBUG_S_SYMBOLS, &symbols);
    let mut i: usize = 0;
    assert(debug_refs(relocs@) =~= refs_upto(entries, 0));
    while i < functions.len()
        invariant
            i <= functions@.len(),
            entries == line_views(functions@),
            section@ == section_upto(entries, i as int),
            section_upto(entries, functions@.len() as int).len() <= u32::MAX,
            debug_refs(relocs@) == refs_upto(entries, i as int),
        decreases functions@.len() - i,
    {
        proof {
            lemma_section_upto_len(entries, i as int);
            lemma_section_upto_len(entries, functions@.len() as int);
            assert(entries[i as int] == functions@[i as int]@);
        }
        let data_start: u32 = section.len() as u32 + 8;
        let ghost before = debug_refs(relocs@);
        let offset_reloc = DebugReloc {
            offset: data_start,
            symbol: functions[i].symbol.clone(),
            reloc_type: IMAGE_REL_AMD64_SECREL,
        };
        let segment_reloc = DebugReloc {
            offset: data_start + 4,
            symbol: functions[i].symbol.clone(),
            reloc_type: IMAGE_REL_AMD64_SECTION,
        };
        let ghost first = offset_reloc@;
        let ghost second = segment_reloc@;
        relocs.push(offset_reloc);
        relocs.push(segment_reloc);
        proof {
            assert(debug_refs(relocs@) =~= before.push(first).push(second));
        }
        let lines = lines_subsection(&functions[i]);
        push_subsection(&mut section, DEBUG_S_LINES, &lines);
        i += 1;
    }
    let mut files: Vec<u8> = Vec::new();
    push_u32(&mut files, 1);
    push_zeros(&mut files, 4);
    push_subsection(&mut section, DEBUG_S_FILECHKSMS, &files);
    let mut names: Vec<u8> = Vec::new();
    names.push(0);
    names.extend_from_slice(source_file.as_bytes());
    names.push(0);
    assert(names@ =~= name_table(source_file@));
    push_subsection(&mut section, DEBUG_S_STRINGTABLE, &names);
    (section, relocs)
}

proof fn lemma_reads32(bytes: Seq<u8>, at: int, value: int)
    requires
        0 <= at,
        at + 4 <= bytes.len(),
        bytes.subrange(at, at + 4) == le32(value),
        0 <= value <= u32::MAX,
    ensures
        read_le32(bytes, at) == value,
{
    law_le32_reads_back(value);
    let field = bytes.subrange(at, at + 4);
    assert(field[0] == bytes[at] && field[1] == bytes[at + 1] && field[2] == bytes[at + 2]
        && field[3] == bytes[at + 3]);
}

/// What a section begins with stays when it grows.
proof fn lemma_section_upto_grows(entries: Seq<LineEntry>, i: int, n: int)
    requires
        0 <= i <= n,
    ensures
        section_upto(entries, n).len() == 56 + 40 * n,
        section_upto(entries, n).take(56 + 40 * i) == section_upto(entries, i),
    decreases n,
{
    lemma_section_upto_len(entries, n);
    if i < n {
        lemma_section_upto_len(entries, n - 1);
        lemma_section_upto_grows(entries, i, n - 1);
        assert(section_upto(entries, n).take(56 + 40 * i) =~= section_upto(entries, n - 1).take(
            56 + 40 * i,
        ));
    } else {
        assert(section_upto(entries, n).take(56 + 40 * i) =~= section_upto(entries, i));
    }
}

proof fn lemma_statement_line(line: u32)
    requires
        line < 0x8000_0000,
    ensures
        (line | 0x8000_0000) == line + 0x8000_0000,
{
    assert((line | 0x8000_0000) == line + 0x8000_0000) by (bit_vector)
        requires
            line < 0x8000_0000u32,
    ;
}

proof fn lemma_lines_fields(entry: LineEntry)
    ensures
        ({
            let data = lines_data(entry);
            &&& data.len() == 32
            &&& data.subrange(0, 8) == zeros(8)
            &&& data.subrange(8, 12) == le32(entry.code_len)
            &&& data.subrange(12, 16) == le32(0)
            &&& data.subrange(16, 20) == le32(1)
            &&& data.subrange(20, 24) == le32(20)
            &&& data.subrange(24, 28) == le32(0)
            &&& data.subrange(28, 32) == le32((entry.line | 0x8000_0000) as int)
        }),
{
    let data = lines_data(entry);
    assert(le32(0) =~= zeros(4));
    assert(le16(0) =~= zeros(2));
    assert(data.subrange(0, 8) =~= zeros(8));
    assert(data.subrange(8, 12) =~= le32(entry.code_len));
    assert(data.subrange(12, 16) =~= le32(0));
    assert(data.subrange(16, 20) =~= le32(1));
    assert(data.subrange(20, 24) =~= le32(20));
    assert(data.subrange(24, 28) =~= le32(0));
    assert(data.subrange(28, 32) =~= le32((entry.line | 0x8000_0000) as int));
}

proof fn lemma_lines_in_section(source_file: Seq<char>, entries: Seq<LineEntry>, i: int)
    requires
        0 <= i < entries.len(),
    ensures
        ({
            let section = debug_section(source_file, entries);
            let at = 56 + 40 * i;
            &&& at + 40 <= section.len()
            &&& section.subrange(at, at + 4) == le32(0xF2)
            &&& section.subrange(at + 4, at + 8) == le32(32)
            &&& section.subrange(at + 8, at + 40) == lines_data(entries[i])
        }),
{
    let section = debug_section(source_file, entries);
    let all = section_upto(entries, entries.len() as int);
    let before = section_upto(entries, i);
    let upto = section_upto(entries, i + 1);
    let data = lines_data(entries[i]);
    let at = 56 + 40 * i;
    lemma_section_upto_len(entries, i);
    lemma_section_upto_grows(entries, i + 1, entries.len() as int);
    lemma_lines_fields(entries[i]);
    assert(upto =~= before + le32(0xF2) + le32(32) + data);
    assert(section.take(at + 40) =~= all.take(at + 40));
    assert(section.take(at + 40) == upto);
    assert(section.subrange(at, at + 4) =~= upto.subrange(at, at + 4));
    assert(upto.subrange(at, at + 4) =~= le32(0xF2));
    assert(section.subrange(at + 4, at + 8) =~= upto.subrange(at + 4, at + 8));
    assert(upto.subrange(at + 4, at + 8) =~= le32(32));
    assert(section.subrange(at + 8, at + 40) =~= upto.subrange(at + 8, at + 40));
    assert(upto.subrange(at + 8, at + 40) =~= data);
}

proof fn lemma_part(bytes: Seq<u8>, at: int, whole: Seq<u8>, a: int, b: int)
    requires
        0 <= at,
        0 <= a <= b <= whole.len(),
        at + whole.len() <= bytes.len(),
        bytes.subrange(at, at + whole.len()) == whole,
    ensures
        bytes.subrange(at + a, at + b) == whole.subrange(a, b),
{
    assert(bytes.subrange(at + a, at + b) =~= bytes.subrange(at, at + whole.len()).subrange(a, b));
}

/// The lines subsection of each function reads back: behind the fields that locate the
/// function stand its code size and a file block with one line, which is a statement, at
/// the function's first byte and with the function's line number.
pub proof fn law_lines_read_back(source_file: Seq<char>, entries: Seq<LineEntry>, i: int)
    requires
        0 <= i < entries.len(),
        0 <= entries[i].code_len <= u32::MAX,
        entries[i].line < 0x8000_0000,
    ensures
        ({
            let section = debug_section(source_file, entries);
            let at = 56 + 40 * i;
            &&& at + 40 <= section.len()
            &&& read_le32(section, at) == 0xF2
            &&& read_le32(section, at + 4) == 32
            &&& section.subrange(at + 8, at + 16) == zeros(8)
            &&& read_le32(section, at + 16) == entries[i].code_len
            &&& read_le32(section, at + 20) == 0
            &&& read_le32(section, at + 24) == 1
            &&& read_le32(section, at + 28) == 20
            &&& read_le32(section, at + 32) == 0
            &&& read_le32(section, at + 36) == entries[i].line + 0x8000_0000
        }),
{
    let section = debug_section(source_file, entries);
    let data = lines_data(entries[i]);
    let at = 56 + 40 * i;
    lemma_lines_in_section(source_file, entries, i);
    lemma_lines_fields(entries[i]);
    lemma_statement_line(entries[i].line);
    lemma_reads32(section, at, 0xF2);
    lemma_reads32(section, at + 4, 32);
    lemma_part(section, at + 8, data, 0, 8);
    lemma_part(section, at + 8, data, 8, 12);
    lemma_reads32(section, at + 16, entries[i].code_len);
    lemma_part(section, at + 8, data, 12, 16);
    lemma_reads32(section, at + 20, 0);
    lemma_part(section, at + 8, data, 16, 20);
    lemma_reads32(section, at + 24, 1);
    lemma_part(section, at + 8, data, 20, 24);
    lemma_reads32(section, at + 28, 20);
    lemma_part(section, at + 8, data, 24, 28);
    lemma_reads32(section, at + 32, 0);
    lemma_part(section, at + 8, data, 28, 32);
    lemma_reads32(section, at + 36, (entries[i].line | 0x8000_0000) as int);
}

/// A subsection stands behind what was there: its kind, its length and its data.
proof fn lemma_subsection_reads(section: Seq<u8>, kind: int, data: Seq<u8>)
    requires
        0 <= kind <= u32::MAX,
        data.len() <= u32::MAX,
    ensures
        ({
            let whole = with_subsection(section, kind, data);
            let n = section.len() as int;
            &&& n + 8 + data.len() <= whole.len()
            &&& whole.take(n) == section
            &&& read_le32(whole, n) == kind
            &&& read_le32(whole, n + 4) == data.len()
            &&& whole.subrange(n + 8, n + 8 + data.len()) == data
        }),
{
    let whole = with_subsection(section, kind, data);
    let n = section.len() as int;
    assert(whole.take(n) =~= section);
    assert(whole.subrange(n, n + 4) =~= le32(kind));
    lemma_reads32(whole, n, kind);
    assert(whole.subrange(n + 4, n + 8) =~= le32(data.len() as int));
    lemma_reads32(whole, n + 4, data.len() as int);
    assert(whole.subrange(n + 8, n + 8 + data.len()) =~= data);
}

/// What is read from the beginning of a section is read from the whole.
proof fn lemma_reads_on(whole: Seq<u8>, start: Seq<u8>, at: int)
    requires
        start.len() <= whole.len(),
        whole.take(start.len() as int) == start,
        0 <= at,
        at + 4 <= start.len(),
    ensures
        read_le32(whole, at) == read_le32(start, at),
{
    assert(whole.take(start.len() as int)[at] == whole[at]);
    assert(whole.take(start.len() as int)[at + 1] == whole[at + 1]);
    assert(whole.take(start.len() as int)[at + 2] == whole[at + 2]);
    assert(whole.take(start.len() as int)[at + 3] == whole[at + 3]);
}

proof fn lemma_name_in_table(source_file: Seq<char>)
    ensures
        ({
            let table = name_table(source_file);
            let name = encode_utf8(source_file);
            &&& table.len() == name.len() + 2
            &&& table.subrange(1, 1 + name.len() as int) == name
            &&& table[1 + name.len() as int] == 0
        }),
{
    let name = encode_utf8(source_file);
    assert(name_table(source_file).subrange(1, 1 + name.len() as int) =~= name);
}

proof fn lemma_signature(entries: Seq<LineEntry>)
    ensures
        section_upto(entries, 0).len() == 56,
        read_le32(section_upto(entries, 0), 0) == 4,
{
    let start = section_upto(entries, 0);
    lemma_section_upto_len(entries, 0);
    assert(start.subrange(0, 4) =~= le32(4));
    lemma_reads32(start, 0, 4);
}

proof fn lemma_file_table()
    ensures
        file_table().len() == 8,
        read_le32(file_table(), 0) == 1,
{
    assert(file_table().subrange(0, 4) =~= le32(1));
    lemma_reads32(file_table(), 0, 1);
}

proof fn lemma_filed_len(all: Seq<u8>)
    requires
        all.len() % 4 == 0,
    ensures
        with_subsection(all, 0xF4, file_table()).len() == all.len() + 16,
{
    lemma_file_table();
}

/// From a file table and a string table behind it, the name is found.
proof fn lemma_name_found(
    section: Seq<u8>,
    filed: Seq<u8>,
    table: Seq<u8>,
    name: Seq<u8>,
    files: int,
)
    requires
        0 <= files,
        filed.len() == files + 16,
        filed.subrange(files + 8, files + 16) == file_table(),
        files + 24 + table.len() <= section.len(),
        section.take(files + 16) == filed,
        section.subrange(files + 24, files + 24 + table.len()) == table,
        table.len() == name.len() + 2,
        table.subrange(1, 1 + name.len() as int) == name,
        table[1 + name.len() as int] == 0,
    ensures
        read_le32(section, files + 8) == 1,
        section.subrange(files + 25, files + 25 + name.len()) == name,
        section[files + 25 + name.len()] == 0,
{
    lemma_file_table();
    lemma_reads_on(section, filed, files + 8);
    let data = filed.subrange(files + 8, files + 16);
    assert(data[0] == filed[files + 8] && data[1] == filed[files + 9] && data[2] == filed[files
        + 10] && data[3] == filed[files + 11]);
    lemma_part(section, files + 24, table, 1, 1 + name.len() as int);
    assert(section.subrange(files + 24, files + 24 + table.len())[1 + name.len() as int]
        == section[files + 25 + name.len()]);
}

/// The kinds and lengths of the subsections, read from the whole.
proof fn lemma_subsections_read(section: Seq<u8>, filed: Seq<u8>, all: Seq<u8>)
    requires
        4 <= all.len(),
        all.len() + 16 == filed.len() <= section.len(),
        filed.take(all.len() as int) == all,
        section.take(filed.len() as int) == filed,
    ensures
        read_le32(section, 0) == read_le32(all, 0),
        read_le32(section, all.len() as int) == read_le32(filed, all.len() as int),
        read_le32(section, all.len() as int + 4) == read_le32(filed, all.len() as int + 4),
{
    lemma_reads_on(filed, all, 0);
    lemma_reads_on(section, filed, 0);
    lemma_reads_on(section, filed, all.len() as int);
    lemma_reads_on(section, filed, all.len() as int + 4);
}

proof fn lemma_name_behind(
    section: Seq<u8>,
    filed: Seq<u8>,
    all: Seq<u8>,
    source_file: Seq<char>,
)
    requires
        4 <= all.len(),
        all.len() % 4 == 0,
        filed == with_subsection(all, 0xF4, file_table()),
        section == with_subsection(filed, 0xF3, name_table(source_file)),
        encode_utf8(source_file).len() + 2 <= u32::MAX,
    ensures
        ({
            let name = encode_utf8(source_file);
            let files = all.len() as int;
            let place = files + 25;
            &&& read_le32(section, 0) == read_le32(all, 0)
            &&& read_le32(section, files) == 0xF4
            &&& read_le32(section, files + 4) == 8
            &&& read_le32(section, files + 8) == 1
            &&& read_le32(section, files + 16) == 0xF3
            &&& read_le32(section, files + 20) == name.len() + 2
            &&& place + name.len() < section.len()
            &&& section.subrange(place, place + name.len()) == name
            &&& section[place + name.len()] == 0
        }),
{
    let name = encode_utf8(source_file);
    let table = name_table(source_file);
    lemma_file_table();
    lemma_name_in_table(source_file);
    lemma_filed_len(all);
    lemma_subsection_reads(all, 0xF4, file_table());
    lemma_subsection_reads(filed, 0xF3, table);
    lemma_subsections_read(section, filed, all);
    lemma_name_found(section, filed, table, name, all.len() as int);
}

/// The source file's name is found from the file table behind the lines: the table's entry
/// gives a place in the string table that follows, and there the name stands, ended by a
/// NUL.
pub proof fn law_source_name_is_found(source_file: Seq<char>, entries: Seq<LineEntry>)
    requires
        encode_utf8(source_file).len() + 2 <= u32::MAX,
    ensures
        ({
            let section = debug_section(source_file, entries);
            let name = encode_utf8(source_file);
            let files = 56 + 40 * entries.len() as int;
            let names = files + 16;
            let place = names + 8 + read_le32(section, files + 8);
            &&& read_le32(section, 0) == 4
            &&& read_le32(section, files) == 0xF4
            &&& read_le32(section, files + 4) == 8
            &&& read_le32(section, names) == 0xF3
            &&& read_le32(section, names + 4) == name.len() + 2
            &&& place + name.len() < section.len()
            &&& section.subrange(place, place + name.len()) == name
            &&& section[place + name.len()] == 0
        }),
{
    let all = section_upto(entries, entries.len() as int);
    lemma_section_upto_grows(entries, 0, entries.len() as int);
    lemma_signature(entries);
    lemma_reads_on(all, section_upto(entries, 0), 0);
    lemma_name_behind(
        debug_section(source_file, entries),
        with_subsection(all, 0xF4, file_table()),
        all,
        source_file,
    );
}

} // verus!
