//! Object files: the COFF object, its debug section and the container-neutral model.

use lullaby_ir::assembler::CodeRelocation;
use lullaby_ir::bytecode::{BytecodeFunction, BytecodeModule};
use lullaby_ir::codeview::{build_debug_section, DebugFunctionLine, DebugOptions, DebugReloc};
use lullaby_ir::coff::{
    push_fixed_name, write_coff, SectionImage, SectionRelocation, SymbolDef,
};
use lullaby_ir::entry::{freestanding_stub, windows_stub, EntryStub, PlatformAbi};
use lullaby_ir::image::LoweredNativeFunction;
use lullaby_ir::neutral_object::build_object_model;
use lullaby_ir::object_model::{
    DwarfSection, ObjectMachine, ObjectModel, ObjectRelocation, ObjectRelocationKind,
    ObjectSection, ObjectSectionKind, ObjectSymbol, ObjectSymbolKind,
};
use lullaby_ir::program_object::{
    program_uses_heap_helpers, write_native_program_object, StringPool, ALLOC_MODE_OFFSET,
    HEAP_BSS_SIZE,
};
use lullaby_ir::runtime::set::{heap_helper_symbols, heap_runtime_helpers};
use lullaby_ir::spelling::TypeRef;
use lullaby_ir::symbols::{Symbol, HEAP_NEXT_SYMBOL, RC_DEC_SYMBOL, STR_CONCAT_OWN_SYMBOL};

fn lowered(name: &str, code: &[u8], calls: &[(u32, &str)]) -> LoweredNativeFunction {
    LoweredNativeFunction {
        name: name.to_string(),
        code: code.to_vec(),
        relocations: calls
            .iter()
            .map(|(offset, symbol)| CodeRelocation { offset: *offset, symbol: symbol.to_string() })
            .collect(),
        line: 3,
    }
}

fn no_strings() -> StringPool {
    StringPool { entries: vec![] }
}

fn word16(bytes: &[u8], at: usize) -> u32 {
    bytes[at] as u32 | (bytes[at + 1] as u32) << 8
}

fn word32(bytes: &[u8], at: usize) -> u32 {
    word16(bytes, at) | word16(bytes, at + 2) << 16
}

struct ReadSection {
    name: String,
    size: u32,
    data: u32,
    relocations: Vec<(u32, u32, u32)>,
}

/// The sections of an object.
fn sections(bytes: &[u8]) -> Vec<ReadSection> {
    (0..word16(bytes, 2) as usize)
        .map(|i| {
            let at = 20 + 40 * i;
            let name: Vec<u8> =
                bytes[at..at + 8].iter().copied().take_while(|b| *b != 0).collect();
            let table = word32(bytes, at + 24) as usize;
            ReadSection {
                name: String::from_utf8(name).expect("name"),
                size: word32(bytes, at + 16),
                data: word32(bytes, at + 20),
                relocations: (0..word16(bytes, at + 32) as usize)
                    .map(|j| {
                        let r = table + 10 * j;
                        (word32(bytes, r), word32(bytes, r + 4), word16(bytes, r + 8))
                    })
                    .collect(),
            }
        })
        .collect()
}

/// The symbols of an object: name, value, section, type.
fn symbols(bytes: &[u8]) -> Vec<(String, u32, u32, u32)> {
    let table = word32(bytes, 8) as usize;
    let count = word32(bytes, 12) as usize;
    let strings = table + 18 * count;
    (0..count)
        .map(|i| {
            let at = table + 18 * i;
            let name: Vec<u8> = if word32(bytes, at) == 0 {
                let from = strings + word32(bytes, at + 4) as usize;
                bytes[from..].iter().copied().take_while(|b| *b != 0).collect()
            } else {
                bytes[at..at + 8].iter().copied().take_while(|b| *b != 0).collect()
            };
            (
                String::from_utf8(name).expect("name"),
                word32(bytes, at + 8),
                word16(bytes, at + 12),
                word16(bytes, at + 14),
            )
        })
        .collect()
}

#[test]
fn entry_stub_classifies_main_by_return_shape() {
    let module_for = |ret: &str| BytecodeModule {
        functions: vec![BytecodeFunction {
            name: "main".to_string(),
            params: vec![],
            return_type: TypeRef::new(ret),
            instructions: vec![],
            line: 1,
        }],
    };
    let void_module = module_for("void");
    let value_module = module_for("i64");

    let void_lowered = [LoweredNativeFunction {
        name: "main".to_string(),
        code: Vec::new(),
        relocations: Vec::new(),
        line: 1,
    }];
    assert_eq!(
        EntryStub::classify(&void_lowered, &void_module),
        EntryStub::MainVoid,
        "a `main` with no declared return type must classify as MainVoid"
    );
    assert_eq!(
        EntryStub::classify(&void_lowered, &value_module),
        EntryStub::MainValue,
        "an i64-returning `main` must classify as MainValue"
    );
    // No compiled `main` -> a library object with no stub and no exit dependency.
    assert_eq!(
        EntryStub::classify(&[], &value_module),
        EntryStub::NoStub,
        "a program with no compiled `main` must emit no entry stub"
    );
    assert!(!EntryStub::NoStub.emits());
    assert!(EntryStub::MainVoid.emits());
    assert!(EntryStub::MainValue.emits());
    // A compiled `main` that the module does not declare counts as value-returning.
    assert_eq!(
        EntryStub::classify(&void_lowered, &BytecodeModule { functions: vec![] }),
        EntryStub::MainValue
    );
}

#[test]
fn entry_stub_machine_code() {
    let value = windows_stub(EntryStub::MainValue);
    assert_eq!(
        value.code,
        [0x48, 0x83, 0xEC, 0x28, 0xE8, 0, 0, 0, 0, 0x89, 0xC1, 0xE8, 0, 0, 0, 0, 0xCC]
    );
    let names: Vec<(u32, &str)> =
        value.relocations.iter().map(|r| (r.offset, r.symbol.as_str())).collect();
    assert_eq!(names, [(5, "main"), (12, "ExitProcess")]);
    assert_eq!(windows_stub(EntryStub::MainVoid).code[9..11], [0x31, 0xC9]);
    assert_eq!(windows_stub(EntryStub::NoStub).code, []);

    let linux = freestanding_stub(EntryStub::MainValue, PlatformAbi::Linux);
    assert_eq!(
        linux.code,
        [
            0x48, 0x83, 0xEC, 0x20, 0xE8, 0, 0, 0, 0, 0x89, 0xC7, 0xB8, 0x3C, 0, 0, 0, 0x0F, 0x05,
            0xCC,
        ]
    );
    let mac = freestanding_stub(EntryStub::MainVoid, PlatformAbi::MacOs);
    assert_eq!(mac.code[9..16], [0x31, 0xFF, 0xB8, 0x01, 0, 0, 0x02]);
    assert_eq!(PlatformAbi::Linux.entry_symbol(), "_start");
    assert_eq!(PlatformAbi::MacOs.entry_symbol(), "start");
}

#[test]
fn a_library_object_byte_for_byte() {
    let bytes = write_native_program_object(
        &vec![lowered("f", &[0xC3], &[])],
        &no_strings(),
        EntryStub::NoStub,
        None,
    );
    let mut expected: Vec<u8> = vec![];
    expected.extend_from_slice(&[0x64, 0x86, 1, 0, 0, 0, 0, 0, 61, 0, 0, 0, 1, 0, 0, 0, 0, 0, 0,
        0]);
    expected.extend_from_slice(b".text\0\0\0");
    expected.extend_from_slice(&[0, 0, 0, 0, 0, 0, 0, 0, 1, 0, 0, 0, 60, 0, 0, 0]);
    expected.extend_from_slice(&[0, 0, 0, 0, 0, 0, 0, 0, 0, 0, 0, 0, 0x20, 0, 0x50, 0x60]);
    expected.push(0xC3);
    expected.extend_from_slice(b"f\0\0\0\0\0\0\0");
    expected.extend_from_slice(&[0, 0, 0, 0, 1, 0, 0x20, 0, 2, 0]);
    expected.extend_from_slice(&[4, 0, 0, 0]);
    assert_eq!(bytes, expected);
}

#[test]
fn a_program_object_binds_its_calls() {
    let functions = vec![
        lowered("main", &[0xE8, 0, 0, 0, 0, 0xE8, 0, 0, 0, 0, 0xC3], &[(1, "helper_fn"), (6, "puts")]),
        lowered("helper_fn", &[0xC3], &[]),
    ];
    let bytes =
        write_native_program_object(&functions, &no_strings(), EntryStub::MainValue, None);
    let read = sections(&bytes);
    assert_eq!(read.len(), 1);
    assert_eq!(read[0].name, ".text");
    assert_eq!(read[0].size, 49);
    assert_eq!(
        symbols(&bytes),
        [
            ("_lullaby_start".to_string(), 0, 1, 0x20),
            ("main".to_string(), 32, 1, 0x20),
            ("helper_fn".to_string(), 48, 1, 0x20),
            ("ExitProcess".to_string(), 0, 0, 0x20),
            ("puts".to_string(), 0, 0, 0x20),
        ]
    );
    assert_eq!(read[0].relocations, [(5, 1, 4), (12, 3, 4), (33, 2, 4), (38, 4, 4)]);
    let text = &bytes[read[0].data as usize..][..49];
    assert_eq!(text[17..32], [0xCC; 15]);
    assert_eq!(text[43..48], [0xCC; 5]);
    assert_eq!(text[48], 0xC3);
}

#[test]
fn a_string_constant_brings_the_heap() {
    let functions = vec![lowered("main", &[0xC3], &[])];
    let strings = StringPool { entries: vec!["hi".to_string(), "".to_string(), "\u{e9}".to_string()] };
    let bytes = write_native_program_object(&functions, &strings, EntryStub::MainVoid, None);
    let read = sections(&bytes);
    let names: Vec<&str> = read.iter().map(|s| s.name.as_str()).collect();
    assert_eq!(names, [".text", ".rdata", ".bss"]);
    assert_eq!(read[1].size, 7);
    assert_eq!(bytes[read[1].data as usize..][..7], [b'h', b'i', 0, 0, 0xC3, 0xA9, 0]);
    assert_eq!((read[2].size, read[2].data), (HEAP_BSS_SIZE, 0));
    let table = symbols(&bytes);
    let find = |name: &str| {
        let s = table.iter().find(|s| s.0 == name).expect("symbol");
        (s.1, s.2, s.3)
    };
    assert_eq!(find("__str0"), (0, 2, 0));
    assert_eq!(find("__str1"), (3, 2, 0));
    assert_eq!(find("__str2"), (4, 2, 0));
    assert_eq!(find("__lullaby_heap_next"), (0, 3, 0));
    assert_eq!(find("__lullaby_free_head"), (8, 3, 0));
    assert_eq!(find("__lullaby_heap_base"), (16, 3, 0));
    assert_eq!(find("__lullaby_alloc_mode"), (ALLOC_MODE_OFFSET, 3, 0));
    for helper in heap_helper_symbols() {
        let (value, section, kind) = find(helper.name());
        assert_eq!((value % 16, section, kind), (0, 1, 0x20));
    }
}

#[test]
fn debug_lines_are_additive() {
    let functions = vec![lowered("main", &[0xC3], &[]), lowered("other", &[0x90, 0xC3], &[])];
    let options = DebugOptions { source_file: "a.lby".to_string() };
    let plain =
        write_native_program_object(&functions, &no_strings(), EntryStub::MainValue, None);
    let debug = write_native_program_object(
        &functions,
        &no_strings(),
        EntryStub::MainValue,
        Some(&options),
    );
    assert_eq!(symbols(&plain), symbols(&debug));
    let read = sections(&debug);
    assert_eq!(read[1].name, ".debug$S");
    let kinds: Vec<(u32, u32)> = read[1].relocations.iter().map(|r| (r.1, r.2)).collect();
    assert_eq!(kinds, [(1, 0x0B), (1, 0x0A), (2, 0x0B), (2, 0x0A)]);
    let text = |bytes: &[u8]| {
        let s = &sections(bytes)[0];
        bytes[s.data as usize..][..s.size as usize].to_vec()
    };
    assert_eq!(text(&plain), text(&debug));
}

#[test]
fn a_debug_section_names_its_file_and_lines() {
    let lines = vec![DebugFunctionLine { symbol: "f".to_string(), code_len: 9, line: 3 }];
    let (data, relocations) = build_debug_section("a.lby", &lines);
    assert_eq!(data[..4], [4, 0, 0, 0]);
    assert_eq!(data.len() % 4, 0);
    assert!(data.windows(6).any(|w| w == b"a.lby\0"));
    assert_eq!(relocations.len(), 2);
    let at = relocations[0].offset;
    assert_eq!(
        relocations,
        [
            DebugReloc { offset: at, symbol: "f".to_string(), reloc_type: 0x0B },
            DebugReloc { offset: at + 4, symbol: "f".to_string(), reloc_type: 0x0A },
        ]
    );
    assert_eq!(word32(&data, at as usize + 8), 9);
    assert_eq!(word32(&data, at as usize + 28), 3 | 0x8000_0000);
}

#[test]
fn coff_sections_and_symbols_read_back() {
    let image = |name: &str, data: &[u8], relocations: Vec<SectionRelocation>| SectionImage {
        name: name.to_string(),
        data: data.to_vec(),
        reserved: None,
        relocations,
        characteristics: 7,
    };
    let bytes = write_coff(
        &vec![
            image("one", &[1, 2, 3], vec![SectionRelocation { offset: 1, symbol: 0, kind: 4 }]),
            image("two", &[4], vec![]),
        ],
        &vec![
            SymbolDef {
                name: "a_long_symbol_name".to_string(),
                section_number: 2,
                value: 9,
                is_function: false,
            },
            SymbolDef {
                name: "exactly8".to_string(),
                section_number: 1,
                value: 0,
                is_function: true,
            },
        ],
    );
    let read = sections(&bytes);
    assert_eq!((read[0].data, read[0].size), (100, 3));
    assert_eq!((read[1].data, read[1].size), (103, 1));
    assert_eq!(bytes[100..104], [1, 2, 3, 4]);
    assert_eq!(read[0].relocations, [(1, 0, 4)]);
    assert_eq!(
        symbols(&bytes),
        [
            ("a_long_symbol_name".to_string(), 9, 2, 0),
            ("exactly8".to_string(), 0, 1, 0x20),
        ]
    );
    let mut name: Vec<u8> = vec![];
    push_fixed_name(&mut name, "ab", 4);
    assert_eq!(name, [b'a', b'b', 0, 0]);
}

#[test]
fn heap_helpers_are_recognized_by_reference() {
    let with = |symbol: &str| program_uses_heap_helpers(&vec![lowered("f", &[], &[(0, symbol)])]);
    assert!(with(HEAP_NEXT_SYMBOL));
    assert!(with(RC_DEC_SYMBOL));
    assert!(with(STR_CONCAT_OWN_SYMBOL));
    assert!(with("__lullaby_alloc_mode"));
    assert!(!with("puts"));
    assert!(!program_uses_heap_helpers(&vec![lowered("f", &[], &[])]));
}

#[test]
fn the_runtime_comes_as_one_set() {
    let helpers = heap_runtime_helpers();
    let names: Vec<&str> = helpers.iter().map(|h| h.name.as_str()).collect();
    let expected: Vec<&str> = heap_helper_symbols().iter().map(|s: &Symbol| s.name()).collect();
    assert_eq!(names, expected);
    assert_eq!(names[0], "__lullaby_alloc");
    assert_eq!(names.len(), 37);
}

#[test]
fn the_helper_set_is_closed() {
    let helpers = heap_runtime_helpers();
    let mut known: Vec<&str> = helpers.iter().map(|h| h.name.as_str()).collect();
    for cell in [Symbol::HeapNext, Symbol::HeapFreeHead, Symbol::HeapBase, Symbol::AllocMode] {
        known.push(cell.name());
    }
    let mut references = 0;
    for helper in &helpers {
        for r in &helper.relocations {
            assert!(known.contains(&r.symbol.as_str()), "{} -> {}", helper.name, r.symbol);
            references += 1;
        }
    }
    assert!(references > 37);
}

#[test]
fn the_formats_differ_in_the_stub_only() {
    let functions = vec![
        lowered("main", &[0xE8, 0, 0, 0, 0, 0xC3], &[(1, "puts")]),
        lowered("other", &[0x90, 0xC3], &[]),
    ];
    let strings = StringPool { entries: vec!["x".to_string()] };
    for (stub, from) in [(EntryStub::MainValue, 32), (EntryStub::MainVoid, 32),
        (EntryStub::NoStub, 0)]
    {
        let bytes = write_native_program_object(&functions, &strings, stub, None);
        let text = &sections(&bytes)[0];
        let coff = &bytes[text.data as usize..][..text.size as usize];
        for abi in [PlatformAbi::Linux, PlatformAbi::MacOs] {
            let model = build_object_model(&functions, &strings, stub, abi);
            let neutral = &model.sections[0];
            assert_eq!(coff.len(), neutral.data.len());
            assert_eq!(coff[from..], neutral.data[from..]);
            let theirs: Vec<u32> =
                text.relocations.iter().map(|r| r.0).filter(|at| *at >= from as u32).collect();
            let ours: Vec<u32> = neutral
                .relocations
                .iter()
                .map(|r| r.offset as u32)
                .filter(|at| *at >= from as u32)
                .collect();
            assert_eq!(theirs, ours);
            if from == 32 {
                assert_ne!(coff[..32], neutral.data[..32]);
            }
        }
    }
}

#[test]
fn the_neutral_model_of_a_library() {
    let functions = vec![lowered("f", &[0xE8, 0, 0, 0, 0, 0xC3], &[(1, "puts")])];
    let model =
        build_object_model(&functions, &no_strings(), EntryStub::NoStub, PlatformAbi::Linux);
    let symbol = |name: &str, section: Option<usize>| ObjectSymbol {
        name: name.to_string(),
        section,
        value: 0,
        kind: ObjectSymbolKind::Function,
    };
    assert_eq!(
        model,
        ObjectModel {
            sections: vec![ObjectSection {
                kind: ObjectSectionKind::Text,
                data: vec![0xE8, 0, 0, 0, 0, 0xC3],
                size: 6,
                relocations: vec![ObjectRelocation {
                    offset: 1,
                    symbol: 1,
                    kind: ObjectRelocationKind::Branch,
                }],
            }],
            symbols: vec![symbol("f", Some(0)), symbol("puts", None)],
            entry_symbol: None,
            machine: ObjectMachine::X86_64,
        }
    );
    assert_eq!(model.text_section_index(), 0);
}

#[test]
fn the_neutral_model_of_a_program_with_data() {
    let functions = vec![lowered("main", &[0x48, 0x8D, 0x05, 0, 0, 0, 0, 0xC3], &[(3, "__str0")])];
    let strings = StringPool { entries: vec!["x".to_string()] };
    let model = build_object_model(&functions, &strings, EntryStub::MainValue, PlatformAbi::MacOs);
    assert_eq!(model.entry_symbol, Some("start".to_string()));
    let kinds: Vec<ObjectSectionKind> = model.sections.iter().map(|s| s.kind).collect();
    assert_eq!(
        kinds,
        [ObjectSectionKind::Text, ObjectSectionKind::ReadOnlyData, ObjectSectionKind::Bss]
    );
    assert_eq!(model.sections[1].data, [b'x', 0]);
    assert_eq!(model.sections[2].size, u64::from(HEAP_BSS_SIZE));
    let first = &model.sections[0].relocations;
    assert_eq!((first[0].offset, first[0].kind), (5, ObjectRelocationKind::Branch));
    assert_eq!(model.symbols[first[0].symbol].name, "main");
    assert_eq!((first[1].offset, first[1].kind), (35, ObjectRelocationKind::PcRel32));
    assert_eq!(model.symbols[first[1].symbol].name, "__str0");
    assert!(first.windows(2).all(|w| w[0].offset < w[1].offset));
}

#[test]
fn the_neutral_models_of_two_platforms_differ_in_exit_only() {
    let functions = vec![lowered("main", &[0x48, 0x8D, 0x05, 0, 0, 0, 0, 0xC3], &[(3, "__str0")])];
    let strings = StringPool { entries: vec!["x".to_string()] };
    let of = |abi| build_object_model(&functions, &strings, EntryStub::MainValue, abi);
    let mut linux = of(PlatformAbi::Linux);
    let macos = of(PlatformAbi::MacOs);
    let differing: Vec<usize> = (0..linux.sections[0].data.len())
        .filter(|&i| linux.sections[0].data[i] != macos.sections[0].data[i])
        .collect();
    let call = linux.sections[0].data.windows(2).position(|w| w == [0x0F, 0x05]).unwrap();
    assert!(!differing.is_empty());
    assert!(differing.iter().all(|&i| call - 4 <= i && i < call));
    for i in differing {
        linux.sections[0].data[i] = macos.sections[0].data[i];
    }
    assert_eq!(linux.entry_symbol, Some("_start".to_string()));
    linux.entry_symbol = macos.entry_symbol.clone();
    for symbol in linux.symbols.iter_mut() {
        if symbol.name == "_start" {
            symbol.name = "start".to_string();
        }
    }
    assert_eq!(linux, macos);
}

#[test]
fn debug_section_names() {
    assert_eq!(DwarfSection::Line.elf_name(), ".debug_line");
    assert_eq!(DwarfSection::Info.elf_name(), ".debug_info");
    assert_eq!(DwarfSection::Abbrev.elf_name(), ".debug_abbrev");
}
