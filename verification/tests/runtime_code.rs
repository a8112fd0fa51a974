//! The machine code of the runtime helpers, byte for byte.

use lullaby_ir::assembler::CodeRelocation;
use lullaby_ir::runtime::HelperFunction;
use lullaby_ir::runtime::collections::{
    emit_list_copy_helper, emit_list_grow_helper, emit_list_new_helper, emit_map_copy_helper,
        emit_map_find_helper, emit_map_grow_helper, emit_map_new_helper,
};
use lullaby_ir::runtime::format::{
    emit_parse_i64_helper, emit_str_from_bool_helper, emit_str_from_char_helper,
        emit_str_from_int_helper,
};
use lullaby_ir::runtime::heap::{
    emit_drop_string_array_helper, emit_heap_strlen_helper, emit_rc_dec_helper,
        emit_struct_copy_helper,
};
use lullaby_ir::runtime::search::{
    emit_str_char_at_helper, emit_str_contains_helper, emit_str_count_helper,
        emit_str_ends_with_helper, emit_str_find_helper, emit_str_starts_with_helper,
        emit_str_substring_helper,
};
use lullaby_ir::runtime::strings::{
    emit_str_concat_helper, emit_str_concat_own_helper, emit_str_join_helper,
        emit_str_len_own_helper, emit_str_lit_helper, emit_str_repeat_helper,
        emit_str_split_helper, emit_str_trim_helper, emit_to_cstr_helper,
};

fn relocations(expected: &[(u32, &str)]) -> Vec<CodeRelocation> {
    expected
        .iter()
        .map(|(offset, symbol)| CodeRelocation { offset: *offset, symbol: symbol.to_string() })
        .collect()
}

fn expect(helper: HelperFunction, name: &str, code: &[u8], references: &[(u32, &str)]) {
    assert_eq!(helper.name, name);
    assert_eq!(helper.code, code, "{name}");
    assert_eq!(helper.relocations, relocations(references), "{name}");
}

#[test]
fn list_new_machine_code() {
    expect(
        emit_list_new_helper(),
        "__lullaby_list_new",
        &[
            0x48, 0x83, 0xEC, 0x28, 0xB9, 0x30, 0x00, 0x00, 0x00, 0xE8, 0x00, 0x00, 0x00, 0x00,
                0x48, 0xC7,
            0x80, 0x00, 0x00, 0x00, 0x00, 0x00, 0x00, 0x00, 0x00, 0x48, 0xC7, 0x80, 0x08, 0x00,
                0x00, 0x00,
            0x04, 0x00, 0x00, 0x00, 0x48, 0x83, 0xC4, 0x28, 0xC3,
        ],
        &[(10, "__lullaby_alloc")],
    );
}

#[test]
fn list_copy_machine_code() {
    expect(
        emit_list_copy_helper(),
        "__lullaby_list_copy",
        &[
            0x56, 0x57, 0x53, 0x48, 0x83, 0xEC, 0x28, 0x48, 0x89, 0xCE, 0x48, 0x8B, 0x8E, 0x08,
                0x00, 0x00,
            0x00, 0x48, 0xC1, 0xE1, 0x03, 0x48, 0x81, 0xC1, 0x10, 0x00, 0x00, 0x00, 0xE8, 0x00,
                0x00, 0x00,
            0x00, 0x48, 0x89, 0xC7, 0x4C, 0x8B, 0x96, 0x00, 0x00, 0x00, 0x00, 0x4C, 0x89, 0x97,
                0x00, 0x00,
            0x00, 0x00, 0x4C, 0x8B, 0x96, 0x08, 0x00, 0x00, 0x00, 0x4C, 0x89, 0x97, 0x08, 0x00,
                0x00, 0x00,
            0x48, 0x8B, 0x9E, 0x00, 0x00, 0x00, 0x00, 0x48, 0x31, 0xC0, 0x48, 0x39, 0xD8, 0x0F,
                0x8D, 0x18,
            0x00, 0x00, 0x00, 0x4C, 0x8B, 0x94, 0xC6, 0x10, 0x00, 0x00, 0x00, 0x4C, 0x89, 0x94,
                0xC7, 0x10,
            0x00, 0x00, 0x00, 0x48, 0xFF, 0xC0, 0xE9, 0xDF, 0xFF, 0xFF, 0xFF, 0x48, 0x89, 0xF8,
                0x48, 0x83,
            0xC4, 0x28, 0x5B, 0x5F, 0x5E, 0xC3,
        ],
        &[(29, "__lullaby_alloc")],
    );
}

#[test]
fn list_grow_machine_code() {
    expect(
        emit_list_grow_helper(),
        "__lullaby_list_grow",
        &[
            0x56, 0x57, 0x53, 0x48, 0x83, 0xEC, 0x28, 0x48, 0x89, 0xCE, 0x48, 0x8B, 0x86, 0x00,
                0x00, 0x00,
            0x00, 0x48, 0x8B, 0x96, 0x08, 0x00, 0x00, 0x00, 0x48, 0x39, 0xD0, 0x0F, 0x8C, 0x77,
                0x00, 0x00,
            0x00, 0x48, 0x89, 0xD3, 0x48, 0x85, 0xDB, 0x0F, 0x85, 0x0A, 0x00, 0x00, 0x00, 0xBB,
                0x04, 0x00,
            0x00, 0x00, 0xE9, 0x03, 0x00, 0x00, 0x00, 0x48, 0xD1, 0xE3, 0x48, 0x89, 0xD9, 0x48,
                0xC1, 0xE1,
            0x03, 0x48, 0x81, 0xC1, 0x10, 0x00, 0x00, 0x00, 0xE8, 0x00, 0x00, 0x00, 0x00, 0x48,
                0x89, 0xC7,
            0x4C, 0x8B, 0x96, 0x00, 0x00, 0x00, 0x00, 0x4C, 0x89, 0x97, 0x00, 0x00, 0x00, 0x00,
                0x48, 0x89,
            0x9F, 0x08, 0x00, 0x00, 0x00, 0x48, 0x8B, 0x9E, 0x00, 0x00, 0x00, 0x00, 0x48, 0x31,
                0xC0, 0x48,
            0x39, 0xD8, 0x0F, 0x8D, 0x18, 0x00, 0x00, 0x00, 0x4C, 0x8B, 0x94, 0xC6, 0x10, 0x00,
                0x00, 0x00,
            0x4C, 0x89, 0x94, 0xC7, 0x10, 0x00, 0x00, 0x00, 0x48, 0xFF, 0xC0, 0xE9, 0xDF, 0xFF,
                0xFF, 0xFF,
            0x48, 0x89, 0xF8, 0xE9, 0x03, 0x00, 0x00, 0x00, 0x48, 0x89, 0xF0, 0x48, 0x83, 0xC4,
                0x28, 0x5B,
            0x5F, 0x5E, 0xC3,
        ],
        &[(73, "__lullaby_alloc")],
    );
}

#[test]
fn map_new_machine_code() {
    expect(
        emit_map_new_helper(),
        "__lullaby_map_new",
        &[
            0x48, 0x83, 0xEC, 0x28, 0xB9, 0x50, 0x00, 0x00, 0x00, 0xE8, 0x00, 0x00, 0x00, 0x00,
                0x48, 0xC7,
            0x80, 0x00, 0x00, 0x00, 0x00, 0x00, 0x00, 0x00, 0x00, 0x48, 0xC7, 0x80, 0x08, 0x00,
                0x00, 0x00,
            0x04, 0x00, 0x00, 0x00, 0x48, 0x83, 0xC4, 0x28, 0xC3,
        ],
        &[(10, "__lullaby_alloc")],
    );
}

#[test]
fn map_copy_machine_code() {
    expect(
        emit_map_copy_helper(),
        "__lullaby_map_copy",
        &[
            0x56, 0x57, 0x53, 0x48, 0x83, 0xEC, 0x28, 0x48, 0x89, 0xCE, 0x48, 0x8B, 0x8E, 0x08,
                0x00, 0x00,
            0x00, 0x48, 0xC1, 0xE1, 0x04, 0x48, 0x81, 0xC1, 0x10, 0x00, 0x00, 0x00, 0xE8, 0x00,
                0x00, 0x00,
            0x00, 0x48, 0x89, 0xC7, 0x4C, 0x8B, 0x96, 0x00, 0x00, 0x00, 0x00, 0x4C, 0x89, 0x97,
                0x00, 0x00,
            0x00, 0x00, 0x4C, 0x8B, 0x96, 0x08, 0x00, 0x00, 0x00, 0x4C, 0x89, 0x97, 0x08, 0x00,
                0x00, 0x00,
            0x48, 0x8B, 0x9E, 0x00, 0x00, 0x00, 0x00, 0x48, 0xD1, 0xE3, 0x48, 0x31, 0xC0, 0x48,
                0x39, 0xD8,
            0x0F, 0x8D, 0x18, 0x00, 0x00, 0x00, 0x4C, 0x8B, 0x94, 0xC6, 0x10, 0x00, 0x00, 0x00,
                0x4C, 0x89,
            0x94, 0xC7, 0x10, 0x00, 0x00, 0x00, 0x48, 0xFF, 0xC0, 0xE9, 0xDF, 0xFF, 0xFF, 0xFF,
                0x48, 0x89,
            0xF8, 0x48, 0x83, 0xC4, 0x28, 0x5B, 0x5F, 0x5E, 0xC3,
        ],
        &[(29, "__lullaby_alloc")],
    );
}

#[test]
fn map_grow_machine_code() {
    expect(
        emit_map_grow_helper(),
        "__lullaby_map_grow",
        &[
            0x56, 0x57, 0x53, 0x48, 0x83, 0xEC, 0x28, 0x48, 0x89, 0xCE, 0x48, 0x8B, 0x86, 0x00,
                0x00, 0x00,
            0x00, 0x48, 0x8B, 0x96, 0x08, 0x00, 0x00, 0x00, 0x48, 0x39, 0xD0, 0x0F, 0x8C, 0x7A,
                0x00, 0x00,
            0x00, 0x48, 0x89, 0xD3, 0x48, 0x85, 0xDB, 0x0F, 0x85, 0x0A, 0x00, 0x00, 0x00, 0xBB,
                0x04, 0x00,
            0x00, 0x00, 0xE9, 0x03, 0x00, 0x00, 0x00, 0x48, 0xD1, 0xE3, 0x48, 0x89, 0xD9, 0x48,
                0xC1, 0xE1,
            0x04, 0x48, 0x81, 0xC1, 0x10, 0x00, 0x00, 0x00, 0xE8, 0x00, 0x00, 0x00, 0x00, 0x48,
                0x89, 0xC7,
            0x4C, 0x8B, 0x96, 0x00, 0x00, 0x00, 0x00, 0x4C, 0x89, 0x97, 0x00, 0x00, 0x00, 0x00,
                0x48, 0x89,
            0x9F, 0x08, 0x00, 0x00, 0x00, 0x48, 0x8B, 0x9E, 0x00, 0x00, 0x00, 0x00, 0x48, 0xD1,
                0xE3, 0x48,
            0x31, 0xC0, 0x48, 0x39, 0xD8, 0x0F, 0x8D, 0x18, 0x00, 0x00, 0x00, 0x4C, 0x8B, 0x94,
                0xC6, 0x10,
            0x00, 0x00, 0x00, 0x4C, 0x89, 0x94, 0xC7, 0x10, 0x00, 0x00, 0x00, 0x48, 0xFF, 0xC0,
                0xE9, 0xDF,
            0xFF, 0xFF, 0xFF, 0x48, 0x89, 0xF8, 0xE9, 0x03, 0x00, 0x00, 0x00, 0x48, 0x89, 0xF0,
                0x48, 0x83,
            0xC4, 0x28, 0x5B, 0x5F, 0x5E, 0xC3,
        ],
        &[(73, "__lullaby_alloc")],
    );
}

#[test]
fn map_find_machine_code() {
    expect(
        emit_map_find_helper(),
        "__lullaby_map_find",
        &[
            0x4C, 0x8B, 0x91, 0x00, 0x00, 0x00, 0x00, 0x48, 0x31, 0xC0, 0x4C, 0x39, 0xD0, 0x0F,
                0x8D, 0x1D,
            0x00, 0x00, 0x00, 0x49, 0x89, 0xC3, 0x49, 0xC1, 0xE3, 0x04, 0x4E, 0x8B, 0x9C, 0x19,
                0x10, 0x00,
            0x00, 0x00, 0x49, 0x39, 0xD3, 0x74, 0x08, 0x48, 0xFF, 0xC0, 0xE9, 0xDB, 0xFF, 0xFF,
                0xFF, 0xC3,
            0x4C, 0x89, 0xD0, 0xC3,
        ],
        &[],
    );
}

#[test]
fn str_from_int_machine_code() {
    expect(
        emit_str_from_int_helper(),
        "__lullaby_str_from_int",
        &[
            0x53, 0x56, 0x57, 0x41, 0x54, 0x41, 0x55, 0x48, 0x83, 0xEC, 0x20, 0x48, 0x31, 0xFF,
                0x48, 0x89,
            0xCB, 0x48, 0x85, 0xD2, 0x74, 0x0D, 0x48, 0x85, 0xDB, 0x7D, 0x08, 0x48, 0xF7, 0xDB,
                0xBF, 0x01,
            0x00, 0x00, 0x00, 0x48, 0x89, 0xD8, 0x41, 0xBD, 0x01, 0x00, 0x00, 0x00, 0xB9, 0x0A,
                0x00, 0x00,
            0x00, 0x48, 0x31, 0xD2, 0x48, 0xF7, 0xF1, 0x48, 0x85, 0xC0, 0x74, 0x05, 0x49, 0xFF,
                0xC5, 0xEB,
            0xF0, 0x4D, 0x89, 0xEC, 0x49, 0x01, 0xFC, 0x49, 0x8D, 0x8C, 0x24, 0x10, 0x00, 0x00,
                0x00, 0xE8,
            0x00, 0x00, 0x00, 0x00, 0x4C, 0x89, 0xA0, 0x00, 0x00, 0x00, 0x00, 0x4C, 0x89, 0xA0,
                0x08, 0x00,
            0x00, 0x00, 0x50, 0x48, 0x8D, 0xB0, 0x10, 0x00, 0x00, 0x00, 0x4C, 0x01, 0xE6, 0xB9,
                0x0A, 0x00,
            0x00, 0x00, 0x48, 0x89, 0xD8, 0x48, 0x31, 0xD2, 0x48, 0xF7, 0xF1, 0x48, 0x89, 0xC3,
                0x80, 0xC2,
            0x30, 0x48, 0xFF, 0xCE, 0x88, 0x16, 0x48, 0x85, 0xDB, 0x0F, 0x85, 0xE3, 0xFF, 0xFF,
                0xFF, 0x48,
            0x85, 0xFF, 0x74, 0x06, 0x48, 0xFF, 0xCE, 0xC6, 0x06, 0x2D, 0x58, 0x48, 0x83, 0xC4,
                0x20, 0x41,
            0x5D, 0x41, 0x5C, 0x5F, 0x5E, 0x5B, 0xC3,
        ],
        &[(80, "__lullaby_alloc")],
    );
}

#[test]
fn str_from_bool_machine_code() {
    expect(
        emit_str_from_bool_helper(),
        "__lullaby_str_from_bool",
        &[
            0x53, 0x48, 0x83, 0xEC, 0x20, 0x48, 0x89, 0xCB, 0xB9, 0x05, 0x00, 0x00, 0x00, 0x48,
                0x85, 0xDB,
            0x74, 0x05, 0xB9, 0x04, 0x00, 0x00, 0x00, 0x48, 0x81, 0xC1, 0x10, 0x00, 0x00, 0x00,
                0xE8, 0x00,
            0x00, 0x00, 0x00, 0x48, 0x85, 0xDB, 0x0F, 0x84, 0x25, 0x00, 0x00, 0x00, 0x48, 0xC7,
                0x80, 0x00,
            0x00, 0x00, 0x00, 0x04, 0x00, 0x00, 0x00, 0x48, 0xC7, 0x80, 0x08, 0x00, 0x00, 0x00,
                0x04, 0x00,
            0x00, 0x00, 0xC7, 0x80, 0x10, 0x00, 0x00, 0x00, 0x74, 0x72, 0x75, 0x65, 0xE9, 0x27,
                0x00, 0x00,
            0x00, 0x48, 0xC7, 0x80, 0x00, 0x00, 0x00, 0x00, 0x05, 0x00, 0x00, 0x00, 0x48, 0xC7,
                0x80, 0x08,
            0x00, 0x00, 0x00, 0x05, 0x00, 0x00, 0x00, 0xC7, 0x80, 0x10, 0x00, 0x00, 0x00, 0x66,
                0x61, 0x6C,
            0x73, 0xC6, 0x80, 0x14, 0x00, 0x00, 0x00, 0x65, 0x48, 0x83, 0xC4, 0x20, 0x5B, 0xC3,
        ],
        &[(31, "__lullaby_alloc")],
    );
}

#[test]
fn str_from_char_machine_code() {
    expect(
        emit_str_from_char_helper(),
        "__lullaby_str_from_char",
        &[
            0x53, 0x56, 0x57, 0x48, 0x83, 0xEC, 0x08, 0x48, 0x89, 0xCB, 0xBE, 0x01, 0x00, 0x00,
                0x00, 0x48,
            0x81, 0xFB, 0x80, 0x00, 0x00, 0x00, 0x0F, 0x8C, 0x29, 0x00, 0x00, 0x00, 0xBE, 0x02,
                0x00, 0x00,
            0x00, 0x48, 0x81, 0xFB, 0x00, 0x08, 0x00, 0x00, 0x0F, 0x8C, 0x17, 0x00, 0x00, 0x00,
                0xBE, 0x03,
            0x00, 0x00, 0x00, 0x48, 0x81, 0xFB, 0x00, 0x00, 0x01, 0x00, 0x0F, 0x8C, 0x05, 0x00,
                0x00, 0x00,
            0xBE, 0x04, 0x00, 0x00, 0x00, 0x48, 0x8D, 0x8E, 0x10, 0x00, 0x00, 0x00, 0xE8, 0x00,
                0x00, 0x00,
            0x00, 0x48, 0xC7, 0x80, 0x00, 0x00, 0x00, 0x00, 0x01, 0x00, 0x00, 0x00, 0x48, 0x89,
                0xB0, 0x08,
            0x00, 0x00, 0x00, 0x48, 0x8D, 0xB8, 0x10, 0x00, 0x00, 0x00, 0x50, 0x48, 0x83, 0xFE,
                0x01, 0x0F,
            0x85, 0x07, 0x00, 0x00, 0x00, 0x88, 0x1F, 0xE9, 0x96, 0x00, 0x00, 0x00, 0x48, 0x83,
                0xFE, 0x02,
            0x0F, 0x85, 0x1D, 0x00, 0x00, 0x00, 0x48, 0x89, 0xD9, 0x48, 0xC1, 0xE9, 0x06, 0x80,
                0xC9, 0xC0,
            0x88, 0x0F, 0x48, 0x89, 0xD9, 0x80, 0xE1, 0x3F, 0x80, 0xC9, 0x80, 0x88, 0x4F, 0x01,
                0xE9, 0x6F,
            0x00, 0x00, 0x00, 0x48, 0x83, 0xFE, 0x03, 0x0F, 0x85, 0x2D, 0x00, 0x00, 0x00, 0x48,
                0x89, 0xD9,
            0x48, 0xC1, 0xE9, 0x0C, 0x80, 0xC9, 0xE0, 0x88, 0x0F, 0x48, 0x89, 0xD9, 0x48, 0xC1,
                0xE9, 0x06,
            0x80, 0xE1, 0x3F, 0x80, 0xC9, 0x80, 0x88, 0x4F, 0x01, 0x48, 0x89, 0xD9, 0x80, 0xE1,
                0x3F, 0x80,
            0xC9, 0x80, 0x88, 0x4F, 0x02, 0xE9, 0x38, 0x00, 0x00, 0x00, 0x48, 0x89, 0xD9, 0x48,
                0xC1, 0xE9,
            0x12, 0x80, 0xC9, 0xF0, 0x88, 0x0F, 0x48, 0x89, 0xD9, 0x48, 0xC1, 0xE9, 0x0C, 0x80,
                0xE1, 0x3F,
            0x80, 0xC9, 0x80, 0x88, 0x4F, 0x01, 0x48, 0x89, 0xD9, 0x48, 0xC1, 0xE9, 0x06, 0x80,
                0xE1, 0x3F,
            0x80, 0xC9, 0x80, 0x88, 0x4F, 0x02, 0x48, 0x89, 0xD9, 0x80, 0xE1, 0x3F, 0x80, 0xC9,
                0x80, 0x88,
            0x4F, 0x03, 0x58, 0x48, 0x83, 0xC4, 0x08, 0x5F, 0x5E, 0x5B, 0xC3,
        ],
        &[(77, "__lullaby_alloc")],
    );
}

#[test]
fn parse_i64_machine_code() {
    expect(
        emit_parse_i64_helper(),
        "__lullaby_parse_i64",
        &[
            0x53, 0x56, 0x57, 0x41, 0x54, 0x41, 0x55, 0x48, 0x83, 0xEC, 0x20, 0x48, 0x89, 0xCB,
                0x48, 0x8B,
            0x73, 0x08, 0x48, 0x31, 0xFF, 0x4D, 0x31, 0xD2, 0x4D, 0x31, 0xDB, 0x48, 0x85, 0xF6,
                0x0F, 0x84,
            0x8C, 0x00, 0x00, 0x00, 0x0F, 0xB6, 0x84, 0x3B, 0x10, 0x00, 0x00, 0x00, 0x3C, 0x2D,
                0x0F, 0x85,
            0x0E, 0x00, 0x00, 0x00, 0x41, 0xBB, 0x01, 0x00, 0x00, 0x00, 0x48, 0xFF, 0xC7, 0xE9,
                0x0B, 0x00,
            0x00, 0x00, 0x3C, 0x2B, 0x0F, 0x85, 0x03, 0x00, 0x00, 0x00, 0x48, 0xFF, 0xC7, 0x48,
                0x39, 0xF7,
            0x0F, 0x83, 0x5A, 0x00, 0x00, 0x00, 0x48, 0x39, 0xF7, 0x0F, 0x83, 0x47, 0x00, 0x00,
                0x00, 0x0F,
            0xB6, 0x84, 0x3B, 0x10, 0x00, 0x00, 0x00, 0x2C, 0x30, 0x3C, 0x09, 0x0F, 0x87, 0x3F,
                0x00, 0x00,
            0x00, 0x0F, 0xB6, 0xC0, 0x4D, 0x6B, 0xD2, 0x0A, 0x0F, 0x80, 0x32, 0x00, 0x00, 0x00,
                0x4D, 0x85,
            0xDB, 0x0F, 0x85, 0x0E, 0x00, 0x00, 0x00, 0x49, 0x01, 0xC2, 0x0F, 0x80, 0x20, 0x00,
                0x00, 0x00,
            0xE9, 0x09, 0x00, 0x00, 0x00, 0x49, 0x29, 0xC2, 0x0F, 0x80, 0x12, 0x00, 0x00, 0x00,
                0x48, 0xFF,
            0xC7, 0xE9, 0xB0, 0xFF, 0xFF, 0xFF, 0x31, 0xC0, 0x4C, 0x89, 0xD2, 0xE9, 0x69, 0x00,
                0x00, 0x00,
            0x4C, 0x8B, 0x63, 0x08, 0x49, 0x8D, 0x8C, 0x24, 0x26, 0x00, 0x00, 0x00, 0xE8, 0x00,
                0x00, 0x00,
            0x00, 0x49, 0x89, 0xC5, 0x48, 0x8B, 0x53, 0x00, 0x48, 0x83, 0xC2, 0x16, 0x48, 0x89,
                0x50, 0x00,
            0x49, 0x8D, 0x54, 0x24, 0x16, 0x48, 0x89, 0x50, 0x08, 0x48, 0xB9, 0x63, 0x61, 0x6E,
                0x6E, 0x6F,
            0x74, 0x20, 0x70, 0x48, 0x89, 0x48, 0x10, 0xB9, 0x61, 0x72, 0x73, 0x65, 0x89, 0x48,
                0x18, 0x66,
            0xB9, 0x20, 0x60, 0x66, 0x89, 0x48, 0x1C, 0x48, 0x8D, 0x73, 0x10, 0x48, 0x8D, 0x78,
                0x1E, 0x4C,
            0x89, 0xE1, 0xF3, 0xA4, 0x48, 0xB9, 0x60, 0x20, 0x61, 0x73, 0x20, 0x69, 0x36, 0x34,
                0x48, 0x89,
            0x0F, 0xB8, 0x01, 0x00, 0x00, 0x00, 0x4C, 0x89, 0xEA, 0x48, 0x83, 0xC4, 0x20, 0x41,
                0x5D, 0x41,
            0x5C, 0x5F, 0x5E, 0x5B, 0xC3,
        ],
        &[(189, "__lullaby_alloc")],
    );
}

#[test]
fn rc_dec_machine_code() {
    expect(
        emit_rc_dec_helper(),
        "__lullaby_rc_dec",
        &[
            0x48, 0xFF, 0x49, 0xF8, 0x75, 0x05, 0xE9, 0x00, 0x00, 0x00, 0x00, 0xC3,
        ],
        &[(7, "__lullaby_rc_free")],
    );
}

#[test]
fn drop_string_array_machine_code() {
    expect(
        emit_drop_string_array_helper(),
        "__lullaby_drop_string_array",
        &[
            0x53, 0x56, 0x57, 0x48, 0x83, 0xEC, 0x20, 0x48, 0x89, 0xCB, 0x48, 0x8B, 0x7B, 0x00,
                0x31, 0xF6,
            0x48, 0x39, 0xFE, 0x0F, 0x83, 0x15, 0x00, 0x00, 0x00, 0x48, 0x8B, 0x8C, 0xF3, 0x10,
                0x00, 0x00,
            0x00, 0xE8, 0x00, 0x00, 0x00, 0x00, 0x48, 0xFF, 0xC6, 0xE9, 0xE2, 0xFF, 0xFF, 0xFF,
                0x48, 0x89,
            0xD9, 0xE8, 0x00, 0x00, 0x00, 0x00, 0x48, 0x83, 0xC4, 0x20, 0x5F, 0x5E, 0x5B, 0xC3,
        ],
        &[(34, "__lullaby_rc_dec"), (50, "__lullaby_rc_dec")],
    );
}

#[test]
fn heap_strlen_machine_code() {
    expect(
        emit_heap_strlen_helper(),
        "__lullaby_strlen_copy",
        &[
            0x56, 0x57, 0x53, 0x48, 0x83, 0xEC, 0x20, 0x48, 0x89, 0xCE, 0x48, 0x89, 0xF0, 0x48,
                0x31, 0xDB,
            0x8A, 0x08, 0x84, 0xC9, 0x74, 0x08, 0x48, 0xFF, 0xC0, 0x48, 0xFF, 0xC3, 0xEB, 0xF2,
                0x48, 0x8D,
            0x4B, 0x01, 0xE8, 0x00, 0x00, 0x00, 0x00, 0x48, 0x89, 0xC7, 0x50, 0x48, 0x89, 0xD9,
                0x48, 0xFF,
            0xC1, 0xF3, 0xA4, 0x5A, 0x48, 0x31, 0xC0, 0x8A, 0x0C, 0x02, 0x84, 0xC9, 0x74, 0x05,
                0x48, 0xFF,
            0xC0, 0xEB, 0xF4, 0x48, 0x83, 0xC4, 0x20, 0x5B, 0x5F, 0x5E, 0xC3,
        ],
        &[(35, "__lullaby_alloc")],
    );
}

#[test]
fn struct_copy_machine_code() {
    expect(
        emit_struct_copy_helper(),
        "__lullaby_struct_copy",
        &[
            0x56, 0x57, 0x53, 0x48, 0x83, 0xEC, 0x28, 0x48, 0x8D, 0x71, 0xF8, 0x48, 0x8B, 0x1E,
                0x48, 0x89,
            0xD9, 0x48, 0xC1, 0xE1, 0x03, 0x48, 0x81, 0xC1, 0x08, 0x00, 0x00, 0x00, 0xE8, 0x00,
                0x00, 0x00,
            0x00, 0x48, 0x89, 0xC7, 0x48, 0xFF, 0xC3, 0x48, 0x31, 0xC0, 0x48, 0x39, 0xD8, 0x0F,
                0x8D, 0x10,
            0x00, 0x00, 0x00, 0x4C, 0x8B, 0x14, 0xC6, 0x4C, 0x89, 0x14, 0xC7, 0x48, 0xFF, 0xC0,
                0xE9, 0xE7,
            0xFF, 0xFF, 0xFF, 0x48, 0x8D, 0x47, 0x08, 0x48, 0x83, 0xC4, 0x28, 0x5B, 0x5F, 0x5E,
                0xC3,
        ],
        &[(29, "__lullaby_alloc")],
    );
}

#[test]
fn str_find_machine_code() {
    expect(
        emit_str_find_helper(),
        "__lullaby_str_find",
        &[
            0x56, 0x57, 0x41, 0x54, 0x41, 0x55, 0x4C, 0x8B, 0x69, 0x08, 0x48, 0x8D, 0x71, 0x10,
                0x4C, 0x8B,
            0x62, 0x08, 0x48, 0x8D, 0x7A, 0x10, 0x4D, 0x89, 0xEA, 0x4D, 0x29, 0xE2, 0x4D, 0x31,
                0xC0, 0x48,
            0x31, 0xC0, 0x4D, 0x39, 0xD0, 0x0F, 0x8F, 0x4A, 0x00, 0x00, 0x00, 0x49, 0x89, 0xF3,
                0x4D, 0x01,
            0xC3, 0x4D, 0x31, 0xC9, 0x4D, 0x39, 0xE1, 0x0F, 0x8D, 0x18, 0x00, 0x00, 0x00, 0x43,
                0x8A, 0x0C,
            0x0B, 0x42, 0x8A, 0x14, 0x0F, 0x38, 0xD1, 0x0F, 0x85, 0x14, 0x00, 0x00, 0x00, 0x49,
                0xFF, 0xC1,
            0xE9, 0xDF, 0xFF, 0xFF, 0xFF, 0x48, 0xC7, 0xC0, 0x01, 0x00, 0x00, 0x00, 0xE9, 0x03,
                0x00, 0x00,
            0x00, 0x48, 0x31, 0xC0, 0x48, 0x85, 0xC0, 0x0F, 0x85, 0x08, 0x00, 0x00, 0x00, 0x49,
                0xFF, 0xC0,
            0xE9, 0xAD, 0xFF, 0xFF, 0xFF, 0x48, 0x85, 0xC0, 0x0F, 0x84, 0x2A, 0x00, 0x00, 0x00,
                0x48, 0x31,
            0xC0, 0x4D, 0x31, 0xC9, 0x4D, 0x39, 0xC1, 0x0F, 0x8D, 0x22, 0x00, 0x00, 0x00, 0x42,
                0x8A, 0x0C,
            0x0E, 0x80, 0xE1, 0xC0, 0x80, 0xF9, 0x80, 0x0F, 0x84, 0x03, 0x00, 0x00, 0x00, 0x48,
                0xFF, 0xC0,
            0x49, 0xFF, 0xC1, 0xE9, 0xDC, 0xFF, 0xFF, 0xFF, 0x48, 0xC7, 0xC0, 0xFF, 0xFF, 0xFF,
                0xFF, 0x41,
            0x5D, 0x41, 0x5C, 0x5F, 0x5E, 0xC3,
        ],
        &[],
    );
}

#[test]
fn str_contains_machine_code() {
    expect(
        emit_str_contains_helper(),
        "__lullaby_str_contains",
        &[
            0x56, 0x57, 0x41, 0x54, 0x41, 0x55, 0x4C, 0x8B, 0x69, 0x08, 0x48, 0x8D, 0x71, 0x10,
                0x4C, 0x8B,
            0x62, 0x08, 0x48, 0x8D, 0x7A, 0x10, 0x4D, 0x89, 0xEA, 0x4D, 0x29, 0xE2, 0x4D, 0x31,
                0xC0, 0x48,
            0x31, 0xC0, 0x4D, 0x39, 0xD0, 0x0F, 0x8F, 0x4A, 0x00, 0x00, 0x00, 0x49, 0x89, 0xF3,
                0x4D, 0x01,
            0xC3, 0x4D, 0x31, 0xC9, 0x4D, 0x39, 0xE1, 0x0F, 0x8D, 0x18, 0x00, 0x00, 0x00, 0x43,
                0x8A, 0x0C,
            0x0B, 0x42, 0x8A, 0x14, 0x0F, 0x38, 0xD1, 0x0F, 0x85, 0x14, 0x00, 0x00, 0x00, 0x49,
                0xFF, 0xC1,
            0xE9, 0xDF, 0xFF, 0xFF, 0xFF, 0x48, 0xC7, 0xC0, 0x01, 0x00, 0x00, 0x00, 0xE9, 0x03,
                0x00, 0x00,
            0x00, 0x48, 0x31, 0xC0, 0x48, 0x85, 0xC0, 0x0F, 0x85, 0x08, 0x00, 0x00, 0x00, 0x49,
                0xFF, 0xC0,
            0xE9, 0xAD, 0xFF, 0xFF, 0xFF, 0x41, 0x5D, 0x41, 0x5C, 0x5F, 0x5E, 0xC3,
        ],
        &[],
    );
}

#[test]
fn str_count_machine_code() {
    expect(
        emit_str_count_helper(),
        "__lullaby_str_count",
        &[
            0x56, 0x57, 0x41, 0x54, 0x41, 0x55, 0x4C, 0x8B, 0x69, 0x08, 0x48, 0x8D, 0x71, 0x10,
                0x4C, 0x8B,
            0x62, 0x08, 0x48, 0x8D, 0x7A, 0x10, 0x4D, 0x85, 0xE4, 0x0F, 0x85, 0x08, 0x00, 0x00,
                0x00, 0x48,
            0x31, 0xC0, 0xE9, 0x6D, 0x00, 0x00, 0x00, 0x4D, 0x31, 0xC0, 0x4D, 0x31, 0xD2, 0x4C,
                0x89, 0xE8,
            0x4C, 0x29, 0xE0, 0x49, 0x39, 0xC2, 0x0F, 0x8F, 0x55, 0x00, 0x00, 0x00, 0x49, 0x89,
                0xF3, 0x4D,
            0x01, 0xD3, 0x4D, 0x31, 0xC9, 0x4D, 0x39, 0xE1, 0x0F, 0x8D, 0x18, 0x00, 0x00, 0x00,
                0x43, 0x8A,
            0x0C, 0x0B, 0x42, 0x8A, 0x14, 0x0F, 0x38, 0xD1, 0x0F, 0x85, 0x14, 0x00, 0x00, 0x00,
                0x49, 0xFF,
            0xC1, 0xE9, 0xDF, 0xFF, 0xFF, 0xFF, 0x48, 0xC7, 0xC0, 0x01, 0x00, 0x00, 0x00, 0xE9,
                0x03, 0x00,
            0x00, 0x00, 0x48, 0x31, 0xC0, 0x48, 0x85, 0xC0, 0x0F, 0x84, 0x0B, 0x00, 0x00, 0x00,
                0x49, 0xFF,
            0xC0, 0x4D, 0x01, 0xE2, 0xE9, 0xA4, 0xFF, 0xFF, 0xFF, 0x49, 0xFF, 0xC2, 0xE9, 0x9C,
                0xFF, 0xFF,
            0xFF, 0x4C, 0x89, 0xC0, 0x41, 0x5D, 0x41, 0x5C, 0x5F, 0x5E, 0xC3,
        ],
        &[],
    );
}

#[test]
fn str_starts_with_machine_code() {
    expect(
        emit_str_starts_with_helper(),
        "__lullaby_str_starts_with",
        &[
            0x56, 0x57, 0x41, 0x54, 0x41, 0x55, 0x4C, 0x8B, 0x69, 0x08, 0x48, 0x8D, 0x71, 0x10,
                0x4C, 0x8B,
            0x62, 0x08, 0x48, 0x8D, 0x7A, 0x10, 0x4D, 0x39, 0xEC, 0x0F, 0x8F, 0x3B, 0x00, 0x00,
                0x00, 0x49,
            0x89, 0xF3, 0x4D, 0x31, 0xC9, 0x4D, 0x39, 0xE1, 0x0F, 0x8D, 0x18, 0x00, 0x00, 0x00,
                0x43, 0x8A,
            0x0C, 0x0B, 0x42, 0x8A, 0x14, 0x0F, 0x38, 0xD1, 0x0F, 0x85, 0x14, 0x00, 0x00, 0x00,
                0x49, 0xFF,
            0xC1, 0xE9, 0xDF, 0xFF, 0xFF, 0xFF, 0x48, 0xC7, 0xC0, 0x01, 0x00, 0x00, 0x00, 0xE9,
                0x03, 0x00,
            0x00, 0x00, 0x48, 0x31, 0xC0, 0xE9, 0x03, 0x00, 0x00, 0x00, 0x48, 0x31, 0xC0, 0x41,
                0x5D, 0x41,
            0x5C, 0x5F, 0x5E, 0xC3,
        ],
        &[],
    );
}

#[test]
fn str_ends_with_machine_code() {
    expect(
        emit_str_ends_with_helper(),
        "__lullaby_str_ends_with",
        &[
            0x56, 0x57, 0x41, 0x54, 0x41, 0x55, 0x4C, 0x8B, 0x69, 0x08, 0x48, 0x8D, 0x71, 0x10,
                0x4C, 0x8B,
            0x62, 0x08, 0x48, 0x8D, 0x7A, 0x10, 0x4D, 0x39, 0xEC, 0x0F, 0x8F, 0x41, 0x00, 0x00,
                0x00, 0x49,
            0x89, 0xF3, 0x4D, 0x01, 0xEB, 0x4D, 0x29, 0xE3, 0x4D, 0x31, 0xC9, 0x4D, 0x39, 0xE1,
                0x0F, 0x8D,
            0x18, 0x00, 0x00, 0x00, 0x43, 0x8A, 0x0C, 0x0B, 0x42, 0x8A, 0x14, 0x0F, 0x38, 0xD1,
                0x0F, 0x85,
            0x14, 0x00, 0x00, 0x00, 0x49, 0xFF, 0xC1, 0xE9, 0xDF, 0xFF, 0xFF, 0xFF, 0x48, 0xC7,
                0xC0, 0x01,
            0x00, 0x00, 0x00, 0xE9, 0x03, 0x00, 0x00, 0x00, 0x48, 0x31, 0xC0, 0xE9, 0x03, 0x00,
                0x00, 0x00,
            0x48, 0x31, 0xC0, 0x41, 0x5D, 0x41, 0x5C, 0x5F, 0x5E, 0xC3,
        ],
        &[],
    );
}

#[test]
fn str_char_at_machine_code() {
    expect(
        emit_str_char_at_helper(),
        "__lullaby_str_char_at",
        &[
            0x56, 0x41, 0x57, 0x48, 0x8B, 0x41, 0x00, 0x48, 0x39, 0xC2, 0x72, 0x02, 0x0F, 0x0B,
                0x4C, 0x8B,
            0x79, 0x08, 0x48, 0x8D, 0x71, 0x10, 0x48, 0x89, 0xD0, 0x49, 0x89, 0xC1, 0x48, 0x31,
                0xC0, 0x48,
            0x31, 0xC9, 0x4C, 0x39, 0xC9, 0x0F, 0x8D, 0x2B, 0x00, 0x00, 0x00, 0x48, 0xFF, 0xC0,
                0x4C, 0x39,
            0xF8, 0x0F, 0x8D, 0x17, 0x00, 0x00, 0x00, 0x8A, 0x14, 0x06, 0x80, 0xE2, 0xC0, 0x80,
                0xFA, 0x80,
            0x0F, 0x85, 0x08, 0x00, 0x00, 0x00, 0x48, 0xFF, 0xC0, 0xE9, 0xE0, 0xFF, 0xFF, 0xFF,
                0x48, 0xFF,
            0xC1, 0xE9, 0xCC, 0xFF, 0xFF, 0xFF, 0x44, 0x0F, 0xB6, 0x04, 0x06, 0x41, 0x81, 0xF8,
                0x80, 0x00,
            0x00, 0x00, 0x0F, 0x82, 0x78, 0x00, 0x00, 0x00, 0x44, 0x0F, 0xB6, 0x4C, 0x06, 0x01,
                0x41, 0x83,
            0xE1, 0x3F, 0x41, 0x81, 0xF8, 0xE0, 0x00, 0x00, 0x00, 0x0F, 0x83, 0x10, 0x00, 0x00,
                0x00, 0x41,
            0x83, 0xE0, 0x1F, 0x41, 0xC1, 0xE0, 0x06, 0x45, 0x09, 0xC8, 0xE9, 0x51, 0x00, 0x00,
                0x00, 0x44,
            0x0F, 0xB6, 0x54, 0x06, 0x02, 0x41, 0x83, 0xE2, 0x3F, 0x41, 0x81, 0xF8, 0xF0, 0x00,
                0x00, 0x00,
            0x0F, 0x83, 0x17, 0x00, 0x00, 0x00, 0x41, 0x83, 0xE0, 0x0F, 0x41, 0xC1, 0xE0, 0x0C,
                0x41, 0xC1,
            0xE1, 0x06, 0x45, 0x09, 0xC8, 0x45, 0x09, 0xD0, 0xE9, 0x23, 0x00, 0x00, 0x00, 0x44,
                0x0F, 0xB6,
            0x5C, 0x06, 0x03, 0x41, 0x83, 0xE3, 0x3F, 0x41, 0x83, 0xE0, 0x07, 0x41, 0xC1, 0xE0,
                0x12, 0x41,
            0xC1, 0xE1, 0x0C, 0x41, 0xC1, 0xE2, 0x06, 0x45, 0x09, 0xC8, 0x45, 0x09, 0xD0, 0x45,
                0x09, 0xD8,
            0x4C, 0x89, 0xC0, 0x41, 0x5F, 0x5E, 0xC3,
        ],
        &[],
    );
}

#[test]
fn str_substring_machine_code() {
    expect(
        emit_str_substring_helper(),
        "__lullaby_str_substring",
        &[
            0x53, 0x55, 0x56, 0x57, 0x41, 0x54, 0x41, 0x55, 0x41, 0x56, 0x41, 0x57, 0x48, 0x83,
                0xEC, 0x08,
            0x4C, 0x8B, 0x49, 0x00, 0x48, 0x85, 0xD2, 0x0F, 0x88, 0xF8, 0x00, 0x00, 0x00, 0x4D,
                0x85, 0xC0,
            0x0F, 0x88, 0xEF, 0x00, 0x00, 0x00, 0x49, 0x39, 0xD0, 0x0F, 0x8C, 0xE6, 0x00, 0x00,
                0x00, 0x4D,
            0x39, 0xC8, 0x0F, 0x8F, 0xDD, 0x00, 0x00, 0x00, 0x49, 0x89, 0xD4, 0x4D, 0x89, 0xC5,
                0x4C, 0x8B,
            0x79, 0x08, 0x48, 0x8D, 0x71, 0x10, 0x4C, 0x89, 0xE0, 0x49, 0x89, 0xC1, 0x48, 0x31,
                0xC0, 0x48,
            0x31, 0xC9, 0x4C, 0x39, 0xC9, 0x0F, 0x8D, 0x2B, 0x00, 0x00, 0x00, 0x48, 0xFF, 0xC0,
                0x4C, 0x39,
            0xF8, 0x0F, 0x8D, 0x17, 0x00, 0x00, 0x00, 0x8A, 0x14, 0x06, 0x80, 0xE2, 0xC0, 0x80,
                0xFA, 0x80,
            0x0F, 0x85, 0x08, 0x00, 0x00, 0x00, 0x48, 0xFF, 0xC0, 0xE9, 0xE0, 0xFF, 0xFF, 0xFF,
                0x48, 0xFF,
            0xC1, 0xE9, 0xCC, 0xFF, 0xFF, 0xFF, 0x48, 0x89, 0xC3, 0x4C, 0x89, 0xE8, 0x49, 0x89,
                0xC1, 0x48,
            0x31, 0xC0, 0x48, 0x31, 0xC9, 0x4C, 0x39, 0xC9, 0x0F, 0x8D, 0x2B, 0x00, 0x00, 0x00,
                0x48, 0xFF,
            0xC0, 0x4C, 0x39, 0xF8, 0x0F, 0x8D, 0x17, 0x00, 0x00, 0x00, 0x8A, 0x14, 0x06, 0x80,
                0xE2, 0xC0,
            0x80, 0xFA, 0x80, 0x0F, 0x85, 0x08, 0x00, 0x00, 0x00, 0x48, 0xFF, 0xC0, 0xE9, 0xE0,
                0xFF, 0xFF,
            0xFF, 0x48, 0xFF, 0xC1, 0xE9, 0xCC, 0xFF, 0xFF, 0xFF, 0x48, 0x89, 0xC5, 0x48, 0x89,
                0xE9, 0x48,
            0x29, 0xD9, 0x48, 0x81, 0xC1, 0x10, 0x00, 0x00, 0x00, 0xE8, 0x00, 0x00, 0x00, 0x00,
                0x49, 0x89,
            0xC6, 0x4C, 0x89, 0xE9, 0x4C, 0x29, 0xE1, 0x49, 0x89, 0x8E, 0x00, 0x00, 0x00, 0x00,
                0x48, 0x89,
            0xE9, 0x48, 0x29, 0xD9, 0x49, 0x89, 0x8E, 0x08, 0x00, 0x00, 0x00, 0x49, 0x8D, 0xBE,
                0x10, 0x00,
            0x00, 0x00, 0x48, 0x01, 0xDE, 0x48, 0x89, 0xE9, 0x48, 0x29, 0xD9, 0xF3, 0xA4, 0x4C,
                0x89, 0xF0,
            0xE9, 0x02, 0x00, 0x00, 0x00, 0x0F, 0x0B, 0x48, 0x83, 0xC4, 0x08, 0x41, 0x5F, 0x41,
                0x5E, 0x41,
            0x5D, 0x41, 0x5C, 0x5F, 0x5E, 0x5D, 0x5B, 0xC3,
        ],
        &[(218, "__lullaby_alloc")],
    );
}

#[test]
fn str_lit_machine_code() {
    expect(
        emit_str_lit_helper(),
        "__lullaby_str_lit",
        &[
            0x56, 0x57, 0x53, 0x48, 0x83, 0xEC, 0x08, 0x48, 0x89, 0xCE, 0x48, 0x89, 0xF0, 0x48,
                0x31, 0xDB,
            0x48, 0x31, 0xFF, 0x8A, 0x08, 0x84, 0xC9, 0x0F, 0x84, 0x18, 0x00, 0x00, 0x00, 0x88,
                0xCA, 0x80,
            0xE2, 0xC0, 0x80, 0xFA, 0x80, 0x74, 0x03, 0x48, 0xFF, 0xC7, 0x48, 0xFF, 0xC0, 0x48,
                0xFF, 0xC3,
            0xE9, 0xDE, 0xFF, 0xFF, 0xFF, 0x48, 0x8D, 0x8B, 0x10, 0x00, 0x00, 0x00, 0xE8, 0x00,
                0x00, 0x00,
            0x00, 0x48, 0x89, 0xB8, 0x00, 0x00, 0x00, 0x00, 0x48, 0x89, 0x98, 0x08, 0x00, 0x00,
                0x00, 0x50,
            0x48, 0x8D, 0xB8, 0x10, 0x00, 0x00, 0x00, 0x48, 0x89, 0xD9, 0xF3, 0xA4, 0x58, 0x48,
                0x83, 0xC4,
            0x08, 0x5B, 0x5F, 0x5E, 0xC3,
        ],
        &[(61, "__lullaby_alloc")],
    );
}

#[test]
fn to_cstr_machine_code() {
    expect(
        emit_to_cstr_helper(),
        "__lullaby_to_cstr",
        &[
            0x56, 0x57, 0x53, 0x48, 0x83, 0xEC, 0x08, 0x48, 0x89, 0xCE, 0x48, 0x8B, 0x9E, 0x08,
                0x00, 0x00,
            0x00, 0x48, 0x8D, 0x4B, 0x01, 0xE8, 0x00, 0x00, 0x00, 0x00, 0x50, 0x48, 0x89, 0xC7,
                0x48, 0x81,
            0xC6, 0x10, 0x00, 0x00, 0x00, 0x48, 0x89, 0xD9, 0xF3, 0xA4, 0xC6, 0x07, 0x00, 0x58,
                0x48, 0x83,
            0xC4, 0x08, 0x5B, 0x5F, 0x5E, 0xC3,
        ],
        &[(22, "__lullaby_alloc")],
    );
}

#[test]
fn str_concat_machine_code() {
    expect(
        emit_str_concat_helper(),
        "__lullaby_str_concat",
        &[
            0x56, 0x53, 0x55, 0x41, 0x54, 0x41, 0x55, 0x41, 0x56, 0x41, 0x57, 0x57, 0x48, 0x83,
                0xEC, 0x08,
            0x48, 0x89, 0xCE, 0x49, 0x89, 0xD7, 0x48, 0x8B, 0x9E, 0x08, 0x00, 0x00, 0x00, 0x49,
                0x8B, 0xAF,
            0x08, 0x00, 0x00, 0x00, 0x4C, 0x8B, 0xA6, 0x00, 0x00, 0x00, 0x00, 0x4D, 0x8B, 0xAF,
                0x00, 0x00,
            0x00, 0x00, 0x48, 0x89, 0xD9, 0x48, 0x01, 0xE9, 0x48, 0x81, 0xC1, 0x10, 0x00, 0x00,
                0x00, 0xE8,
            0x00, 0x00, 0x00, 0x00, 0x49, 0x89, 0xC6, 0x4C, 0x89, 0xE1, 0x4C, 0x01, 0xE9, 0x49,
                0x89, 0x8E,
            0x00, 0x00, 0x00, 0x00, 0x48, 0x89, 0xD9, 0x48, 0x01, 0xE9, 0x49, 0x89, 0x8E, 0x08,
                0x00, 0x00,
            0x00, 0x49, 0x8D, 0xBE, 0x10, 0x00, 0x00, 0x00, 0x48, 0x81, 0xC6, 0x10, 0x00, 0x00,
                0x00, 0x48,
            0x89, 0xD9, 0xF3, 0xA4, 0x4C, 0x89, 0xFE, 0x48, 0x81, 0xC6, 0x10, 0x00, 0x00, 0x00,
                0x48, 0x89,
            0xE9, 0xF3, 0xA4, 0x4C, 0x89, 0xF0, 0x48, 0x83, 0xC4, 0x08, 0x5F, 0x41, 0x5F, 0x41,
                0x5E, 0x41,
            0x5D, 0x41, 0x5C, 0x5D, 0x5B, 0x5E, 0xC3,
        ],
        &[(64, "__lullaby_alloc")],
    );
}

#[test]
fn str_concat_own_machine_code() {
    expect(
        emit_str_concat_own_helper(),
        "__lullaby_str_concat_own",
        &[
            0x53, 0x56, 0x57, 0x41, 0x54, 0x48, 0x83, 0xEC, 0x28, 0x48, 0x89, 0xCB, 0x48, 0x89,
                0xD6, 0x44,
            0x89, 0xC7, 0x48, 0x89, 0xD9, 0x48, 0x89, 0xF2, 0xE8, 0x00, 0x00, 0x00, 0x00, 0x49,
                0x89, 0xC4,
            0xF7, 0xC7, 0x01, 0x00, 0x00, 0x00, 0x74, 0x08, 0x48, 0x89, 0xD9, 0xE8, 0x00, 0x00,
                0x00, 0x00,
            0xF7, 0xC7, 0x02, 0x00, 0x00, 0x00, 0x74, 0x08, 0x48, 0x89, 0xF1, 0xE8, 0x00, 0x00,
                0x00, 0x00,
            0x4C, 0x89, 0xE0, 0x48, 0x83, 0xC4, 0x28, 0x41, 0x5C, 0x5F, 0x5E, 0x5B, 0xC3,
        ],
        &[(25, "__lullaby_str_concat"), (44, "__lullaby_rc_dec"), (60, "__lullaby_rc_dec")],
    );
}

#[test]
fn str_len_own_machine_code() {
    expect(
        emit_str_len_own_helper(),
        "__lullaby_str_len_own",
        &[
            0x53, 0x48, 0x83, 0xEC, 0x20, 0x48, 0x8B, 0x59, 0x00, 0xE8, 0x00, 0x00, 0x00, 0x00,
                0x48, 0x89,
            0xD8, 0x48, 0x83, 0xC4, 0x20, 0x5B, 0xC3,
        ],
        &[(10, "__lullaby_rc_dec")],
    );
}

#[test]
fn str_repeat_machine_code() {
    expect(
        emit_str_repeat_helper(),
        "__lullaby_str_repeat",
        &[
            0x53, 0x55, 0x56, 0x57, 0x41, 0x54, 0x41, 0x55, 0x41, 0x56, 0x41, 0x57, 0x48, 0x83,
                0xEC, 0x08,
            0x48, 0x85, 0xD2, 0x0F, 0x8F, 0x21, 0x00, 0x00, 0x00, 0x48, 0xC7, 0xC1, 0x10, 0x00,
                0x00, 0x00,
            0xE8, 0x00, 0x00, 0x00, 0x00, 0x48, 0xC7, 0x40, 0x00, 0x00, 0x00, 0x00, 0x00, 0x48,
                0xC7, 0x40,
            0x08, 0x00, 0x00, 0x00, 0x00, 0xE9, 0x55, 0x00, 0x00, 0x00, 0x49, 0x89, 0xCC, 0x49,
                0x89, 0xD5,
            0x4C, 0x8B, 0x71, 0x00, 0x4C, 0x8B, 0x79, 0x08, 0x4C, 0x89, 0xF8, 0x49, 0x0F, 0xAF,
                0xC5, 0x48,
            0x89, 0xC3, 0x48, 0x8D, 0x48, 0x10, 0xE8, 0x00, 0x00, 0x00, 0x00, 0x48, 0x89, 0xC5,
                0x4C, 0x89,
            0xF0, 0x49, 0x0F, 0xAF, 0xC5, 0x48, 0x89, 0x45, 0x00, 0x48, 0x89, 0x5D, 0x08, 0x48,
                0x8D, 0x7D,
            0x10, 0x4D, 0x85, 0xED, 0x0F, 0x84, 0x12, 0x00, 0x00, 0x00, 0x49, 0x8D, 0x74, 0x24,
                0x10, 0x4C,
            0x89, 0xF9, 0xF3, 0xA4, 0x49, 0xFF, 0xCD, 0xE9, 0xE5, 0xFF, 0xFF, 0xFF, 0x48, 0x89,
                0xE8, 0x48,
            0x83, 0xC4, 0x08, 0x41, 0x5F, 0x41, 0x5E, 0x41, 0x5D, 0x41, 0x5C, 0x5F, 0x5E, 0x5D,
                0x5B, 0xC3,
        ],
        &[(33, "__lullaby_alloc"), (87, "__lullaby_alloc")],
    );
}

#[test]
fn str_trim_machine_code() {
    expect(
        emit_str_trim_helper(),
        "__lullaby_str_trim",
        &[
            0x48, 0x83, 0xEC, 0x08, 0x4C, 0x8B, 0x49, 0x08, 0x4C, 0x8D, 0x51, 0x10, 0x48, 0x31,
                0xC0, 0x4C,
            0x39, 0xC8, 0x0F, 0x8D, 0x29, 0x00, 0x00, 0x00, 0x41, 0x0F, 0xB6, 0x14, 0x02, 0x80,
                0xFA, 0x20,
            0x0F, 0x84, 0x13, 0x00, 0x00, 0x00, 0x44, 0x8D, 0x5A, 0xF7, 0x41, 0x83, 0xFB, 0x04,
                0x0F, 0x86,
            0x05, 0x00, 0x00, 0x00, 0xE9, 0x08, 0x00, 0x00, 0x00, 0x48, 0xFF, 0xC0, 0xE9, 0xCE,
                0xFF, 0xFF,
            0xFF, 0x4D, 0x89, 0xC8, 0x49, 0x39, 0xC0, 0x0F, 0x8E, 0x2A, 0x00, 0x00, 0x00, 0x43,
                0x0F, 0xB6,
            0x54, 0x02, 0xFF, 0x80, 0xFA, 0x20, 0x0F, 0x84, 0x13, 0x00, 0x00, 0x00, 0x44, 0x8D,
                0x5A, 0xF7,
            0x41, 0x83, 0xFB, 0x04, 0x0F, 0x86, 0x05, 0x00, 0x00, 0x00, 0xE9, 0x08, 0x00, 0x00,
                0x00, 0x49,
            0xFF, 0xC8, 0xE9, 0xCD, 0xFF, 0xFF, 0xFF, 0x48, 0x89, 0xC2, 0xE8, 0x00, 0x00, 0x00,
                0x00, 0x48,
            0x83, 0xC4, 0x08, 0xC3,
        ],
        &[(123, "__lullaby_str_substring")],
    );
}

#[test]
fn str_split_machine_code() {
    expect(
        emit_str_split_helper(),
        "__lullaby_str_split",
        &[
            0x53, 0x56, 0x57, 0x41, 0x54, 0x41, 0x55, 0x41, 0x56, 0x41, 0x57, 0x48, 0x83, 0xEC,
                0x30, 0x49,
            0x89, 0xCC, 0x49, 0x89, 0xD5, 0x49, 0x8B, 0x45, 0x00, 0x48, 0x85, 0xC0, 0x75, 0x02,
                0x0F, 0x0B,
            0x4C, 0x89, 0xE1, 0x4C, 0x89, 0xEA, 0xE8, 0x00, 0x00, 0x00, 0x00, 0x4C, 0x8D, 0x70,
                0x01, 0x4A,
            0x8D, 0x0C, 0xF5, 0x10, 0x00, 0x00, 0x00, 0xE8, 0x00, 0x00, 0x00, 0x00, 0x48, 0x89,
                0xC3, 0x4C,
            0x89, 0x73, 0x00, 0x4C, 0x89, 0x73, 0x08, 0x31, 0xF6, 0x31, 0xFF, 0x4D, 0x8B, 0x7C,
                0x24, 0x00,
            0x4C, 0x89, 0xE1, 0x48, 0x89, 0xF2, 0x4D, 0x89, 0xF8, 0xE8, 0x00, 0x00, 0x00, 0x00,
                0x49, 0x89,
            0xC6, 0x4C, 0x89, 0xF1, 0x4C, 0x89, 0xEA, 0xE8, 0x00, 0x00, 0x00, 0x00, 0x48, 0x85,
                0xC0, 0x0F,
            0x88, 0x36, 0x00, 0x00, 0x00, 0x48, 0x89, 0x44, 0x24, 0x20, 0x4C, 0x89, 0xF1, 0x31,
                0xD2, 0x49,
            0x89, 0xC0, 0xE8, 0x00, 0x00, 0x00, 0x00, 0x48, 0x89, 0x84, 0xFB, 0x10, 0x00, 0x00,
                0x00, 0x48,
            0xFF, 0xC7, 0x4C, 0x89, 0xF1, 0xE8, 0x00, 0x00, 0x00, 0x00, 0x48, 0x8B, 0x44, 0x24,
                0x20, 0x48,
            0x01, 0xC6, 0x49, 0x03, 0x75, 0x00, 0xE9, 0xA5, 0xFF, 0xFF, 0xFF, 0x4C, 0x89, 0xB4,
                0xFB, 0x10,
            0x00, 0x00, 0x00, 0x48, 0x89, 0xD8, 0x48, 0x83, 0xC4, 0x30, 0x41, 0x5F, 0x41, 0x5E,
                0x41, 0x5D,
            0x41, 0x5C, 0x5F, 0x5E, 0x5B, 0xC3,
        ],
        &[(39, "__lullaby_str_count"), (56, "__lullaby_alloc"), (90, "__lullaby_str_substring"), (104, "__lullaby_str_find"), (131, "__lullaby_str_substring"), (150, "__lullaby_rc_dec")],
    );
}

#[test]
fn str_join_machine_code() {
    expect(
        emit_str_join_helper(),
        "__lullaby_str_join",
        &[
            0x53, 0x57, 0x41, 0x54, 0x41, 0x55, 0x41, 0x56, 0x48, 0x83, 0xEC, 0x20, 0x49, 0x89,
                0xCC, 0x49,
            0x89, 0xD5, 0x4D, 0x8B, 0x74, 0x24, 0x00, 0x4D, 0x85, 0xF6, 0x0F, 0x85, 0x1A, 0x00,
                0x00, 0x00,
            0xB9, 0x10, 0x00, 0x00, 0x00, 0xE8, 0x00, 0x00, 0x00, 0x00, 0x48, 0x31, 0xD2, 0x48,
                0x89, 0x50,
            0x00, 0x48, 0x89, 0x50, 0x08, 0xE9, 0x42, 0x00, 0x00, 0x00, 0x49, 0x8B, 0x9C, 0x24,
                0x10, 0x00,
            0x00, 0x00, 0xBF, 0x01, 0x00, 0x00, 0x00, 0x4C, 0x39, 0xF7, 0x0F, 0x83, 0x29, 0x00,
                0x00, 0x00,
            0x48, 0x89, 0xD9, 0x4C, 0x89, 0xEA, 0xE8, 0x00, 0x00, 0x00, 0x00, 0x48, 0x89, 0xC3,
                0x48, 0x89,
            0xD9, 0x49, 0x8B, 0x94, 0xFC, 0x10, 0x00, 0x00, 0x00, 0xE8, 0x00, 0x00, 0x00, 0x00,
                0x48, 0x89,
            0xC3, 0x48, 0xFF, 0xC7, 0xE9, 0xCE, 0xFF, 0xFF, 0xFF, 0x48, 0x89, 0xD8, 0x48, 0x83,
                0xC4, 0x20,
            0x41, 0x5E, 0x41, 0x5D, 0x41, 0x5C, 0x5F, 0x5B, 0xC3,
        ],
        &[(38, "__lullaby_alloc"), (87, "__lullaby_str_concat"), (106, "__lullaby_str_concat")],
    );
}
