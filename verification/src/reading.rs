//! Assembled programs read back, instruction by instruction.

use crate::assembler::{assembled, lemma_placed_at, offset, placed};
use crate::bytes::{le32, low_byte};
use crate::decoder::{
    assembly, behind, decode, decode_escaped, decode_middle, decode_upper, law_encodings_read_back,
    lemma_bare, lemma_conditions, lemma_signed_four, sound,
};
use crate::runtime::collections::{
    list_copy_program, list_grow_program, list_new_program, map_copy_program, map_find_program,
    map_grow_program, map_new_program,
};
use crate::runtime::format::{
    parse_i64_program, str_from_bool_program, str_from_char_program, str_from_int_program,
};
use crate::runtime::heap::{
    drop_string_array_program, heap_alloc_program, heap_strlen_program, rc_dec_program,
    rc_free_program, struct_copy_program,
};
use crate::runtime::search::{
    str_char_at_program, str_contains_program, str_count_program, str_ends_with_program,
    str_find_program, str_starts_with_program, str_substring_program,
};
use crate::runtime::strings::{
    str_binop_own_program, str_concat_own_program, str_concat_program, str_join_program,
    str_len_own_program, str_lit_program, str_lower_program, str_read_own_program,
    str_repeat_program, str_split_program, str_trim_program, str_upper_program, to_cstr_program,
};
use crate::runtime::set::{helper_program, helper_symbols};
use crate::symbols::Symbol;
use crate::x86::{optional_byte, rex, Cond, Hop, Insn, Opcode};
use vstd::prelude::*;

verus! {

/// Whether a jump's field can hold how far it leads.
pub open spec fn in_reach(insn: Insn, ahead: int) -> bool {
    match insn {
        Insn::Jmp { short, .. } => if short {
            -128 <= ahead < 128
        } else {
            -0x8000_0000 <= ahead < 0x8000_0000
        },
        Insn::Jcc { short, .. } => if short {
            -128 <= ahead < 128
        } else {
            -0x8000_0000 <= ahead < 0x8000_0000
        },
        _ => true,
    }
}

proof fn lemma_jmp_reads(short: bool, to: Hop, ahead: int, rest: Seq<u8>)
    requires
        in_reach(Insn::Jmp { short, to }, ahead),
    ensures
        ({
            let bytes = if short {
                seq![0xEBu8, low_byte(ahead)]
            } else {
                seq![0xE9u8] + le32(ahead)
            };
            decode(bytes + rest) == (assembly(Insn::Jmp { short, to }, ahead), rest)
        }),
{
    reveal(decode_upper);
    let insn = Insn::Jmp { short, to };
    if short {
        let bytes = seq![0xEBu8, low_byte(ahead)] + rest;
        let more = seq![low_byte(ahead)] + rest;
        assert(bytes =~= optional_byte(None) + rex(false, 0, 0, 0) + Opcode::One(0xEB).field()
            + more);
        lemma_bare(None, false, Opcode::One(0xEB), 0, bytes, more);
        assert(more[0] == low_byte(ahead));
        assert(behind(more, 1) =~= rest);
        assert(decode(bytes).0.operands =~= assembly(insn, ahead).operands);
    } else {
        let bytes = seq![0xE9u8] + le32(ahead) + rest;
        let more = le32(ahead) + rest;
        assert(bytes =~= optional_byte(None) + rex(false, 0, 0, 0) + Opcode::One(0xE9).field()
            + more);
        lemma_bare(None, false, Opcode::One(0xE9), 0, bytes, more);
        lemma_signed_four(ahead, rest);
        assert(decode(bytes).0.operands =~= assembly(insn, ahead).operands);
    }
}

proof fn lemma_jcc_reads(cond: Cond, short: bool, to: Hop, ahead: int, rest: Seq<u8>)
    requires
        in_reach(Insn::Jcc { cond, short, to }, ahead),
    ensures
        ({
            let bytes = if short {
                seq![(0x70 + cond.code()) as u8, low_byte(ahead)]
            } else {
                seq![0x0Fu8, (0x80 + cond.code()) as u8] + le32(ahead)
            };
            decode(bytes + rest) == (assembly(Insn::Jcc { cond, short, to }, ahead), rest)
        }),
{
    let insn = Insn::Jcc { cond, short, to };
    lemma_conditions(cond);
    if short {
        reveal(decode_middle);
        let opcode = Opcode::One((0x70 + cond.code()) as u8);
        let bytes = seq![(0x70 + cond.code()) as u8, low_byte(ahead)] + rest;
        let more = seq![low_byte(ahead)] + rest;
        assert(bytes =~= optional_byte(None) + rex(false, 0, 0, 0) + opcode.field() + more);
        lemma_bare(None, false, opcode, 0, bytes, more);
        assert(more[0] == low_byte(ahead));
        assert(behind(more, 1) =~= rest);
        assert(decode(bytes).0.operands =~= assembly(insn, ahead).operands);
    } else {
        reveal(decode_escaped);
        let opcode = Opcode::Two((0x80 + cond.code()) as u8);
        let bytes = seq![0x0Fu8, (0x80 + cond.code()) as u8] + le32(ahead) + rest;
        let more = le32(ahead) + rest;
        assert(bytes =~= optional_byte(None) + rex(false, 0, 0, 0) + opcode.field() + more);
        lemma_bare(None, false, opcode, 0, bytes, more);
        lemma_signed_four(ahead, rest);
        assert(decode(bytes).0.operands =~= assembly(insn, ahead).operands);
    }
}

/// Instruction `i` of a program reads back from the program's code at its offset, and the next one
/// follows it. A jump reads as leading from its end to the first byte of its target.
pub proof fn law_programs_read_back(program: Seq<Insn>, i: int)
    requires
        0 <= i < program.len(),
        sound(program[i]),
        in_reach(
            program[i],
            offset(program, i + program[i].jump_distance()) - offset(program, i + 1),
        ),
    ensures
        ({
            let code = assembled(program).bytes;
            let ahead = offset(program, i + program[i].jump_distance()) - offset(program, i + 1);
            decode(code.skip(offset(program, i))) == (
                assembly(program[i], ahead),
                code.skip(offset(program, i + 1)),
            )
        }),
{
    reveal(assembled);
    let code = assembled(program).bytes;
    let ahead = offset(program, i + program[i].jump_distance()) - offset(program, i + 1);
    let rest = code.skip(offset(program, i + 1));
    lemma_placed_at(program, i, program.len() as int);
    lemma_split(code, offset(program, i), offset(program, i + 1));
    assert(code.skip(offset(program, i)) == placed(program, i) + rest);
    match program[i] {
        Insn::Jmp { short, to } => lemma_jmp_reads(short, to, ahead, rest),
        Insn::Jcc { cond, short, to } => lemma_jcc_reads(cond, short, to, ahead, rest),
        insn => {
            law_encodings_read_back(insn, rest);
            lemma_no_jump(insn, ahead);
        },
    }
}

proof fn lemma_no_jump(insn: Insn, ahead: int)
    requires
        !insn.is_jump(),
    ensures
        assembly(insn, ahead) == assembly(insn, 0),
{
}

proof fn lemma_split(bytes: Seq<u8>, from: int, to: int)
    requires
        0 <= from <= to <= bytes.len(),
    ensures
        bytes.skip(from) == bytes.subrange(from, to) + bytes.skip(to),
{
    assert(bytes.skip(from) =~= bytes.subrange(from, to) + bytes.skip(to));
}

/// Every instruction of every helper reads back as itself: each can be encoded as it stands.
pub proof fn law_helpers_can_be_encoded(symbol: Symbol, i: int)
    requires
        helper_symbols().contains(symbol),
        0 <= i < helper_program(symbol).len(),
    ensures
        sound(helper_program(symbol)[i]),
{
    match symbol {
        Symbol::HeapAlloc => lemma_heap_alloc_sound(i),
        Symbol::RcFree => lemma_rc_free_sound(i),
        Symbol::RcDec => lemma_rc_dec_sound(i),
        Symbol::DropStringArray => lemma_drop_string_array_sound(i),
        Symbol::HeapStrlen => lemma_heap_strlen_sound(i),
        Symbol::ListNew => lemma_list_new_sound(i),
        Symbol::ListCopy => lemma_list_copy_sound(i),
        Symbol::ListGrow => lemma_list_grow_sound(i),
        Symbol::StructCopy => lemma_struct_copy_sound(i),
        Symbol::MapNew => lemma_map_new_sound(i),
        Symbol::MapCopy => lemma_map_copy_sound(i),
        Symbol::MapGrow => lemma_map_grow_sound(i),
        Symbol::MapFind => lemma_map_find_sound(i),
        Symbol::StrLit => lemma_str_lit_sound(i),
        Symbol::StrConcat => lemma_str_concat_sound(i),
        Symbol::StrConcatOwn => lemma_str_concat_own_sound(i),
        Symbol::StrLenOwn => lemma_str_len_own_sound(i),
        Symbol::StrBinopOwn => lemma_str_binop_own_sound(i),
        Symbol::StrReadOwn => lemma_str_read_own_sound(i),
        Symbol::StrFromInt => lemma_str_from_int_sound(i),
        Symbol::StrFromBool => lemma_str_from_bool_sound(i),
        Symbol::StrFromChar => lemma_str_from_char_sound(i),
        Symbol::StrSubstring => lemma_str_substring_sound(i),
        Symbol::StrCharAt => lemma_str_char_at_sound(i),
        Symbol::StrCount => lemma_str_count_sound(i),
        Symbol::StrRepeat => lemma_str_repeat_sound(i),
        Symbol::StrTrim => lemma_str_trim_sound(i),
        Symbol::StrUpper => lemma_str_upper_sound(i),
        Symbol::StrLower => lemma_str_lower_sound(i),
        Symbol::StrFind => lemma_str_find_sound(i),
        Symbol::StrContains => lemma_str_contains_sound(i),
        Symbol::StrStartsWith => lemma_str_starts_with_sound(i),
        Symbol::StrEndsWith => lemma_str_ends_with_sound(i),
        Symbol::StrSplit => lemma_str_split_sound(i),
        Symbol::StrJoin => lemma_str_join_sound(i),
        Symbol::ParseI64 => lemma_parse_i64_sound(i),
        Symbol::ToCstr => lemma_to_cstr_sound(i),
        _ => {},
    }
}

proof fn lemma_heap_alloc_sound(i: int)
    requires
        0 <= i < heap_alloc_program().len(),
    ensures
        sound(heap_alloc_program()[i]),
{
    reveal(sound);
}

proof fn lemma_rc_free_sound(i: int)
    requires
        0 <= i < rc_free_program().len(),
    ensures
        sound(rc_free_program()[i]),
{
    reveal(sound);
}

proof fn lemma_rc_dec_sound(i: int)
    requires
        0 <= i < rc_dec_program().len(),
    ensures
        sound(rc_dec_program()[i]),
{
    reveal(sound);
}

proof fn lemma_drop_string_array_sound(i: int)
    requires
        0 <= i < drop_string_array_program().len(),
    ensures
        sound(drop_string_array_program()[i]),
{
    reveal(sound);
}

proof fn lemma_heap_strlen_sound(i: int)
    requires
        0 <= i < heap_strlen_program().len(),
    ensures
        sound(heap_strlen_program()[i]),
{
    reveal(sound);
}

proof fn lemma_list_new_sound(i: int)
    requires
        0 <= i < list_new_program().len(),
    ensures
        sound(list_new_program()[i]),
{
    reveal(sound);
}

proof fn lemma_list_copy_sound(i: int)
    requires
        0 <= i < list_copy_program().len(),
    ensures
        sound(list_copy_program()[i]),
{
    reveal(sound);
}

proof fn lemma_list_grow_sound(i: int)
    requires
        0 <= i < list_grow_program().len(),
    ensures
        sound(list_grow_program()[i]),
{
    reveal(sound);
}

proof fn lemma_struct_copy_sound(i: int)
    requires
        0 <= i < struct_copy_program().len(),
    ensures
        sound(struct_copy_program()[i]),
{
    reveal(sound);
}

proof fn lemma_map_new_sound(i: int)
    requires
        0 <= i < map_new_program().len(),
    ensures
        sound(map_new_program()[i]),
{
    reveal(sound);
}

proof fn lemma_map_copy_sound(i: int)
    requires
        0 <= i < map_copy_program().len(),
    ensures
        sound(map_copy_program()[i]),
{
    reveal(sound);
}

proof fn lemma_map_grow_sound(i: int)
    requires
        0 <= i < map_grow_program().len(),
    ensures
        sound(map_grow_program()[i]),
{
    reveal(sound);
}

proof fn lemma_map_find_sound(i: int)
    requires
        0 <= i < map_find_program().len(),
    ensures
        sound(map_find_program()[i]),
{
    reveal(sound);
}

proof fn lemma_str_lit_sound(i: int)
    requires
        0 <= i < str_lit_program().len(),
    ensures
        sound(str_lit_program()[i]),
{
    reveal(sound);
}

proof fn lemma_str_concat_sound(i: int)
    requires
        0 <= i < str_concat_program().len(),
    ensures
        sound(str_concat_program()[i]),
{
    reveal(sound);
}

proof fn lemma_str_concat_own_sound(i: int)
    requires
        0 <= i < str_concat_own_program().len(),
    ensures
        sound(str_concat_own_program()[i]),
{
    reveal(sound);
}

proof fn lemma_str_len_own_sound(i: int)
    requires
        0 <= i < str_len_own_program().len(),
    ensures
        sound(str_len_own_program()[i]),
{
    reveal(sound);
}

proof fn lemma_str_binop_own_sound(i: int)
    requires
        0 <= i < str_binop_own_program().len(),
    ensures
        sound(str_binop_own_program()[i]),
{
    reveal(sound);
}

proof fn lemma_str_read_own_sound(i: int)
    requires
        0 <= i < str_read_own_program().len(),
    ensures
        sound(str_read_own_program()[i]),
{
    reveal(sound);
}

proof fn lemma_str_from_int_sound(i: int)
    requires
        0 <= i < str_from_int_program().len(),
    ensures
        sound(str_from_int_program()[i]),
{
    reveal(sound);
}

proof fn lemma_str_from_bool_sound(i: int)
    requires
        0 <= i < str_from_bool_program().len(),
    ensures
        sound(str_from_bool_program()[i]),
{
    reveal(sound);
}

proof fn lemma_str_from_char_sound(i: int)
    requires
        0 <= i < str_from_char_program().len(),
    ensures
        sound(str_from_char_program()[i]),
{
    reveal(sound);
}

proof fn lemma_str_substring_sound(i: int)
    requires
        0 <= i < str_substring_program().len(),
    ensures
        sound(str_substring_program()[i]),
{
    reveal(sound);
}

proof fn lemma_str_char_at_sound(i: int)
    requires
        0 <= i < str_char_at_program().len(),
    ensures
        sound(str_char_at_program()[i]),
{
    reveal(sound);
}

proof fn lemma_str_count_sound(i: int)
    requires
        0 <= i < str_count_program().len(),
    ensures
        sound(str_count_program()[i]),
{
    reveal(sound);
}

proof fn lemma_str_repeat_sound(i: int)
    requires
        0 <= i < str_repeat_program().len(),
    ensures
        sound(str_repeat_program()[i]),
{
    reveal(sound);
}

proof fn lemma_str_trim_sound(i: int)
    requires
        0 <= i < str_trim_program().len(),
    ensures
        sound(str_trim_program()[i]),
{
    reveal(sound);
}

proof fn lemma_str_upper_sound(i: int)
    requires
        0 <= i < str_upper_program().len(),
    ensures
        sound(str_upper_program()[i]),
{
    reveal(sound);
}

proof fn lemma_str_lower_sound(i: int)
    requires
        0 <= i < str_lower_program().len(),
    ensures
        sound(str_lower_program()[i]),
{
    reveal(sound);
}

proof fn lemma_str_find_sound(i: int)
    requires
        0 <= i < str_find_program().len(),
    ensures
        sound(str_find_program()[i]),
{
    reveal(sound);
}

proof fn lemma_str_contains_sound(i: int)
    requires
        0 <= i < str_contains_program().len(),
    ensures
        sound(str_contains_program()[i]),
{
    reveal(sound);
}

proof fn lemma_str_starts_with_sound(i: int)
    requires
        0 <= i < str_starts_with_program().len(),
    ensures
        sound(str_starts_with_program()[i]),
{
    reveal(sound);
}

proof fn lemma_str_ends_with_sound(i: int)
    requires
        0 <= i < str_ends_with_program().len(),
    ensures
        sound(str_ends_with_program()[i]),
{
    reveal(sound);
}

proof fn lemma_str_split_sound(i: int)
    requires
        0 <= i < str_split_program().len(),
    ensures
        sound(str_split_program()[i]),
{
    reveal(sound);
}

proof fn lemma_str_join_sound(i: int)
    requires
        0 <= i < str_join_program().len(),
    ensures
        sound(str_join_program()[i]),
{
    reveal(sound);
}

proof fn lemma_parse_i64_sound(i: int)
    requires
        0 <= i < parse_i64_program().len(),
    ensures
        sound(parse_i64_program()[i]),
{
    reveal(sound);
}

proof fn lemma_to_cstr_sound(i: int)
    requires
        0 <= i < to_cstr_program().len(),
    ensures
        sound(to_cstr_program()[i]),
{
    reveal(sound);
}

} // verus!
