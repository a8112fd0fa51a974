//! The fixed set of runtime helpers that accompanies every program using the heap.

use crate::runtime::collections::{
    emit_list_copy_helper, emit_list_grow_helper, emit_list_new_helper, emit_map_copy_helper,
    emit_map_find_helper, emit_map_grow_helper, emit_map_new_helper, list_copy_program,
    list_grow_program, list_new_program, map_copy_program, map_find_program, map_grow_program,
    map_new_program,
};
use crate::runtime::format::{
    emit_parse_i64_helper, emit_str_from_bool_helper, emit_str_from_char_helper,
    emit_str_from_int_helper, parse_i64_program, str_from_bool_program, str_from_char_program,
    str_from_int_program,
};
use crate::runtime::heap::{
    emit_drop_string_array_helper, emit_heap_alloc_helper, emit_heap_strlen_helper,
    emit_rc_dec_helper, emit_rc_free_helper, emit_struct_copy_helper, drop_string_array_program,
    heap_alloc_program, heap_strlen_program, rc_dec_program, rc_free_program,
    struct_copy_program,
};
use crate::runtime::search::{
    emit_str_char_at_helper, emit_str_contains_helper, emit_str_count_helper,
    emit_str_ends_with_helper, emit_str_find_helper, emit_str_starts_with_helper,
    emit_str_substring_helper, str_char_at_program, str_contains_program, str_count_program,
    str_ends_with_program, str_find_program, str_starts_with_program, str_substring_program,
};
use crate::runtime::strings::{
    emit_str_binop_own_helper, emit_str_concat_helper, emit_str_concat_own_helper,
    emit_str_join_helper, emit_str_len_own_helper, emit_str_lit_helper, emit_str_lower_helper,
    emit_str_read_own_helper, emit_str_repeat_helper, emit_str_split_helper,
    emit_str_trim_helper, emit_str_upper_helper, emit_to_cstr_helper, str_binop_own_program,
    str_concat_own_program, str_concat_program, str_join_program, str_len_own_program,
    str_lit_program, str_lower_program, str_read_own_program, str_repeat_program,
    str_split_program, str_trim_program, str_upper_program, to_cstr_program,
};
use crate::assembler::assembled;
use crate::image::Blob;
use crate::runtime::HelperFunction;
use crate::symbols::Symbol;
use crate::x86::Insn;
use vstd::prelude::*;

verus! {

/// The helpers, in emission order.
pub open spec fn helper_symbols() -> Seq<Symbol> {
    seq![
        Symbol::HeapAlloc,
        Symbol::RcFree,
        Symbol::RcDec,
        Symbol::DropStringArray,
        Symbol::HeapStrlen,
        Symbol::ListNew,
        Symbol::ListCopy,
        Symbol::ListGrow,
        Symbol::StructCopy,
        Symbol::MapNew,
        Symbol::MapCopy,
        Symbol::MapGrow,
        Symbol::MapFind,
        Symbol::StrLit,
        Symbol::StrConcat,
        Symbol::StrConcatOwn,
        Symbol::StrLenOwn,
        Symbol::StrBinopOwn,
        Symbol::StrReadOwn,
        Symbol::StrFromInt,
        Symbol::StrFromBool,
        Symbol::StrFromChar,
        Symbol::StrSubstring,
        Symbol::StrCharAt,
        Symbol::StrCount,
        Symbol::StrRepeat,
        Symbol::StrTrim,
        Symbol::StrUpper,
        Symbol::StrLower,
        Symbol::StrFind,
        Symbol::StrContains,
        Symbol::StrStartsWith,
        Symbol::StrEndsWith,
        Symbol::StrSplit,
        Symbol::StrJoin,
        Symbol::ParseI64,
        Symbol::ToCstr,
    ]
}

/// The program of each helper.
pub open spec fn helper_program(symbol: Symbol) -> Seq<Insn> {
    match symbol {
        Symbol::HeapAlloc => heap_alloc_program(),
        Symbol::RcFree => rc_free_program(),
        Symbol::RcDec => rc_dec_program(),
        Symbol::DropStringArray => drop_string_array_program(),
        Symbol::HeapStrlen => heap_strlen_program(),
        Symbol::ListNew => list_new_program(),
        Symbol::ListCopy => list_copy_program(),
        Symbol::ListGrow => list_grow_program(),
        Symbol::StructCopy => struct_copy_program(),
        Symbol::MapNew => map_new_program(),
        Symbol::MapCopy => map_copy_program(),
        Symbol::MapGrow => map_grow_program(),
        Symbol::MapFind => map_find_program(),
        Symbol::StrLit => str_lit_program(),
        Symbol::StrConcat => str_concat_program(),
        Symbol::StrConcatOwn => str_concat_own_program(),
        Symbol::StrLenOwn => str_len_own_program(),
        Symbol::StrBinopOwn => str_binop_own_program(),
        Symbol::StrReadOwn => str_read_own_program(),
        Symbol::StrFromInt => str_from_int_program(),
        Symbol::StrFromBool => str_from_bool_program(),
        Symbol::StrFromChar => str_from_char_program(),
        Symbol::StrSubstring => str_substring_program(),
        Symbol::StrCharAt => str_char_at_program(),
        Symbol::StrCount => str_count_program(),
        Symbol::StrRepeat => str_repeat_program(),
        Symbol::StrTrim => str_trim_program(),
        Symbol::StrUpper => str_upper_program(),
        Symbol::StrLower => str_lower_program(),
        Symbol::StrFind => str_find_program(),
        Symbol::StrContains => str_contains_program(),
        Symbol::StrStartsWith => str_starts_with_program(),
        Symbol::StrEndsWith => str_ends_with_program(),
        Symbol::StrSplit => str_split_program(),
        Symbol::StrJoin => str_join_program(),
        Symbol::ParseI64 => parse_i64_program(),
        Symbol::ToCstr => to_cstr_program(),
        _ => seq![],
    }
}

/// The helpers as named code.
pub open spec fn helper_blobs() -> Seq<Blob> {
    helper_symbols().map_values(
        |s: Symbol| Blob { name: s.spec_name(), code: assembled(helper_program(s)) },
    )
}

/// Whether `helper` is the helper `symbol`.
pub open spec fn is_helper(helper: HelperFunction, symbol: Symbol) -> bool {
    helper.implements(symbol, helper_program(symbol))
}

/// The helpers, in emission order.
pub fn heap_helper_symbols() -> (symbols: Vec<Symbol>)
    ensures
        symbols@ == helper_symbols(),
{
    vec![
        Symbol::HeapAlloc,
        Symbol::RcFree,
        Symbol::RcDec,
        Symbol::DropStringArray,
        Symbol::HeapStrlen,
        Symbol::ListNew,
        Symbol::ListCopy,
        Symbol::ListGrow,
        Symbol::StructCopy,
        Symbol::MapNew,
        Symbol::MapCopy,
        Symbol::MapGrow,
        Symbol::MapFind,
        Symbol::StrLit,
        Symbol::StrConcat,
        Symbol::StrConcatOwn,
        Symbol::StrLenOwn,
        Symbol::StrBinopOwn,
        Symbol::StrReadOwn,
        Symbol::StrFromInt,
        Symbol::StrFromBool,
        Symbol::StrFromChar,
        Symbol::StrSubstring,
        Symbol::StrCharAt,
        Symbol::StrCount,
        Symbol::StrRepeat,
        Symbol::StrTrim,
        Symbol::StrUpper,
        Symbol::StrLower,
        Symbol::StrFind,
        Symbol::StrContains,
        Symbol::StrStartsWith,
        Symbol::StrEndsWith,
        Symbol::StrSplit,
        Symbol::StrJoin,
        Symbol::ParseI64,
        Symbol::ToCstr,
    ]
}

/// Assembles one helper.
fn assemble(symbol: Symbol) -> (helper: HelperFunction)
    requires
        helper_symbols().contains(symbol),
    ensures
        is_helper(helper, symbol),
{
    match symbol {
        Symbol::HeapAlloc => emit_heap_alloc_helper(),
        Symbol::RcFree => emit_rc_free_helper(),
        Symbol::RcDec => emit_rc_dec_helper(),
        Symbol::DropStringArray => emit_drop_string_array_helper(),
        Symbol::HeapStrlen => emit_heap_strlen_helper(),
        Symbol::ListNew => emit_list_new_helper(),
        Symbol::ListCopy => emit_list_copy_helper(),
        Symbol::ListGrow => emit_list_grow_helper(),
        Symbol::StructCopy => emit_struct_copy_helper(),
        Symbol::MapNew => emit_map_new_helper(),
        Symbol::MapCopy => emit_map_copy_helper(),
        Symbol::MapGrow => emit_map_grow_helper(),
        Symbol::MapFind => emit_map_find_helper(),
        Symbol::StrLit => emit_str_lit_helper(),
        Symbol::StrConcat => emit_str_concat_helper(),
        Symbol::StrConcatOwn => emit_str_concat_own_helper(),
        Symbol::StrLenOwn => emit_str_len_own_helper(),
        Symbol::StrBinopOwn => emit_str_binop_own_helper(),
        Symbol::StrReadOwn => emit_str_read_own_helper(),
        Symbol::StrFromInt => emit_str_from_int_helper(),
        Symbol::StrFromBool => emit_str_from_bool_helper(),
        Symbol::StrFromChar => emit_str_from_char_helper(),
        Symbol::StrSubstring => emit_str_substring_helper(),
        Symbol::StrCharAt => emit_str_char_at_helper(),
        Symbol::StrCount => emit_str_count_helper(),
        Symbol::StrRepeat => emit_str_repeat_helper(),
        Symbol::StrTrim => emit_str_trim_helper(),
        Symbol::StrUpper => emit_str_upper_helper(),
        Symbol::StrLower => emit_str_lower_helper(),
        Symbol::StrFind => emit_str_find_helper(),
        Symbol::StrContains => emit_str_contains_helper(),
        Symbol::StrStartsWith => emit_str_starts_with_helper(),
        Symbol::StrEndsWith => emit_str_ends_with_helper(),
        Symbol::StrSplit => emit_str_split_helper(),
        Symbol::StrJoin => emit_str_join_helper(),
        Symbol::ParseI64 => emit_parse_i64_helper(),
        Symbol::ToCstr => emit_to_cstr_helper(),
        _ => {
            proof {
                assert(false);
            }
            emit_rc_dec_helper()
        },
    }
}

/// Assembles the whole set, in emission order.
pub fn heap_runtime_helpers() -> (helpers: Vec<HelperFunction>)
    ensures
        helpers@.len() == helper_symbols().len(),
        forall|i: int|
            0 <= i < helpers@.len() ==> is_helper(#[trigger] helpers@[i], helper_symbols()[i]),
{
    let symbols = heap_helper_symbols();
    let mut helpers: Vec<HelperFunction> = Vec::new();
    let mut i: usize = 0;
    while i < symbols.len()
        invariant
            i <= symbols@.len(),
            symbols@ == helper_symbols(),
            helpers@.len() == i,
            forall|k: int|
                0 <= k < helpers@.len() ==> is_helper(#[trigger] helpers@[k], helper_symbols()[k]),
        decreases symbols@.len() - i,
    {
        proof {
            assert(helper_symbols().contains(symbols@[i as int]));
        }
        helpers.push(assemble(symbols[i]));
        i += 1;
    }
    helpers
}

} // verus!
