//! The runtime helpers need nothing but each other and the heap.

use crate::assembler::{assembled, refs_upto};
use crate::runtime::collections::{
    list_copy_program, list_grow_program, list_new_program, map_copy_program, map_find_program,
    map_grow_program, map_new_program,
};
use crate::runtime::format::{
    parse_i64_program, str_from_bool_program, str_from_char_program, str_from_int_program,
};
use crate::runtime::heap::{
    drop_string_array_program, heap_alloc_program, heap_strlen_program, rc_dec_program,
    rc_free_program, struct_copy_program,
};
use crate::runtime::search::{
    str_char_at_program, str_contains_program, str_count_program, str_ends_with_program,
    str_find_program, str_starts_with_program, str_substring_program,
};
use crate::runtime::strings::{
    str_binop_own_program, str_concat_own_program, str_concat_program, str_join_program,
    str_len_own_program, str_lit_program, str_lower_program, str_read_own_program,
    str_repeat_program, str_split_program, str_trim_program, str_upper_program, to_cstr_program,
};
use crate::runtime::set::{helper_blobs, helper_program, helper_symbols};
use crate::symbols::Symbol;
use crate::x86::Insn;
use vstd::prelude::*;

verus! {

/// Whether a symbol is one of the four cells of the heap.
pub open spec fn heap_cell(symbol: Symbol) -> bool {
    symbol == Symbol::HeapNext || symbol == Symbol::HeapFreeHead || symbol == Symbol::HeapBase
        || symbol == Symbol::AllocMode
}

/// Whether a program refers neither to the entry point nor to the exit import.
pub open spec fn spares_process(program: Seq<Insn>) -> bool {
    forall|i: int|
        0 <= i < program.len() ==> (#[trigger] program[i]).reference() != Some(Symbol::Main)
            && program[i].reference() != Some(Symbol::ExitProcess)
}

/// Every reference of a helper is to a helper of the set or to a cell of the heap.
pub proof fn law_helper_set_is_closed(k: int, j: int)
    requires
        0 <= k < helper_blobs().len(),
        0 <= j < helper_blobs()[k].code.refs.len(),
    ensures
        exists|target: Symbol|
            {
                &&& helper_blobs()[k].code.refs[j].symbol == #[trigger] target.spec_name()
                &&& heap_cell(target) || helper_symbols().contains(target)
            },
{
    let symbol = helper_symbols()[k];
    let program = helper_program(symbol);
    assert(helper_symbols().contains(symbol));
    assert(helper_blobs()[k].code == assembled(program));
    reveal(assembled);
    lemma_helper_spares_process(symbol);
    let i = lemma_reference_of(program, program.len() as int, j);
    lemma_symbols_inside(program[i].reference()->0);
}

/// The instruction that a reference of a program comes from.
proof fn lemma_reference_of(program: Seq<Insn>, n: int, j: int) -> (i: int)
    requires
        0 <= n <= program.len(),
        0 <= j < refs_upto(program, n).len(),
    ensures
        0 <= i < n,
        program[i].reference() is Some,
        refs_upto(program, n)[j].symbol == (program[i].reference()->0).spec_name(),
    decreases n,
{
    if j < refs_upto(program, n - 1).len() {
        lemma_reference_of(program, n - 1, j)
    } else {
        n - 1
    }
}

/// Every symbol but the entry point and the exit import is a helper or a cell.
proof fn lemma_symbols_inside(symbol: Symbol)
    requires
        symbol != Symbol::Main,
        symbol != Symbol::ExitProcess,
    ensures
        heap_cell(symbol) || helper_symbols().contains(symbol),
{
    let all = helper_symbols();
    assert(all.len() == 37);
    assert(heap_cell(symbol) || exists|i: int| 0 <= i < 37 && #[trigger] all[i] == symbol);
}

proof fn lemma_helper_spares_process(symbol: Symbol)
    requires
        helper_symbols().contains(symbol),
    ensures
        spares_process(helper_program(symbol)),
{
    match symbol {
        Symbol::HeapAlloc => lemma_heap_alloc_spares_process(),
        Symbol::RcFree => lemma_rc_free_spares_process(),
        Symbol::RcDec => lemma_rc_dec_spares_process(),
        Symbol::DropStringArray => lemma_drop_string_array_spares_process(),
        Symbol::HeapStrlen => lemma_heap_strlen_spares_process(),
        Symbol::ListNew => lemma_list_new_spares_process(),
        Symbol::ListCopy => lemma_list_copy_spares_process(),
        Symbol::ListGrow => lemma_list_grow_spares_process(),
        Symbol::StructCopy => lemma_struct_copy_spares_process(),
        Symbol::MapNew => lemma_map_new_spares_process(),
        Symbol::MapCopy => lemma_map_copy_spares_process(),
        Symbol::MapGrow => lemma_map_grow_spares_process(),
        Symbol::MapFind => lemma_map_find_spares_process(),
        Symbol::StrLit => lemma_str_lit_spares_process(),
        Symbol::StrConcat => lemma_str_concat_spares_process(),
        Symbol::StrConcatOwn => lemma_str_concat_own_spares_process(),
        Symbol::StrLenOwn => lemma_str_len_own_spares_process(),
        Symbol::StrBinopOwn => lemma_str_binop_own_spares_process(),
        Symbol::StrReadOwn => lemma_str_read_own_spares_process(),
        Symbol::StrFromInt => lemma_str_from_int_spares_process(),
        Symbol::StrFromBool => lemma_str_from_bool_spares_process(),
        Symbol::StrFromChar => lemma_str_from_char_spares_process(),
        Symbol::StrSubstring => lemma_str_substring_spares_process(),
        Symbol::StrCharAt => lemma_str_char_at_spares_process(),
        Symbol::StrCount => lemma_str_count_spares_process(),
        Symbol::StrRepeat => lemma_str_repeat_spares_process(),
        Symbol::StrTrim => lemma_str_trim_spares_process(),
        Symbol::StrUpper => lemma_str_upper_spares_process(),
        Symbol::StrLower => lemma_str_lower_spares_process(),
        Symbol::StrFind => lemma_str_find_spares_process(),
        Symbol::StrContains => lemma_str_contains_spares_process(),
        Symbol::StrStartsWith => lemma_str_starts_with_spares_process(),
        Symbol::StrEndsWith => lemma_str_ends_with_spares_process(),
        Symbol::StrSplit => lemma_str_split_spares_process(),
        Symbol::StrJoin => lemma_str_join_spares_process(),
        Symbol::ParseI64 => lemma_parse_i64_spares_process(),
        Symbol::ToCstr => lemma_to_cstr_spares_process(),
        _ => {},
    }
}

proof fn lemma_heap_alloc_spares_process()
    ensures
        spares_process(heap_alloc_program()),
{
}

proof fn lemma_rc_free_spares_process()
    ensures
        spares_process(rc_free_program()),
{
}

proof fn lemma_rc_dec_spares_process()
    ensures
        spares_process(rc_dec_program()),
{
}

proof fn lemma_drop_string_array_spares_process()
    ensures
        spares_process(drop_string_array_program()),
{
}

proof fn lemma_heap_strlen_spares_process()
    ensures
        spares_process(heap_strlen_program()),
{
}

proof fn lemma_list_new_spares_process()
    ensures
        spares_process(list_new_program()),
{
}

proof fn lemma_list_copy_spares_process()
    ensures
        spares_process(list_copy_program()),
{
}

proof fn lemma_list_grow_spares_process()
    ensures
        spares_process(list_grow_program()),
{
}

proof fn lemma_struct_copy_spares_process()
    ensures
        spares_process(struct_copy_program()),
{
}

proof fn lemma_map_new_spares_process()
    ensures
        spares_process(map_new_program()),
{
}

proof fn lemma_map_copy_spares_process()
    ensures
        spares_process(map_copy_program()),
{
}

proof fn lemma_map_grow_spares_process()
    ensures
        spares_process(map_grow_program()),
{
}

proof fn lemma_map_find_spares_process()
    ensures
        spares_process(map_find_program()),
{
}

proof fn lemma_str_lit_spares_process()
    ensures
        spares_process(str_lit_program()),
{
}

proof fn lemma_str_concat_spares_process()
    ensures
        spares_process(str_concat_program()),
{
}

proof fn lemma_str_concat_own_spares_process()
    ensures
        spares_process(str_concat_own_program()),
{
}

proof fn lemma_str_len_own_spares_process()
    ensures
        spares_process(str_len_own_program()),
{
}

proof fn lemma_str_binop_own_spares_process()
    ensures
        spares_process(str_binop_own_program()),
{
}

proof fn lemma_str_read_own_spares_process()
    ensures
        spares_process(str_read_own_program()),
{
}

proof fn lemma_str_from_int_spares_process()
    ensures
        spares_process(str_from_int_program()),
{
}

proof fn lemma_str_from_bool_spares_process()
    ensures
        spares_process(str_from_bool_program()),
{
}

proof fn lemma_str_from_char_spares_process()
    ensures
        spares_process(str_from_char_program()),
{
}

proof fn lemma_str_substring_spares_process()
    ensures
        spares_process(str_substring_program()),
{
}

proof fn lemma_str_char_at_spares_process()
    ensures
        spares_process(str_char_at_program()),
{
}

proof fn lemma_str_count_spares_process()
    ensures
        spares_process(str_count_program()),
{
}

proof fn lemma_str_repeat_spares_process()
    ensures
        spares_process(str_repeat_program()),
{
}

proof fn lemma_str_trim_spares_process()
    ensures
        spares_process(str_trim_program()),
{
}

proof fn lemma_str_upper_spares_process()
    ensures
        spares_process(str_upper_program()),
{
}

proof fn lemma_str_lower_spares_process()
    ensures
        spares_process(str_lower_program()),
{
}

proof fn lemma_str_find_spares_process()
    ensures
        spares_process(str_find_program()),
{
}

proof fn lemma_str_contains_spares_process()
    ensures
        spares_process(str_contains_program()),
{
}

proof fn lemma_str_starts_with_spares_process()
    ensures
        spares_process(str_starts_with_program()),
{
}

proof fn lemma_str_ends_with_spares_process()
    ensures
        spares_process(str_ends_with_program()),
{
}

proof fn lemma_str_split_spares_process()
    ensures
        spares_process(str_split_program()),
{
}

proof fn lemma_str_join_spares_process()
    ensures
        spares_process(str_join_program()),
{
}

proof fn lemma_parse_i64_spares_process()
    ensures
        spares_process(parse_i64_program()),
{
}

proof fn lemma_to_cstr_spares_process()
    ensures
        spares_process(to_cstr_program()),
{
}

} // verus!
