//! The names the generated code refers to: runtime helper routines, the heap
//! cells, and the imported process-exit routine.

use vstd::prelude::*;

verus! {

pub const HEAP_ALLOC_SYMBOL: &'static str = "__lullaby_alloc";

pub const RC_FREE_SYMBOL: &'static str = "__lullaby_rc_free";

pub const RC_DEC_SYMBOL: &'static str = "__lullaby_rc_dec";

pub const DROP_STRING_ARRAY_SYMBOL: &'static str = "__lullaby_drop_string_array";

pub const HEAP_STRLEN_SYMBOL: &'static str = "__lullaby_strlen_copy";

pub const LIST_NEW_SYMBOL: &'static str = "__lullaby_list_new";

pub const LIST_COPY_SYMBOL: &'static str = "__lullaby_list_copy";

pub const LIST_GROW_SYMBOL: &'static str = "__lullaby_list_grow";

pub const STRUCT_COPY_SYMBOL: &'static str = "__lullaby_struct_copy";

pub const MAP_NEW_SYMBOL: &'static str = "__lullaby_map_new";

pub const MAP_COPY_SYMBOL: &'static str = "__lullaby_map_copy";

pub const MAP_GROW_SYMBOL: &'static str = "__lullaby_map_grow";

pub const MAP_FIND_SYMBOL: &'static str = "__lullaby_map_find";

pub const STR_LIT_SYMBOL: &'static str = "__lullaby_str_lit";

pub const STR_CONCAT_SYMBOL: &'static str = "__lullaby_str_concat";

pub const STR_CONCAT_OWN_SYMBOL: &'static str = "__lullaby_str_concat_own";

pub const STR_LEN_OWN_SYMBOL: &'static str = "__lullaby_str_len_own";

pub const STR_BINOP_OWN_SYMBOL: &'static str = "__lullaby_str_binop_own";

pub const STR_READ_OWN_SYMBOL: &'static str = "__lullaby_str_read_own";

pub const STR_FROM_INT_SYMBOL: &'static str = "__lullaby_str_from_int";

pub const STR_FROM_BOOL_SYMBOL: &'static str = "__lullaby_str_from_bool";

pub const STR_FROM_CHAR_SYMBOL: &'static str = "__lullaby_str_from_char";

pub const STR_SUBSTRING_SYMBOL: &'static str = "__lullaby_str_substring";

pub const STR_CHAR_AT_SYMBOL: &'static str = "__lullaby_str_char_at";

pub const STR_COUNT_SYMBOL: &'static str = "__lullaby_str_count";

pub const STR_REPEAT_SYMBOL: &'static str = "__lullaby_str_repeat";

pub const STR_TRIM_SYMBOL: &'static str = "__lullaby_str_trim";

pub const STR_UPPER_SYMBOL: &'static str = "__lullaby_str_upper";

pub const STR_LOWER_SYMBOL: &'static str = "__lullaby_str_lower";

pub const STR_FIND_SYMBOL: &'static str = "__lullaby_str_find";

pub const STR_CONTAINS_SYMBOL: &'static str = "__lullaby_str_contains";

pub const STR_STARTS_WITH_SYMBOL: &'static str = "__lullaby_str_starts_with";

pub const STR_ENDS_WITH_SYMBOL: &'static str = "__lullaby_str_ends_with";

pub const STR_SPLIT_SYMBOL: &'static str = "__lullaby_str_split";

pub const STR_JOIN_SYMBOL: &'static str = "__lullaby_str_join";

pub const PARSE_I64_SYMBOL: &'static str = "__lullaby_parse_i64";

pub const TO_CSTR_SYMBOL: &'static str = "__lullaby_to_cstr";

pub const HEAP_NEXT_SYMBOL: &'static str = "__lullaby_heap_next";

pub const HEAP_FREE_HEAD_SYMBOL: &'static str = "__lullaby_free_head";

pub const HEAP_BASE_SYMBOL: &'static str = "__lullaby_heap_base";

pub const ALLOC_MODE_SYMBOL: &'static str = "__lullaby_alloc_mode";

pub const EXIT_PROCESS_SYMBOL: &'static str = "ExitProcess";

pub const MAIN_SYMBOL: &'static str = "main";

/// The entry stub of a Windows program.
pub const NATIVE_ENTRY_SYMBOL: &'static str = "_lullaby_start";

/// A symbol that emitted code refers to by a 32-bit relative field.
#[derive(Clone, Copy, PartialEq, Eq, Structural, Debug)]
pub enum Symbol {
    HeapAlloc,
    RcFree,
    RcDec,
    DropStringArray,
    HeapStrlen,
    ListNew,
    ListCopy,
    ListGrow,
    StructCopy,
    MapNew,
    MapCopy,
    MapGrow,
    MapFind,
    StrLit,
    StrConcat,
    StrConcatOwn,
    StrLenOwn,
    StrBinopOwn,
    StrReadOwn,
    StrFromInt,
    StrFromBool,
    StrFromChar,
    StrSubstring,
    StrCharAt,
    StrCount,
    StrRepeat,
    StrTrim,
    StrUpper,
    StrLower,
    StrFind,
    StrContains,
    StrStartsWith,
    StrEndsWith,
    StrSplit,
    StrJoin,
    ParseI64,
    ToCstr,
    HeapNext,
    HeapFreeHead,
    HeapBase,
    AllocMode,
    ExitProcess,
    Main,
}

impl Symbol {
    /// The linker-visible name.
    pub open spec fn spec_name(self) -> Seq<char> {
        match self {
            Symbol::HeapAlloc => HEAP_ALLOC_SYMBOL@,
            Symbol::RcFree => RC_FREE_SYMBOL@,
            Symbol::RcDec => RC_DEC_SYMBOL@,
            Symbol::DropStringArray => DROP_STRING_ARRAY_SYMBOL@,
            Symbol::HeapStrlen => HEAP_STRLEN_SYMBOL@,
            Symbol::ListNew => LIST_NEW_SYMBOL@,
            Symbol::ListCopy => LIST_COPY_SYMBOL@,
            Symbol::ListGrow => LIST_GROW_SYMBOL@,
            Symbol::StructCopy => STRUCT_COPY_SYMBOL@,
            Symbol::MapNew => MAP_NEW_SYMBOL@,
            Symbol::MapCopy => MAP_COPY_SYMBOL@,
            Symbol::MapGrow => MAP_GROW_SYMBOL@,
            Symbol::MapFind => MAP_FIND_SYMBOL@,
            Symbol::StrLit => STR_LIT_SYMBOL@,
            Symbol::StrConcat => STR_CONCAT_SYMBOL@,
            Symbol::StrConcatOwn => STR_CONCAT_OWN_SYMBOL@,
            Symbol::StrLenOwn => STR_LEN_OWN_SYMBOL@,
            Symbol::StrBinopOwn => STR_BINOP_OWN_SYMBOL@,
            Symbol::StrReadOwn => STR_READ_OWN_SYMBOL@,
            Symbol::StrFromInt => STR_FROM_INT_SYMBOL@,
            Symbol::StrFromBool => STR_FROM_BOOL_SYMBOL@,
            Symbol::StrFromChar => STR_FROM_CHAR_SYMBOL@,
            Symbol::StrSubstring => STR_SUBSTRING_SYMBOL@,
            Symbol::StrCharAt => STR_CHAR_AT_SYMBOL@,
            Symbol::StrCount => STR_COUNT_SYMBOL@,
            Symbol::StrRepeat => STR_REPEAT_SYMBOL@,
            Symbol::StrTrim => STR_TRIM_SYMBOL@,
            Symbol::StrUpper => STR_UPPER_SYMBOL@,
            Symbol::StrLower => STR_LOWER_SYMBOL@,
            Symbol::StrFind => STR_FIND_SYMBOL@,
            Symbol::StrContains => STR_CONTAINS_SYMBOL@,
            Symbol::StrStartsWith => STR_STARTS_WITH_SYMBOL@,
            Symbol::StrEndsWith => STR_ENDS_WITH_SYMBOL@,
            Symbol::StrSplit => STR_SPLIT_SYMBOL@,
            Symbol::StrJoin => STR_JOIN_SYMBOL@,
            Symbol::ParseI64 => PARSE_I64_SYMBOL@,
            Symbol::ToCstr => TO_CSTR_SYMBOL@,
            Symbol::HeapNext => HEAP_NEXT_SYMBOL@,
            Symbol::HeapFreeHead => HEAP_FREE_HEAD_SYMBOL@,
            Symbol::HeapBase => HEAP_BASE_SYMBOL@,
            Symbol::AllocMode => ALLOC_MODE_SYMBOL@,
            Symbol::ExitProcess => EXIT_PROCESS_SYMBOL@,
            Symbol::Main => MAIN_SYMBOL@,
        }
    }

    /// The linker-visible name.
    pub fn name(self) -> (name: &'static str)
        ensures
            name@ == self.spec_name(),
    {
        match self {
            Symbol::HeapAlloc => HEAP_ALLOC_SYMBOL,
            Symbol::RcFree => RC_FREE_SYMBOL,
            Symbol::RcDec => RC_DEC_SYMBOL,
            Symbol::DropStringArray => DROP_STRING_ARRAY_SYMBOL,
            Symbol::HeapStrlen => HEAP_STRLEN_SYMBOL,
            Symbol::ListNew => LIST_NEW_SYMBOL,
            Symbol::ListCopy => LIST_COPY_SYMBOL,
            Symbol::ListGrow => LIST_GROW_SYMBOL,
            Symbol::StructCopy => STRUCT_COPY_SYMBOL,
            Symbol::MapNew => MAP_NEW_SYMBOL,
            Symbol::MapCopy => MAP_COPY_SYMBOL,
            Symbol::MapGrow => MAP_GROW_SYMBOL,
            Symbol::MapFind => MAP_FIND_SYMBOL,
            Symbol::StrLit => STR_LIT_SYMBOL,
            Symbol::StrConcat => STR_CONCAT_SYMBOL,
            Symbol::StrConcatOwn => STR_CONCAT_OWN_SYMBOL,
            Symbol::StrLenOwn => STR_LEN_OWN_SYMBOL,
            Symbol::StrBinopOwn => STR_BINOP_OWN_SYMBOL,
            Symbol::StrReadOwn => STR_READ_OWN_SYMBOL,
            Symbol::StrFromInt => STR_FROM_INT_SYMBOL,
            Symbol::StrFromBool => STR_FROM_BOOL_SYMBOL,
            Symbol::StrFromChar => STR_FROM_CHAR_SYMBOL,
            Symbol::StrSubstring => STR_SUBSTRING_SYMBOL,
            Symbol::StrCharAt => STR_CHAR_AT_SYMBOL,
            Symbol::StrCount => STR_COUNT_SYMBOL,
            Symbol::StrRepeat => STR_REPEAT_SYMBOL,
            Symbol::StrTrim => STR_TRIM_SYMBOL,
            Symbol::StrUpper => STR_UPPER_SYMBOL,
            Symbol::StrLower => STR_LOWER_SYMBOL,
            Symbol::StrFind => STR_FIND_SYMBOL,
            Symbol::StrContains => STR_CONTAINS_SYMBOL,
            Symbol::StrStartsWith => STR_STARTS_WITH_SYMBOL,
            Symbol::StrEndsWith => STR_ENDS_WITH_SYMBOL,
            Symbol::StrSplit => STR_SPLIT_SYMBOL,
            Symbol::StrJoin => STR_JOIN_SYMBOL,
            Symbol::ParseI64 => PARSE_I64_SYMBOL,
            Symbol::ToCstr => TO_CSTR_SYMBOL,
            Symbol::HeapNext => HEAP_NEXT_SYMBOL,
            Symbol::HeapFreeHead => HEAP_FREE_HEAD_SYMBOL,
            Symbol::HeapBase => HEAP_BASE_SYMBOL,
            Symbol::AllocMode => ALLOC_MODE_SYMBOL,
            Symbol::ExitProcess => EXIT_PROCESS_SYMBOL,
            Symbol::Main => MAIN_SYMBOL,
        }
    }
}

/// How the names start: two underscores, or the first letter of `ExitProcess` or `main`.
pub proof fn lemma_name_starts(symbol: Symbol)
    ensures
        symbol.spec_name().len() > 2,
        ({
            let name = symbol.spec_name();
            ||| name[0] == '_' && name[1] == '_'
            ||| name[0] == 'E'
            ||| name[0] == 'm'
        }),
{
    match symbol {
        Symbol::HeapAlloc => {
            reveal_strlit("__lullaby_alloc");
        },
        Symbol::RcFree => {
            reveal_strlit("__lullaby_rc_free");
        },
        Symbol::RcDec => {
            reveal_strlit("__lullaby_rc_dec");
        },
        Symbol::DropStringArray => {
            reveal_strlit("__lullaby_drop_string_array");
        },
        Symbol::HeapStrlen => {
            reveal_strlit("__lullaby_strlen_copy");
        },
        Symbol::ListNew => {
            reveal_strlit("__lullaby_list_new");
        },
        Symbol::ListCopy => {
            reveal_strlit("__lullaby_list_copy");
        },
        Symbol::ListGrow => {
            reveal_strlit("__lullaby_list_grow");
        },
        Symbol::StructCopy => {
            reveal_strlit("__lullaby_struct_copy");
        },
        Symbol::MapNew => {
            reveal_strlit("__lullaby_map_new");
        },
        Symbol::MapCopy => {
            reveal_strlit("__lullaby_map_copy");
        },
        Symbol::MapGrow => {
            reveal_strlit("__lullaby_map_grow");
        },
        Symbol::MapFind => {
            reveal_strlit("__lullaby_map_find");
        },
        Symbol::StrLit => {
            reveal_strlit("__lullaby_str_lit");
        },
        Symbol::StrConcat => {
            reveal_strlit("__lullaby_str_concat");
        },
        Symbol::StrConcatOwn => {
            reveal_strlit("__lullaby_str_concat_own");
        },
        Symbol::StrLenOwn => {
            reveal_strlit("__lullaby_str_len_own");
        },
        Symbol::StrBinopOwn => {
            reveal_strlit("__lullaby_str_binop_own");
        },
        Symbol::StrReadOwn => {
            reveal_strlit("__lullaby_str_read_own");
        },
        Symbol::StrFromInt => {
            reveal_strlit("__lullaby_str_from_int");
        },
        Symbol::StrFromBool => {
            reveal_strlit("__lullaby_str_from_bool");
        },
        Symbol::StrFromChar => {
            reveal_strlit("__lullaby_str_from_char");
        },
        Symbol::StrSubstring => {
            reveal_strlit("__lullaby_str_substring");
        },
        Symbol::StrCharAt => {
            reveal_strlit("__lullaby_str_char_at");
        },
        Symbol::StrCount => {
            reveal_strlit("__lullaby_str_count");
        },
        Symbol::StrRepeat => {
            reveal_strlit("__lullaby_str_repeat");
        },
        Symbol::StrTrim => {
            reveal_strlit("__lullaby_str_trim");
        },
        Symbol::StrUpper => {
            reveal_strlit("__lullaby_str_upper");
        },
        Symbol::StrLower => {
            reveal_strlit("__lullaby_str_lower");
        },
        Symbol::StrFind => {
            reveal_strlit("__lullaby_str_find");
        },
        Symbol::StrContains => {
            reveal_strlit("__lullaby_str_contains");
        },
        Symbol::StrStartsWith => {
            reveal_strlit("__lullaby_str_starts_with");
        },
        Symbol::StrEndsWith => {
            reveal_strlit("__lullaby_str_ends_with");
        },
        Symbol::StrSplit => {
            reveal_strlit("__lullaby_str_split");
        },
        Symbol::StrJoin => {
            reveal_strlit("__lullaby_str_join");
        },
        Symbol::ParseI64 => {
            reveal_strlit("__lullaby_parse_i64");
        },
        Symbol::ToCstr => {
            reveal_strlit("__lullaby_to_cstr");
        },
        Symbol::HeapNext => {
            reveal_strlit("__lullaby_heap_next");
        },
        Symbol::HeapFreeHead => {
            reveal_strlit("__lullaby_free_head");
        },
        Symbol::HeapBase => {
            reveal_strlit("__lullaby_heap_base");
        },
        Symbol::AllocMode => {
            reveal_strlit("__lullaby_alloc_mode");
        },
        Symbol::ExitProcess => {
            reveal_strlit("ExitProcess");
        },
        Symbol::Main => {
            reveal_strlit("main");
        },
    }
}

} // verus!
