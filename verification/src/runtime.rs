//! The runtime helper routines that accompany a program using the heap, and the
//! record layouts they share with compiled code.

pub mod closure;
pub mod collections;
pub mod format;
pub mod heap;
pub mod search;
pub mod set;
pub mod strings;

use crate::assembler::{
    assembled, law_assembled_size, references, Code, CodeBuffer, CodeRelocation,
};
use crate::symbols::Symbol;
use crate::x86::Insn;
use vstd::prelude::*;

verus! {

/// A block's header before its payload: size, then refcount.
pub const RC_HEADER_SIZE: i32 = 16;

/// The bytes of the heap region.
pub const HEAP_REGION_SIZE: i32 = 0x10_0000;

/// A string record: char count, byte count, then the UTF-8 bytes.
pub const STR_CHAR_LEN_OFF: i32 = 0;

pub const STR_BYTE_LEN_OFF: i32 = 8;

pub const STR_DATA_OFF: i32 = 16;

/// What a search answers when there is no match.
pub const NOT_FOUND: i32 = -1;

/// A list block: length, capacity, then the element words.
pub const LIST_LEN_OFF: i32 = 0;

pub const LIST_CAP_OFF: i32 = 8;

pub const LIST_DATA_OFF: i32 = 16;

/// The capacity of a fresh list.
pub const LIST_INITIAL_CAP: i32 = 4;

/// The payload of a fresh list: its headers and its element words.
pub const LIST_NEW_SIZE: i32 = 48;

/// A map block: length, capacity, then key and value words.
pub const MAP_LEN_OFF: i32 = 0;

pub const MAP_CAP_OFF: i32 = 8;

pub const MAP_DATA_OFF: i32 = 16;

/// The capacity of a fresh map.
pub const MAP_INITIAL_CAP: i32 = 4;

/// The payload of a fresh map: its headers and its entries.
pub const MAP_NEW_SIZE: i32 = 80;

/// The word count before a heap struct's first field.
pub const STRUCT_HEADER_SIZE: i32 = 8;

/// A named routine: its machine code and the symbols that code refers to.
#[derive(Debug, PartialEq, Eq)]
pub struct HelperFunction {
    pub name: String,
    pub code: Vec<u8>,
    pub relocations: Vec<CodeRelocation>,
}

impl View for HelperFunction {
    type V = Code;

    open spec fn view(&self) -> Code {
        Code { bytes: self.code@, refs: references(self.relocations@) }
    }
}

impl HelperFunction {
    /// Whether this is the routine `symbol`, assembled from `program`.
    pub open spec fn implements(self, symbol: Symbol, program: Seq<Insn>) -> bool {
        &&& self.name@ == symbol.spec_name()
        &&& self@ == assembled(program)
    }
}

/// Assembles `program` as the routine `symbol`.
pub(crate) fn assemble_helper(symbol: Symbol, program: Vec<Insn>) -> (helper: HelperFunction)
    requires
        program@.len() <= 0x1_0000,
    ensures
        helper.implements(symbol, program@),
{
    proof {
        law_assembled_size(program@);
    }
    let mut buffer = CodeBuffer::new();
    buffer.append_program(&program);
    proof {
        crate::assembler::law_code_sequencing_neutral(assembled(program@));
    }
    HelperFunction {
        name: symbol.name().to_owned(),
        code: buffer.code,
        relocations: buffer.relocations,
    }
}

/// Appends `more` to `program`.
pub(crate) fn extend(program: &mut Vec<Insn>, more: Vec<Insn>)
    ensures
        final(program)@ == old(program)@ + more@,
{
    let mut rest = more;
    program.append(&mut rest);
}

} // verus!
