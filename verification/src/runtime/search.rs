//! Searching and indexing string records.

use crate::mnemonics::{
    alu, alu_b, alu_d, alu_imm32, alu_imm32_d, alu_imm8, alu_imm8_b, alu_imm8_d, at_b, at_d,
    call, index, index_b, jcc, jcc_short, jmp, jmp_back, lea, load, load_b, mov, mov_imm,
    movzx_load, shift_d, store, test_rr, unary,
};
use crate::runtime::{
    HelperFunction, NOT_FOUND, STR_BYTE_LEN_OFF, STR_CHAR_LEN_OFF, STR_DATA_OFF,
    assemble_helper, extend,
};
use crate::symbols::Symbol;
use crate::x86::Alu::{Add, And, Cmp, Or, Sub, Xor};
use crate::x86::Insn::{Pop, Push, RepMovsb, Ret, Ud2};
use crate::x86::Reg::{
    R10, R11, R12, R13, R14, R15, R8, R9, Rax, Rbp, Rbx, Rcx, Rdi, Rdx, Rsi, Rsp,
};
use crate::x86::Shift::Shl;
use crate::x86::Unary::Inc;
use crate::x86::{Cond, Insn};
use vstd::prelude::*;

verus! {

/// The block [`emit_load_two_string_operands`] appends.
pub open spec fn load_two_strings_program() -> Seq<Insn> {
    seq![
        load(R13, at_b(Rcx, 8)),
        lea(Rsi, at_b(Rcx, 16)),
        load(R12, at_b(Rdx, 8)),
        lea(Rdi, at_b(Rdx, 16)),
    ]
}

/// Load a string record's `hay_data`/`needle_data`/lengths for a two-string op.
/// After this, `rsi = a_data (a+DATA)`, `rdi = b_data (b+DATA)`, `r13 = a_byte_len`,
/// `r12 = b_byte_len`, with `rcx = a` and `rdx = b` on entry.
pub fn emit_load_two_string_operands(program: &mut Vec<Insn>)
    ensures
        final(program)@ == old(program)@ + load_two_strings_program(),
{
    extend(
        program,
        vec![
            load(R13, at_b(Rcx, 8)),
            lea(Rsi, at_b(Rcx, 16)),
            load(R12, at_b(Rdx, 8)),
            lea(Rdi, at_b(Rdx, 16)),
        ],
    );
}

/// The block [`emit_str_match_at_into_rax`] appends.
pub open spec fn match_at_program() -> Seq<Insn> {
    seq![
        alu(Xor, R9, R9),
        // if j >= needle_len -> matched (rax = 1).
        alu(Cmp, R9, R12),
        jcc(Cond::Ge, 7),
        // cl = hay_cur[j]; dl = needle_data[j].
        load_b(Rcx, index(R11, R9)),
        load_b(Rdx, index(Rdi, R9)),
        alu_b(Cmp, Rcx, Rdx),
        jcc(Cond::Ne, 5),
        unary(Inc, R9),
        jmp_back(7),
        // matched: rax = 1; jmp done.
        mov_imm(Rax, 1),
        jmp(2),
        // mismatch: rax = 0.
        alu(Xor, Rax, Rax),
    ]
}

/// Emit a byte-compare of `needle` against the haystack window whose first byte
/// is addressed by `r11` (`hay_cur`). Reads `rdi` (needle_data) and `r12`
/// (needle_len). Leaves `1` in `rax` if every needle byte matches, else `0`. An
/// empty needle (`needle_len == 0`) yields `1` (the loop runs zero times),
/// matching Rust's empty-prefix/substring semantics. Clobbers `rax`, `rcx`, `rdx`,
/// `r9`. The caller guarantees the window has at least `needle_len` bytes.
pub fn emit_str_match_at_into_rax(program: &mut Vec<Insn>)
    ensures
        final(program)@ == old(program)@ + match_at_program(),
{
    extend(
        program,
        vec![
            alu(Xor, R9, R9),
            alu(Cmp, R9, R12),
            jcc(Cond::Ge, 7),
            load_b(Rcx, index(R11, R9)),
            load_b(Rdx, index(Rdi, R9)),
            alu_b(Cmp, Rcx, Rdx),
            jcc(Cond::Ne, 5),
            unary(Inc, R9),
            jmp_back(7),
            mov_imm(Rax, 1),
            jmp(2),
            alu(Xor, Rax, Rax),
        ],
    );
}

/// The block [`emit_str_byte_search`] appends.
pub open spec fn byte_search_program() -> Seq<Insn> {
    seq![
        // limit = hay_len - needle_len (last valid start, inclusive; may be negative).
        mov(R10, R13),
        alu(Sub, R10, R12),
        alu(Xor, R8, R8),
        alu(Xor, Rax, Rax),
        alu(Cmp, R8, R10),
        jcc(Cond::G, 19),
        // hay_cur = hay_data + pos.
        mov(R11, Rsi),
        alu(Add, R11, R8),
    ] + match_at_program() + seq![
        test_rr(Rax, Rax),
        jcc(Cond::Ne, 3),
        unary(Inc, R8),
        jmp_back(19),
    ]
}

/// Emit the first-match byte search. Reads `rsi` (hay_data), `rdi` (needle_data),
/// `r13` (hay_len), `r12` (needle_len). Leaves `1`/`0` in `rax` (found flag) and,
/// when found, the matched byte position in `r8`. Tries every start
/// `0..=(hay_len - needle_len)` and stops at the first full match; when
/// `needle_len > hay_len` the limit is negative so no start is tried and the flag
/// stays `0`. An empty needle matches at byte `0`. Clobbers `rax`, `rcx`, `rdx`,
/// `r8`, `r9`, `r10`, `r11`.
pub fn emit_str_byte_search(program: &mut Vec<Insn>)
    ensures
        final(program)@ == old(program)@ + byte_search_program(),
{
    extend(
        program,
        vec![
            mov(R10, R13),
            alu(Sub, R10, R12),
            alu(Xor, R8, R8),
            alu(Xor, Rax, Rax),
            alu(Cmp, R8, R10),
            jcc(Cond::G, 19),
            mov(R11, Rsi),
            alu(Add, R11, R8),
        ],
    );
    emit_str_match_at_into_rax(program);
    extend(
        program,
        vec![
            test_rr(Rax, Rax),
            jcc(Cond::Ne, 3),
            unary(Inc, R8),
            jmp_back(19),
        ],
    );
}

/// `__lullaby_str_find(rcx = haystack, rdx = needle) -> rax = i64 char index`.
///
/// Byte-searches for the first needle occurrence; on a hit, counts the UTF-8
/// characters before the matched byte offset (`text[..byte].chars().count()`) and
/// returns that char index; on a miss returns `-1`. An empty needle matches at
/// byte `0`, whose preceding char count is `0`. A leaf function (no allocation);
/// preserves the callee-saved `rsi`/`rdi`/`r12`/`r13` it uses.
pub open spec fn str_find_program() -> Seq<Insn> {
    seq![
        Push(Rsi),
        Push(Rdi),
        Push(R12),
        Push(R13),
    ] + load_two_strings_program() + byte_search_program() + seq![
        test_rr(Rax, Rax),
        jcc(Cond::E, 12),
        // Count non-continuation bytes in hay_data[0 .. r8) into rax.
        alu(Xor, Rax, Rax),
        alu(Xor, R9, R9),
        alu(Cmp, R9, R8),
        jcc(Cond::Ge, 9),
        load_b(Rcx, index(Rsi, R9)),
        alu_imm8_b(And, Rcx, 0xC0),
        alu_imm8_b(Cmp, Rcx, 0x80),
        jcc(Cond::E, 2),
        unary(Inc, Rax),
        unary(Inc, R9),
        jmp_back(8),
        // not_found: rax = -1.
        mov_imm(Rax, NOT_FOUND),
        // count_done:
        Pop(R13),
        Pop(R12),
        Pop(Rdi),
        Pop(Rsi),
        Ret,
    ]
}

/// Assembles [`str_find_program`].
pub fn emit_str_find_helper() -> (helper: HelperFunction)
    ensures
        helper.implements(Symbol::StrFind, str_find_program()),
{
    let mut program: Vec<Insn> = vec![
        Push(Rsi),
        Push(Rdi),
        Push(R12),
        Push(R13),
    ];
    emit_load_two_string_operands(&mut program);
    emit_str_byte_search(&mut program);
    extend(
        &mut program,
        vec![
            test_rr(Rax, Rax),
            jcc(Cond::E, 12),
            alu(Xor, Rax, Rax),
            alu(Xor, R9, R9),
            alu(Cmp, R9, R8),
            jcc(Cond::Ge, 9),
            load_b(Rcx, index(Rsi, R9)),
            alu_imm8_b(And, Rcx, 0xC0),
            alu_imm8_b(Cmp, Rcx, 0x80),
            jcc(Cond::E, 2),
            unary(Inc, Rax),
            unary(Inc, R9),
            jmp_back(8),
            mov_imm(Rax, NOT_FOUND),
            Pop(R13),
            Pop(R12),
            Pop(Rdi),
            Pop(Rsi),
            Ret,
        ],
    );
    assemble_helper(Symbol::StrFind, program)
}

/// `__lullaby_str_contains(rcx = s, rdx = sub) -> rax = 0/1`.
///
/// Byte-exact substring test: emits the same byte search as `find` and returns its
/// found flag. An empty substring is contained. A leaf function; preserves the
/// callee-saved registers it uses.
pub open spec fn str_contains_program() -> Seq<Insn> {
    seq![
        Push(Rsi),
        Push(Rdi),
        Push(R12),
        Push(R13),
    ] + load_two_strings_program() + byte_search_program() + seq![
        Pop(R13),
        Pop(R12),
        Pop(Rdi),
        Pop(Rsi),
        Ret,
    ]
}

/// Assembles [`str_contains_program`].
pub fn emit_str_contains_helper() -> (helper: HelperFunction)
    ensures
        helper.implements(Symbol::StrContains, str_contains_program()),
{
    let mut program: Vec<Insn> = vec![
        Push(Rsi),
        Push(Rdi),
        Push(R12),
        Push(R13),
    ];
    emit_load_two_string_operands(&mut program);
    emit_str_byte_search(&mut program);
    extend(
        &mut program,
        vec![
            Pop(R13),
            Pop(R12),
            Pop(Rdi),
            Pop(Rsi),
            Ret,
        ],
    );
    assemble_helper(Symbol::StrContains, program)
}

/// `__lullaby_str_count(rcx = haystack, rdx = needle) -> rax = i64 count`.
///
/// Counts NON-overlapping byte-level needle occurrences (matches
/// `text.matches(sub).count()`): scans each start `pos`, and on a match at `pos`
/// increments the count and advances `pos` by `needle_len` (non-overlapping),
/// else advances by 1. An empty needle yields `0`. A leaf function; preserves the
/// callee-saved `rsi`/`rdi`/`r12`/`r13` it uses. `count` lives in the volatile
/// `r8`, `pos` in `r10` — neither is clobbered by `emit_str_match_at_into_rax`
/// (which only touches rax/rcx/rdx/r9 and reads r11/r12/rdi).
pub open spec fn str_count_program() -> Seq<Insn> {
    seq![
        Push(Rsi),
        Push(Rdi),
        Push(R12),
        Push(R13),
    ] + load_two_strings_program() + seq![
        // Empty needle -> 0.
        test_rr(R12, R12),
        jcc(Cond::Ne, 3),
        alu(Xor, Rax, Rax),
        jmp(29),
        alu(Xor, R8, R8),
        alu(Xor, R10, R10),
        // limit = hay_len - needle_len; if pos > limit -> done.
        mov(Rax, R13),
        alu(Sub, Rax, R12),
        alu(Cmp, R10, Rax),
        jcc(Cond::G, 22),
        // hay_cur = hay_data + pos.
        mov(R11, Rsi),
        alu(Add, R11, R10),
    ] + match_at_program() + seq![
        test_rr(Rax, Rax),
        jcc(Cond::E, 4),
        // matched: count += 1; pos += needle_len.
        unary(Inc, R8),
        alu(Add, R10, R12),
        jmp_back(22),
        // nomatch: pos += 1.
        unary(Inc, R10),
        jmp_back(24),
        // done: rax = count.
        mov(Rax, R8),
        // epilogue:
        Pop(R13),
        Pop(R12),
        Pop(Rdi),
        Pop(Rsi),
        Ret,
    ]
}

/// Assembles [`str_count_program`].
pub fn emit_str_count_helper() -> (helper: HelperFunction)
    ensures
        helper.implements(Symbol::StrCount, str_count_program()),
{
    let mut program: Vec<Insn> = vec![
        Push(Rsi),
        Push(Rdi),
        Push(R12),
        Push(R13),
    ];
    emit_load_two_string_operands(&mut program);
    extend(
        &mut program,
        vec![
            test_rr(R12, R12),
            jcc(Cond::Ne, 3),
            alu(Xor, Rax, Rax),
            jmp(29),
            alu(Xor, R8, R8),
            alu(Xor, R10, R10),
            mov(Rax, R13),
            alu(Sub, Rax, R12),
            alu(Cmp, R10, Rax),
            jcc(Cond::G, 22),
            mov(R11, Rsi),
            alu(Add, R11, R10),
        ],
    );
    emit_str_match_at_into_rax(&mut program);
    extend(
        &mut program,
        vec![
            test_rr(Rax, Rax),
            jcc(Cond::E, 4),
            unary(Inc, R8),
            alu(Add, R10, R12),
            jmp_back(22),
            unary(Inc, R10),
            jmp_back(24),
            mov(Rax, R8),
            Pop(R13),
            Pop(R12),
            Pop(Rdi),
            Pop(Rsi),
            Ret,
        ],
    );
    assemble_helper(Symbol::StrCount, program)
}

/// `__lullaby_str_starts_with(rcx = s, rdx = prefix) -> rax = 0/1`.
///
/// If `prefix_len > s_len` the result is `0`; otherwise it is whether the prefix
/// bytes match at byte position `0`. An empty prefix matches. A leaf function.
pub open spec fn str_starts_with_program() -> Seq<Insn> {
    seq![
        Push(Rsi),
        Push(Rdi),
        Push(R12),
        Push(R13),
    ] + load_two_strings_program() + seq![
        // if needle_len (r12) > hay_len (r13) -> 0.
        alu(Cmp, R12, R13),
        jcc(Cond::G, 15),
        // match_at(pos = 0): hay_cur = hay_data.
        mov(R11, Rsi),
    ] + match_at_program() + seq![
        jmp(2),
        // false: rax = 0.
        alu(Xor, Rax, Rax),
        // done:
        Pop(R13),
        Pop(R12),
        Pop(Rdi),
        Pop(Rsi),
        Ret,
    ]
}

/// Assembles [`str_starts_with_program`].
pub fn emit_str_starts_with_helper() -> (helper: HelperFunction)
    ensures
        helper.implements(Symbol::StrStartsWith, str_starts_with_program()),
{
    let mut program: Vec<Insn> = vec![
        Push(Rsi),
        Push(Rdi),
        Push(R12),
        Push(R13),
    ];
    emit_load_two_string_operands(&mut program);
    extend(
        &mut program,
        vec![
            alu(Cmp, R12, R13),
            jcc(Cond::G, 15),
            mov(R11, Rsi),
        ],
    );
    emit_str_match_at_into_rax(&mut program);
    extend(
        &mut program,
        vec![
            jmp(2),
            alu(Xor, Rax, Rax),
            Pop(R13),
            Pop(R12),
            Pop(Rdi),
            Pop(Rsi),
            Ret,
        ],
    );
    assemble_helper(Symbol::StrStartsWith, program)
}

/// `__lullaby_str_ends_with(rcx = s, rdx = suffix) -> rax = 0/1`.
///
/// If `suffix_len > s_len` the result is `0`; otherwise it is whether the suffix
/// bytes match at byte position `s_len - suffix_len`. An empty suffix matches. A
/// leaf function.
pub open spec fn str_ends_with_program() -> Seq<Insn> {
    seq![
        Push(Rsi),
        Push(Rdi),
        Push(R12),
        Push(R13),
    ] + load_two_strings_program() + seq![
        // if needle_len (r12) > hay_len (r13) -> 0.
        alu(Cmp, R12, R13),
        jcc(Cond::G, 17),
        // match_at(pos = hay_len - needle_len): hay_cur = hay_data + hay_len - needle_len.
        mov(R11, Rsi),
        alu(Add, R11, R13),
        alu(Sub, R11, R12),
    ] + match_at_program() + seq![
        jmp(2),
        // false: rax = 0.
        alu(Xor, Rax, Rax),
        // done:
        Pop(R13),
        Pop(R12),
        Pop(Rdi),
        Pop(Rsi),
        Ret,
    ]
}

/// Assembles [`str_ends_with_program`].
pub fn emit_str_ends_with_helper() -> (helper: HelperFunction)
    ensures
        helper.implements(Symbol::StrEndsWith, str_ends_with_program()),
{
    let mut program: Vec<Insn> = vec![
        Push(Rsi),
        Push(Rdi),
        Push(R12),
        Push(R13),
    ];
    emit_load_two_string_operands(&mut program);
    extend(
        &mut program,
        vec![
            alu(Cmp, R12, R13),
            jcc(Cond::G, 17),
            mov(R11, Rsi),
            alu(Add, R11, R13),
            alu(Sub, R11, R12),
        ],
    );
    emit_str_match_at_into_rax(&mut program);
    extend(
        &mut program,
        vec![
            jmp(2),
            alu(Xor, Rax, Rax),
            Pop(R13),
            Pop(R12),
            Pop(Rdi),
            Pop(Rsi),
            Ret,
        ],
    );
    assemble_helper(Symbol::StrEndsWith, program)
}

/// The block [`emit_char_to_byte_walk`] appends.
pub open spec fn char_to_byte_walk_program() -> Seq<Insn> {
    seq![
        mov(R9, Rax),
        alu(Xor, Rax, Rax),
        alu(Xor, Rcx, Rcx),
        alu(Cmp, Rcx, R9),
        jcc(Cond::Ge, 12),
        unary(Inc, Rax),
        alu(Cmp, Rax, R15),
        jcc(Cond::Ge, 7),
        load_b(Rdx, index(Rsi, Rax)),
        alu_imm8_b(And, Rdx, 0xC0),
        alu_imm8_b(Cmp, Rdx, 0x80),
        jcc(Cond::Ne, 3),
        unary(Inc, Rax),
        jmp_back(7),
        // wccont: c += 1; continue outer.
        unary(Inc, Rcx),
        jmp_back(12),
    ]
}

/// Emit the char-index-to-byte walk. Reads the target char index in `rax`, the
/// data pointer in `rsi`, and the byte length in `r15`; advances a byte offset
/// past exactly `target` whole UTF-8 characters and leaves that byte offset in
/// `rax`. Each step moves past one lead byte then over all continuation bytes
/// (`(b & 0xC0) == 0x80`). For `target == char_count` this lands on `byte_len`.
/// The caller's bounds check guarantees `target <= char_count`, so the walk stays
/// in range. Clobbers `rax`, `rcx`, `rdx`, `r9`.
pub fn emit_char_to_byte_walk(program: &mut Vec<Insn>)
    ensures
        final(program)@ == old(program)@ + char_to_byte_walk_program(),
{
    extend(
        program,
        vec![
            mov(R9, Rax),
            alu(Xor, Rax, Rax),
            alu(Xor, Rcx, Rcx),
            alu(Cmp, Rcx, R9),
            jcc(Cond::Ge, 12),
            unary(Inc, Rax),
            alu(Cmp, Rax, R15),
            jcc(Cond::Ge, 7),
            load_b(Rdx, index(Rsi, Rax)),
            alu_imm8_b(And, Rdx, 0xC0),
            alu_imm8_b(Cmp, Rdx, 0x80),
            jcc(Cond::Ne, 3),
            unary(Inc, Rax),
            jmp_back(7),
            unary(Inc, Rcx),
            jmp_back(12),
        ],
    );
}

/// `__lullaby_str_char_at(rcx = s, rdx = i) -> rax = code point`.
///
/// Returns the Unicode scalar of the `i`-th character. Bounds-checks `i` against
/// `char_count` (unsigned, so `i < 0` traps too) with `ud2` (mirroring `L0413`),
/// walks the UTF-8 to char `i`'s byte offset, then decodes the 1–4-byte sequence
/// there into its code point. Preserves the two callee-saved registers the walk
/// uses (`rsi`, `r15`); makes no internal call.
pub open spec fn str_char_at_program() -> Seq<Insn> {
    seq![
        Push(Rsi),
        Push(R15),
        // Bounds check: unsigned i >= char_len -> ud2.
        load(Rax, at_b(Rcx, 0)),
        alu(Cmp, Rdx, Rax),
        jcc_short(Cond::B, 2),
        Ud2,
        // Set up the walk: rsi = data (rcx+16), r15 = byte_len (rcx+8), rax = i.
        load(R15, at_b(Rcx, 8)),
        lea(Rsi, at_b(Rcx, 16)),
        mov(Rax, Rdx),
    ] + char_to_byte_walk_program() + seq![
        // Decode the UTF-8 sequence at [rsi + rax] into r8 (the code point).
        movzx_load(R8, index(Rsi, Rax)),
        // 1-byte: lead < 0x80 -> cp = lead.
        alu_imm32_d(Cmp, R8, 128),
        jcc(Cond::B, 28),
        // b1 = [rsi+rax+1] & 0x3F.
        movzx_load(R9, index_b(Rsi, Rax, 1)),
        alu_imm8_d(And, R9, 63),
        // 2-byte: lead < 0xE0 -> cp = ((lead & 0x1F) << 6) | b1.
        alu_imm32_d(Cmp, R8, 224),
        jcc(Cond::Ae, 5),
        alu_imm8_d(And, R8, 31),
        shift_d(Shl, R8, 6),
        alu_d(Or, R8, R9),
        jmp(20),
        // three_plus: b2 = [rsi+rax+2] & 0x3F.
        movzx_load(R10, index_b(Rsi, Rax, 2)),
        alu_imm8_d(And, R10, 63),
        // 3-byte: lead < 0xF0 -> cp = ((lead & 0x0F) << 12) | (b1 << 6) | b2.
        alu_imm32_d(Cmp, R8, 240),
        jcc(Cond::Ae, 7),
        alu_imm8_d(And, R8, 15),
        shift_d(Shl, R8, 12),
        shift_d(Shl, R9, 6),
        alu_d(Or, R8, R9),
        alu_d(Or, R8, R10),
        jmp(10),
        // four: b3 = [rsi+rax+3] & 0x3F ; cp = ((lead & 0x07)<<18)|(b1<<12)|(b2<<6)|b3.
        movzx_load(R11, index_b(Rsi, Rax, 3)),
        alu_imm8_d(And, R11, 63),
        alu_imm8_d(And, R8, 7),
        shift_d(Shl, R8, 18),
        shift_d(Shl, R9, 12),
        shift_d(Shl, R10, 6),
        alu_d(Or, R8, R9),
        alu_d(Or, R8, R10),
        alu_d(Or, R8, R11),
        // done: rax = r8 (code point).
        mov(Rax, R8),
        Pop(R15),
        Pop(Rsi),
        Ret,
    ]
}

/// Assembles [`str_char_at_program`].
pub fn emit_str_char_at_helper() -> (helper: HelperFunction)
    ensures
        helper.implements(Symbol::StrCharAt, str_char_at_program()),
{
    let mut program: Vec<Insn> = vec![
        Push(Rsi),
        Push(R15),
        load(Rax, at_b(Rcx, 0)),
        alu(Cmp, Rdx, Rax),
        jcc_short(Cond::B, 2),
        Ud2,
        load(R15, at_b(Rcx, 8)),
        lea(Rsi, at_b(Rcx, 16)),
        mov(Rax, Rdx),
    ];
    emit_char_to_byte_walk(&mut program);
    extend(
        &mut program,
        vec![
            movzx_load(R8, index(Rsi, Rax)),
            alu_imm32_d(Cmp, R8, 128),
            jcc(Cond::B, 28),
            movzx_load(R9, index_b(Rsi, Rax, 1)),
            alu_imm8_d(And, R9, 63),
            alu_imm32_d(Cmp, R8, 224),
            jcc(Cond::Ae, 5),
            alu_imm8_d(And, R8, 31),
            shift_d(Shl, R8, 6),
            alu_d(Or, R8, R9),
            jmp(20),
            movzx_load(R10, index_b(Rsi, Rax, 2)),
            alu_imm8_d(And, R10, 63),
            alu_imm32_d(Cmp, R8, 240),
            jcc(Cond::Ae, 7),
            alu_imm8_d(And, R8, 15),
            shift_d(Shl, R8, 12),
            shift_d(Shl, R9, 6),
            alu_d(Or, R8, R9),
            alu_d(Or, R8, R10),
            jmp(10),
            movzx_load(R11, index_b(Rsi, Rax, 3)),
            alu_imm8_d(And, R11, 63),
            alu_imm8_d(And, R8, 7),
            shift_d(Shl, R8, 18),
            shift_d(Shl, R9, 12),
            shift_d(Shl, R10, 6),
            alu_d(Or, R8, R9),
            alu_d(Or, R8, R10),
            alu_d(Or, R8, R11),
            mov(Rax, R8),
            Pop(R15),
            Pop(Rsi),
            Ret,
        ],
    );
    assemble_helper(Symbol::StrCharAt, program)
}

/// `__lullaby_str_substring(rcx = s, rdx = start, r8 = end) -> rax = record`.
///
/// Char-indexed `[start, end)` slice. Bounds-checks exactly like the interpreters
/// (`start < 0 || end < 0 || start > end || end > char_count`) and traps (`ud2`,
/// mirroring `L0413`) on a violation. Otherwise maps the char indices to byte
/// offsets by walking the UTF-8, allocates a fresh `[char_len][byte_len][utf8]`
/// record, writes the sliced headers, and byte-copies the slice. Uses eight
/// callee-saved registers across the internal `__lullaby_alloc` call and keeps
/// `rsp` 16-byte aligned at that call.
pub open spec fn str_substring_program() -> Seq<Insn> {
    seq![
        // Prologue: preserve the eight callee-saved regs we hold across the alloc call;
        // 8 pushes keep rsp%16 == 8 (return addr makes the count even), then `sub rsp,8`
        // → %16 == 0 at the internal `call`.
        // rsi = data, r15 = byte_len, rbx = start_byte, rbp = end_byte,
        // r12 = start_char, r13 = end_char, r14 = dst record.
        Push(Rbx),
        Push(Rbp),
        Push(Rsi),
        Push(Rdi),
        Push(R12),
        Push(R13),
        Push(R14),
        Push(R15),
        alu_imm8(Sub, Rsp, 8),
        // Bounds check against char_count = [rcx + CHAR_LEN]. r9 = char_count.
        load(R9, at_b(Rcx, 0)),
        // start < 0 -> trap.
        test_rr(Rdx, Rdx),
        jcc(Cond::S, 65),
        // end < 0 -> trap.
        test_rr(R8, R8),
        jcc(Cond::S, 63),
        // start > end -> trap.
        alu(Cmp, R8, Rdx),
        jcc(Cond::L, 61),
        // end > char_count -> trap.
        alu(Cmp, R8, R9),
        jcc(Cond::G, 59),
        // In-bounds path. Save start_char/end_char and the data/byte_len.
        mov(R12, Rdx),
        mov(R13, R8),
        load(R15, at_b(Rcx, 8)),
        lea(Rsi, at_b(Rcx, 16)),
        // start_byte = walk(start_char); end_byte = walk(end_char).
        mov(Rax, R12),
    ] + char_to_byte_walk_program() + seq![
        mov(Rbx, Rax),
        mov(Rax, R13),
    ] + char_to_byte_walk_program() + seq![
        mov(Rbp, Rax),
        // Allocate STR_DATA_OFF + slice_bytes. rcx = (rbp - rbx) + STR_DATA_OFF.
        mov(Rcx, Rbp),
        alu(Sub, Rcx, Rbx),
        alu_imm32(Add, Rcx, STR_DATA_OFF),
        call(Symbol::HeapAlloc),
        mov(R14, Rax),
        // char_len = end_char - start_char (r13 - r12).
        mov(Rcx, R13),
        alu(Sub, Rcx, R12),
        store(at_d(R14, STR_CHAR_LEN_OFF), Rcx),
        // byte_len = slice_bytes = rbp - rbx.
        mov(Rcx, Rbp),
        alu(Sub, Rcx, Rbx),
        store(at_d(R14, STR_BYTE_LEN_OFF), Rcx),
        // Copy slice_bytes from data + start_byte to r14 + DATA.
        lea(Rdi, at_d(R14, STR_DATA_OFF)),
        alu(Add, Rsi, Rbx),
        mov(Rcx, Rbp),
        alu(Sub, Rcx, Rbx),
        RepMovsb,
        // rax = r14 (record base) — return value.
        mov(Rax, R14),
        jmp(2),
        // trap: out-of-bounds range (mirrors the interpreters' L0413).
        Ud2,
        // epilogue:
        alu_imm8(Add, Rsp, 8),
        Pop(R15),
        Pop(R14),
        Pop(R13),
        Pop(R12),
        Pop(Rdi),
        Pop(Rsi),
        Pop(Rbp),
        Pop(Rbx),
        Ret,
    ]
}

/// Assembles [`str_substring_program`].
pub fn emit_str_substring_helper() -> (helper: HelperFunction)
    ensures
        helper.implements(Symbol::StrSubstring, str_substring_program()),
{
    let mut program: Vec<Insn> = vec![
        Push(Rbx),
        Push(Rbp),
        Push(Rsi),
        Push(Rdi),
        Push(R12),
        Push(R13),
        Push(R14),
        Push(R15),
        alu_imm8(Sub, Rsp, 8),
        load(R9, at_b(Rcx, 0)),
        test_rr(Rdx, Rdx),
        jcc(Cond::S, 65),
        test_rr(R8, R8),
        jcc(Cond::S, 63),
        alu(Cmp, R8, Rdx),
        jcc(Cond::L, 61),
        alu(Cmp, R8, R9),
        jcc(Cond::G, 59),
        mov(R12, Rdx),
        mov(R13, R8),
        load(R15, at_b(Rcx, 8)),
        lea(Rsi, at_b(Rcx, 16)),
        mov(Rax, R12),
    ];
    emit_char_to_byte_walk(&mut program);
    extend(
        &mut program,
        vec![
            mov(Rbx, Rax),
            mov(Rax, R13),
        ],
    );
    emit_char_to_byte_walk(&mut program);
    extend(
        &mut program,
        vec![
            mov(Rbp, Rax),
            mov(Rcx, Rbp),
            alu(Sub, Rcx, Rbx),
            alu_imm32(Add, Rcx, STR_DATA_OFF),
            call(Symbol::HeapAlloc),
            mov(R14, Rax),
            mov(Rcx, R13),
            alu(Sub, Rcx, R12),
            store(at_d(R14, STR_CHAR_LEN_OFF), Rcx),
            mov(Rcx, Rbp),
            alu(Sub, Rcx, Rbx),
            store(at_d(R14, STR_BYTE_LEN_OFF), Rcx),
            lea(Rdi, at_d(R14, STR_DATA_OFF)),
            alu(Add, Rsi, Rbx),
            mov(Rcx, Rbp),
            alu(Sub, Rcx, Rbx),
            RepMovsb,
            mov(Rax, R14),
            jmp(2),
            Ud2,
            alu_imm8(Add, Rsp, 8),
            Pop(R15),
            Pop(R14),
            Pop(R13),
            Pop(R12),
            Pop(Rdi),
            Pop(Rsi),
            Pop(Rbp),
            Pop(Rbx),
            Ret,
        ],
    );
    assemble_helper(Symbol::StrSubstring, program)
}

} // verus!
