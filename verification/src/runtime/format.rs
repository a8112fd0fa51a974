//! Converting scalars to strings and back.

use crate::mnemonics::{
    alu, alu_acc_b, alu_d, alu_imm32, alu_imm8, alu_imm8_b, at, at_b, at_d, call, imul_imm8,
    index_d, jcc, jcc_short, jcc_back, jmp, jmp_back, jmp_short_back, lea, load, mov, movzx,
    movzx_load, set_d, set_q, set_w, shift, store, store_b, store_d, store_imm, store_imm_b,
    store_imm_d, store_w, test_rr, unary,
};
use crate::runtime::{
    HelperFunction, STR_BYTE_LEN_OFF, STR_CHAR_LEN_OFF, STR_DATA_OFF, assemble_helper,
};
use crate::symbols::Symbol;
use crate::x86::Alu::{Add, And, Cmp, Or, Sub, Xor};
use crate::x86::Insn::{Pop, Push, RepMovsb, Ret};
use crate::x86::Reg::{R10, R11, R12, R13, Rax, Rbx, Rcx, Rdi, Rdx, Rsi, Rsp};
use crate::x86::Shift::Shr;
use crate::x86::Unary::{Dec, Div, Inc, Neg};
use crate::x86::{Cond, Insn};
use vstd::prelude::*;

verus! {

/// `__lullaby_str_from_int(rcx = value, rdx = signed_flag) -> rax = string record`.
///
/// Formats `value` in decimal. When `signed_flag` is nonzero the value is treated
/// as a signed `i64` (a leading `-` for a negative value, magnitude computed as a
/// `u64` so `i64::MIN` formats correctly); when zero it is an unsigned `u64`. Two
/// passes: pass 1 counts the digits (so the exact record size is known), pass 2
/// writes the digits backward directly into the freshly allocated heap record (no
/// stack buffer). `char_len == byte_len` (all ASCII). Matches the interpreters'
/// integer `Display`.
pub open spec fn str_from_int_program() -> Seq<Insn> {
    seq![
        // Prologue: preserve rbx/rsi/rdi/r12/r13 (5 callee-saved pushes). On entry
        // rsp%16 == 8; 5 pushes → %16 == 0; `sub rsp, 32` (shadow space) keeps %16 ==
        // 0 at the internal alloc call.
        // rbx = magnitude, rdi = neg flag, r13 = digit count, r12 = byte_len / dst.
        Push(Rbx),
        Push(Rsi),
        Push(Rdi),
        Push(R12),
        Push(R13),
        alu_imm8(Sub, Rsp, 32),
        // rdi = neg flag (0/1); rbx = magnitude (u64).
        alu(Xor, Rdi, Rdi),
        mov(Rbx, Rcx),
        test_rr(Rdx, Rdx),
        jcc_short(Cond::E, 5),
        test_rr(Rbx, Rbx),
        jcc_short(Cond::Ge, 3),
        unary(Neg, Rbx),
        set_d(Rdi, 1),
        // Lu:
        // Pass 1: count digits into r13 (minimum 1), leaving rbx (magnitude) intact.
        mov(Rax, Rbx),
        set_d(R13, 1),
        set_d(Rcx, 10),
        alu(Xor, Rdx, Rdx),
        unary(Div, Rcx),
        test_rr(Rax, Rax),
        jcc_short(Cond::E, 3),
        unary(Inc, R13),
        jmp_short_back(5),
        // Lcount_done:
        // byte_len (r12) = digit count (r13) + neg flag (rdi).
        mov(R12, R13),
        alu(Add, R12, Rdi),
        // Allocate STR_DATA_OFF + byte_len. rcx = r12 + STR_DATA_OFF.
        lea(Rcx, at_d(R12, STR_DATA_OFF)),
        call(Symbol::HeapAlloc),
        // Headers: char_len = byte_len = r12. Save dst base by pushing rax.
        store(at_d(Rax, STR_CHAR_LEN_OFF), R12),
        store(at_d(Rax, STR_BYTE_LEN_OFF), R12),
        Push(Rax),
        // rsi = write cursor = rax + STR_DATA_OFF + byte_len (one past the last byte).
        lea(Rsi, at_d(Rax, STR_DATA_OFF)),
        alu(Add, Rsi, R12),
        // Pass 2: write digits backward into the heap. rcx = 10 divisor.
        set_d(Rcx, 10),
        mov(Rax, Rbx),
        alu(Xor, Rdx, Rdx),
        unary(Div, Rcx),
        mov(Rbx, Rax),
        alu_imm8_b(Add, Rdx, 0x30),
        unary(Dec, Rsi),
        store_b(at(Rsi), Rdx),
        test_rr(Rbx, Rbx),
        jcc_back(Cond::Ne, 8),
        // If negative: dec rsi; [rsi] = '-'.
        test_rr(Rdi, Rdi),
        jcc_short(Cond::E, 3),
        unary(Dec, Rsi),
        store_imm_b(at(Rsi), 45),
        // Lns:
        Pop(Rax),
        // Epilogue.
        alu_imm8(Add, Rsp, 32),
        Pop(R13),
        Pop(R12),
        Pop(Rdi),
        Pop(Rsi),
        Pop(Rbx),
        Ret,
    ]
}

/// Assembles [`str_from_int_program`].
pub fn emit_str_from_int_helper() -> (helper: HelperFunction)
    ensures
        helper.implements(Symbol::StrFromInt, str_from_int_program()),
{
    assemble_helper(
        Symbol::StrFromInt,
        vec![
            Push(Rbx),
            Push(Rsi),
            Push(Rdi),
            Push(R12),
            Push(R13),
            alu_imm8(Sub, Rsp, 32),
            alu(Xor, Rdi, Rdi),
            mov(Rbx, Rcx),
            test_rr(Rdx, Rdx),
            jcc_short(Cond::E, 5),
            test_rr(Rbx, Rbx),
            jcc_short(Cond::Ge, 3),
            unary(Neg, Rbx),
            set_d(Rdi, 1),
            mov(Rax, Rbx),
            set_d(R13, 1),
            set_d(Rcx, 10),
            alu(Xor, Rdx, Rdx),
            unary(Div, Rcx),
            test_rr(Rax, Rax),
            jcc_short(Cond::E, 3),
            unary(Inc, R13),
            jmp_short_back(5),
            mov(R12, R13),
            alu(Add, R12, Rdi),
            lea(Rcx, at_d(R12, STR_DATA_OFF)),
            call(Symbol::HeapAlloc),
            store(at_d(Rax, STR_CHAR_LEN_OFF), R12),
            store(at_d(Rax, STR_BYTE_LEN_OFF), R12),
            Push(Rax),
            lea(Rsi, at_d(Rax, STR_DATA_OFF)),
            alu(Add, Rsi, R12),
            set_d(Rcx, 10),
            mov(Rax, Rbx),
            alu(Xor, Rdx, Rdx),
            unary(Div, Rcx),
            mov(Rbx, Rax),
            alu_imm8_b(Add, Rdx, 0x30),
            unary(Dec, Rsi),
            store_b(at(Rsi), Rdx),
            test_rr(Rbx, Rbx),
            jcc_back(Cond::Ne, 8),
            test_rr(Rdi, Rdi),
            jcc_short(Cond::E, 3),
            unary(Dec, Rsi),
            store_imm_b(at(Rsi), 45),
            Pop(Rax),
            alu_imm8(Add, Rsp, 32),
            Pop(R13),
            Pop(R12),
            Pop(Rdi),
            Pop(Rsi),
            Pop(Rbx),
            Ret,
        ],
    )
}

/// `__lullaby_str_from_bool(rcx = 0/1) -> rax = "false"/"true" record`.
///
/// Builds a fresh 4- or 5-byte record. The bytes are materialized from immediates
/// (no `.rdata` constant), so a bool-only program stays self-contained.
pub open spec fn str_from_bool_program() -> Seq<Insn> {
    seq![
        // Prologue: 1 push (rbx) makes rsp%16 == 0; a `sub rsp, 40` reserves shadow
        // space and preserves alignment (%16 == 8 → the call sees %16 == 0 after the
        // return-address push). rbx holds the 0/1 selector across the alloc call.
        Push(Rbx),
        alu_imm8(Sub, Rsp, 32),
        mov(Rbx, Rcx),
        // byte_len = (selector != 0) ? 4 : 5. rcx = 5; if rbx != 0, rcx = 4.
        set_d(Rcx, 5),
        test_rr(Rbx, Rbx),
        jcc_short(Cond::E, 2),
        set_d(Rcx, 4),
        // alloc: rcx += STR_DATA_OFF.
        alu_imm32(Add, Rcx, STR_DATA_OFF),
        call(Symbol::HeapAlloc),
        // Write headers + bytes, branching on the selector with patched rel32 jumps.
        test_rr(Rbx, Rbx),
        // jz false_path (rel32, patched).
        jcc(Cond::E, 5),
        // true_path: char_len = byte_len = 4; bytes = "true".
        store_imm(at_d(Rax, STR_CHAR_LEN_OFF), 4),
        store_imm(at_d(Rax, STR_BYTE_LEN_OFF), 4),
        // mov dword [rax + STR_DATA_OFF], "true"
        store_imm_d(at_d(Rax, STR_DATA_OFF), 1702195828),
        // jmp done (rel32, patched).
        jmp(5),
        // false_path: char_len = byte_len = 5; bytes = "false".
        store_imm(at_d(Rax, STR_CHAR_LEN_OFF), 5),
        store_imm(at_d(Rax, STR_BYTE_LEN_OFF), 5),
        // mov dword [rax + STR_DATA_OFF], "fals"
        store_imm_d(at_d(Rax, STR_DATA_OFF), 1936482662),
        // mov byte [rax + STR_DATA_OFF + 4], 'e'
        store_imm_b(at_d(Rax, 20), 101),
        // done:
        // Epilogue.
        alu_imm8(Add, Rsp, 32),
        Pop(Rbx),
        Ret,
    ]
}

/// Assembles [`str_from_bool_program`].
pub fn emit_str_from_bool_helper() -> (helper: HelperFunction)
    ensures
        helper.implements(Symbol::StrFromBool, str_from_bool_program()),
{
    assemble_helper(
        Symbol::StrFromBool,
        vec![
            Push(Rbx),
            alu_imm8(Sub, Rsp, 32),
            mov(Rbx, Rcx),
            set_d(Rcx, 5),
            test_rr(Rbx, Rbx),
            jcc_short(Cond::E, 2),
            set_d(Rcx, 4),
            alu_imm32(Add, Rcx, STR_DATA_OFF),
            call(Symbol::HeapAlloc),
            test_rr(Rbx, Rbx),
            jcc(Cond::E, 5),
            store_imm(at_d(Rax, STR_CHAR_LEN_OFF), 4),
            store_imm(at_d(Rax, STR_BYTE_LEN_OFF), 4),
            store_imm_d(at_d(Rax, STR_DATA_OFF), 1702195828),
            jmp(5),
            store_imm(at_d(Rax, STR_CHAR_LEN_OFF), 5),
            store_imm(at_d(Rax, STR_BYTE_LEN_OFF), 5),
            store_imm_d(at_d(Rax, STR_DATA_OFF), 1936482662),
            store_imm_b(at_d(Rax, 20), 101),
            alu_imm8(Add, Rsp, 32),
            Pop(Rbx),
            Ret,
        ],
    )
}

/// `__lullaby_str_from_char(rcx = code point) -> rax = one-char string record`.
///
/// Encodes the Unicode scalar value in `rcx` as UTF-8 (1–4 bytes) directly into
/// the record's data area, with `char_len = 1` and `byte_len` = the encoded
/// length. Matches Rust's `char` Display (the interpreters' `to_string(char)`).
/// The frontend guarantees a valid scalar value, so no range validation is done.
pub open spec fn str_from_char_program() -> Seq<Insn> {
    seq![
        // Prologue: preserve rbx (code point) and rsi/rdi. 3 pushes make rsp%16 == 0;
        // `sub rsp, 8` reserves one word.
        Push(Rbx),
        Push(Rsi),
        Push(Rdi),
        alu_imm8(Sub, Rsp, 8),
        mov(Rbx, Rcx),
        // Determine byte_len from the code point into rsi:
        // cp < 0x80        -> 1
        // cp < 0x800       -> 2
        // cp < 0x10000     -> 3
        // else             -> 4
        set_d(Rsi, 1),
        alu_imm32(Cmp, Rbx, 128),
        jcc(Cond::L, 8),
        set_d(Rsi, 2),
        alu_imm32(Cmp, Rbx, 2048),
        jcc(Cond::L, 5),
        set_d(Rsi, 3),
        alu_imm32(Cmp, Rbx, 65536),
        jcc(Cond::L, 2),
        set_d(Rsi, 4),
        // len_done:
        // Allocate STR_DATA_OFF + byte_len (rsi). rcx = rsi + STR_DATA_OFF.
        lea(Rcx, at_d(Rsi, STR_DATA_OFF)),
        call(Symbol::HeapAlloc),
        // Headers: char_len = 1; byte_len = rsi.
        store_imm(at_d(Rax, STR_CHAR_LEN_OFF), 1),
        store(at_d(Rax, STR_BYTE_LEN_OFF), Rsi),
        // rdi = data pointer = rax + STR_DATA_OFF.
        lea(Rdi, at_d(Rax, STR_DATA_OFF)),
        // Save record base for return (push rax; restored at the end).
        Push(Rax),
        // Branch on byte_len (rsi) to the encoder. cp is in rbx; work in rcx/rdx.
        // 1-byte: [rdi] = cp.
        alu_imm8(Cmp, Rsi, 1),
        jcc(Cond::Ne, 3),
        store_b(at(Rdi), Rbx),
        jmp(46),
        // two_plus:
        alu_imm8(Cmp, Rsi, 2),
        jcc(Cond::Ne, 10),
        // 2-byte: b0 = 0xC0 | (cp >> 6); b1 = 0x80 | (cp & 0x3F).
        // rcx = cp >> 6; or 0xC0; store.
        mov(Rcx, Rbx),
        shift(Shr, Rcx, 6),
        alu_imm8_b(Or, Rcx, 0xC0),
        store_b(at(Rdi), Rcx),
        // rcx = cp & 0x3F; or 0x80; store at [rdi+1].
        mov(Rcx, Rbx),
        alu_imm8_b(And, Rcx, 0x3F),
        alu_imm8_b(Or, Rcx, 0x80),
        store_b(at_b(Rdi, 1), Rcx),
        jmp(35),
        // three_plus:
        alu_imm8(Cmp, Rsi, 3),
        jcc(Cond::Ne, 15),
        // 3-byte: b0 = 0xE0 | (cp >> 12); b1 = 0x80 | ((cp >> 6) & 0x3F);
        // b2 = 0x80 | (cp & 0x3F).
        mov(Rcx, Rbx),
        shift(Shr, Rcx, 12),
        alu_imm8_b(Or, Rcx, 0xE0),
        store_b(at(Rdi), Rcx),
        mov(Rcx, Rbx),
        shift(Shr, Rcx, 6),
        alu_imm8_b(And, Rcx, 0x3F),
        alu_imm8_b(Or, Rcx, 0x80),
        store_b(at_b(Rdi, 1), Rcx),
        mov(Rcx, Rbx),
        alu_imm8_b(And, Rcx, 0x3F),
        alu_imm8_b(Or, Rcx, 0x80),
        store_b(at_b(Rdi, 2), Rcx),
        jmp(19),
        // four:
        // 4-byte: b0 = 0xF0 | (cp >> 18); b1 = 0x80 | ((cp >> 12) & 0x3F);
        // b2 = 0x80 | ((cp >> 6) & 0x3F); b3 = 0x80 | (cp & 0x3F).
        mov(Rcx, Rbx),
        shift(Shr, Rcx, 18),
        alu_imm8_b(Or, Rcx, 0xF0),
        store_b(at(Rdi), Rcx),
        mov(Rcx, Rbx),
        shift(Shr, Rcx, 12),
        alu_imm8_b(And, Rcx, 0x3F),
        alu_imm8_b(Or, Rcx, 0x80),
        store_b(at_b(Rdi, 1), Rcx),
        mov(Rcx, Rbx),
        shift(Shr, Rcx, 6),
        alu_imm8_b(And, Rcx, 0x3F),
        alu_imm8_b(Or, Rcx, 0x80),
        store_b(at_b(Rdi, 2), Rcx),
        mov(Rcx, Rbx),
        alu_imm8_b(And, Rcx, 0x3F),
        alu_imm8_b(Or, Rcx, 0x80),
        store_b(at_b(Rdi, 3), Rcx),
        // encode_done:
        Pop(Rax),
        // Epilogue.
        alu_imm8(Add, Rsp, 8),
        Pop(Rdi),
        Pop(Rsi),
        Pop(Rbx),
        Ret,
    ]
}

/// Assembles [`str_from_char_program`].
pub fn emit_str_from_char_helper() -> (helper: HelperFunction)
    ensures
        helper.implements(Symbol::StrFromChar, str_from_char_program()),
{
    assemble_helper(
        Symbol::StrFromChar,
        vec![
            Push(Rbx),
            Push(Rsi),
            Push(Rdi),
            alu_imm8(Sub, Rsp, 8),
            mov(Rbx, Rcx),
            set_d(Rsi, 1),
            alu_imm32(Cmp, Rbx, 128),
            jcc(Cond::L, 8),
            set_d(Rsi, 2),
            alu_imm32(Cmp, Rbx, 2048),
            jcc(Cond::L, 5),
            set_d(Rsi, 3),
            alu_imm32(Cmp, Rbx, 65536),
            jcc(Cond::L, 2),
            set_d(Rsi, 4),
            lea(Rcx, at_d(Rsi, STR_DATA_OFF)),
            call(Symbol::HeapAlloc),
            store_imm(at_d(Rax, STR_CHAR_LEN_OFF), 1),
            store(at_d(Rax, STR_BYTE_LEN_OFF), Rsi),
            lea(Rdi, at_d(Rax, STR_DATA_OFF)),
            Push(Rax),
            alu_imm8(Cmp, Rsi, 1),
            jcc(Cond::Ne, 3),
            store_b(at(Rdi), Rbx),
            jmp(46),
            alu_imm8(Cmp, Rsi, 2),
            jcc(Cond::Ne, 10),
            mov(Rcx, Rbx),
            shift(Shr, Rcx, 6),
            alu_imm8_b(Or, Rcx, 0xC0),
            store_b(at(Rdi), Rcx),
            mov(Rcx, Rbx),
            alu_imm8_b(And, Rcx, 0x3F),
            alu_imm8_b(Or, Rcx, 0x80),
            store_b(at_b(Rdi, 1), Rcx),
            jmp(35),
            alu_imm8(Cmp, Rsi, 3),
            jcc(Cond::Ne, 15),
            mov(Rcx, Rbx),
            shift(Shr, Rcx, 12),
            alu_imm8_b(Or, Rcx, 0xE0),
            store_b(at(Rdi), Rcx),
            mov(Rcx, Rbx),
            shift(Shr, Rcx, 6),
            alu_imm8_b(And, Rcx, 0x3F),
            alu_imm8_b(Or, Rcx, 0x80),
            store_b(at_b(Rdi, 1), Rcx),
            mov(Rcx, Rbx),
            alu_imm8_b(And, Rcx, 0x3F),
            alu_imm8_b(Or, Rcx, 0x80),
            store_b(at_b(Rdi, 2), Rcx),
            jmp(19),
            mov(Rcx, Rbx),
            shift(Shr, Rcx, 18),
            alu_imm8_b(Or, Rcx, 0xF0),
            store_b(at(Rdi), Rcx),
            mov(Rcx, Rbx),
            shift(Shr, Rcx, 12),
            alu_imm8_b(And, Rcx, 0x3F),
            alu_imm8_b(Or, Rcx, 0x80),
            store_b(at_b(Rdi, 1), Rcx),
            mov(Rcx, Rbx),
            shift(Shr, Rcx, 6),
            alu_imm8_b(And, Rcx, 0x3F),
            alu_imm8_b(Or, Rcx, 0x80),
            store_b(at_b(Rdi, 2), Rcx),
            mov(Rcx, Rbx),
            alu_imm8_b(And, Rcx, 0x3F),
            alu_imm8_b(Or, Rcx, 0x80),
            store_b(at_b(Rdi, 3), Rcx),
            Pop(Rax),
            alu_imm8(Add, Rsp, 8),
            Pop(Rdi),
            Pop(Rsi),
            Pop(Rbx),
            Ret,
        ],
    )
}

/// `__lullaby_parse_i64(rcx = source string record ptr) -> (rax = tag, rdx = payload)`.
///
/// Parses the source bytes as a base-10 signed 64-bit integer with exactly Rust's
/// `str::parse::<i64>()` semantics: an optional single leading `+`/`-`, then one or
/// more ASCII digits, no surrounding whitespace, and a checked accumulation
/// (`imul`/`add`/`sub` with a `jo` after each) so any out-of-range value is an
/// error. On success returns tag `0` (`ok`) in `rax` and the value in `rdx`. On any
/// failure returns tag `1` (`err`) in `rax` and a freshly bump-allocated string
/// record in `rdx` holding the same `` cannot parse `{text}` as i64 `` message the
/// interpreters produce (prefix + the source bytes + suffix), so every backend
/// matches byte-for-byte. Accumulates in the sign's direction (`acc*10 - digit` for
/// a negative literal) so `i64::MIN` parses exactly like `checked` Rust does.
pub open spec fn parse_i64_program() -> Seq<Insn> {
    seq![
        // Prologue: preserve rbx/rsi/rdi/r12/r13 (5 pushes → rsp%16 == 0), then
        // `sub rsp, 32` keeps %16 == 0 at the internal alloc call and reserves shadow.
        Push(Rbx),
        Push(Rsi),
        Push(Rdi),
        Push(R12),
        Push(R13),
        alu_imm8(Sub, Rsp, 32),
        // rbx = src ptr; rsi = count (byte_len); rdi = i; r10 = acc; r11 = neg flag.
        mov(Rbx, Rcx),
        load(Rsi, at_b(Rbx, 8)),
        alu(Xor, Rdi, Rdi),
        alu(Xor, R10, R10),
        alu(Xor, R11, R11),
        // Empty string -> err.
        test_rr(Rsi, Rsi),
        jcc(Cond::E, 33),
        // First byte: optional single sign. movzx eax, byte [rbx + rdi + STR_DATA_OFF].
        movzx_load(Rax, index_d(Rbx, Rdi, STR_DATA_OFF)),
        alu_acc_b(Cmp, 0x2D),
        jcc(Cond::Ne, 4),
        // '-' branch: neg = 1, i = 1, then fall to after_sign.
        set_d(R11, 1),
        unary(Inc, Rdi),
        jmp(4),
        // chk_plus:
        alu_acc_b(Cmp, 0x2B),
        jcc(Cond::Ne, 2),
        unary(Inc, Rdi),
        // after_sign:
        // Require at least one digit: if i >= count -> err (a lone sign or empty).
        alu(Cmp, Rdi, Rsi),
        jcc(Cond::Ae, 22),
        // Digit loop.
        alu(Cmp, Rdi, Rsi),
        jcc(Cond::Ae, 17),
        // c = data[i]; digit-classify via one unsigned range test.
        movzx_load(Rax, index_d(Rbx, Rdi, STR_DATA_OFF)),
        alu_acc_b(Sub, 0x30),
        alu_acc_b(Cmp, 0x09),
        jcc(Cond::A, 16),
        movzx(Rax, Rax),
        // acc = acc * 10 (checked).
        imul_imm8(R10, R10, 10),
        jcc(Cond::O, 13),
        // Sign-directed accumulate.
        test_rr(R11, R11),
        jcc(Cond::Ne, 4),
        alu(Add, R10, Rax),
        jcc(Cond::O, 9),
        jmp(3),
        // neg:
        alu(Sub, R10, Rax),
        jcc(Cond::O, 6),
        // after_acc:
        unary(Inc, Rdi),
        jmp_back(17),
        // ok: tag = 0 (rax), payload = acc (rdx).
        alu_d(Xor, Rax, Rax),
        mov(Rdx, R10),
        jmp(24),
        // err: build the `cannot parse `{text}` as i64` message record.
        // r12 = src byte_len; allocate STR_DATA_OFF + 22 + byte_len.
        load(R12, at_b(Rbx, 8)),
        lea(Rcx, at_d(R12, 38)),
        call(Symbol::HeapAlloc),
        mov(R13, Rax),
        // Headers: char_len = src char_len + 22, byte_len = src byte_len + 22.
        load(Rdx, at_b(Rbx, 0)),
        alu_imm8(Add, Rdx, 22),
        store(at_b(Rax, 0), Rdx),
        lea(Rdx, at_b(R12, 22)),
        store(at_b(Rax, 8), Rdx),
        // Prefix "cannot parse `" (14 bytes) at [rax + STR_DATA_OFF].
        set_q(Rcx, 0x7020746F6E6E6163),
        store(at_b(Rax, 16), Rcx),
        set_d(Rcx, 1702064737),
        store_d(at_b(Rax, 24), Rcx),
        set_w(Rcx, 0x6020),
        store_w(at_b(Rax, 28), Rcx),
        // Copy the source bytes: rsi = src data, rdi = dst data + 14, rcx = byte_len.
        lea(Rsi, at_b(Rbx, 16)),
        lea(Rdi, at_b(Rax, 30)),
        mov(Rcx, R12),
        RepMovsb,
        // Suffix "` as i64" (8 bytes) at [rdi] (rdi is one past the copied source).
        set_q(Rcx, 0x3436692073612060),
        store(at(Rdi), Rcx),
        // tag = 1 (err); payload = dst record.
        set_d(Rax, 1),
        mov(Rdx, R13),
        // done: epilogue.
        alu_imm8(Add, Rsp, 32),
        Pop(R13),
        Pop(R12),
        Pop(Rdi),
        Pop(Rsi),
        Pop(Rbx),
        Ret,
    ]
}

/// Assembles [`parse_i64_program`].
pub fn emit_parse_i64_helper() -> (helper: HelperFunction)
    ensures
        helper.implements(Symbol::ParseI64, parse_i64_program()),
{
    assemble_helper(
        Symbol::ParseI64,
        vec![
            Push(Rbx),
            Push(Rsi),
            Push(Rdi),
            Push(R12),
            Push(R13),
            alu_imm8(Sub, Rsp, 32),
            mov(Rbx, Rcx),
            load(Rsi, at_b(Rbx, 8)),
            alu(Xor, Rdi, Rdi),
            alu(Xor, R10, R10),
            alu(Xor, R11, R11),
            test_rr(Rsi, Rsi),
            jcc(Cond::E, 33),
            movzx_load(Rax, index_d(Rbx, Rdi, STR_DATA_OFF)),
            alu_acc_b(Cmp, 0x2D),
            jcc(Cond::Ne, 4),
            set_d(R11, 1),
            unary(Inc, Rdi),
            jmp(4),
            alu_acc_b(Cmp, 0x2B),
            jcc(Cond::Ne, 2),
            unary(Inc, Rdi),
            alu(Cmp, Rdi, Rsi),
            jcc(Cond::Ae, 22),
            alu(Cmp, Rdi, Rsi),
            jcc(Cond::Ae, 17),
            movzx_load(Rax, index_d(Rbx, Rdi, STR_DATA_OFF)),
            alu_acc_b(Sub, 0x30),
            alu_acc_b(Cmp, 0x09),
            jcc(Cond::A, 16),
            movzx(Rax, Rax),
            imul_imm8(R10, R10, 10),
            jcc(Cond::O, 13),
            test_rr(R11, R11),
            jcc(Cond::Ne, 4),
            alu(Add, R10, Rax),
            jcc(Cond::O, 9),
            jmp(3),
            alu(Sub, R10, Rax),
            jcc(Cond::O, 6),
            unary(Inc, Rdi),
            jmp_back(17),
            alu_d(Xor, Rax, Rax),
            mov(Rdx, R10),
            jmp(24),
            load(R12, at_b(Rbx, 8)),
            lea(Rcx, at_d(R12, 38)),
            call(Symbol::HeapAlloc),
            mov(R13, Rax),
            load(Rdx, at_b(Rbx, 0)),
            alu_imm8(Add, Rdx, 22),
            store(at_b(Rax, 0), Rdx),
            lea(Rdx, at_b(R12, 22)),
            store(at_b(Rax, 8), Rdx),
            set_q(Rcx, 0x7020746F6E6E6163),
            store(at_b(Rax, 16), Rcx),
            set_d(Rcx, 1702064737),
            store_d(at_b(Rax, 24), Rcx),
            set_w(Rcx, 0x6020),
            store_w(at_b(Rax, 28), Rcx),
            lea(Rsi, at_b(Rbx, 16)),
            lea(Rdi, at_b(Rax, 30)),
            mov(Rcx, R12),
            RepMovsb,
            set_q(Rcx, 0x3436692073612060),
            store(at(Rdi), Rcx),
            set_d(Rax, 1),
            mov(Rdx, R13),
            alu_imm8(Add, Rsp, 32),
            Pop(R13),
            Pop(R12),
            Pop(Rdi),
            Pop(Rsi),
            Pop(Rbx),
            Ret,
        ],
    )
}

} // verus!
