//! Building and transforming string records.

use crate::mnemonics::{
    alu, alu_d, alu_imm32, alu_imm8, alu_imm8_b, alu_imm8_d, alu_load, at, at_b, below, at_d,
    call, imul, index, index8_d, index_below, index_d, jcc, jcc_short, jmp, jmp_back, lea,
    lea_d, load, load_b, mov, mov_b, mov_d, mov_imm, movzx_load, scaled8, set_d, store, store_b,
    store_imm, store_imm_b, test_rr, test_rr_b, test_imm_d, unary,
};
use crate::runtime::{
    HelperFunction, LIST_DATA_OFF, STR_BYTE_LEN_OFF, STR_CHAR_LEN_OFF, STR_DATA_OFF,
    assemble_helper,
};
use crate::symbols::Symbol;
use crate::x86::Alu::{Add, And, Cmp, Sub, Xor};
use crate::x86::Insn::{CallReg, Pop, Push, RepMovsb, Ret, Ud2};
use crate::x86::Reg::{
    R10, R11, R12, R13, R14, R15, R8, R9, Rax, Rbp, Rbx, Rcx, Rdi, Rdx, Rsi, Rsp,
};
use crate::x86::Unary::{Dec, Inc};
use crate::x86::{Cond, Insn};
use vstd::prelude::*;

verus! {

/// `__lullaby_str_lit(rcx = NUL-terminated .rdata ptr) -> rax = string record`.
///
/// Scans the source for its byte length and its UTF-8 char count (a byte is a
/// char boundary when `(b & 0xC0) != 0x80`), allocates `STR_DATA_OFF + byte_len`,
/// writes the two headers, and copies the bytes.
pub open spec fn str_lit_program() -> Seq<Insn> {
    seq![
        // Prologue: preserve rsi/rdi/rbx; `sub rsp, 8` restores 16-byte alignment.
        Push(Rsi),
        Push(Rdi),
        Push(Rbx),
        alu_imm8(Sub, Rsp, 8),
        // rsi = src.
        mov(Rsi, Rcx),
        // Scan: rbx = byte_len, rdi = char_len. rax walks the bytes.
        mov(Rax, Rsi),
        alu(Xor, Rbx, Rbx),
        alu(Xor, Rdi, Rdi),
        load_b(Rcx, at(Rax)),
        test_rr_b(Rcx, Rcx),
        // jz scan_done (rel32, patched).
        jcc(Cond::E, 9),
        // Is this byte a char boundary? (cl & 0xC0) != 0x80  => inc char_len.
        mov_b(Rdx, Rcx),
        alu_imm8_b(And, Rdx, 0xC0),
        alu_imm8_b(Cmp, Rdx, 0x80),
        // je skip_inc (rel8): skip the `inc rdi` (3 bytes) if a continuation byte.
        jcc_short(Cond::E, 2),
        unary(Inc, Rdi),
        // skip_inc:
        unary(Inc, Rax),
        unary(Inc, Rbx),
        jmp_back(10),
        // scan_done:
        // Allocate STR_DATA_OFF + byte_len bytes. rcx = rbx + STR_DATA_OFF.
        lea(Rcx, at_d(Rbx, STR_DATA_OFF)),
        call(Symbol::HeapAlloc),
        // Write headers: [rax + CHAR_LEN] = rdi (char_len); [rax + BYTE_LEN] = rbx.
        store(at_d(Rax, STR_CHAR_LEN_OFF), Rdi),
        store(at_d(Rax, STR_BYTE_LEN_OFF), Rbx),
        // Copy byte_len bytes from rsi (src) to rax + STR_DATA_OFF.
        Push(Rax),
        // rdi = rax + STR_DATA_OFF (dest).
        lea(Rdi, at_d(Rax, STR_DATA_OFF)),
        mov(Rcx, Rbx),
        // rsi already = src.
        RepMovsb,
        Pop(Rax),
        // Epilogue.
        alu_imm8(Add, Rsp, 8),
        Pop(Rbx),
        Pop(Rdi),
        Pop(Rsi),
        Ret,
    ]
}

/// Assembles [`str_lit_program`].
pub fn emit_str_lit_helper() -> (helper: HelperFunction)
    ensures
        helper.implements(Symbol::StrLit, str_lit_program()),
{
    assemble_helper(
        Symbol::StrLit,
        vec![
            Push(Rsi),
            Push(Rdi),
            Push(Rbx),
            alu_imm8(Sub, Rsp, 8),
            mov(Rsi, Rcx),
            mov(Rax, Rsi),
            alu(Xor, Rbx, Rbx),
            alu(Xor, Rdi, Rdi),
            load_b(Rcx, at(Rax)),
            test_rr_b(Rcx, Rcx),
            jcc(Cond::E, 9),
            mov_b(Rdx, Rcx),
            alu_imm8_b(And, Rdx, 0xC0),
            alu_imm8_b(Cmp, Rdx, 0x80),
            jcc_short(Cond::E, 2),
            unary(Inc, Rdi),
            unary(Inc, Rax),
            unary(Inc, Rbx),
            jmp_back(10),
            lea(Rcx, at_d(Rbx, STR_DATA_OFF)),
            call(Symbol::HeapAlloc),
            store(at_d(Rax, STR_CHAR_LEN_OFF), Rdi),
            store(at_d(Rax, STR_BYTE_LEN_OFF), Rbx),
            Push(Rax),
            lea(Rdi, at_d(Rax, STR_DATA_OFF)),
            mov(Rcx, Rbx),
            RepMovsb,
            Pop(Rax),
            alu_imm8(Add, Rsp, 8),
            Pop(Rbx),
            Pop(Rdi),
            Pop(Rsi),
            Ret,
        ],
    )
}

/// `__lullaby_to_cstr(rcx = string record ptr) -> rax = NUL-terminated C buffer`.
///
/// Reads `byte_len` from the record, bump-allocates `byte_len + 1` bytes, copies
/// the record's UTF-8 bytes, and writes a trailing NUL. The returned buffer is the
/// `const char*` a C function borrows for the duration of an FFI call. Preserves
/// the non-volatile `rsi`/`rdi`/`rbx` it uses; it only calls the leaf bump
/// allocator, so it tolerates any incoming `rsp` alignment.
pub open spec fn to_cstr_program() -> Seq<Insn> {
    seq![
        // Prologue: preserve rsi/rdi/rbx; `sub rsp, 8` keeps the frame balanced.
        Push(Rsi),
        Push(Rdi),
        Push(Rbx),
        alu_imm8(Sub, Rsp, 8),
        // rsi = record ptr; rbx = byte_len = [rsi + STR_BYTE_LEN_OFF].
        mov(Rsi, Rcx),
        load(Rbx, at_d(Rsi, STR_BYTE_LEN_OFF)),
        // Allocate byte_len + 1 bytes (the extra byte is the NUL terminator).
        lea(Rcx, at_b(Rbx, 1)),
        call(Symbol::HeapAlloc),
        // Copy byte_len bytes from record+DATA to the buffer; save the base to return.
        Push(Rax),
        mov(Rdi, Rax),
        alu_imm32(Add, Rsi, STR_DATA_OFF),
        mov(Rcx, Rbx),
        RepMovsb,
        store_imm_b(at(Rdi), 0),
        Pop(Rax),
        // Epilogue.
        alu_imm8(Add, Rsp, 8),
        Pop(Rbx),
        Pop(Rdi),
        Pop(Rsi),
        Ret,
    ]
}

/// Assembles [`to_cstr_program`].
pub fn emit_to_cstr_helper() -> (helper: HelperFunction)
    ensures
        helper.implements(Symbol::ToCstr, to_cstr_program()),
{
    assemble_helper(
        Symbol::ToCstr,
        vec![
            Push(Rsi),
            Push(Rdi),
            Push(Rbx),
            alu_imm8(Sub, Rsp, 8),
            mov(Rsi, Rcx),
            load(Rbx, at_d(Rsi, STR_BYTE_LEN_OFF)),
            lea(Rcx, at_b(Rbx, 1)),
            call(Symbol::HeapAlloc),
            Push(Rax),
            mov(Rdi, Rax),
            alu_imm32(Add, Rsi, STR_DATA_OFF),
            mov(Rcx, Rbx),
            RepMovsb,
            store_imm_b(at(Rdi), 0),
            Pop(Rax),
            alu_imm8(Add, Rsp, 8),
            Pop(Rbx),
            Pop(Rdi),
            Pop(Rsi),
            Ret,
        ],
    )
}

/// `__lullaby_str_concat(rcx = a, rdx = b) -> rax = fresh record`.
///
/// Allocates `STR_DATA_OFF + byte_a + byte_b`, sums the char/byte headers, and
/// byte-copies each operand's UTF-8 range. Mirrors the WASM backend's concat.
pub open spec fn str_concat_program() -> Seq<Insn> {
    seq![
        // Preserve non-volatiles; keep operand pointers/headers across the alloc call.
        // rsi = a, r15 = b, rbx = byte_a, rbp = byte_b, r12 = char_a, r13 = char_b,
        // r14 = dst (record base). 8 pushes (64 bytes) + return addr (8) = 72; a
        // `sub rsp, 8` restores 16-byte alignment at the internal `call`.
        Push(Rsi),
        Push(Rbx),
        Push(Rbp),
        Push(R12),
        Push(R13),
        Push(R14),
        Push(R15),
        Push(Rdi),
        alu_imm8(Sub, Rsp, 8),
        mov(Rsi, Rcx),
        mov(R15, Rdx),
        // Load headers.
        load(Rbx, at_d(Rsi, STR_BYTE_LEN_OFF)),
        load(Rbp, at_d(R15, STR_BYTE_LEN_OFF)),
        load(R12, at_d(Rsi, STR_CHAR_LEN_OFF)),
        load(R13, at_d(R15, STR_CHAR_LEN_OFF)),
        // Allocate STR_DATA_OFF + byte_a + byte_b. rcx = rbx + rbp + STR_DATA_OFF.
        mov(Rcx, Rbx),
        alu(Add, Rcx, Rbp),
        alu_imm32(Add, Rcx, STR_DATA_OFF),
        call(Symbol::HeapAlloc),
        mov(R14, Rax),
        // Headers: char_len = r12 + r13; byte_len = rbx + rbp.
        mov(Rcx, R12),
        alu(Add, Rcx, R13),
        store(at_d(R14, STR_CHAR_LEN_OFF), Rcx),
        mov(Rcx, Rbx),
        alu(Add, Rcx, Rbp),
        store(at_d(R14, STR_BYTE_LEN_OFF), Rcx),
        // Copy a's bytes: rdi = r14 + DATA (dest), rsi = a + DATA (src), rcx = byte_a.
        lea(Rdi, at_d(R14, STR_DATA_OFF)),
        alu_imm32(Add, Rsi, STR_DATA_OFF),
        mov(Rcx, Rbx),
        RepMovsb,
        // Copy b's bytes: rsi = b + DATA (rdi already at the append position),
        // rcx = byte_b (rbp).
        mov(Rsi, R15),
        alu_imm32(Add, Rsi, STR_DATA_OFF),
        mov(Rcx, Rbp),
        RepMovsb,
        // rax = r14 (record base) — return value.
        mov(Rax, R14),
        // Epilogue (reverse of prologue).
        alu_imm8(Add, Rsp, 8),
        Pop(Rdi),
        Pop(R15),
        Pop(R14),
        Pop(R13),
        Pop(R12),
        Pop(Rbp),
        Pop(Rbx),
        Pop(Rsi),
        Ret,
    ]
}

/// Assembles [`str_concat_program`].
pub fn emit_str_concat_helper() -> (helper: HelperFunction)
    ensures
        helper.implements(Symbol::StrConcat, str_concat_program()),
{
    assemble_helper(
        Symbol::StrConcat,
        vec![
            Push(Rsi),
            Push(Rbx),
            Push(Rbp),
            Push(R12),
            Push(R13),
            Push(R14),
            Push(R15),
            Push(Rdi),
            alu_imm8(Sub, Rsp, 8),
            mov(Rsi, Rcx),
            mov(R15, Rdx),
            load(Rbx, at_d(Rsi, STR_BYTE_LEN_OFF)),
            load(Rbp, at_d(R15, STR_BYTE_LEN_OFF)),
            load(R12, at_d(Rsi, STR_CHAR_LEN_OFF)),
            load(R13, at_d(R15, STR_CHAR_LEN_OFF)),
            mov(Rcx, Rbx),
            alu(Add, Rcx, Rbp),
            alu_imm32(Add, Rcx, STR_DATA_OFF),
            call(Symbol::HeapAlloc),
            mov(R14, Rax),
            mov(Rcx, R12),
            alu(Add, Rcx, R13),
            store(at_d(R14, STR_CHAR_LEN_OFF), Rcx),
            mov(Rcx, Rbx),
            alu(Add, Rcx, Rbp),
            store(at_d(R14, STR_BYTE_LEN_OFF), Rcx),
            lea(Rdi, at_d(R14, STR_DATA_OFF)),
            alu_imm32(Add, Rsi, STR_DATA_OFF),
            mov(Rcx, Rbx),
            RepMovsb,
            mov(Rsi, R15),
            alu_imm32(Add, Rsi, STR_DATA_OFF),
            mov(Rcx, Rbp),
            RepMovsb,
            mov(Rax, R14),
            alu_imm8(Add, Rsp, 8),
            Pop(Rdi),
            Pop(R15),
            Pop(R14),
            Pop(R13),
            Pop(R12),
            Pop(Rbp),
            Pop(Rbx),
            Pop(Rsi),
            Ret,
        ],
    )
}

/// `__lullaby_str_concat_own(rcx = left, rdx = right, r8 = ownership mask) -> rax`.
///
/// Concatenates (via `__lullaby_str_concat`), then `rc_dec`s each operand the
/// compile-time mask marks as a uniquely-owned fresh temporary (bit 0 = left,
/// bit 1 = right) — reclaiming intermediate string temporaries. Preserves the two
/// operands and the mask across the concat call (callee-saved `rbx`/`rsi`/`rdi`)
/// and the result across the `rc_dec` calls (`r12`).
pub open spec fn str_concat_own_program() -> Seq<Insn> {
    seq![
        // Prologue: 4 callee-saved pushes (%16 -> 8), `sub rsp, 0x28` -> %16 == 0 with
        // 32 shadow bytes for the internal calls.
        Push(Rbx),
        Push(Rsi),
        Push(Rdi),
        Push(R12),
        alu_imm8(Sub, Rsp, 40),
        mov(Rbx, Rcx),
        mov(Rsi, Rdx),
        mov_d(Rdi, R8),
        // result = concat(left, right).
        mov(Rcx, Rbx),
        mov(Rdx, Rsi),
        call(Symbol::StrConcat),
        mov(R12, Rax),
        // if mask & 1: rc_dec(left).
        test_imm_d(Rdi, 1),
        jcc_short(Cond::E, 3),
        mov(Rcx, Rbx),
        call(Symbol::RcDec),
        // if mask & 2: rc_dec(right).
        test_imm_d(Rdi, 2),
        jcc_short(Cond::E, 3),
        mov(Rcx, Rsi),
        call(Symbol::RcDec),
        mov(Rax, R12),
        alu_imm8(Add, Rsp, 40),
        Pop(R12),
        Pop(Rdi),
        Pop(Rsi),
        Pop(Rbx),
        Ret,
    ]
}

/// Assembles [`str_concat_own_program`].
pub fn emit_str_concat_own_helper() -> (helper: HelperFunction)
    ensures
        helper.implements(Symbol::StrConcatOwn, str_concat_own_program()),
{
    assemble_helper(
        Symbol::StrConcatOwn,
        vec![
            Push(Rbx),
            Push(Rsi),
            Push(Rdi),
            Push(R12),
            alu_imm8(Sub, Rsp, 40),
            mov(Rbx, Rcx),
            mov(Rsi, Rdx),
            mov_d(Rdi, R8),
            mov(Rcx, Rbx),
            mov(Rdx, Rsi),
            call(Symbol::StrConcat),
            mov(R12, Rax),
            test_imm_d(Rdi, 1),
            jcc_short(Cond::E, 3),
            mov(Rcx, Rbx),
            call(Symbol::RcDec),
            test_imm_d(Rdi, 2),
            jcc_short(Cond::E, 3),
            mov(Rcx, Rsi),
            call(Symbol::RcDec),
            mov(Rax, R12),
            alu_imm8(Add, Rsp, 40),
            Pop(R12),
            Pop(Rdi),
            Pop(Rsi),
            Pop(Rbx),
            Ret,
        ],
    )
}

/// `__lullaby_str_len_own(rcx = fresh-temp string record) -> rax = char_len`.
///
/// Reads the `char_len` header into a callee-saved register, then `rc_dec`s the
/// record (reclaiming the uniquely-owned temporary), and returns the length. Used
/// for `len(<fresh temp>)` so the temporary the length is read from does not leak.
pub open spec fn str_len_own_program() -> Seq<Insn> {
    seq![
        // Prologue: 1 callee-saved push (%16 -> 0), `sub rsp, 32` (shadow) keeps %16 == 0
        // at the internal rc_dec call.
        Push(Rbx),
        alu_imm8(Sub, Rsp, 32),
        // rbx = char_len (read while the record is still live); rcx (the pointer) is the
        // rc_dec argument and is preserved by the call.
        load(Rbx, at_b(Rcx, 0)),
        call(Symbol::RcDec),
        mov(Rax, Rbx),
        alu_imm8(Add, Rsp, 32),
        Pop(Rbx),
        Ret,
    ]
}

/// Assembles [`str_len_own_program`].
pub fn emit_str_len_own_helper() -> (helper: HelperFunction)
    ensures
        helper.implements(Symbol::StrLenOwn, str_len_own_program()),
{
    assemble_helper(
        Symbol::StrLenOwn,
        vec![
            Push(Rbx),
            alu_imm8(Sub, Rsp, 32),
            load(Rbx, at_b(Rcx, 0)),
            call(Symbol::RcDec),
            mov(Rax, Rbx),
            alu_imm8(Add, Rsp, 32),
            Pop(Rbx),
            Ret,
        ],
    )
}

/// `__lullaby_str_binop_own(rcx = left, rdx = right, r8 = ownership mask, r9 = op) ->
/// rax`.
///
/// Calls the two-string operation `op(left, right)` through `r9`, then `rc_dec`s each
/// operand the mask marks as a uniquely-owned fresh temporary (bit 0 = left,
/// bit 1 = right). The operands and the mask survive the call in `rbx`/`rsi`/`rdi`,
/// the result survives the `rc_dec` calls in `r12`.
pub open spec fn str_binop_own_program() -> Seq<Insn> {
    seq![
        // Preserve the callee-saved registers used; sub rsp, 40 aligns the calls.
        Push(Rbx),
        Push(Rsi),
        Push(Rdi),
        Push(R12),
        alu_imm8(Sub, Rsp, 40),
        // rbx = left, rsi = right, edi = mask; the op's arguments stay in place.
        mov(Rbx, Rcx),
        mov(Rsi, Rdx),
        mov_d(Rdi, R8),
        CallReg(R9),
        // r12 = result.
        mov(R12, Rax),
        // Bit 0: the left operand is a fresh temporary.
        test_imm_d(Rdi, 1),
        jcc_short(Cond::E, 3),
        mov(Rcx, Rbx),
        call(Symbol::RcDec),
        // Bit 1: the right operand is.
        test_imm_d(Rdi, 2),
        jcc_short(Cond::E, 3),
        mov(Rcx, Rsi),
        call(Symbol::RcDec),
        mov(Rax, R12),
        alu_imm8(Add, Rsp, 40),
        Pop(R12),
        Pop(Rdi),
        Pop(Rsi),
        Pop(Rbx),
        Ret,
    ]
}

/// Assembles [`str_binop_own_program`].
pub fn emit_str_binop_own_helper() -> (helper: HelperFunction)
    ensures
        helper.implements(Symbol::StrBinopOwn, str_binop_own_program()),
{
    assemble_helper(
        Symbol::StrBinopOwn,
        vec![
            Push(Rbx),
            Push(Rsi),
            Push(Rdi),
            Push(R12),
            alu_imm8(Sub, Rsp, 40),
            mov(Rbx, Rcx),
            mov(Rsi, Rdx),
            mov_d(Rdi, R8),
            CallReg(R9),
            mov(R12, Rax),
            test_imm_d(Rdi, 1),
            jcc_short(Cond::E, 3),
            mov(Rcx, Rbx),
            call(Symbol::RcDec),
            test_imm_d(Rdi, 2),
            jcc_short(Cond::E, 3),
            mov(Rcx, Rsi),
            call(Symbol::RcDec),
            mov(Rax, R12),
            alu_imm8(Add, Rsp, 40),
            Pop(R12),
            Pop(Rdi),
            Pop(Rsi),
            Pop(Rbx),
            Ret,
        ],
    )
}

/// `__lullaby_str_read_own(rcx = source, rdx, r8 = further arguments, r9 = op) -> rax`.
///
/// Calls the string-reading operation through `r9` with its arguments in place, then
/// `rc_dec`s the source (a uniquely-owned fresh temporary), and returns the
/// operation's result.
pub open spec fn str_read_own_program() -> Seq<Insn> {
    seq![
        // Preserve the callee-saved registers used; sub rsp, 40 aligns the calls.
        Push(Rbx),
        Push(Rsi),
        alu_imm8(Sub, Rsp, 40),
        // rbx = source; the op's arguments stay in place.
        mov(Rbx, Rcx),
        CallReg(R9),
        // rsi = result, kept across the reclaim.
        mov(Rsi, Rax),
        mov(Rcx, Rbx),
        call(Symbol::RcDec),
        mov(Rax, Rsi),
        alu_imm8(Add, Rsp, 40),
        Pop(Rsi),
        Pop(Rbx),
        Ret,
    ]
}

/// Assembles [`str_read_own_program`].
pub fn emit_str_read_own_helper() -> (helper: HelperFunction)
    ensures
        helper.implements(Symbol::StrReadOwn, str_read_own_program()),
{
    assemble_helper(
        Symbol::StrReadOwn,
        vec![
            Push(Rbx),
            Push(Rsi),
            alu_imm8(Sub, Rsp, 40),
            mov(Rbx, Rcx),
            CallReg(R9),
            mov(Rsi, Rax),
            mov(Rcx, Rbx),
            call(Symbol::RcDec),
            mov(Rax, Rsi),
            alu_imm8(Add, Rsp, 40),
            Pop(Rsi),
            Pop(Rbx),
            Ret,
        ],
    )
}

/// `__lullaby_str_repeat(rcx = s, rdx = count) -> rax = record`.
///
/// Builds a fresh `[char_len][byte_len][utf8]` record equal to the source repeated
/// `count` times (`count <= 0` → the empty string). Allocates `DATA + byte_len*
/// count` bytes and `rep movsb`-copies the source `count` times. Preserves the
/// callee-saved registers held across the internal `__lullaby_alloc` call and
/// keeps `rsp` 16-byte aligned at that call (8 pushes + return addr = even, then
/// `sub rsp,8`).
pub open spec fn str_repeat_program() -> Seq<Insn> {
    seq![
        Push(Rbx),
        Push(Rbp),
        Push(Rsi),
        Push(Rdi),
        Push(R12),
        Push(R13),
        Push(R14),
        Push(R15),
        alu_imm8(Sub, Rsp, 8),
        // count <= 0 -> empty string.
        test_rr(Rdx, Rdx),
        jcc(Cond::G, 6),
        // Empty record: alloc DATA bytes, char_len = byte_len = 0.
        mov_imm(Rcx, STR_DATA_OFF),
        call(Symbol::HeapAlloc),
        store_imm(at_b(Rax, 0), 0),
        store_imm(at_b(Rax, 8), 0),
        jmp(24),
        // nonempty:
        mov(R12, Rcx),
        mov(R13, Rdx),
        load(R14, at_b(Rcx, 0)),
        load(R15, at_b(Rcx, 8)),
        // new_byte_len = orig_byte_len * count.
        mov(Rax, R15),
        imul(Rax, R13),
        mov(Rbx, Rax),
        // alloc(DATA + new_byte_len).
        lea(Rcx, at_b(Rax, 16)),
        call(Symbol::HeapAlloc),
        mov(Rbp, Rax),
        // char_len = orig_char_len * count = r14 * r13.
        mov(Rax, R14),
        imul(Rax, R13),
        store(at_b(Rbp, 0), Rax),
        store(at_b(Rbp, 8), Rbx),
        // Copy loop: dest cursor rdi = &record.data; for k=count..0 copy orig bytes.
        lea(Rdi, at_b(Rbp, 16)),
        test_rr(R13, R13),
        jcc(Cond::E, 6),
        lea(Rsi, at_b(R12, 16)),
        mov(Rcx, R15),
        RepMovsb,
        unary(Dec, R13),
        jmp_back(6),
        // copy_done: rax = record.
        mov(Rax, Rbp),
        // epilogue:
        alu_imm8(Add, Rsp, 8),
        Pop(R15),
        Pop(R14),
        Pop(R13),
        Pop(R12),
        Pop(Rdi),
        Pop(Rsi),
        Pop(Rbp),
        Pop(Rbx),
        Ret,
    ]
}

/// Assembles [`str_repeat_program`].
pub fn emit_str_repeat_helper() -> (helper: HelperFunction)
    ensures
        helper.implements(Symbol::StrRepeat, str_repeat_program()),
{
    assemble_helper(
        Symbol::StrRepeat,
        vec![
            Push(Rbx),
            Push(Rbp),
            Push(Rsi),
            Push(Rdi),
            Push(R12),
            Push(R13),
            Push(R14),
            Push(R15),
            alu_imm8(Sub, Rsp, 8),
            test_rr(Rdx, Rdx),
            jcc(Cond::G, 6),
            mov_imm(Rcx, STR_DATA_OFF),
            call(Symbol::HeapAlloc),
            store_imm(at_b(Rax, 0), 0),
            store_imm(at_b(Rax, 8), 0),
            jmp(24),
            mov(R12, Rcx),
            mov(R13, Rdx),
            load(R14, at_b(Rcx, 0)),
            load(R15, at_b(Rcx, 8)),
            mov(Rax, R15),
            imul(Rax, R13),
            mov(Rbx, Rax),
            lea(Rcx, at_b(Rax, 16)),
            call(Symbol::HeapAlloc),
            mov(Rbp, Rax),
            mov(Rax, R14),
            imul(Rax, R13),
            store(at_b(Rbp, 0), Rax),
            store(at_b(Rbp, 8), Rbx),
            lea(Rdi, at_b(Rbp, 16)),
            test_rr(R13, R13),
            jcc(Cond::E, 6),
            lea(Rsi, at_b(R12, 16)),
            mov(Rcx, R15),
            RepMovsb,
            unary(Dec, R13),
            jmp_back(6),
            mov(Rax, Rbp),
            alu_imm8(Add, Rsp, 8),
            Pop(R15),
            Pop(R14),
            Pop(R13),
            Pop(R12),
            Pop(Rdi),
            Pop(Rsi),
            Pop(Rbp),
            Pop(Rbx),
            Ret,
        ],
    )
}

/// `__lullaby_str_trim(rcx = s) -> rax = record`.
///
/// Scans off leading/trailing ASCII whitespace (`0x20`, or `0x09..=0x0D`) to a
/// `[start, end)` byte range, then delegates to `__lullaby_str_substring` (passing
/// the byte offsets as char indices — equal for ASCII strings). An all-whitespace
/// input yields the empty string (`start == end`). One `call`, so `rsp` is aligned
/// with `sub rsp,8` first; uses only volatile scratch (rax/rdx/r8/r9/r10/r11) plus
/// the incoming `rcx` (the source, forwarded to substring), so no callee-saved
/// register needs preserving here.
pub open spec fn str_trim_program() -> Seq<Insn> {
    seq![
        alu_imm8(Sub, Rsp, 8),
        load(R9, at_b(Rcx, 8)),
        lea(R10, at_b(Rcx, 16)),
        // A whitespace test on the byte in `dl`: two rel32 conditional jumps to
        // `on_ws`. Caller passes the two patch-site vectors to fill.
        // Forward scan: rax = start = first non-whitespace byte.
        alu(Xor, Rax, Rax),
        alu(Cmp, Rax, R9),
        jcc(Cond::Ge, 10),
        movzx_load(Rdx, index(R10, Rax)),
        alu_imm8_b(Cmp, Rdx, 0x20),
        jcc(Cond::E, 5),
        lea_d(R11, below(Rdx, 9)),
        alu_imm8_d(Cmp, R11, 4),
        jcc(Cond::Be, 2),
        jmp(3),
        // is_ws_f: inc rax; loop.
        unary(Inc, Rax),
        jmp_back(10),
        // fwd_done:
        // Backward scan: r8 = end, shrink while data[end-1] is whitespace.
        mov(R8, R9),
        alu(Cmp, R8, Rax),
        jcc(Cond::Le, 10),
        movzx_load(Rdx, index_below(R10, R8, 1)),
        alu_imm8_b(Cmp, Rdx, 0x20),
        jcc(Cond::E, 5),
        lea_d(R11, below(Rdx, 9)),
        alu_imm8_d(Cmp, R11, 4),
        jcc(Cond::Be, 2),
        jmp(3),
        // is_ws_b: dec r8; loop.
        unary(Dec, R8),
        jmp_back(10),
        // bwd_done:
        // substring(rcx = text, rdx = start, r8 = end). rcx still holds the source.
        mov(Rdx, Rax),
        call(Symbol::StrSubstring),
        alu_imm8(Add, Rsp, 8),
        Ret,
    ]
}

/// Assembles [`str_trim_program`].
pub fn emit_str_trim_helper() -> (helper: HelperFunction)
    ensures
        helper.implements(Symbol::StrTrim, str_trim_program()),
{
    assemble_helper(
        Symbol::StrTrim,
        vec![
            alu_imm8(Sub, Rsp, 8),
            load(R9, at_b(Rcx, 8)),
            lea(R10, at_b(Rcx, 16)),
            alu(Xor, Rax, Rax),
            alu(Cmp, Rax, R9),
            jcc(Cond::Ge, 10),
            movzx_load(Rdx, index(R10, Rax)),
            alu_imm8_b(Cmp, Rdx, 0x20),
            jcc(Cond::E, 5),
            lea_d(R11, below(Rdx, 9)),
            alu_imm8_d(Cmp, R11, 4),
            jcc(Cond::Be, 2),
            jmp(3),
            unary(Inc, Rax),
            jmp_back(10),
            mov(R8, R9),
            alu(Cmp, R8, Rax),
            jcc(Cond::Le, 10),
            movzx_load(Rdx, index_below(R10, R8, 1)),
            alu_imm8_b(Cmp, Rdx, 0x20),
            jcc(Cond::E, 5),
            lea_d(R11, below(Rdx, 9)),
            alu_imm8_d(Cmp, R11, 4),
            jcc(Cond::Be, 2),
            jmp(3),
            unary(Dec, R8),
            jmp_back(10),
            mov(Rdx, Rax),
            call(Symbol::StrSubstring),
            alu_imm8(Add, Rsp, 8),
            Ret,
        ],
    )
}

/// `__lullaby_str_upper(rcx = s) -> rax = record`: a fresh record of the same size in
/// which every ASCII byte `a..=z` is moved down by 0x20.
pub open spec fn str_upper_program() -> Seq<Insn> {
    seq![
        // Preserve the callee-saved registers used; sub rsp, 40 aligns the call.
        Push(Rbx),
        Push(Rsi),
        alu_imm8(Sub, Rsp, 40),
        // rsi = source, rbx = byte_len.
        mov(Rsi, Rcx),
        load(Rbx, at_d(Rsi, STR_BYTE_LEN_OFF)),
        lea(Rcx, at_d(Rbx, STR_DATA_OFF)),
        call(Symbol::HeapAlloc),
        // Both headers are the source's.
        load(R10, at_d(Rsi, STR_CHAR_LEN_OFF)),
        store(at_d(Rax, STR_CHAR_LEN_OFF), R10),
        store(at_d(Rax, STR_BYTE_LEN_OFF), Rbx),
        alu(Xor, R8, R8),
        // loop:
        alu(Cmp, R8, Rbx),
        jcc(Cond::Ae, 9),
        movzx_load(Rcx, index_d(Rsi, R8, STR_DATA_OFF)),
        // One unsigned range test: the letter's distance from the first of its case.
        lea_d(Rdx, below(Rcx, 97)),
        alu_imm8_d(Cmp, Rdx, 25),
        jcc(Cond::A, 2),
        alu_imm8_d(Sub, Rcx, 32),
        store_b(index_d(Rax, R8, STR_DATA_OFF), Rcx),
        unary(Inc, R8),
        jmp_back(9),
        // done:
        alu_imm8(Add, Rsp, 40),
        Pop(Rsi),
        Pop(Rbx),
        Ret,
    ]
}

/// Assembles [`str_upper_program`].
pub fn emit_str_upper_helper() -> (helper: HelperFunction)
    ensures
        helper.implements(Symbol::StrUpper, str_upper_program()),
{
    assemble_helper(
        Symbol::StrUpper,
        vec![
            Push(Rbx),
            Push(Rsi),
            alu_imm8(Sub, Rsp, 40),
            mov(Rsi, Rcx),
            load(Rbx, at_d(Rsi, STR_BYTE_LEN_OFF)),
            lea(Rcx, at_d(Rbx, STR_DATA_OFF)),
            call(Symbol::HeapAlloc),
            load(R10, at_d(Rsi, STR_CHAR_LEN_OFF)),
            store(at_d(Rax, STR_CHAR_LEN_OFF), R10),
            store(at_d(Rax, STR_BYTE_LEN_OFF), Rbx),
            alu(Xor, R8, R8),
            alu(Cmp, R8, Rbx),
            jcc(Cond::Ae, 9),
            movzx_load(Rcx, index_d(Rsi, R8, STR_DATA_OFF)),
            lea_d(Rdx, below(Rcx, 97)),
            alu_imm8_d(Cmp, Rdx, 25),
            jcc(Cond::A, 2),
            alu_imm8_d(Sub, Rcx, 32),
            store_b(index_d(Rax, R8, STR_DATA_OFF), Rcx),
            unary(Inc, R8),
            jmp_back(9),
            alu_imm8(Add, Rsp, 40),
            Pop(Rsi),
            Pop(Rbx),
            Ret,
        ],
    )
}

/// `__lullaby_str_lower(rcx = s) -> rax = record`: a fresh record of the same size in
/// which every ASCII byte `A..=Z` is moved up by 0x20.
pub open spec fn str_lower_program() -> Seq<Insn> {
    seq![
        // Preserve the callee-saved registers used; sub rsp, 40 aligns the call.
        Push(Rbx),
        Push(Rsi),
        alu_imm8(Sub, Rsp, 40),
        // rsi = source, rbx = byte_len.
        mov(Rsi, Rcx),
        load(Rbx, at_d(Rsi, STR_BYTE_LEN_OFF)),
        lea(Rcx, at_d(Rbx, STR_DATA_OFF)),
        call(Symbol::HeapAlloc),
        // Both headers are the source's.
        load(R10, at_d(Rsi, STR_CHAR_LEN_OFF)),
        store(at_d(Rax, STR_CHAR_LEN_OFF), R10),
        store(at_d(Rax, STR_BYTE_LEN_OFF), Rbx),
        alu(Xor, R8, R8),
        // loop:
        alu(Cmp, R8, Rbx),
        jcc(Cond::Ae, 9),
        movzx_load(Rcx, index_d(Rsi, R8, STR_DATA_OFF)),
        // One unsigned range test: the letter's distance from the first of its case.
        lea_d(Rdx, below(Rcx, 65)),
        alu_imm8_d(Cmp, Rdx, 25),
        jcc(Cond::A, 2),
        alu_imm8_d(Add, Rcx, 32),
        store_b(index_d(Rax, R8, STR_DATA_OFF), Rcx),
        unary(Inc, R8),
        jmp_back(9),
        // done:
        alu_imm8(Add, Rsp, 40),
        Pop(Rsi),
        Pop(Rbx),
        Ret,
    ]
}

/// Assembles [`str_lower_program`].
pub fn emit_str_lower_helper() -> (helper: HelperFunction)
    ensures
        helper.implements(Symbol::StrLower, str_lower_program()),
{
    assemble_helper(
        Symbol::StrLower,
        vec![
            Push(Rbx),
            Push(Rsi),
            alu_imm8(Sub, Rsp, 40),
            mov(Rsi, Rcx),
            load(Rbx, at_d(Rsi, STR_BYTE_LEN_OFF)),
            lea(Rcx, at_d(Rbx, STR_DATA_OFF)),
            call(Symbol::HeapAlloc),
            load(R10, at_d(Rsi, STR_CHAR_LEN_OFF)),
            store(at_d(Rax, STR_CHAR_LEN_OFF), R10),
            store(at_d(Rax, STR_BYTE_LEN_OFF), Rbx),
            alu(Xor, R8, R8),
            alu(Cmp, R8, Rbx),
            jcc(Cond::Ae, 9),
            movzx_load(Rcx, index_d(Rsi, R8, STR_DATA_OFF)),
            lea_d(Rdx, below(Rcx, 65)),
            alu_imm8_d(Cmp, Rdx, 25),
            jcc(Cond::A, 2),
            alu_imm8_d(Add, Rcx, 32),
            store_b(index_d(Rax, R8, STR_DATA_OFF), Rcx),
            unary(Inc, R8),
            jmp_back(9),
            alu_imm8(Add, Rsp, 40),
            Pop(Rsi),
            Pop(Rbx),
            Ret,
        ],
    )
}

/// `__lullaby_str_split(rcx = text, rdx = sep) -> rax = list<string> block`.
///
/// Builds a fresh `[len][cap][slot…]` block of the fields, exactly matching the
/// interpreters' `text.split(sep)`. Composed from the tested string helpers:
/// `__lullaby_str_count` sizes the field count (occurrences + 1); then a loop uses
/// `__lullaby_str_find`/`__lullaby_str_substring` to slice each field between
/// separators (advancing non-overlapping, so leading/trailing/consecutive
/// separators yield empty fields and an empty input yields one empty field). An
/// empty separator traps with `ud2` (the interpreters' `L0417`; a program that can
/// pass an empty separator must run on an interpreter). Char indices equal byte
/// offsets for the ASCII strings the native subset builds.
pub open spec fn str_split_program() -> Seq<Insn> {
    seq![
        // Prologue: 7 callee-saved pushes → rsp%16 == 0; `sub rsp, 0x30` keeps %16 == 0
        // at the internal calls and reserves 32 shadow + a 16-byte spill area.
        Push(Rbx),
        Push(Rsi),
        Push(Rdi),
        Push(R12),
        Push(R13),
        Push(R14),
        Push(R15),
        alu_imm8(Sub, Rsp, 48),
        mov(R12, Rcx),
        mov(R13, Rdx),
        // Empty separator -> trap (L0417). if sep.char_len == 0: ud2.
        load(Rax, at_b(R13, 0)),
        test_rr(Rax, Rax),
        jcc_short(Cond::Ne, 2),
        Ud2,
        // nfields (r14) = str_count(text, sep) + 1.
        mov(Rcx, R12),
        mov(Rdx, R13),
        call(Symbol::StrCount),
        lea(R14, at_b(Rax, 1)),
        // Allocate the block: LIST_DATA_OFF + nfields*8. rcx = [r14*8 + LIST_DATA_OFF].
        lea(Rcx, scaled8(R14, LIST_DATA_OFF)),
        call(Symbol::HeapAlloc),
        mov(Rbx, Rax),
        store(at_b(Rbx, 0), R14),
        store(at_b(Rbx, 8), R14),
        // Fill loop. rsi = pos (char index), rdi = slot, r15 = text char_len.
        alu_d(Xor, Rsi, Rsi),
        alu_d(Xor, Rdi, Rdi),
        load(R15, at_b(R12, 0)),
        // rest = substring(text, pos, text_char_len).
        mov(Rcx, R12),
        mov(Rdx, Rsi),
        mov(R8, R15),
        call(Symbol::StrSubstring),
        mov(R14, Rax),
        // idx = find(rest, sep).
        mov(Rcx, R14),
        mov(Rdx, R13),
        call(Symbol::StrFind),
        test_rr(Rax, Rax),
        jcc(Cond::S, 14),
        // field = substring(rest, 0, idx). Spill idx for the pos update after the call.
        store(at_b(Rsp, 32), Rax),
        mov(Rcx, R14),
        alu_d(Xor, Rdx, Rdx),
        mov(R8, Rax),
        call(Symbol::StrSubstring),
        // block.slot[slot] = field.
        store(index8_d(Rbx, Rdi, LIST_DATA_OFF), Rax),
        unary(Inc, Rdi),
        // The `rest` slice (r14) was only needed to locate/extract this field; on the
        // non-last path it is a dead intermediate, so reclaim it (`rc_dec`) — otherwise
        // a `split` in a loop would orphan one `rest` record per field each iteration.
        mov(Rcx, R14),
        call(Symbol::RcDec),
        // pos += idx + sep.char_len.
        load(Rax, at_b(Rsp, 32)),
        alu(Add, Rsi, Rax),
        alu_load(Add, Rsi, at_b(R13, 0)),
        jmp_back(22),
        // last: block.slot[slot] = rest (the remaining suffix is the final field).
        store(index8_d(Rbx, Rdi, LIST_DATA_OFF), R14),
        mov(Rax, Rbx),
        // Epilogue.
        alu_imm8(Add, Rsp, 48),
        Pop(R15),
        Pop(R14),
        Pop(R13),
        Pop(R12),
        Pop(Rdi),
        Pop(Rsi),
        Pop(Rbx),
        Ret,
    ]
}

/// Assembles [`str_split_program`].
pub fn emit_str_split_helper() -> (helper: HelperFunction)
    ensures
        helper.implements(Symbol::StrSplit, str_split_program()),
{
    assemble_helper(
        Symbol::StrSplit,
        vec![
            Push(Rbx),
            Push(Rsi),
            Push(Rdi),
            Push(R12),
            Push(R13),
            Push(R14),
            Push(R15),
            alu_imm8(Sub, Rsp, 48),
            mov(R12, Rcx),
            mov(R13, Rdx),
            load(Rax, at_b(R13, 0)),
            test_rr(Rax, Rax),
            jcc_short(Cond::Ne, 2),
            Ud2,
            mov(Rcx, R12),
            mov(Rdx, R13),
            call(Symbol::StrCount),
            lea(R14, at_b(Rax, 1)),
            lea(Rcx, scaled8(R14, LIST_DATA_OFF)),
            call(Symbol::HeapAlloc),
            mov(Rbx, Rax),
            store(at_b(Rbx, 0), R14),
            store(at_b(Rbx, 8), R14),
            alu_d(Xor, Rsi, Rsi),
            alu_d(Xor, Rdi, Rdi),
            load(R15, at_b(R12, 0)),
            mov(Rcx, R12),
            mov(Rdx, Rsi),
            mov(R8, R15),
            call(Symbol::StrSubstring),
            mov(R14, Rax),
            mov(Rcx, R14),
            mov(Rdx, R13),
            call(Symbol::StrFind),
            test_rr(Rax, Rax),
            jcc(Cond::S, 14),
            store(at_b(Rsp, 32), Rax),
            mov(Rcx, R14),
            alu_d(Xor, Rdx, Rdx),
            mov(R8, Rax),
            call(Symbol::StrSubstring),
            store(index8_d(Rbx, Rdi, LIST_DATA_OFF), Rax),
            unary(Inc, Rdi),
            mov(Rcx, R14),
            call(Symbol::RcDec),
            load(Rax, at_b(Rsp, 32)),
            alu(Add, Rsi, Rax),
            alu_load(Add, Rsi, at_b(R13, 0)),
            jmp_back(22),
            store(index8_d(Rbx, Rdi, LIST_DATA_OFF), R14),
            mov(Rax, Rbx),
            alu_imm8(Add, Rsp, 48),
            Pop(R15),
            Pop(R14),
            Pop(R13),
            Pop(R12),
            Pop(Rdi),
            Pop(Rsi),
            Pop(Rbx),
            Ret,
        ],
    )
}

/// `__lullaby_str_join(rcx = array<string> block, rdx = sep) -> rax = record`.
///
/// Joins the block's fields with the separator between them, matching the
/// interpreters' `parts.join(sep)`. Built by chaining the tested
/// `__lullaby_str_concat` (`acc = concat(concat(acc, sep), field)`), so the final
/// record's bytes/headers are exactly a direct join. An empty array yields a fresh
/// empty record.
pub open spec fn str_join_program() -> Seq<Insn> {
    seq![
        // Prologue: 5 callee-saved pushes → rsp%16 == 0; `sub rsp, 0x20` (shadow).
        Push(Rbx),
        Push(Rdi),
        Push(R12),
        Push(R13),
        Push(R14),
        alu_imm8(Sub, Rsp, 32),
        mov(R12, Rcx),
        mov(R13, Rdx),
        load(R14, at_b(R12, 0)),
        // Empty array -> fresh empty record.
        test_rr(R14, R14),
        jcc(Cond::Ne, 7),
        set_d(Rcx, 16),
        call(Symbol::HeapAlloc),
        alu(Xor, Rdx, Rdx),
        store(at_b(Rax, 0), Rdx),
        store(at_b(Rax, 8), Rdx),
        jmp(16),
        // nonempty: acc (rbx) = fields[0]; i (rdi) = 1.
        load(Rbx, at_d(R12, LIST_DATA_OFF)),
        set_d(Rdi, 1),
        alu(Cmp, Rdi, R14),
        jcc(Cond::Ae, 11),
        // acc = concat(acc, sep).
        mov(Rcx, Rbx),
        mov(Rdx, R13),
        call(Symbol::StrConcat),
        mov(Rbx, Rax),
        // acc = concat(acc, fields[i]).
        mov(Rcx, Rbx),
        load(Rdx, index8_d(R12, Rdi, LIST_DATA_OFF)),
        call(Symbol::StrConcat),
        mov(Rbx, Rax),
        unary(Inc, Rdi),
        jmp_back(11),
        // ret_acc: return acc.
        mov(Rax, Rbx),
        // done: epilogue.
        alu_imm8(Add, Rsp, 32),
        Pop(R14),
        Pop(R13),
        Pop(R12),
        Pop(Rdi),
        Pop(Rbx),
        Ret,
    ]
}

/// Assembles [`str_join_program`].
pub fn emit_str_join_helper() -> (helper: HelperFunction)
    ensures
        helper.implements(Symbol::StrJoin, str_join_program()),
{
    assemble_helper(
        Symbol::StrJoin,
        vec![
            Push(Rbx),
            Push(Rdi),
            Push(R12),
            Push(R13),
            Push(R14),
            alu_imm8(Sub, Rsp, 32),
            mov(R12, Rcx),
            mov(R13, Rdx),
            load(R14, at_b(R12, 0)),
            test_rr(R14, R14),
            jcc(Cond::Ne, 7),
            set_d(Rcx, 16),
            call(Symbol::HeapAlloc),
            alu(Xor, Rdx, Rdx),
            store(at_b(Rax, 0), Rdx),
            store(at_b(Rax, 8), Rdx),
            jmp(16),
            load(Rbx, at_d(R12, LIST_DATA_OFF)),
            set_d(Rdi, 1),
            alu(Cmp, Rdi, R14),
            jcc(Cond::Ae, 11),
            mov(Rcx, Rbx),
            mov(Rdx, R13),
            call(Symbol::StrConcat),
            mov(Rbx, Rax),
            mov(Rcx, Rbx),
            load(Rdx, index8_d(R12, Rdi, LIST_DATA_OFF)),
            call(Symbol::StrConcat),
            mov(Rbx, Rax),
            unary(Inc, Rdi),
            jmp_back(11),
            mov(Rax, Rbx),
            alu_imm8(Add, Rsp, 32),
            Pop(R14),
            Pop(R13),
            Pop(R12),
            Pop(Rdi),
            Pop(Rbx),
            Ret,
        ],
    )
}

} // verus!
