//! Growable lists and maps.

use crate::mnemonics::{
    alu, alu_imm32, alu_imm8, at_d, call, index8_d, index_d, jcc, jcc_short, jmp, jmp_back,
    load, mov, set_d, shift, shift_one, store, store_imm, test_rr, unary,
};
use crate::runtime::{
    HelperFunction, LIST_CAP_OFF, LIST_DATA_OFF, LIST_INITIAL_CAP, LIST_LEN_OFF, LIST_NEW_SIZE,
    MAP_CAP_OFF, MAP_DATA_OFF, MAP_INITIAL_CAP, MAP_LEN_OFF, MAP_NEW_SIZE, assemble_helper,
    extend,
};
use crate::symbols::Symbol;
use crate::x86::Alu::{Add, Cmp, Sub, Xor};
use crate::x86::Insn::{Pop, Push, Ret};
use crate::x86::Reg::{R10, R11, Rax, Rbx, Rcx, Rdi, Rdx, Rsi, Rsp};
use crate::x86::Shift::Shl;
use crate::x86::Unary::Inc;
use crate::x86::{Cond, Insn};
use vstd::prelude::*;

verus! {

/// The block [`emit_list_word_copy_loop_rsi_rdi_rbx`] appends.
pub open spec fn word_copy_loop_program() -> Seq<Insn> {
    seq![
        // xor rax, rax   (i = 0)
        alu(Xor, Rax, Rax),
        // cmp rax, rbx
        alu(Cmp, Rax, Rbx),
        // jge done (rel32, patched)
        jcc(Cond::Ge, 5),
        // r10 = [rsi + rax*8 + LIST_DATA_OFF]   (mov r10, [rsi + rax*8 + disp32])
        load(R10, index8_d(Rsi, Rax, LIST_DATA_OFF)),
        // [rdi + rax*8 + LIST_DATA_OFF] = r10   (mov [rdi + rax*8 + disp32], r10)
        store(index8_d(Rdi, Rax, LIST_DATA_OFF), R10),
        // inc rax
        unary(Inc, Rax),
        // jmp loop_top (rel32)
        jmp_back(5),
    ]
}

/// Emit a runtime loop that copies `count` 8-byte words from `[src_reg]` to
/// `[dst_reg]` (both pointing at each block's first element slot). Uses `rax` as
/// the loop counter and `r10`/`r11` as scratch, none of which the callers rely on
/// across the loop. `count_reg` holds the element count. Registers by encoding:
/// `src_reg`/`dst_reg`/`count_reg` are the 3-bit register numbers (rsi=6, rdi=7,
/// rbx=3, etc.). This helper assumes src=rsi, dst=rdi, count=rbx for compact
/// encodings, matching how the copy/grow helpers set them up.
pub fn emit_list_word_copy_loop_rsi_rdi_rbx(program: &mut Vec<Insn>)
    ensures
        final(program)@ == old(program)@ + word_copy_loop_program(),
{
    extend(
        program,
        vec![
            alu(Xor, Rax, Rax),
            alu(Cmp, Rax, Rbx),
            jcc(Cond::Ge, 5),
            load(R10, index8_d(Rsi, Rax, LIST_DATA_OFF)),
            store(index8_d(Rdi, Rax, LIST_DATA_OFF), R10),
            unary(Inc, Rax),
            jmp_back(5),
        ],
    );
}

/// `__lullaby_list_new() -> ptr in rax`: allocate a fresh empty list block with
/// `len = 0`, `cap = LIST_INITIAL_CAP`.
pub open spec fn list_new_program() -> Seq<Insn> {
    seq![
        alu_imm8(Sub, Rsp, 40),
        // rcx = LIST_DATA_OFF + LIST_INITIAL_CAP * 8  (block byte size)
        // mov rcx, imm32 (size is small)  -> use mov ecx, imm32 (B9) zero-extends.
        set_d(Rcx, LIST_NEW_SIZE),
        // call __lullaby_alloc
        call(Symbol::HeapAlloc),
        // mov qword [rax + LIST_LEN_OFF], 0
        store_imm(at_d(Rax, LIST_LEN_OFF), 0),
        // mov qword [rax + LIST_CAP_OFF], LIST_INITIAL_CAP
        store_imm(at_d(Rax, LIST_CAP_OFF), LIST_INITIAL_CAP),
        alu_imm8(Add, Rsp, 40),
        Ret,
    ]
}

/// Assembles [`list_new_program`].
pub fn emit_list_new_helper() -> (helper: HelperFunction)
    ensures
        helper.implements(Symbol::ListNew, list_new_program()),
{
    assemble_helper(
        Symbol::ListNew,
        vec![
            alu_imm8(Sub, Rsp, 40),
            set_d(Rcx, LIST_NEW_SIZE),
            call(Symbol::HeapAlloc),
            store_imm(at_d(Rax, LIST_LEN_OFF), 0),
            store_imm(at_d(Rax, LIST_CAP_OFF), LIST_INITIAL_CAP),
            alu_imm8(Add, Rsp, 40),
            Ret,
        ],
    )
}

/// `__lullaby_list_copy(rcx = src) -> rax = fresh copy`: allocate a block with the
/// source's `cap`, copy the `len`/`cap` headers and the `len` live element words.
pub open spec fn list_copy_program() -> Seq<Insn> {
    seq![
        // Preserve non-volatiles used: rsi (src), rdi (dst), rbx (len/cap scratch).
        Push(Rsi),
        Push(Rdi),
        Push(Rbx),
        alu_imm8(Sub, Rsp, 40),
        // rsi = src
        mov(Rsi, Rcx),
        // Allocation size = LIST_DATA_OFF + cap * 8. cap = [rsi + LIST_CAP_OFF].
        // rcx = [rsi + LIST_CAP_OFF]
        load(Rcx, at_d(Rsi, LIST_CAP_OFF)),
        // rcx = rcx * 8 : shl rcx, 3
        shift(Shl, Rcx, 3),
        // rcx = rcx + LIST_DATA_OFF : add rcx, imm32
        alu_imm32(Add, Rcx, LIST_DATA_OFF),
        // call __lullaby_alloc -> rax = dst
        call(Symbol::HeapAlloc),
        // rdi = dst
        mov(Rdi, Rax),
        // Copy len + cap headers: two 8-byte words at offsets 0 and 8.
        // r10 = [rsi + 0]; [rdi + 0] = r10  (len)
        load(R10, at_d(Rsi, LIST_LEN_OFF)),
        store(at_d(Rdi, LIST_LEN_OFF), R10),
        // r10 = [rsi + 8]; [rdi + 8] = r10  (cap)
        load(R10, at_d(Rsi, LIST_CAP_OFF)),
        store(at_d(Rdi, LIST_CAP_OFF), R10),
        // rbx = len (element count to copy)
        load(Rbx, at_d(Rsi, LIST_LEN_OFF)),
    ] + word_copy_loop_program() + seq![
        // rax = dst (return value)
        mov(Rax, Rdi),
        alu_imm8(Add, Rsp, 40),
        Pop(Rbx),
        Pop(Rdi),
        Pop(Rsi),
        Ret,
    ]
}

/// Assembles [`list_copy_program`].
pub fn emit_list_copy_helper() -> (helper: HelperFunction)
    ensures
        helper.implements(Symbol::ListCopy, list_copy_program()),
{
    let mut program: Vec<Insn> = vec![
        Push(Rsi),
        Push(Rdi),
        Push(Rbx),
        alu_imm8(Sub, Rsp, 40),
        mov(Rsi, Rcx),
        load(Rcx, at_d(Rsi, LIST_CAP_OFF)),
        shift(Shl, Rcx, 3),
        alu_imm32(Add, Rcx, LIST_DATA_OFF),
        call(Symbol::HeapAlloc),
        mov(Rdi, Rax),
        load(R10, at_d(Rsi, LIST_LEN_OFF)),
        store(at_d(Rdi, LIST_LEN_OFF), R10),
        load(R10, at_d(Rsi, LIST_CAP_OFF)),
        store(at_d(Rdi, LIST_CAP_OFF), R10),
        load(Rbx, at_d(Rsi, LIST_LEN_OFF)),
    ];
    emit_list_word_copy_loop_rsi_rdi_rbx(&mut program);
    extend(
        &mut program,
        vec![
            mov(Rax, Rdi),
            alu_imm8(Add, Rsp, 40),
            Pop(Rbx),
            Pop(Rdi),
            Pop(Rsi),
            Ret,
        ],
    );
    assemble_helper(Symbol::ListCopy, program)
}

/// `__lullaby_list_grow(rcx = list) -> rax = list with room for one more element`:
/// when `len < cap` the list is returned unchanged; otherwise a block with
/// `new_cap = (cap == 0 ? LIST_INITIAL_CAP : cap * 2)` is allocated, the `len`
/// header and the `len` live elements are copied, the new `cap` is written, and
/// the fresh block is returned (the old block is orphaned).
pub open spec fn list_grow_program() -> Seq<Insn> {
    seq![
        Push(Rsi),
        Push(Rdi),
        Push(Rbx),
        alu_imm8(Sub, Rsp, 40),
        // rsi = list
        mov(Rsi, Rcx),
        // rax = len = [rsi + LEN]; rdx = cap = [rsi + CAP].
        load(Rax, at_d(Rsi, LIST_LEN_OFF)),
        load(Rdx, at_d(Rsi, LIST_CAP_OFF)),
        // if len < cap: return the list unchanged.
        // cmp rax, rdx ; jl return_same (rel32)
        alu(Cmp, Rax, Rdx),
        jcc(Cond::L, 25),
        // rbx = new_cap = (cap == 0 ? LIST_INITIAL_CAP : cap * 2).
        // rbx = cap ; test rbx, rbx ; jnz double ; rbx = LIST_INITIAL_CAP ; jmp sized
        mov(Rbx, Rdx),
        test_rr(Rbx, Rbx),
        jcc(Cond::Ne, 3),
        // rbx = LIST_INITIAL_CAP : mov ebx, imm32
        set_d(Rbx, LIST_INITIAL_CAP),
        jmp(2),
        // double: rbx = cap * 2  (shl rbx, 1)
        shift_one(Shl, Rbx),
        // sized: allocate LIST_DATA_OFF + new_cap * 8.
        // rcx = rbx * 8 + LIST_DATA_OFF
        mov(Rcx, Rbx),
        shift(Shl, Rcx, 3),
        alu_imm32(Add, Rcx, LIST_DATA_OFF),
        // call __lullaby_alloc -> rax = dst
        call(Symbol::HeapAlloc),
        // rdi = dst
        mov(Rdi, Rax),
        // dst.len = src.len : r10 = [rsi + LEN]; [rdi + LEN] = r10.
        load(R10, at_d(Rsi, LIST_LEN_OFF)),
        store(at_d(Rdi, LIST_LEN_OFF), R10),
        // dst.cap = new_cap (rbx) : mov [rdi + CAP], rbx.
        store(at_d(Rdi, LIST_CAP_OFF), Rbx),
        // Copy `len` element words. rbx = len (reuse rbx as the count now).
        load(Rbx, at_d(Rsi, LIST_LEN_OFF)),
    ] + word_copy_loop_program() + seq![
        // rax = dst (the grown block).
        mov(Rax, Rdi),
        jmp(2),
        // return_same: rax = the original list (rsi).
        mov(Rax, Rsi),
        // epilogue:
        alu_imm8(Add, Rsp, 40),
        Pop(Rbx),
        Pop(Rdi),
        Pop(Rsi),
        Ret,
    ]
}

/// Assembles [`list_grow_program`].
pub fn emit_list_grow_helper() -> (helper: HelperFunction)
    ensures
        helper.implements(Symbol::ListGrow, list_grow_program()),
{
    let mut program: Vec<Insn> = vec![
        Push(Rsi),
        Push(Rdi),
        Push(Rbx),
        alu_imm8(Sub, Rsp, 40),
        mov(Rsi, Rcx),
        load(Rax, at_d(Rsi, LIST_LEN_OFF)),
        load(Rdx, at_d(Rsi, LIST_CAP_OFF)),
        alu(Cmp, Rax, Rdx),
        jcc(Cond::L, 25),
        mov(Rbx, Rdx),
        test_rr(Rbx, Rbx),
        jcc(Cond::Ne, 3),
        set_d(Rbx, LIST_INITIAL_CAP),
        jmp(2),
        shift_one(Shl, Rbx),
        mov(Rcx, Rbx),
        shift(Shl, Rcx, 3),
        alu_imm32(Add, Rcx, LIST_DATA_OFF),
        call(Symbol::HeapAlloc),
        mov(Rdi, Rax),
        load(R10, at_d(Rsi, LIST_LEN_OFF)),
        store(at_d(Rdi, LIST_LEN_OFF), R10),
        store(at_d(Rdi, LIST_CAP_OFF), Rbx),
        load(Rbx, at_d(Rsi, LIST_LEN_OFF)),
    ];
    emit_list_word_copy_loop_rsi_rdi_rbx(&mut program);
    extend(
        &mut program,
        vec![
            mov(Rax, Rdi),
            jmp(2),
            mov(Rax, Rsi),
            alu_imm8(Add, Rsp, 40),
            Pop(Rbx),
            Pop(Rdi),
            Pop(Rsi),
            Ret,
        ],
    );
    assemble_helper(Symbol::ListGrow, program)
}

/// `__lullaby_map_new() -> ptr in rax`: allocate a fresh empty map block with
/// `len = 0`, `cap = MAP_INITIAL_CAP`.
pub open spec fn map_new_program() -> Seq<Insn> {
    seq![
        alu_imm8(Sub, Rsp, 40),
        // rcx = MAP_DATA_OFF + MAP_INITIAL_CAP * MAP_ENTRY_SIZE  (block byte size)
        set_d(Rcx, MAP_NEW_SIZE),
        // call __lullaby_alloc
        call(Symbol::HeapAlloc),
        // mov qword [rax + MAP_LEN_OFF], 0
        store_imm(at_d(Rax, MAP_LEN_OFF), 0),
        // mov qword [rax + MAP_CAP_OFF], MAP_INITIAL_CAP
        store_imm(at_d(Rax, MAP_CAP_OFF), MAP_INITIAL_CAP),
        alu_imm8(Add, Rsp, 40),
        Ret,
    ]
}

/// Assembles [`map_new_program`].
pub fn emit_map_new_helper() -> (helper: HelperFunction)
    ensures
        helper.implements(Symbol::MapNew, map_new_program()),
{
    assemble_helper(
        Symbol::MapNew,
        vec![
            alu_imm8(Sub, Rsp, 40),
            set_d(Rcx, MAP_NEW_SIZE),
            call(Symbol::HeapAlloc),
            store_imm(at_d(Rax, MAP_LEN_OFF), 0),
            store_imm(at_d(Rax, MAP_CAP_OFF), MAP_INITIAL_CAP),
            alu_imm8(Add, Rsp, 40),
            Ret,
        ],
    )
}

/// `__lullaby_map_copy(rcx = src) -> rax = fresh copy`: allocate a block with the
/// source's `cap`, copy the `len`/`cap` headers and the `2 * len` live entry
/// words.
pub open spec fn map_copy_program() -> Seq<Insn> {
    seq![
        Push(Rsi),
        Push(Rdi),
        Push(Rbx),
        alu_imm8(Sub, Rsp, 40),
        // rsi = src
        mov(Rsi, Rcx),
        // Allocation size = MAP_DATA_OFF + cap * MAP_ENTRY_SIZE. cap = [rsi + CAP].
        // rcx = [rsi + MAP_CAP_OFF]
        load(Rcx, at_d(Rsi, MAP_CAP_OFF)),
        // rcx = rcx * MAP_ENTRY_SIZE (16) : shl rcx, 4
        shift(Shl, Rcx, 4),
        // rcx = rcx + MAP_DATA_OFF : add rcx, imm32
        alu_imm32(Add, Rcx, MAP_DATA_OFF),
        // call __lullaby_alloc -> rax = dst
        call(Symbol::HeapAlloc),
        // rdi = dst
        mov(Rdi, Rax),
        // Copy len + cap headers (offsets 0 and 8).
        // r10 = [rsi + LEN]; [rdi + LEN] = r10
        load(R10, at_d(Rsi, MAP_LEN_OFF)),
        store(at_d(Rdi, MAP_LEN_OFF), R10),
        // r10 = [rsi + CAP]; [rdi + CAP] = r10
        load(R10, at_d(Rsi, MAP_CAP_OFF)),
        store(at_d(Rdi, MAP_CAP_OFF), R10),
        // rbx = 2 * len (entry word count to copy). rbx = [rsi + LEN]; shl rbx, 1.
        load(Rbx, at_d(Rsi, MAP_LEN_OFF)),
        shift_one(Shl, Rbx),
    ] + word_copy_loop_program() + seq![
        // rax = dst (return value)
        mov(Rax, Rdi),
        alu_imm8(Add, Rsp, 40),
        Pop(Rbx),
        Pop(Rdi),
        Pop(Rsi),
        Ret,
    ]
}

/// Assembles [`map_copy_program`].
pub fn emit_map_copy_helper() -> (helper: HelperFunction)
    ensures
        helper.implements(Symbol::MapCopy, map_copy_program()),
{
    let mut program: Vec<Insn> = vec![
        Push(Rsi),
        Push(Rdi),
        Push(Rbx),
        alu_imm8(Sub, Rsp, 40),
        mov(Rsi, Rcx),
        load(Rcx, at_d(Rsi, MAP_CAP_OFF)),
        shift(Shl, Rcx, 4),
        alu_imm32(Add, Rcx, MAP_DATA_OFF),
        call(Symbol::HeapAlloc),
        mov(Rdi, Rax),
        load(R10, at_d(Rsi, MAP_LEN_OFF)),
        store(at_d(Rdi, MAP_LEN_OFF), R10),
        load(R10, at_d(Rsi, MAP_CAP_OFF)),
        store(at_d(Rdi, MAP_CAP_OFF), R10),
        load(Rbx, at_d(Rsi, MAP_LEN_OFF)),
        shift_one(Shl, Rbx),
    ];
    emit_list_word_copy_loop_rsi_rdi_rbx(&mut program);
    extend(
        &mut program,
        vec![
            mov(Rax, Rdi),
            alu_imm8(Add, Rsp, 40),
            Pop(Rbx),
            Pop(Rdi),
            Pop(Rsi),
            Ret,
        ],
    );
    assemble_helper(Symbol::MapCopy, program)
}

/// `__lullaby_map_grow(rcx = map) -> rax = map with room for one more entry`:
/// when `len < cap` the map is returned unchanged; otherwise a block with
/// `new_cap = (cap == 0 ? MAP_INITIAL_CAP : cap * 2)` is allocated, the `len`
/// header and the `2 * len` live entry words are copied, the new `cap` is
/// written, and the fresh block is returned (the old block is orphaned).
pub open spec fn map_grow_program() -> Seq<Insn> {
    seq![
        Push(Rsi),
        Push(Rdi),
        Push(Rbx),
        alu_imm8(Sub, Rsp, 40),
        // rsi = map
        mov(Rsi, Rcx),
        // rax = len = [rsi + LEN]; rdx = cap = [rsi + CAP].
        load(Rax, at_d(Rsi, MAP_LEN_OFF)),
        load(Rdx, at_d(Rsi, MAP_CAP_OFF)),
        // if len < cap: return the map unchanged.
        alu(Cmp, Rax, Rdx),
        jcc(Cond::L, 26),
        // rbx = new_cap = (cap == 0 ? MAP_INITIAL_CAP : cap * 2).
        mov(Rbx, Rdx),
        test_rr(Rbx, Rbx),
        jcc(Cond::Ne, 3),
        set_d(Rbx, MAP_INITIAL_CAP),
        jmp(2),
        // double: rbx = cap * 2 (shl rbx, 1)
        shift_one(Shl, Rbx),
        // sized: allocate MAP_DATA_OFF + new_cap * MAP_ENTRY_SIZE.
        // rcx = rbx * MAP_ENTRY_SIZE (16) + MAP_DATA_OFF
        mov(Rcx, Rbx),
        shift(Shl, Rcx, 4),
        alu_imm32(Add, Rcx, MAP_DATA_OFF),
        // call __lullaby_alloc -> rax = dst
        call(Symbol::HeapAlloc),
        // rdi = dst
        mov(Rdi, Rax),
        // dst.len = src.len : r10 = [rsi + LEN]; [rdi + LEN] = r10.
        load(R10, at_d(Rsi, MAP_LEN_OFF)),
        store(at_d(Rdi, MAP_LEN_OFF), R10),
        // dst.cap = new_cap (rbx) : mov [rdi + CAP], rbx.
        store(at_d(Rdi, MAP_CAP_OFF), Rbx),
        // Copy 2 * len entry words. rbx = [rsi + LEN]; shl rbx, 1.
        load(Rbx, at_d(Rsi, MAP_LEN_OFF)),
        shift_one(Shl, Rbx),
    ] + word_copy_loop_program() + seq![
        // rax = dst (the grown block).
        mov(Rax, Rdi),
        jmp(2),
        // return_same: rax = the original map (rsi).
        mov(Rax, Rsi),
        // epilogue:
        alu_imm8(Add, Rsp, 40),
        Pop(Rbx),
        Pop(Rdi),
        Pop(Rsi),
        Ret,
    ]
}

/// Assembles [`map_grow_program`].
pub fn emit_map_grow_helper() -> (helper: HelperFunction)
    ensures
        helper.implements(Symbol::MapGrow, map_grow_program()),
{
    let mut program: Vec<Insn> = vec![
        Push(Rsi),
        Push(Rdi),
        Push(Rbx),
        alu_imm8(Sub, Rsp, 40),
        mov(Rsi, Rcx),
        load(Rax, at_d(Rsi, MAP_LEN_OFF)),
        load(Rdx, at_d(Rsi, MAP_CAP_OFF)),
        alu(Cmp, Rax, Rdx),
        jcc(Cond::L, 26),
        mov(Rbx, Rdx),
        test_rr(Rbx, Rbx),
        jcc(Cond::Ne, 3),
        set_d(Rbx, MAP_INITIAL_CAP),
        jmp(2),
        shift_one(Shl, Rbx),
        mov(Rcx, Rbx),
        shift(Shl, Rcx, 4),
        alu_imm32(Add, Rcx, MAP_DATA_OFF),
        call(Symbol::HeapAlloc),
        mov(Rdi, Rax),
        load(R10, at_d(Rsi, MAP_LEN_OFF)),
        store(at_d(Rdi, MAP_LEN_OFF), R10),
        store(at_d(Rdi, MAP_CAP_OFF), Rbx),
        load(Rbx, at_d(Rsi, MAP_LEN_OFF)),
        shift_one(Shl, Rbx),
    ];
    emit_list_word_copy_loop_rsi_rdi_rbx(&mut program);
    extend(
        &mut program,
        vec![
            mov(Rax, Rdi),
            jmp(2),
            mov(Rax, Rsi),
            alu_imm8(Add, Rsp, 40),
            Pop(Rbx),
            Pop(Rdi),
            Pop(Rsi),
            Ret,
        ],
    );
    assemble_helper(Symbol::MapGrow, program)
}

/// `__lullaby_map_find(rcx = map, rdx = key) -> rax = index-or-len`: linear-scan
/// the map's entries front-to-back for the FIRST entry whose key word equals
/// `rdx`, returning its index; if none matches, return the map's `len` (the
/// "found index else len" convention). Key equality is an exact 8-byte word
/// compare (keys are integer-cell scalars), matching the interpreters' value
/// equality. No allocation, so no shadow space / callee-saved registers needed:
/// uses only volatile `rax`/`r10`/`r11`.
pub open spec fn map_find_program() -> Seq<Insn> {
    seq![
        // r10 = len = [rcx + MAP_LEN_OFF]
        load(R10, at_d(Rcx, MAP_LEN_OFF)),
        // rax = 0 (i = 0; also the running index)
        alu(Xor, Rax, Rax),
        // cmp rax, r10  ; jge not_found (rel32)
        alu(Cmp, Rax, R10),
        jcc(Cond::Ge, 9),
        // entry key addr: r11 = rcx + MAP_DATA_OFF + rax*16. rax*16 = rax<<4 into r11.
        // mov r11, rax ; shl r11, 4
        mov(R11, Rax),
        shift(Shl, R11, 4),
        // r11 = [rcx + r11 + MAP_DATA_OFF]  (load the key word)
        // mov r11, [rcx + r11 + disp32]  (REX.WRXB: r11 dest+base... base rcx no B;
        // index r11 sets X; dest r11 sets R) -> REX = W+R+X = 0x4E
        load(R11, index_d(Rcx, R11, MAP_DATA_OFF)),
        // if r11 == rdx -> found (return rax). cmp r11, rdx ; je found.
        // The `je` skips `inc rax` (3 bytes) + `jmp loop_top` (5 bytes) = 8 bytes,
        // landing on the `ret` at `found:`.
        alu(Cmp, R11, Rdx),
        jcc_short(Cond::E, 3),
        // Not equal: rax += 1 ; jmp loop_top.
        unary(Inc, Rax),
        jmp_back(8),
        // found: (je target) — rax already holds the matching index.
        Ret,
        // not_found: rax = len (r10).
        mov(Rax, R10),
        Ret,
    ]
}

/// Assembles [`map_find_program`].
pub fn emit_map_find_helper() -> (helper: HelperFunction)
    ensures
        helper.implements(Symbol::MapFind, map_find_program()),
{
    assemble_helper(
        Symbol::MapFind,
        vec![
            load(R10, at_d(Rcx, MAP_LEN_OFF)),
            alu(Xor, Rax, Rax),
            alu(Cmp, Rax, R10),
            jcc(Cond::Ge, 9),
            mov(R11, Rax),
            shift(Shl, R11, 4),
            load(R11, index_d(Rcx, R11, MAP_DATA_OFF)),
            alu(Cmp, R11, Rdx),
            jcc_short(Cond::E, 3),
            unary(Inc, Rax),
            jmp_back(8),
            Ret,
            mov(Rax, R10),
            Ret,
        ],
    )
}

} // verus!
