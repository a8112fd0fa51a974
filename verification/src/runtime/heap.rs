//! The reference-counted heap: allocation, release and whole-block copies.

use crate::mnemonics::{
    alu, alu_d, alu_imm32, alu_imm8, at, at_b, below, call, index, index8, index8_d, jcc,
    jcc_short, jmp_back, jmp_short_back, jmp_symbol, lea, load, load_b, mov, rip, shift, store,
    store_imm, test_rr, test_rr_b, unary, unary_mem,
};
use crate::runtime::{
    HEAP_REGION_SIZE, HelperFunction, LIST_DATA_OFF, STRUCT_HEADER_SIZE, assemble_helper,
};
use crate::symbols::Symbol;
use crate::x86::Alu::{Add, And, Cmp, Sub, Xor};
use crate::x86::Insn::{Pop, Push, RepMovsb, Ret, Ud2};
use crate::x86::Reg::{R10, R11, R8, R9, Rax, Rbx, Rcx, Rdi, Rdx, Rsi, Rsp};
use crate::x86::Shift::Shl;
use crate::x86::Unary::{Dec, Inc};
use crate::x86::{Cond, Insn};
use vstd::prelude::*;

verus! {

/// The free-list allocator: `__lullaby_alloc(rcx = payload size) -> rax = payload
/// pointer`.
///
/// Each block carries a 16-byte header `[size][refcount]` before the payload, so
/// the refcount is at `[payload - 8]`. The allocator first scans the LIFO free list
/// for a first-fit block (stored size at least the needed one); on a hit it unlinks
/// the block, re-seeds its refcount to 1, and returns it. Otherwise it
/// bump-allocates from the reserved heap region (seeding the bump pointer to the
/// region base on first use), traps with `ud2` when the block would end outside
/// the region, writes the size and a refcount of 1, and advances the bump pointer
/// rounded up to 8 bytes. A leaf; uses only volatile registers.
pub open spec fn heap_alloc_program() -> Seq<Insn> {
    seq![
        // r8 = need = payload size (rcx) + RC header.
        lea(R8, at_b(Rcx, 16)),
        // Free-list first-fit scan. r10 = &(prev's next slot) (starts at &free_head),
        // r11 = cur block base.
        lea(R10, rip(Symbol::HeapFreeHead)),
        load(R11, at(R10)),
        // scan: an exhausted list goes on to the bump path.
        test_rr(R11, R11),
        jcc(Cond::E, 12),
        // Too small: try the next block.
        load(Rax, at(R11)),
        alu(Cmp, Rax, R8),
        jcc(Cond::B, 6),
        // Fit: unlink the block, seed its refcount, return its payload.
        load(Rdx, at_b(R11, 8)),
        store(at(R10), Rdx),
        store_imm(at_b(R11, 8), 1),
        lea(Rax, at_b(R11, 16)),
        Ret,
        // next:
        lea(R10, at_b(R11, 8)),
        load(R11, at_b(R11, 8)),
        jmp_back(12),
        // bump: rax = heap_next, seeded to the region's base on first use.
        load(Rax, rip(Symbol::HeapNext)),
        test_rr(Rax, Rax),
        jcc_short(Cond::Ne, 2),
        lea(Rax, rip(Symbol::HeapBase)),
        // Trap unless the block ends inside the region: r9 = block end,
        // r11 = region end.
        mov(R9, Rax),
        alu(Add, R9, R8),
        lea(R11, rip(Symbol::HeapBase)),
        alu_imm32(Add, R11, HEAP_REGION_SIZE),
        alu(Cmp, R9, R11),
        jcc_short(Cond::Be, 2),
        Ud2,
        // Write the header: size, then a refcount of one.
        store(at(Rax), R8),
        store_imm(at_b(Rax, 8), 1),
        // heap_next = block end, rounded up to 8 bytes.
        mov(Rdx, Rax),
        alu(Add, Rdx, R8),
        alu_imm8(Add, Rdx, 7),
        alu_imm8(And, Rdx, 0xF8),
        store(rip(Symbol::HeapNext), Rdx),
        alu_imm8(Add, Rax, 16),
        Ret,
    ]
}

/// Assembles [`heap_alloc_program`].
pub fn emit_heap_alloc_helper() -> (helper: HelperFunction)
    ensures
        helper.implements(Symbol::HeapAlloc, heap_alloc_program()),
{
    assemble_helper(
        Symbol::HeapAlloc,
        vec![
            lea(R8, at_b(Rcx, 16)),
            lea(R10, rip(Symbol::HeapFreeHead)),
            load(R11, at(R10)),
            test_rr(R11, R11),
            jcc(Cond::E, 12),
            load(Rax, at(R11)),
            alu(Cmp, Rax, R8),
            jcc(Cond::B, 6),
            load(Rdx, at_b(R11, 8)),
            store(at(R10), Rdx),
            store_imm(at_b(R11, 8), 1),
            lea(Rax, at_b(R11, 16)),
            Ret,
            lea(R10, at_b(R11, 8)),
            load(R11, at_b(R11, 8)),
            jmp_back(12),
            load(Rax, rip(Symbol::HeapNext)),
            test_rr(Rax, Rax),
            jcc_short(Cond::Ne, 2),
            lea(Rax, rip(Symbol::HeapBase)),
            mov(R9, Rax),
            alu(Add, R9, R8),
            lea(R11, rip(Symbol::HeapBase)),
            alu_imm32(Add, R11, HEAP_REGION_SIZE),
            alu(Cmp, R9, R11),
            jcc_short(Cond::Be, 2),
            Ud2,
            store(at(Rax), R8),
            store_imm(at_b(Rax, 8), 1),
            mov(Rdx, Rax),
            alu(Add, Rdx, R8),
            alu_imm8(Add, Rdx, 7),
            alu_imm8(And, Rdx, 0xF8),
            store(rip(Symbol::HeapNext), Rdx),
            alu_imm8(Add, Rax, 16),
            Ret,
        ],
    )
}

/// `__lullaby_rc_free(rcx = payload pointer)`: push the block onto the LIFO free
/// list, or do nothing while the arena-mode flag is set (the arena reclaims by
/// rewinding the bump pointer). The block base is `rcx - 16`; the "next" link is
/// threaded through the freed block's now-dead refcount slot. A leaf; volatile
/// registers only.
pub open spec fn rc_free_program() -> Seq<Insn> {
    seq![
        // In arena mode the block is reclaimed by the arena's rewind, not here.
        load(Rax, rip(Symbol::AllocMode)),
        test_rr(Rax, Rax),
        jcc_short(Cond::E, 2),
        Ret,
        // rax = block base; thread the old head through its refcount slot.
        lea(Rax, below(Rcx, 16)),
        lea(R10, rip(Symbol::HeapFreeHead)),
        load(Rdx, at(R10)),
        store(at_b(Rax, 8), Rdx),
        store(at(R10), Rax),
        Ret,
    ]
}

/// Assembles [`rc_free_program`].
pub fn emit_rc_free_helper() -> (helper: HelperFunction)
    ensures
        helper.implements(Symbol::RcFree, rc_free_program()),
{
    assemble_helper(
        Symbol::RcFree,
        vec![
            load(Rax, rip(Symbol::AllocMode)),
            test_rr(Rax, Rax),
            jcc_short(Cond::E, 2),
            Ret,
            lea(Rax, below(Rcx, 16)),
            lea(R10, rip(Symbol::HeapFreeHead)),
            load(Rdx, at(R10)),
            store(at_b(Rax, 8), Rdx),
            store(at(R10), Rax),
            Ret,
        ],
    )
}

/// `__lullaby_rc_dec(payload ptr in rcx)`: `dec qword [rcx - 8]`; if the refcount
/// reached zero, tail-call `__lullaby_rc_free` (which returns to our caller);
/// otherwise the block is still live and we return. `rcx` (the payload pointer) is
/// preserved by the `dec` and forwarded as `rc_free`'s argument.
pub open spec fn rc_dec_program() -> Seq<Insn> {
    seq![
        unary_mem(Dec, below(Rcx, 8)),
        jcc_short(Cond::Ne, 2),
        jmp_symbol(Symbol::RcFree),
        // keep:
        Ret,
    ]
}

/// Assembles [`rc_dec_program`].
pub fn emit_rc_dec_helper() -> (helper: HelperFunction)
    ensures
        helper.implements(Symbol::RcDec, rc_dec_program()),
{
    assemble_helper(
        Symbol::RcDec,
        vec![
            unary_mem(Dec, below(Rcx, 8)),
            jcc_short(Cond::Ne, 2),
            jmp_symbol(Symbol::RcFree),
            Ret,
        ],
    )
}

/// `__lullaby_drop_string_array(block ptr in rcx)`: recursively drop a
/// `list<string>`-layout block — `rc_dec` each of its `len` shared string element
/// pointers, then `rc_dec` the block. Uses callee-saved `rbx` (block), `rdi` (len),
/// `rsi` (index) so they survive the internal `rc_dec` calls.
pub open spec fn drop_string_array_program() -> Seq<Insn> {
    seq![
        // Prologue: 3 callee-saved pushes (%16 -> 0), `sub rsp, 0x20` (shadow) keeps %16.
        Push(Rbx),
        Push(Rsi),
        Push(Rdi),
        alu_imm8(Sub, Rsp, 32),
        mov(Rbx, Rcx),
        load(Rdi, at_b(Rbx, 0)),
        alu_d(Xor, Rsi, Rsi),
        alu(Cmp, Rsi, Rdi),
        jcc(Cond::Ae, 5),
        // rc_dec(block[LIST_DATA_OFF + i*8]) — the i-th string element pointer.
        load(Rcx, index8_d(Rbx, Rsi, LIST_DATA_OFF)),
        call(Symbol::RcDec),
        unary(Inc, Rsi),
        jmp_back(5),
        // done: rc_dec the block itself.
        mov(Rcx, Rbx),
        call(Symbol::RcDec),
        alu_imm8(Add, Rsp, 32),
        Pop(Rdi),
        Pop(Rsi),
        Pop(Rbx),
        Ret,
    ]
}

/// Assembles [`drop_string_array_program`].
pub fn emit_drop_string_array_helper() -> (helper: HelperFunction)
    ensures
        helper.implements(Symbol::DropStringArray, drop_string_array_program()),
{
    assemble_helper(
        Symbol::DropStringArray,
        vec![
            Push(Rbx),
            Push(Rsi),
            Push(Rdi),
            alu_imm8(Sub, Rsp, 32),
            mov(Rbx, Rcx),
            load(Rdi, at_b(Rbx, 0)),
            alu_d(Xor, Rsi, Rsi),
            alu(Cmp, Rsi, Rdi),
            jcc(Cond::Ae, 5),
            load(Rcx, index8_d(Rbx, Rsi, LIST_DATA_OFF)),
            call(Symbol::RcDec),
            unary(Inc, Rsi),
            jmp_back(5),
            mov(Rcx, Rbx),
            call(Symbol::RcDec),
            alu_imm8(Add, Rsp, 32),
            Pop(Rdi),
            Pop(Rsi),
            Pop(Rbx),
            Ret,
        ],
    )
}

/// Emit `__lullaby_strlen_copy(src in rcx) -> len in rax`.
///
/// Measures the source (`.rdata`) length, bump-allocates `n + 1` bytes, copies
/// the string (including its terminator) into the heap, then scans the heap copy
/// for the terminator and returns that byte length. Uses the non-volatile
/// `rsi`/`rdi`/`rbx`, saved and restored around the body; keeps `rsp` 16-aligned
/// at the internal `call`.
pub open spec fn heap_strlen_program() -> Seq<Insn> {
    seq![
        // Prologue: preserve callee-saved regs we use, reserve aligned shadow space.
        Push(Rsi),
        Push(Rdi),
        Push(Rbx),
        alu_imm8(Sub, Rsp, 32),
        // rsi = src
        mov(Rsi, Rcx),
        // Measure length into rbx (scan .rdata bytes for NUL).
        mov(Rax, Rsi),
        alu(Xor, Rbx, Rbx),
        load_b(Rcx, at(Rax)),
        test_rr_b(Rcx, Rcx),
        // jz measured  (short forward; body below is inc rax; inc rbx; jmp = 3+3+2 = 8)
        jcc_short(Cond::E, 4),
        unary(Inc, Rax),
        unary(Inc, Rbx),
        jmp_short_back(5),
        // measured: allocate rbx + 1 bytes.
        lea(Rcx, at_b(Rbx, 1)),
        call(Symbol::HeapAlloc),
        // rdi = dest (heap pointer). Copy n+1 bytes rsi -> rdi.
        mov(Rdi, Rax),
        Push(Rax),
        mov(Rcx, Rbx),
        unary(Inc, Rcx),
        RepMovsb,
        Pop(Rdx),
        // Scan the heap copy for NUL, counting into rax (this read proves the copy).
        alu(Xor, Rax, Rax),
        load_b(Rcx, index(Rdx, Rax)),
        test_rr_b(Rcx, Rcx),
        // jz done  (body below is inc rax; jmp = 3 + 2 = 5)
        jcc_short(Cond::E, 3),
        unary(Inc, Rax),
        jmp_short_back(4),
        // done: epilogue.
        alu_imm8(Add, Rsp, 32),
        Pop(Rbx),
        Pop(Rdi),
        Pop(Rsi),
        Ret,
    ]
}

/// Assembles [`heap_strlen_program`].
pub fn emit_heap_strlen_helper() -> (helper: HelperFunction)
    ensures
        helper.implements(Symbol::HeapStrlen, heap_strlen_program()),
{
    assemble_helper(
        Symbol::HeapStrlen,
        vec![
            Push(Rsi),
            Push(Rdi),
            Push(Rbx),
            alu_imm8(Sub, Rsp, 32),
            mov(Rsi, Rcx),
            mov(Rax, Rsi),
            alu(Xor, Rbx, Rbx),
            load_b(Rcx, at(Rax)),
            test_rr_b(Rcx, Rcx),
            jcc_short(Cond::E, 4),
            unary(Inc, Rax),
            unary(Inc, Rbx),
            jmp_short_back(5),
            lea(Rcx, at_b(Rbx, 1)),
            call(Symbol::HeapAlloc),
            mov(Rdi, Rax),
            Push(Rax),
            mov(Rcx, Rbx),
            unary(Inc, Rcx),
            RepMovsb,
            Pop(Rdx),
            alu(Xor, Rax, Rax),
            load_b(Rcx, index(Rdx, Rax)),
            test_rr_b(Rcx, Rcx),
            jcc_short(Cond::E, 3),
            unary(Inc, Rax),
            jmp_short_back(4),
            alu_imm8(Add, Rsp, 32),
            Pop(Rbx),
            Pop(Rdi),
            Pop(Rsi),
            Ret,
        ],
    )
}

/// `__lullaby_struct_copy(rcx = src field-0 ptr) -> rax = fresh field-0 ptr`:
/// deep-copy a heap struct. Reads the `[rcx - STRUCT_HEADER_SIZE]` word count,
/// allocates `STRUCT_HEADER_SIZE + nwords * 8`, copies the header word and every
/// field word (a flat 8-byte word copy — heap-struct fields are scalars or shared
/// immutable strings at the one-level nesting bound, so the flat copy is an exact
/// deep copy), and returns the fresh block's field-0 pointer (`alloc_base +
/// STRUCT_HEADER_SIZE`). The independent block gives the struct value semantics:
/// mutating one heap-struct copy is never observable through another.
pub open spec fn struct_copy_program() -> Seq<Insn> {
    seq![
        // Preserve non-volatiles rsi (src base), rdi (dst base), rbx (nwords).
        Push(Rsi),
        Push(Rdi),
        Push(Rbx),
        alu_imm8(Sub, Rsp, 40),
        // rsi = src block base = rcx - STRUCT_HEADER_SIZE (points at the header word).
        lea(Rsi, below(Rcx, 8)),
        // rbx = nwords = [rsi]  (the header word)
        load(Rbx, at(Rsi)),
        // alloc size = STRUCT_HEADER_SIZE + nwords * 8 -> rcx
        mov(Rcx, Rbx),
        shift(Shl, Rcx, 3),
        alu_imm32(Add, Rcx, STRUCT_HEADER_SIZE),
        // call __lullaby_alloc -> rax = dst base
        call(Symbol::HeapAlloc),
        // rdi = dst base
        mov(Rdi, Rax),
        // Copy header + nwords fields: total (nwords + 1) words from rsi to rdi.
        // rbx currently holds nwords; count = nwords + 1.
        unary(Inc, Rbx),
        // for i in 0..count: [rdi + i*8] = [rsi + i*8].  Use rax as the index.
        alu(Xor, Rax, Rax),
        alu(Cmp, Rax, Rbx),
        jcc(Cond::Ge, 5),
        // r10 = [rsi + rax*8]
        load(R10, index8(Rsi, Rax)),
        // [rdi + rax*8] = r10
        store(index8(Rdi, Rax), R10),
        unary(Inc, Rax),
        jmp_back(5),
        // rax = dst field-0 pointer = rdi + STRUCT_HEADER_SIZE
        lea(Rax, at_b(Rdi, 8)),
        alu_imm8(Add, Rsp, 40),
        Pop(Rbx),
        Pop(Rdi),
        Pop(Rsi),
        Ret,
    ]
}

/// Assembles [`struct_copy_program`].
pub fn emit_struct_copy_helper() -> (helper: HelperFunction)
    ensures
        helper.implements(Symbol::StructCopy, struct_copy_program()),
{
    assemble_helper(
        Symbol::StructCopy,
        vec![
            Push(Rsi),
            Push(Rdi),
            Push(Rbx),
            alu_imm8(Sub, Rsp, 40),
            lea(Rsi, below(Rcx, 8)),
            load(Rbx, at(Rsi)),
            mov(Rcx, Rbx),
            shift(Shl, Rcx, 3),
            alu_imm32(Add, Rcx, STRUCT_HEADER_SIZE),
            call(Symbol::HeapAlloc),
            mov(Rdi, Rax),
            unary(Inc, Rbx),
            alu(Xor, Rax, Rax),
            alu(Cmp, Rax, Rbx),
            jcc(Cond::Ge, 5),
            load(R10, index8(Rsi, Rax)),
            store(index8(Rdi, Rax), R10),
            unary(Inc, Rax),
            jmp_back(5),
            lea(Rax, at_b(Rdi, 8)),
            alu_imm8(Add, Rsp, 40),
            Pop(Rbx),
            Pop(Rdi),
            Pop(Rsi),
            Ret,
        ],
    )
}

} // verus!
