//! Function frames and arenas.
//!
//! A function that allocates in an arena keeps the bump pointer and the arena mode it was
//! entered with, and restores both at every return, the one at its end as well. A loop whose
//! body keeps its allocations to itself does the same at every turn.

use crate::assembler::CodeBuffer;
use crate::bytecode::BytecodeExpr;
use crate::context::NativeCtx;
use crate::emission::{
    emit_insn, emit_program, fits, lemma_emit_nothing, lemma_emit_step, tells, Emission,
};
use crate::mnemonics::{
    alu_imm32, alu_imm8, at_d, frame, jcc_short, lea, load, mov, rip, set_d, store, test_rr,
};
use crate::symbols::Symbol;
use crate::x86::Alu::{Add, Sub};
use crate::x86::Cond::Ne;
use crate::x86::Insn::{Pop, Ret};
use crate::x86::Reg::{Rax, Rbp, Rdx, Rsp, R10};
use crate::x86::{Insn, Reg};
use vstd::prelude::*;

verus! {

// Frames

/// Reserves `amount` bytes of stack.
pub open spec fn sub_rsp_program(amount: i32) -> Seq<Insn> {
    if amount == 0 {
        seq![]
    } else if 0 <= amount <= 127 {
        seq![alu_imm8(Sub, Rsp, amount as u8)]
    } else {
        seq![alu_imm32(Sub, Rsp, amount)]
    }
}

/// Emits the reservation, in the short form when it fits.
pub fn emit_sub_rsp(code: &mut CodeBuffer, amount: i32)
    requires
        fits(old(code)@, Emission::of_program(sub_rsp_program(amount))),
    ensures
        final(code)@ == old(code)@.then_code(
            Emission::of_program(sub_rsp_program(amount)).code,
        ),
{
    let mut program: Vec<Insn> = Vec::new();
    if amount != 0 {
        if 0 <= amount && amount <= 127 {
            program.push(alu_imm8(Sub, Rsp, amount as u8));
        } else {
            program.push(alu_imm32(Sub, Rsp, amount));
        }
    }
    assert(program@ =~= sub_rsp_program(amount));
    emit_program(code, &program);
}

/// Restores the callee-saved registers from `k` on.
pub open spec fn restore_emission(saved: Seq<(Reg, i32)>, k: int) -> Emission
    decreases saved.len() - k,
{
    if k < 0 || k >= saved.len() {
        Emission::nothing()
    } else {
        Emission::of_program(seq![load(saved[k].0, frame(saved[k].1))]).then_emit(
            restore_emission(saved, k + 1),
        )
    }
}

/// Gives `frame_size` bytes of stack back and returns.
pub open spec fn leave_program(frame_size: i32) -> Seq<Insn> {
    (if frame_size == 0 {
        seq![]
    } else if 0 <= frame_size <= 127 {
        seq![alu_imm8(Add, Rsp, frame_size as u8)]
    } else {
        seq![alu_imm32(Add, Rsp, frame_size)]
    }) + seq![Pop(Rbp), Ret]
}

/// The epilogue: the callee-saved registers, the stack, the return.
pub open spec fn epilogue_emission(frame_size: i32, saved: Seq<(Reg, i32)>) -> Emission {
    restore_emission(saved, 0).then_emit(Emission::of_program(leave_program(frame_size)))
}

proof fn lemma_restore_succeeds(saved: Seq<(Reg, i32)>, k: int)
    ensures
        restore_emission(saved, k).error is None,
    decreases saved.len() - k,
{
    if 0 <= k < saved.len() {
        lemma_restore_succeeds(saved, k + 1);
    }
}

/// An epilogue is always emitted to its end.
pub proof fn law_epilogues_succeed(frame_size: i32, saved: Seq<(Reg, i32)>)
    ensures
        epilogue_emission(frame_size, saved).error is None,
{
    lemma_restore_succeeds(saved, 0);
}

/// Emits the epilogue.
pub fn emit_native_epilogue(
    code: &mut CodeBuffer,
    frame_size: i32,
    saved_reg_slots: &Vec<(Reg, i32)>,
)
    requires
        fits(old(code)@, epilogue_emission(frame_size, saved_reg_slots@)),
    ensures
        final(code)@ == old(code)@.then_code(
            epilogue_emission(frame_size, saved_reg_slots@).code,
        ),
{
    let ghost saved = saved_reg_slots@;
    let ghost restore = restore_emission(saved, 0);
    let ghost last = Emission::of_program(leave_program(frame_size));
    proof {
        lemma_restore_succeeds(saved, 0);
        lemma_emit_step(code@, restore, last);
    }
    let ghost start = code@;
    let mut k: usize = 0;
    while k < saved_reg_slots.len()
        invariant
            k <= saved.len(),
            saved == saved_reg_slots@,
            start.then_code(restore.code) == code@.then_code(
                restore_emission(saved, k as int).code,
            ),
            fits(code@, restore_emission(saved, k as int)),
        decreases saved.len() - k,
    {
        let insn = load(saved_reg_slots[k].0, frame(saved_reg_slots[k].1));
        proof {
            lemma_emit_step(
                code@,
                Emission::of_program(seq![insn]),
                restore_emission(saved, k + 1),
            );
        }
        emit_insn(code, insn);
        k += 1;
    }
    proof {
        lemma_emit_nothing(code@);
    }
    let mut program: Vec<Insn> = Vec::new();
    if frame_size != 0 {
        if 0 <= frame_size && frame_size <= 127 {
            program.push(alu_imm8(Add, Rsp, frame_size as u8));
        } else {
            program.push(alu_imm32(Add, Rsp, frame_size));
        }
    }
    program.push(Pop(Rbp));
    program.push(Ret);
    assert(program@ =~= leave_program(frame_size));
    emit_program(code, &program);
}

// Arenas

/// Seeds the bump pointer with the heap's base if it was never set.
pub open spec fn seed_program() -> Seq<Insn> {
    seq![
        load(Rax, rip(Symbol::HeapNext)),
        test_rr(Rax, Rax),
        jcc_short(Ne, 2),
        lea(Rax, rip(Symbol::HeapBase)),
        store(rip(Symbol::HeapNext), Rax),
    ]
}

/// Keeps the bump pointer and the arena mode, and enters arena mode.
pub open spec fn enter_program(mark: i32, saved_mode: i32) -> Seq<Insn> {
    seq![
        load(Rax, rip(Symbol::HeapNext)),
        store(frame(mark), Rax),
        load(Rax, rip(Symbol::AllocMode)),
        store(frame(saved_mode), Rax),
        set_d(Rax, 1),
        store(rip(Symbol::AllocMode), Rax),
    ]
}

/// The arena prologue: a function that carries a closure out of its arena needs a real
/// address in its mark, so it seeds the bump pointer first.
pub open spec fn arena_prologue_program(ctx: NativeCtx) -> Seq<Insn> {
    (if ctx.promotes_closure_return {
        seed_program()
    } else {
        seq![]
    }) + enter_program(ctx.arena_mark_slot, ctx.arena_saved_mode_slot)
}

/// Emits the arena prologue.
pub fn emit_arena_prologue(ctx: &NativeCtx, code: &mut CodeBuffer)
    requires
        fits(old(code)@, Emission::of_program(arena_prologue_program(*ctx))),
    ensures
        final(code)@ == old(code)@.then_code(
            Emission::of_program(arena_prologue_program(*ctx)).code,
        ),
{
    let mut program: Vec<Insn> = Vec::new();
    if ctx.promotes_closure_return {
        program.push(load(Rax, rip(Symbol::HeapNext)));
        program.push(test_rr(Rax, Rax));
        program.push(jcc_short(Ne, 2));
        program.push(lea(Rax, rip(Symbol::HeapBase)));
        program.push(store(rip(Symbol::HeapNext), Rax));
    }
    program.push(load(Rax, rip(Symbol::HeapNext)));
    program.push(store(frame(ctx.arena_mark_slot), Rax));
    program.push(load(Rax, rip(Symbol::AllocMode)));
    program.push(store(frame(ctx.arena_saved_mode_slot), Rax));
    program.push(set_d(Rax, 1));
    program.push(store(rip(Symbol::AllocMode), Rax));
    assert(program@ =~= arena_prologue_program(*ctx));
    emit_program(code, &program);
}

/// Sets the bump pointer back to the mark.
pub open spec fn rewind_program(mark: i32) -> Seq<Insn> {
    seq![load(R10, frame(mark)), store(rip(Symbol::HeapNext), R10)]
}

/// Sets the arena mode back.
pub open spec fn restore_mode_program(saved_mode: i32) -> Seq<Insn> {
    seq![load(R10, frame(saved_mode)), store(rip(Symbol::AllocMode), R10)]
}

/// Copies the words from `k` on of the `n` at `rax` down to `r10`.
pub open spec fn carry_emission(k: int, n: int) -> Emission
    decreases n - k,
{
    if k >= n {
        Emission::nothing()
    } else {
        Emission::of_program(
            seq![load(Rdx, at_d(Rax, (8 * k) as i32)), store(at_d(R10, (8 * k) as i32), Rdx)],
        ).then_emit(carry_emission(k + 1, n))
    }
}

/// How many words a block of `size` bytes has.
pub open spec fn word_count(size: i32) -> int {
    if size < 8 {
        0
    } else {
        size as int / 8
    }
}

/// Carries the block of `size` bytes that `rax` points to out of the arena: it moves to
/// the mark, and the bump pointer stays behind it.
pub open spec fn carry_out_emission(mark: i32, size: i32) -> Emission {
    Emission::of_program(seq![load(R10, frame(mark))]).then_emit(
        carry_emission(0, word_count(size)).then_emit(
            Emission::of_program(
                seq![
                    mov(Rax, R10),
                    lea(R10, at_d(R10, size)),
                    store(rip(Symbol::HeapNext), R10),
                ],
            ),
        ),
    )
}

/// What a return does to the arena: nothing in a function without one; else the rewind,
/// carrying the returned closure out where the function promises one, and last the arena
/// mode.
pub open spec fn arena_reset_emission(
    ctx: NativeCtx,
    return_expr: Option<&BytecodeExpr>,
) -> Emission {
    let mode = Emission::of_program(restore_mode_program(ctx.arena_saved_mode_slot));
    if !ctx.is_arena {
        Emission::nothing()
    } else if !ctx.promotes_closure_return {
        Emission::of_program(rewind_program(ctx.arena_mark_slot)).then_emit(mode)
    } else {
        match return_expr {
            None => Emission::refused(
                "a promoting closure factory reached a return edge with no survivor expression to relocate; refusing to plain-rewind a live block"@,
            ),
            Some(expr) => match expr.code.survivor {
                None => Emission::refused(
                    "a promoting closure factory's return edge does not resolve to a flat scalar-capture closure survivor; refusing to plain-rewind a live block"@,
                ),
                Some(size) => carry_out_emission(ctx.arena_mark_slot, size).then_emit(mode),
            },
        }
    }
}

proof fn lemma_carry_succeeds(k: int, n: int)
    ensures
        carry_emission(k, n).error is None,
    decreases n - k,
{
    if k < n {
        lemma_carry_succeeds(k + 1, n);
    }
}

/// A function without an arena, or without a closure to carry out of it, resets it at any
/// return; one with such a closure refuses a return that does not yield one.
pub proof fn law_arena_resets(ctx: NativeCtx, return_expr: Option<&BytecodeExpr>)
    ensures
        arena_reset_emission(ctx, return_expr).error is Some <==> {
            &&& ctx.is_arena
            &&& ctx.promotes_closure_return
            &&& !(return_expr matches Some(expr) && expr.code.survivor is Some)
        },
{
    if let Some(expr) = return_expr {
        if let Some(size) = expr.code.survivor {
            lemma_carry_succeeds(0, word_count(size));
        }
    }
}

/// Emits the copy of a closure's words down to the mark.
fn emit_carry(n: usize, code: &mut CodeBuffer)
    requires
        n <= 0x1000_0000,
        fits(old(code)@, carry_emission(0, n as int)),
    ensures
        final(code)@ == old(code)@.then_code(carry_emission(0, n as int).code),
{
    let ghost whole = carry_emission(0, n as int);
    let ghost start = code@;
    let mut k: usize = 0;
    while k < n
        invariant
            k <= n <= 0x1000_0000,
            start.then_code(whole.code) == code@.then_code(
                carry_emission(k as int, n as int).code,
            ),
            fits(code@, carry_emission(k as int, n as int)),
        decreases n - k,
    {
        let disp: i32 = (8 * k) as i32;
        let program = vec![load(Rdx, at_d(Rax, disp)), store(at_d(R10, disp), Rdx)];
        proof {
            assert(program@ =~= seq![load(Rdx, at_d(Rax, disp)), store(at_d(R10, disp), Rdx)]);
            lemma_emit_step(
                code@,
                Emission::of_program(program@),
                carry_emission(k + 1, n as int),
            );
        }
        emit_program(code, &program);
        k += 1;
    }
    proof {
        lemma_emit_nothing(code@);
    }
}

/// Emits what a return does to the arena; `return_expr` is what it returns.
pub fn emit_arena_reset(
    ctx: &NativeCtx,
    code: &mut CodeBuffer,
    return_expr: Option<&BytecodeExpr>,
) -> (result: Result<(), String>)
    requires
        fits(old(code)@, arena_reset_emission(*ctx, return_expr)),
    ensures
        final(code)@ == old(code)@.then_code(arena_reset_emission(*ctx, return_expr).code),
        tells(result, arena_reset_emission(*ctx, return_expr)),
{
    if !ctx.is_arena {
        proof {
            lemma_emit_nothing(code@);
        }
        return Ok(());
    }
    let mark = ctx.arena_mark_slot;
    let ghost mode = Emission::of_program(restore_mode_program(ctx.arena_saved_mode_slot));
    if ctx.promotes_closure_return {
        let expr = match return_expr {
            Some(expr) => expr,
            None => {
                proof {
                    lemma_emit_nothing(code@);
                }
                return Err(
                    "a promoting closure factory reached a return edge with no survivor expression to relocate; refusing to plain-rewind a live block".to_owned(),
                );
            },
        };
        let size: i32 = match expr.code.survivor {
            Some(size) => size,
            None => {
                proof {
                    lemma_emit_nothing(code@);
                }
                return Err(
                    "a promoting closure factory's return edge does not resolve to a flat scalar-capture closure survivor; refusing to plain-rewind a live block".to_owned(),
                );
            },
        };
        let words: usize = if size < 8 {
            0
        } else {
            (size / 8) as usize
        };
        let finish = vec![
            mov(Rax, R10),
            lea(R10, at_d(R10, size)),
            store(rip(Symbol::HeapNext), R10),
        ];
        let ghost load_mark = Emission::of_program(seq![load(R10, frame(mark))]);
        let ghost carry = carry_emission(0, word_count(size));
        let ghost last = Emission::of_program(finish@);
        proof {
            assert(finish@ =~= seq![
                mov(Rax, R10),
                lea(R10, at_d(R10, size)),
                store(rip(Symbol::HeapNext), R10),
            ]);
            lemma_carry_succeeds(0, word_count(size));
            lemma_emit_step(code@, carry_out_emission(mark, size), mode);
            lemma_emit_step(code@, load_mark, carry.then_emit(last));
        }
        emit_insn(code, load(R10, frame(mark)));
        proof {
            lemma_emit_step(code@, carry, last);
        }
        emit_carry(words, code);
        emit_program(code, &finish);
    } else {
        let program = vec![load(R10, frame(mark)), store(rip(Symbol::HeapNext), R10)];
        proof {
            assert(program@ =~= rewind_program(mark));
            lemma_emit_step(code@, Emission::of_program(rewind_program(mark)), mode);
        }
        emit_program(code, &program);
    }
    let saved_mode = ctx.arena_saved_mode_slot;
    let program = vec![load(R10, frame(saved_mode)), store(rip(Symbol::AllocMode), R10)];
    assert(program@ =~= restore_mode_program(saved_mode));
    emit_program(code, &program);
    Ok(())
}

// Loops

/// The slot that keeps a loop's bump pointer, where the loop rewinds at every turn: in an
/// arena, when its body touches the heap and keeps what it allocates to itself.
pub open spec fn loop_mark_of(
    ctx: NativeCtx,
    touches_heap: bool,
    confines_heap: bool,
    depth: int,
) -> Option<i32> {
    if ctx.is_arena && touches_heap && confines_heap {
        Some(ctx.arena_loop_mark_slots@[depth])
    } else {
        None
    }
}

/// Decides whether a loop at nesting `depth` rewinds the arena at every turn.
pub fn arena_loop_reset_mark(
    ctx: &NativeCtx,
    touches_heap: bool,
    confines_heap: bool,
    depth: usize,
) -> (mark: Option<i32>)
    requires
        depth < ctx.arena_loop_mark_slots@.len(),
    ensures
        mark == loop_mark_of(*ctx, touches_heap, confines_heap, depth as int),
{
    if ctx.is_arena && touches_heap && confines_heap {
        Some(ctx.arena_loop_mark_slots[depth])
    } else {
        None
    }
}

/// Keeps the bump pointer in the mark.
pub open spec fn save_mark_program(mark: i32) -> Seq<Insn> {
    seq![load(Rax, rip(Symbol::HeapNext)), store(frame(mark), Rax)]
}

/// Emits the keeping of the bump pointer at a loop's entry.
pub fn emit_arena_loop_save(mark: i32, code: &mut CodeBuffer)
    requires
        fits(old(code)@, Emission::of_program(save_mark_program(mark))),
    ensures
        final(code)@ == old(code)@.then_code(
            Emission::of_program(save_mark_program(mark)).code,
        ),
{
    let program = vec![load(Rax, rip(Symbol::HeapNext)), store(frame(mark), Rax)];
    assert(program@ =~= save_mark_program(mark));
    emit_program(code, &program);
}

/// Emits the rewind at the end of a loop's turn. It leaves `rax` and `xmm0` alone.
pub fn emit_arena_loop_rewind(mark: i32, code: &mut CodeBuffer)
    requires
        fits(old(code)@, Emission::of_program(rewind_program(mark))),
    ensures
        final(code)@ == old(code)@.then_code(Emission::of_program(rewind_program(mark)).code),
{
    let program = vec![load(R10, frame(mark)), store(rip(Symbol::HeapNext), R10)];
    assert(program@ =~= rewind_program(mark));
    emit_program(code, &program);
}

} // verus!
