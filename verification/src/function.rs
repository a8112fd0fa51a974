//! Functions.
//!
//! A function opens its frame, keeps the callee-saved registers it uses, seats its
//! parameters, enters its arena if it has one, and runs its statements. Arguments come in
//! `rcx`, `rdx`, `r8` and `r9` (floats in `xmm0` to `xmm3`, by position), then on the
//! stack; a function that returns an aggregate takes the address to write it to as a
//! hidden first argument.

use crate::aggregate::refuse;
use crate::arena::{
    arena_prologue_program, arena_reset_emission, emit_arena_prologue, emit_arena_reset,
    emit_native_epilogue, emit_sub_rsp, epilogue_emission, law_epilogues_succeed, sub_rsp_program,
};
use crate::assembler::{law_code_sequencing_neutral, Code, CodeBuffer};
use crate::bytecode::{
    BytecodeExpr, BytecodeFunction, BytecodeInstruction, BytecodeParam, CompoundForm,
};
use crate::context::{slot_above, unknown_local, NativeCtx};
use crate::emission::{
    emit, emit_bytes, emit_insn, emit_program, fits, in_order, law_emitting_associates,
    law_emitting_nothing, law_first_part_comes_first, law_parts_stand_in_order, lemma_emit_nothing,
    lemma_emit_step, tells, Emission,
};
use crate::image::{Blob, LoweredNativeFunction};
use crate::layout::{measurable, words_of, Layout, NativeType};
use crate::mnemonics::{alu, at_d, frame, load, mov, store, store_local};
use crate::resolve::message;
use crate::statement::{
    lower_first_stmts, lowerable, return_emission, stmt_flow, stmts_flow, NativeLoop,
};
use crate::x86::Alu::Xor;
use crate::x86::Insn::Push;
use crate::x86::Reg::{R8, R9, Rax, Rbp, Rcx, Rdx, Rsp};
use crate::x86::{FloatWidth, Insn, Reg, Xmm};
use vstd::prelude::*;

verus! {

// Arguments

/// The register of the argument at `position`, one of the first four.
#[verifier::allow_in_spec]
pub fn arg_reg(position: usize) -> Reg
    returns
        (if position == 0 {
            Rcx
        } else if position == 1 {
            Rdx
        } else if position == 2 {
            R8
        } else {
            R9
        }),
{
    if position == 0 {
        Rcx
    } else if position == 1 {
        Rdx
    } else if position == 2 {
        R8
    } else {
        R9
    }
}

/// The register of the float argument at `position`, one of the first four.
#[verifier::allow_in_spec]
pub fn arg_xmm(position: usize) -> Xmm
    returns
        (if position == 0 {
            Xmm::Xmm0
        } else if position == 1 {
            Xmm::Xmm1
        } else if position == 2 {
            Xmm::Xmm2
        } else {
            Xmm::Xmm3
        }),
{
    if position == 0 {
        Xmm::Xmm0
    } else if position == 1 {
        Xmm::Xmm1
    } else if position == 2 {
        Xmm::Xmm2
    } else {
        Xmm::Xmm3
    }
}

/// Loads the argument at `position`, the fifth or a later one, into `rax`. The fifth lies
/// above the saved frame pointer, the return address and the caller's shadow space.
#[verifier::allow_in_spec]
pub fn load_stack_arg(position: usize) -> Insn
    returns
        (load(
            Rax,
            at_d(Rbp, 48i32.wrapping_add((position as i32).wrapping_sub(4).wrapping_mul(8))),
        )),
{
    load(
        Rax,
        at_d(Rbp, 48i32.wrapping_add((position as i32).wrapping_sub(4).wrapping_mul(8))),
    )
}

/// Brings the argument at `position` into `rax`.
#[verifier::allow_in_spec]
pub fn argument_into_rax(position: usize) -> Insn
    returns
        (if position >= 4 {
            load_stack_arg(position)
        } else {
            mov(Rax, arg_reg(position))
        }),
{
    if position >= 4 {
        load_stack_arg(position)
    } else {
        mov(Rax, arg_reg(position))
    }
}

// Parameters

/// Keeps a float argument in its slot. On the stack it is a word like any other.
pub open spec fn float_param_program(slot: i32, position: usize, width: FloatWidth) -> Seq<Insn> {
    if position >= 4 {
        seq![load_stack_arg(position), store_local(slot)]
    } else {
        seq![Insn::MovsStore { width, mem: frame(slot), xmm: arg_xmm(position) }]
    }
}

/// Keeps a word argument in its slot, or in its register where the local has one.
pub open spec fn word_param_program(
    slot: i32,
    position: usize,
    promoted: Option<Reg>,
) -> Seq<Insn> {
    match promoted {
        Some(reg) => if position >= 4 {
            seq![load_stack_arg(position), mov(reg, Rax)]
        } else {
            seq![mov(reg, arg_reg(position))]
        },
        None => if position >= 4 {
            seq![load_stack_arg(position), store_local(slot)]
        } else {
            seq![store(frame(slot), arg_reg(position))]
        },
    }
}

/// Copies the words from `k` on of the `n` that `rax` points to into the slots at `slot`.
pub open spec fn copy_in_emission(slot: i32, k: int, n: int) -> Emission
    decreases n - k,
{
    if k >= n {
        Emission::nothing()
    } else {
        Emission::of_program(
            seq![
                load(Rcx, at_d(Rax, (k as usize as i32).wrapping_mul(8))),
                store(frame(slot_above(slot, k as usize, 8)), Rcx),
            ],
        ).then_emit(copy_in_emission(slot, k + 1, n))
    }
}

/// Seats the parameter called `name`, whose argument is at `position`.
pub open spec fn param_emission(ctx: NativeCtx, name: Seq<char>, position: usize) -> Emission {
    match ctx.local_of(name) {
        None => Emission::refused(unknown_local(name)),
        Some(local) => match local.ty@ {
            Layout::Narrow { .. } => Emission::refused(
                "parameter `"@ + name
                    + "` resolves to a packed narrow layout, which is an array-element-only representation and is not in the native subset"@,
            ),
            Layout::Void => Emission::refused(
                "parameter `"@ + name
                    + "` is `void`; a void parameter is not in the native subset"@,
            ),
            Layout::F64 => Emission::of_program(
                float_param_program(local.slot, position, FloatWidth::F64),
            ),
            Layout::F32 => Emission::of_program(
                float_param_program(local.slot, position, FloatWidth::F32),
            ),
            Layout::Struct { .. } | Layout::Array { .. } | Layout::Enum { .. }
            | Layout::FatArray { .. } => Emission::of_program(
                seq![argument_into_rax(position)],
            ).then_emit(copy_in_emission(local.slot, 0, words_of(local.ty@) as int)),
            _ => Emission::of_program(
                word_param_program(local.slot, position, ctx.register_of(local.slot)),
            ),
        },
    }
}

/// Seats the parameters from `k` on; the first parameter's argument is at `first`.
pub open spec fn params_emission(
    ctx: NativeCtx,
    params: Seq<BytecodeParam>,
    first: int,
    k: int,
) -> Emission
    decreases params.len() - k,
{
    if k < 0 || k >= params.len() {
        Emission::nothing()
    } else {
        param_emission(ctx, params[k].name@, (first + k) as usize).then_emit(
            params_emission(ctx, params, first, k + 1),
        )
    }
}

/// Whether the parameters' layouts can be measured.
pub open spec fn params_measurable(ctx: NativeCtx, params: Seq<BytecodeParam>) -> bool {
    forall|i: int|
        0 <= i < params.len() ==> (ctx.local_of((#[trigger] params[i]).name@) matches Some(local)
            ==> measurable(local.ty@))
}

// Entry

/// Opens the frame.
pub open spec fn open_program() -> Seq<Insn> {
    seq![Push(Rbp), mov(Rbp, Rsp)]
}

/// Keeps the callee-saved registers from `k` on.
pub open spec fn spill_emission(saved: Seq<(Reg, i32)>, k: int) -> Emission
    decreases saved.len() - k,
{
    if k < 0 || k >= saved.len() {
        Emission::nothing()
    } else {
        Emission::of_program(seq![store(frame(saved[k].1), saved[k].0)]).then_emit(
            spill_emission(saved, k + 1),
        )
    }
}

/// Keeps the hidden result pointer.
pub open spec fn result_pointer_program(sret_slot: Option<i32>) -> Seq<Insn> {
    match sret_slot {
        Some(slot) => seq![store(frame(slot), Rcx)],
        None => seq![],
    }
}

/// Where the first parameter's argument is: behind the hidden result pointer.
pub open spec fn first_position(ctx: NativeCtx) -> int {
    if ctx.sret_slot is Some {
        1
    } else {
        0
    }
}

/// Enters the arena, in a function that has one.
pub open spec fn arena_entry_program(ctx: NativeCtx) -> Seq<Insn> {
    if ctx.is_arena {
        arena_prologue_program(ctx)
    } else {
        seq![]
    }
}

/// All that comes before the statements.
pub open spec fn entry_emission(ctx: NativeCtx, params: Seq<BytecodeParam>) -> Emission {
    Emission::of_program(open_program()).then_emit(
        Emission::of_program(sub_rsp_program(ctx.frame_size)).then_emit(
            spill_emission(ctx.saved_reg_slots@, 0).then_emit(
                Emission::of_program(result_pointer_program(ctx.sret_slot)).then_emit(
                    params_emission(ctx, params, first_position(ctx), 0).then_emit(
                        Emission::of_program(arena_entry_program(ctx)),
                    ),
                ),
            ),
        ),
    )
}

// Body

/// Leaving the function with its value in place; `value` is what computed it.
pub open spec fn leave_emission(ctx: NativeCtx, value: Option<&BytecodeExpr>) -> Emission {
    arena_reset_emission(ctx, value).then_emit(
        epilogue_emission(ctx.frame_size, ctx.saved_reg_slots@),
    )
}

/// The first `n` statements, outside any loop.
pub open spec fn head_emission(
    ctx: NativeCtx,
    body: Seq<BytecodeInstruction>,
    n: int,
) -> Emission {
    stmts_flow(ctx, body, 0, n, None, 0).emission
}

/// The statements. The last one may leave the function's value: assembly always; in a
/// function that returns one, an expression that has a value, or an `if` or a `match`
/// whose branches all yield one.
pub open spec fn body_emission(ctx: NativeCtx, function: BytecodeFunction) -> Emission {
    let body = function.instructions@;
    let n = body.len() as int;
    let returns_void = function.return_type@ == "void"@;
    let whole = head_emission(ctx, body, n);
    let head = head_emission(ctx, body, n - 1);
    if n == 0 {
        whole
    } else {
        match body[n - 1] {
            BytecodeInstruction::Asm { bytes } => head.then_emit(
                Emission::of(Code { bytes: bytes@, refs: seq![] }).then_emit(
                    leave_emission(ctx, None),
                ),
            ),
            BytecodeInstruction::Expr(expr) => if !returns_void && expr.ty@ != "void"@ {
                head.then_emit(
                    expr.code.returned@.then_emit(leave_emission(ctx, Some(&expr))),
                )
            } else {
                whole
            },
            BytecodeInstruction::Compound(compound) => if !returns_void && (compound.form
                == CompoundForm::If || compound.form == CompoundForm::Match) {
                if compound.yields {
                    head.then_emit(compound.value@.then_emit(leave_emission(ctx, None)))
                } else {
                    Emission::refused(
                        "a value-producing tail `if`/`match` whose branches do not all yield a value is deferred on the native backend"@,
                    )
                }
            } else {
                whole
            },
            _ => whole,
        }
    }
}

/// Running off the end: a cleared `rax` and the epilogue. In a function that returns nothing
/// this is the way out, so it resets the arena like any other; a function that returns a
/// value has returned before.
pub open spec fn fallthrough_emission(ctx: NativeCtx) -> Emission {
    Emission::of_program(seq![alu(Xor, Rax, Rax)]).then_emit(
        if ctx.return_ty@ is Void {
            leave_emission(ctx, None)
        } else {
            epilogue_emission(ctx.frame_size, ctx.saved_reg_slots@)
        },
    )
}

/// A whole function.
pub open spec fn function_emission(ctx: NativeCtx, function: BytecodeFunction) -> Emission {
    entry_emission(ctx, function.params@).then_emit(
        body_emission(ctx, function).then_emit(fallthrough_emission(ctx)),
    )
}

/// Whether a function can be lowered at all: its parameters and statements speak of
/// layouts that can be measured, and every offset in its code fits in 32 bits.
pub open spec fn function_lowerable(ctx: NativeCtx, function: BytecodeFunction) -> bool {
    &&& params_measurable(ctx, function.params@)
    &&& forall|i: int|
        0 <= i < function.instructions@.len() ==> lowerable(
            ctx,
            #[trigger] function.instructions@[i],
        )
    &&& fits(Code::empty(), function_emission(ctx, function))
}

// Laws

/// A function that returns nothing leaves at its end as a `return` would leave: it resets its
/// arena, and restores the frame.
pub proof fn law_running_off_the_end_returns(ctx: NativeCtx)
    requires
        ctx.return_ty@ is Void,
    ensures
        fallthrough_emission(ctx) == Emission::of_program(seq![alu(Xor, Rax, Rax)]).then_emit(
            return_emission(ctx, None),
        ),
{
}

/// A statement outside any loop does not depend on where it is placed.
pub proof fn law_statement_moves_freely(ctx: NativeCtx, stmt: BytecodeInstruction, a: int, b: int)
    ensures
        stmt_flow(ctx, stmt, None, a) == stmt_flow(ctx, stmt, None, b),
    decreases stmt, 0int,
{
    if let BytecodeInstruction::RegionBlock { body } = stmt {
        law_statements_move_freely(ctx, body@, 0, body@.len() as int, a, b);
    }
}

/// Statements outside any loop do not depend on where they are placed.
pub proof fn law_statements_move_freely(
    ctx: NativeCtx,
    body: Seq<BytecodeInstruction>,
    k: int,
    n: int,
    a: int,
    b: int,
)
    ensures
        stmts_flow(ctx, body, k, n, None, a) == stmts_flow(ctx, body, k, n, None, b),
    decreases body, n - k,
{
    if 0 <= k < n <= body.len() {
        law_statement_moves_freely(ctx, body[k], a, b);
        let length = stmt_flow(ctx, body[k], None, a).emission.code.bytes.len();
        law_statements_move_freely(ctx, body, k + 1, n, a + length, b + length);
    }
}

/// The code of the first `n` statements, one by one.
pub open spec fn statement_parts(
    ctx: NativeCtx,
    body: Seq<BytecodeInstruction>,
    n: int,
) -> Seq<Emission> {
    Seq::new(n as nat, |i: int| stmt_flow(ctx, body[i], None, 0).emission)
}

/// Statements are emitted in order, each as it is by itself.
pub proof fn law_statements_come_in_order(
    ctx: NativeCtx,
    body: Seq<BytecodeInstruction>,
    k: int,
    n: int,
    at: int,
)
    requires
        0 <= k <= n <= body.len(),
    ensures
        stmts_flow(ctx, body, k, n, None, at).emission == in_order(
            statement_parts(ctx, body, n).skip(k),
        ),
    decreases n - k,
{
    let parts = statement_parts(ctx, body, n);
    if k < n {
        law_statement_moves_freely(ctx, body[k], at, 0);
        let length = stmt_flow(ctx, body[k], None, at).emission.code.bytes.len();
        law_statements_come_in_order(ctx, body, k + 1, n, at + length);
        assert(parts.skip(k) =~= seq![parts[k]] + parts.skip(k + 1));
        law_first_part_comes_first(parts[k], parts.skip(k + 1));
    } else {
        assert(parts.skip(k).len() == 0);
    }
}

/// What a function that ends in this statement is left with: the code of the statement where it
/// leaves the function's value, and the expression that has the value.
pub open spec fn tail_value(function: BytecodeFunction, last: BytecodeInstruction) -> Option<
    (Emission, Option<BytecodeExpr>),
> {
    let valued = function.return_type@ != "void"@;
    match last {
        BytecodeInstruction::Asm { bytes } => Some(
            (Emission::of(Code { bytes: bytes@, refs: seq![] }), None),
        ),
        BytecodeInstruction::Expr(expr) if valued && expr.ty@ != "void"@ => Some(
            (expr.code.returned@, Some(expr)),
        ),
        BytecodeInstruction::Compound(compound) if valued && (compound.form == CompoundForm::If
            || compound.form == CompoundForm::Match) => Some((compound.value@, None)),
        _ => None,
    }
}

/// The parts that the last statement comes to: the code of its value and leaving the function,
/// or its own code.
pub open spec fn tail_parts(ctx: NativeCtx, function: BytecodeFunction) -> Seq<Emission> {
    let last = function.instructions@.last();
    match tail_value(function, last) {
        Some((code, value)) => seq![
            code,
            leave_emission(
                ctx,
                match value {
                    Some(expr) => Some(&expr),
                    None => None,
                },
            ),
        ],
        None => seq![stmt_flow(ctx, last, None, 0).emission],
    }
}

/// The parts of a function: its entry, its statements in order, leaving it where the last
/// statement has its value, and running off its end.
pub open spec fn function_parts(ctx: NativeCtx, function: BytecodeFunction) -> Seq<Emission> {
    let body = function.instructions@;
    let entry = seq![entry_emission(ctx, function.params@)];
    let end = seq![fallthrough_emission(ctx)];
    if body.len() == 0 {
        entry + end
    } else {
        entry + statement_parts(ctx, body, body.len() - 1) + tail_parts(ctx, function) + end
    }
}

/// Whether a function ends in an `if` or a `match` for its value, not all of whose branches have
/// one.
pub open spec fn lacks_value(function: BytecodeFunction) -> bool {
    let body = function.instructions@;
    &&& body.len() > 0
    &&& function.return_type@ != "void"@
    &&& body.last() matches BytecodeInstruction::Compound(compound)
    &&& compound.form == CompoundForm::If || compound.form == CompoundForm::Match
    &&& !compound.yields
}

proof fn lemma_in_order_joins(a: Seq<Emission>, b: Seq<Emission>)
    ensures
        in_order(a + b) == in_order(a).then_emit(in_order(b)),
    decreases a.len(),
{
    if a.len() == 0 {
        assert(a + b =~= b);
        law_emitting_nothing(in_order(b));
    } else {
        let rest = a.skip(1);
        assert(a =~= seq![a[0]] + rest);
        assert(a + b =~= seq![a[0]] + (rest + b));
        lemma_in_order_joins(rest, b);
        law_first_part_comes_first(a[0], rest);
        law_first_part_comes_first(a[0], rest + b);
        law_emitting_associates(a[0], in_order(rest), in_order(b));
    }
}

proof fn lemma_one_part(a: Emission)
    ensures
        in_order(seq![a]) == a,
{
    let none = Seq::<Emission>::empty();
    assert(seq![a] =~= seq![a] + none);
    law_first_part_comes_first(a, none);
    law_emitting_nothing(a);
}

/// Entry, statements, a tail of one or two parts, and the end.
proof fn lemma_join_all(entry: Emission, heads: Seq<Emission>, tail: Seq<Emission>, end: Emission)
    ensures
        in_order(seq![entry] + heads + tail + seq![end]) == entry.then_emit(
            in_order(heads).then_emit(in_order(tail)).then_emit(end),
        ),
{
    lemma_one_part(entry);
    lemma_one_part(end);
    lemma_in_order_joins(seq![entry], heads);
    lemma_in_order_joins(seq![entry] + heads, tail);
    lemma_in_order_joins(seq![entry] + heads + tail, seq![end]);
    law_emitting_associates(entry, in_order(heads), in_order(tail));
    law_emitting_associates(entry, in_order(heads).then_emit(in_order(tail)), end);
}

proof fn lemma_two_parts(a: Emission, b: Emission)
    ensures
        in_order(seq![a, b]) == a.then_emit(b),
{
    assert(seq![a, b] =~= seq![a] + seq![b]);
    lemma_one_part(a);
    lemma_one_part(b);
    lemma_in_order_joins(seq![a], seq![b]);
}

/// What the last statement of a function comes to.
pub open spec fn tail_emission(ctx: NativeCtx, function: BytecodeFunction) -> Emission {
    let last = function.instructions@.last();
    match tail_value(function, last) {
        Some((code, value)) => code.then_emit(
            leave_emission(
                ctx,
                match value {
                    Some(expr) => Some(&expr),
                    None => None,
                },
            ),
        ),
        None => stmt_flow(ctx, last, None, 0).emission,
    }
}

proof fn lemma_tail_in_order(ctx: NativeCtx, function: BytecodeFunction)
    ensures
        in_order(tail_parts(ctx, function)) == tail_emission(ctx, function),
{
    let last = function.instructions@.last();
    match tail_value(function, last) {
        Some((code, value)) => {
            let leave = leave_emission(
                ctx,
                match value {
                    Some(expr) => Some(&expr),
                    None => None,
                },
            );
            assert(tail_parts(ctx, function) =~= seq![code, leave]);
            lemma_two_parts(code, leave);
        },
        None => {
            let own = stmt_flow(ctx, last, None, 0).emission;
            assert(tail_parts(ctx, function) =~= seq![own]);
            lemma_one_part(own);
        },
    }
}

/// The statements of a function, one by one.
proof fn lemma_body_in_order(ctx: NativeCtx, function: BytecodeFunction)
    requires
        !lacks_value(function),
        function.instructions@.len() > 0,
    ensures
        ({
            let body = function.instructions@;
            body_emission(ctx, function) == in_order(
                statement_parts(ctx, body, body.len() - 1),
            ).then_emit(tail_emission(ctx, function))
        }),
{
    let body = function.instructions@;
    let n = body.len() as int;
    let heads = statement_parts(ctx, body, n - 1);
    assert(body.last() == body[n - 1]);
    law_statements_come_in_order(ctx, body, 0, n - 1, 0);
    assert(heads.skip(0) =~= heads);
    if tail_value(function, body[n - 1]) is None {
        let tail = stmt_flow(ctx, body[n - 1], None, 0).emission;
        let all = statement_parts(ctx, body, n);
        law_statements_come_in_order(ctx, body, 0, n, 0);
        assert(all.skip(0) =~= all);
        assert(all =~= heads + seq![tail]);
        lemma_one_part(tail);
        lemma_in_order_joins(heads, seq![tail]);
    }
}

/// A function's code is its entry and then every statement in order, whatever the last one is.
/// Nothing stands between them, nothing is left out, and nothing of one statement depends on
/// another. Only a function whose tail lacks a value is refused before its statements.
pub proof fn law_function_is_its_statements(ctx: NativeCtx, function: BytecodeFunction)
    requires
        !lacks_value(function),
    ensures
        function_emission(ctx, function) == in_order(function_parts(ctx, function)),
{
    let body = function.instructions@;
    let n = body.len() as int;
    let entry = entry_emission(ctx, function.params@);
    let end = fallthrough_emission(ctx);
    if n == 0 {
        lemma_two_parts(entry, end);
        assert(seq![entry] + seq![end] =~= seq![entry, end]);
        law_emitting_nothing(end);
    } else {
        lemma_body_in_order(ctx, function);
        lemma_tail_in_order(ctx, function);
        lemma_join_all(
            entry,
            statement_parts(ctx, body, n - 1),
            tail_parts(ctx, function),
            end,
        );
    }
}

/// Every statement but the last of a function that is lowered stands in its code as it is by
/// itself, right behind the entry and the statements before it.
pub proof fn law_statements_stand_in_the_function(
    ctx: NativeCtx,
    function: BytecodeFunction,
    k: int,
)
    requires
        function_emission(ctx, function).error is None,
        0 <= k < function.instructions@.len() - 1,
    ensures
        ({
            let part = stmt_flow(ctx, function.instructions@[k], None, 0).emission.code.bytes;
            let before = in_order(
                seq![entry_emission(ctx, function.params@)] + statement_parts(
                    ctx,
                    function.instructions@,
                    k,
                ),
            ).code.bytes;
            let code = function_emission(ctx, function).code.bytes;
            &&& before.len() + part.len() <= code.len()
            &&& code.subrange(before.len() as int, (before.len() + part.len()) as int) == part
        }),
{
    let body = function.instructions@;
    assert(!lacks_value(function)) by {
        if lacks_value(function) {
            assert(body.last() == body[body.len() - 1]);
        }
    }
    law_function_is_its_statements(ctx, function);
    let parts = function_parts(ctx, function);
    law_parts_stand_in_order(parts, k + 1);
    let first = seq![entry_emission(ctx, function.params@)] + statement_parts(ctx, body, k);
    assert(parts.take(k + 1) =~= first);
    assert(parts[k + 1] == stmt_flow(ctx, body[k], None, 0).emission);
}

// Lowering

/// Appends the copy of an aggregate argument into its slots.
fn emit_copy_in(slot: i32, n: usize, code: &mut CodeBuffer)
    requires
        fits(old(code)@, copy_in_emission(slot, 0, n as int)),
    ensures
        final(code)@ == old(code)@.then_code(copy_in_emission(slot, 0, n as int).code),
        copy_in_emission(slot, 0, n as int).error is None,
{
    let ghost whole = copy_in_emission(slot, 0, n as int);
    let ghost start = code@;
    let mut k: usize = 0;
    while k < n
        invariant
            k <= n,
            start.then_code(whole.code) == code@.then_code(
                copy_in_emission(slot, k as int, n as int).code,
            ),
            whole.error == copy_in_emission(slot, k as int, n as int).error,
            fits(code@, copy_in_emission(slot, k as int, n as int)),
        decreases n - k,
    {
        let program = vec![
            load(Rcx, at_d(Rax, (k as i32).wrapping_mul(8))),
            store(frame(slot_above(slot, k, 8)), Rcx),
        ];
        proof {
            assert(program@ =~= seq![
                load(Rcx, at_d(Rax, (k as i32).wrapping_mul(8))),
                store(frame(slot_above(slot, k, 8)), Rcx),
            ]);
            lemma_emit_step(
                code@,
                Emission::of_program(program@),
                copy_in_emission(slot, k + 1, n as int),
            );
        }
        emit_program(code, &program);
        k += 1;
    }
    proof {
        lemma_emit_nothing(code@);
    }
}

/// Appends the keeping of a float argument.
fn emit_float_param(slot: i32, position: usize, width: FloatWidth, code: &mut CodeBuffer)
    requires
        fits(old(code)@, Emission::of_program(float_param_program(slot, position, width))),
    ensures
        final(code)@ == old(code)@.then_code(
            Emission::of_program(float_param_program(slot, position, width)).code,
        ),
{
    let mut program: Vec<Insn> = Vec::new();
    if position >= 4 {
        program.push(load_stack_arg(position));
        program.push(store_local(slot));
    } else {
        program.push(Insn::MovsStore { width, mem: frame(slot), xmm: arg_xmm(position) });
    }
    assert(program@ =~= float_param_program(slot, position, width));
    emit_program(code, &program);
}

/// Appends the keeping of a word argument.
fn emit_word_param(slot: i32, position: usize, promoted: Option<Reg>, code: &mut CodeBuffer)
    requires
        fits(old(code)@, Emission::of_program(word_param_program(slot, position, promoted))),
    ensures
        final(code)@ == old(code)@.then_code(
            Emission::of_program(word_param_program(slot, position, promoted)).code,
        ),
{
    let mut program: Vec<Insn> = Vec::new();
    if position >= 4 {
        program.push(load_stack_arg(position));
        match promoted {
            Some(reg) => program.push(mov(reg, Rax)),
            None => program.push(store_local(slot)),
        }
    } else {
        match promoted {
            Some(reg) => program.push(mov(reg, arg_reg(position))),
            None => program.push(store(frame(slot), arg_reg(position))),
        }
    }
    assert(program@ =~= word_param_program(slot, position, promoted));
    emit_program(code, &program);
}

/// Seats the parameter called `name`.
fn lower_param(ctx: &NativeCtx, name: &String, position: usize, code: &mut CodeBuffer) -> (result:
    Result<(), String>)
    requires
        ctx.local_of(name@) matches Some(local) ==> measurable(local.ty@),
        fits(old(code)@, param_emission(*ctx, name@, position)),
    ensures
        final(code)@ == old(code)@.then_code(param_emission(*ctx, name@, position).code),
        tells(result, param_emission(*ctx, name@, position)),
{
    let local = match ctx.local(name) {
        Ok(local) => local,
        Err(why) => {
            proof {
                lemma_emit_nothing(code@);
            }
            return Err(why);
        },
    };
    let slot = local.slot;
    match &local.ty {
        NativeType::Narrow { .. } => {
            return refuse(
                code,
                message(
                    "parameter `",
                    name.as_str(),
                    "` resolves to a packed narrow layout, which is an array-element-only representation and is not in the native subset",
                ).as_str(),
            );
        },
        NativeType::Void => {
            return refuse(
                code,
                message(
                    "parameter `",
                    name.as_str(),
                    "` is `void`; a void parameter is not in the native subset",
                ).as_str(),
            );
        },
        NativeType::F64 => emit_float_param(slot, position, FloatWidth::F64, code),
        NativeType::F32 => emit_float_param(slot, position, FloatWidth::F32, code),
        NativeType::Struct { .. } | NativeType::Array { .. } | NativeType::Enum { .. }
        | NativeType::FatArray { .. } => {
            let words: usize = local.ty.words();
            proof {
                lemma_emit_step(
                    code@,
                    Emission::of_program(seq![argument_into_rax(position)]),
                    copy_in_emission(slot, 0, words as int),
                );
            }
            emit_insn(code, argument_into_rax(position));
            emit_copy_in(slot, words, code);
        },
        _ => emit_word_param(slot, position, ctx.promoted_reg(slot), code),
    }
    Ok(())
}

/// Seats the parameters.
fn lower_params(ctx: &NativeCtx, params: &Vec<BytecodeParam>, code: &mut CodeBuffer) -> (result:
    Result<(), String>)
    requires
        params_measurable(*ctx, params@),
        fits(old(code)@, params_emission(*ctx, params@, first_position(*ctx), 0)),
    ensures
        final(code)@ == old(code)@.then_code(
            params_emission(*ctx, params@, first_position(*ctx), 0).code,
        ),
        tells(result, params_emission(*ctx, params@, first_position(*ctx), 0)),
{
    let first: usize = match ctx.sret_slot {
        Some(_) => 1,
        None => 0,
    };
    let ghost whole = params_emission(*ctx, params@, first as int, 0);
    let ghost start = code@;
    let mut k: usize = 0;
    while k < params.len()
        invariant
            k <= params@.len(),
            first <= 1,
            first == first_position(*ctx),
            params_measurable(*ctx, params@),
            start == old(code)@,
            whole == params_emission(*ctx, params@, first as int, 0),
            start.then_code(whole.code) == code@.then_code(
                params_emission(*ctx, params@, first as int, k as int).code,
            ),
            whole.error == params_emission(*ctx, params@, first as int, k as int).error,
            fits(code@, params_emission(*ctx, params@, first as int, k as int)),
        decreases params@.len() - k,
    {
        let position: usize = first + k;
        proof {
            lemma_emit_step(
                code@,
                param_emission(*ctx, params@[k as int].name@, position),
                params_emission(*ctx, params@, first as int, k + 1),
            );
        }
        match lower_param(ctx, &params[k].name, position, code) {
            Ok(_) => {},
            Err(why) => {
                return Err(why);
            },
        }
        k += 1;
    }
    proof {
        lemma_emit_nothing(code@);
    }
    Ok(())
}

/// Appends the keeping of the callee-saved registers.
fn emit_spills(saved: &Vec<(Reg, i32)>, code: &mut CodeBuffer)
    requires
        fits(old(code)@, spill_emission(saved@, 0)),
    ensures
        final(code)@ == old(code)@.then_code(spill_emission(saved@, 0).code),
        spill_emission(saved@, 0).error is None,
{
    let ghost whole = spill_emission(saved@, 0);
    let ghost start = code@;
    let mut k: usize = 0;
    while k < saved.len()
        invariant
            k <= saved@.len(),
            start.then_code(whole.code) == code@.then_code(spill_emission(saved@, k as int).code),
            whole.error == spill_emission(saved@, k as int).error,
            fits(code@, spill_emission(saved@, k as int)),
        decreases saved@.len() - k,
    {
        let insn = store(frame(saved[k].1), saved[k].0);
        proof {
            lemma_emit_step(
                code@,
                Emission::of_program(seq![insn]),
                spill_emission(saved@, k + 1),
            );
        }
        emit_insn(code, insn);
        k += 1;
    }
    proof {
        lemma_emit_nothing(code@);
    }
}

proof fn lemma_spills_succeed(saved: Seq<(Reg, i32)>, k: int)
    ensures
        spill_emission(saved, k).error is None,
    decreases saved.len() - k,
{
    if 0 <= k < saved.len() {
        lemma_spills_succeed(saved, k + 1);
    }
}

/// Appends all that comes before the statements.
fn lower_entry(ctx: &NativeCtx, params: &Vec<BytecodeParam>, code: &mut CodeBuffer) -> (result:
    Result<(), String>)
    requires
        params_measurable(*ctx, params@),
        fits(old(code)@, entry_emission(*ctx, params@)),
    ensures
        final(code)@ == old(code)@.then_code(entry_emission(*ctx, params@).code),
        tells(result, entry_emission(*ctx, params@)),
{
    let opening = vec![Push(Rbp), mov(Rbp, Rsp)];
    let mut result_pointer: Vec<Insn> = Vec::new();
    match ctx.sret_slot {
        Some(slot) => result_pointer.push(store(frame(slot), Rcx)),
        None => {},
    }
    let ghost arena = Emission::of_program(arena_entry_program(*ctx));
    let ghost seats = params_emission(*ctx, params@, first_position(*ctx), 0);
    let ghost pointer = Emission::of_program(result_pointer_program(ctx.sret_slot));
    let ghost spills = spill_emission(ctx.saved_reg_slots@, 0);
    let ghost reserve = Emission::of_program(sub_rsp_program(ctx.frame_size));
    proof {
        assert(opening@ =~= open_program());
        assert(result_pointer@ =~= result_pointer_program(ctx.sret_slot));
        lemma_spills_succeed(ctx.saved_reg_slots@, 0);
        lemma_emit_step(
            code@,
            Emission::of_program(open_program()),
            reserve.then_emit(spills.then_emit(pointer.then_emit(seats.then_emit(arena)))),
        );
    }
    emit_program(code, &opening);
    proof {
        lemma_emit_step(
            code@,
            reserve,
            spills.then_emit(pointer.then_emit(seats.then_emit(arena))),
        );
    }
    emit_sub_rsp(code, ctx.frame_size);
    proof {
        lemma_emit_step(code@, spills, pointer.then_emit(seats.then_emit(arena)));
    }
    emit_spills(&ctx.saved_reg_slots, code);
    proof {
        lemma_emit_step(code@, pointer, seats.then_emit(arena));
    }
    emit_program(code, &result_pointer);
    proof {
        lemma_emit_step(code@, seats, arena);
    }
    match lower_params(ctx, params, code) {
        Ok(_) => {},
        Err(why) => {
            return Err(why);
        },
    }
    if ctx.is_arena {
        emit_arena_prologue(ctx, code);
    } else {
        let nothing: Vec<Insn> = Vec::new();
        assert(nothing@ =~= arena_entry_program(*ctx));
        emit_program(code, &nothing);
    }
    Ok(())
}

/// Leaves the function.
fn lower_leave(ctx: &NativeCtx, value: Option<&BytecodeExpr>, code: &mut CodeBuffer) -> (result:
    Result<(), String>)
    requires
        fits(old(code)@, leave_emission(*ctx, value)),
    ensures
        final(code)@ == old(code)@.then_code(leave_emission(*ctx, value).code),
        tells(result, leave_emission(*ctx, value)),
{
    proof {
        law_epilogues_succeed(ctx.frame_size, ctx.saved_reg_slots@);
        lemma_emit_step(
            code@,
            arena_reset_emission(*ctx, value),
            epilogue_emission(ctx.frame_size, ctx.saved_reg_slots@),
        );
    }
    match emit_arena_reset(ctx, code, value) {
        Ok(_) => {},
        Err(why) => {
            return Err(why);
        },
    }
    emit_native_epilogue(code, ctx.frame_size, &ctx.saved_reg_slots);
    Ok(())
}

/// Lowers the first `n` statements, outside any loop.
fn lower_head(ctx: &NativeCtx, body: &Vec<BytecodeInstruction>, n: usize,
    code: &mut CodeBuffer) -> (
result: Result<(), String>)
    requires
        n <= body@.len(),
        forall|i: int| 0 <= i < n ==> lowerable(*ctx, #[trigger] body@[i]),
        fits(old(code)@, head_emission(*ctx, body@, n as int)),
    ensures
        final(code)@ == old(code)@.then_code(head_emission(*ctx, body@, n as int).code),
        tells(result, head_emission(*ctx, body@, n as int)),
{
    let mut loops: Vec<NativeLoop> = Vec::new();
    proof {
        law_statements_move_freely(
            *ctx,
            body@,
            0,
            n as int,
            0,
            code@.bytes.len() as int,
        );
    }
    lower_first_stmts(ctx, body, n, code, &mut loops)
}

/// Lowers the statements of a function.
fn lower_body(ctx: &NativeCtx, function: &BytecodeFunction, code: &mut CodeBuffer) -> (result:
    Result<(), String>)
    requires
        forall|i: int|
            0 <= i < function.instructions@.len() ==> lowerable(
                *ctx,
                #[trigger] function.instructions@[i],
            ),
        fits(old(code)@, body_emission(*ctx, *function)),
    ensures
        final(code)@ == old(code)@.then_code(body_emission(*ctx, *function).code),
        tells(result, body_emission(*ctx, *function)),
{
    let body = &function.instructions;
    let n: usize = body.len();
    if n == 0 {
        return lower_head(ctx, body, n, code);
    }
    let returns_void = function.return_type.is_void();
    let ghost head = head_emission(*ctx, body@, n - 1);
    match &body[n - 1] {
        BytecodeInstruction::Asm { bytes } => {
            let ghost tail = Emission::of(Code { bytes: bytes@, refs: seq![] });
            let ghost leave = leave_emission(*ctx, None);
            proof {
                lemma_emit_step(code@, head, tail.then_emit(leave));
            }
            match lower_head(ctx, body, n - 1, code) {
                Ok(_) => {},
                Err(why) => {
                    return Err(why);
                },
            }
            proof {
                lemma_emit_step(code@, tail, leave);
            }
            emit_bytes(code, bytes);
            lower_leave(ctx, None, code)
        },
        BytecodeInstruction::Expr(expr) if !returns_void && !expr.ty.is_void() => {
            let ghost tail = expr.code.returned@;
            let ghost leave = leave_emission(*ctx, Some(expr));
            proof {
                lemma_emit_step(code@, head, tail.then_emit(leave));
            }
            match lower_head(ctx, body, n - 1, code) {
                Ok(_) => {},
                Err(why) => {
                    return Err(why);
                },
            }
            proof {
                lemma_emit_step(code@, tail, leave);
            }
            match emit(code, &expr.code.returned) {
                Ok(_) => {},
                Err(why) => {
                    return Err(why);
                },
            }
            lower_leave(ctx, Some(expr), code)
        },
        BytecodeInstruction::Compound(compound) if !returns_void && (compound.form
            == CompoundForm::If || compound.form == CompoundForm::Match) => {
            if !compound.yields {
                return refuse(
                    code,
                    "a value-producing tail `if`/`match` whose branches do not all yield a value is deferred on the native backend",
                );
            }
            let ghost tail = compound.value@;
            let ghost leave = leave_emission(*ctx, None);
            proof {
                lemma_emit_step(code@, head, tail.then_emit(leave));
            }
            match lower_head(ctx, body, n - 1, code) {
                Ok(_) => {},
                Err(why) => {
                    return Err(why);
                },
            }
            proof {
                lemma_emit_step(code@, tail, leave);
            }
            match emit(code, &compound.value) {
                Ok(_) => {},
                Err(why) => {
                    return Err(why);
                },
            }
            lower_leave(ctx, None, code)
        },
        _ => lower_head(ctx, body, n, code),
    }
}

/// Lowers a function in its planned frame, or says why it cannot be lowered.
pub fn lower_native_function(function: &BytecodeFunction, ctx: &NativeCtx) -> (result: Result<
    LoweredNativeFunction,
    String,
>)
    requires
        function_lowerable(*ctx, *function),
    ensures
        match result {
            Ok(lowered) => {
                &&& function_emission(*ctx, *function).error is None
                &&& lowered@ == (Blob {
                    name: function.name@,
                    code: function_emission(*ctx, *function).code,
                })
                &&& lowered.line == function.line
            },
            Err(why) => function_emission(*ctx, *function).error == Some(why@),
        },
{
    let ghost entry = entry_emission(*ctx, function.params@);
    let ghost body = body_emission(*ctx, *function);
    let ghost end = fallthrough_emission(*ctx);
    let ghost epilogue = epilogue_emission(ctx.frame_size, ctx.saved_reg_slots@);
    let mut code = CodeBuffer::new();
    proof {
        law_code_sequencing_neutral(function_emission(*ctx, *function).code);
        law_epilogues_succeed(ctx.frame_size, ctx.saved_reg_slots@);
        lemma_emit_step(code@, entry, body.then_emit(end));
    }
    match lower_entry(ctx, &function.params, &mut code) {
        Ok(_) => {},
        Err(why) => {
            return Err(why);
        },
    }
    proof {
        lemma_emit_step(code@, body, end);
    }
    match lower_body(ctx, function, &mut code) {
        Ok(_) => {},
        Err(why) => {
            return Err(why);
        },
    }
    let void: bool = match ctx.return_ty {
        NativeType::Void => true,
        _ => false,
    };
    let ghost reset = arena_reset_emission(*ctx, None);
    proof {
        lemma_emit_step(
            code@,
            Emission::of_program(seq![alu(Xor, Rax, Rax)]),
            if void {
                leave_emission(*ctx, None)
            } else {
                epilogue
            },
        );
    }
    emit_insn(&mut code, alu(Xor, Rax, Rax));
    if void {
        proof {
            lemma_emit_step(code@, reset, epilogue);
        }
        match emit_arena_reset(ctx, &mut code, None) {
            Ok(_) => {},
            Err(why) => {
                return Err(why);
            },
        }
    }
    emit_native_epilogue(&mut code, ctx.frame_size, &ctx.saved_reg_slots);
    Ok(
        LoweredNativeFunction {
            name: function.name.clone(),
            code: code.code,
            relocations: code.relocations,
            line: function.line,
        },
    )
}

/// The parts of a function's entry: opening the frame, making room in it, keeping the saved
/// registers and the hidden result pointer, then each parameter from its own argument, which
/// the result pointer moves up by one, and last entering the arena.
pub open spec fn entry_parts(ctx: NativeCtx, params: Seq<BytecodeParam>) -> Seq<Emission> {
    let hidden = if ctx.sret_slot is Some {
        1int
    } else {
        0
    };
    seq![
        Emission::of_program(open_program()),
        Emission::of_program(sub_rsp_program(ctx.frame_size)),
        spill_emission(ctx.saved_reg_slots@, 0),
        Emission::of_program(result_pointer_program(ctx.sret_slot)),
    ] + Seq::new(
        params.len(),
        |k: int| param_emission(ctx, params[k].name@, (k + hidden) as usize),
    ) + seq![Emission::of_program(arena_entry_program(ctx))]
}

proof fn lemma_params_in_order(
    ctx: NativeCtx,
    params: Seq<BytecodeParam>,
    first: int,
    k: int,
)
    requires
        0 <= k <= params.len(),
    ensures
        params_emission(ctx, params, first, k) == in_order(
            Seq::new(
                params.len(),
                |i: int| param_emission(ctx, params[i].name@, (i + first) as usize),
            ).skip(k),
        ),
    decreases params.len() - k,
{
    let all = Seq::new(
        params.len(),
        |i: int| param_emission(ctx, params[i].name@, (i + first) as usize),
    );
    if k < params.len() {
        lemma_params_in_order(ctx, params, first, k + 1);
        assert(all.skip(k) =~= seq![all[k]] + all.skip(k + 1));
        law_first_part_comes_first(all[k], all.skip(k + 1));
    } else {
        assert(all.skip(k) =~= seq![]);
    }
}

/// A function's entry is its parts in order: every parameter is seated, in its place.
pub proof fn law_entry_seats_every_parameter(ctx: NativeCtx, params: Seq<BytecodeParam>)
    ensures
        entry_emission(ctx, params) == in_order(entry_parts(ctx, params)),
{
    let hidden = first_position(ctx);
    let seated = Seq::new(
        params.len(),
        |k: int| param_emission(ctx, params[k].name@, (k + hidden) as usize),
    );
    let open = Emission::of_program(open_program());
    let room = Emission::of_program(sub_rsp_program(ctx.frame_size));
    let spilled = spill_emission(ctx.saved_reg_slots@, 0);
    let pointer = Emission::of_program(result_pointer_program(ctx.sret_slot));
    let arena = Emission::of_program(arena_entry_program(ctx));
    let rest = seated + seq![arena];
    assert(entry_parts(ctx, params) =~= seq![open] + (seq![room] + (seq![spilled] + (seq![pointer]
        + rest))));
    lemma_params_in_order(ctx, params, hidden, 0);
    assert(seated.skip(0) =~= seated);
    lemma_one_part(arena);
    lemma_in_order_joins(seated, seq![arena]);
    law_first_part_comes_first(pointer, rest);
    law_first_part_comes_first(spilled, seq![pointer] + rest);
    law_first_part_comes_first(room, seq![spilled] + (seq![pointer] + rest));
    law_first_part_comes_first(open, seq![room] + (seq![spilled] + (seq![pointer] + rest)));
}

/// A function whose last statement is an expression for its value leaves as a `return` of
/// that expression would.
pub proof fn law_last_value_is_returned(
    ctx: NativeCtx,
    function: BytecodeFunction,
    expr: BytecodeExpr,
)
    requires
        function.instructions@.len() > 0,
        function.instructions@.last() == BytecodeInstruction::Expr(expr),
        function.return_type@ != "void"@,
        expr.ty@ != "void"@,
    ensures
        body_emission(ctx, function) == head_emission(
            ctx,
            function.instructions@,
            function.instructions@.len() - 1,
        ).then_emit(stmt_flow(ctx, BytecodeInstruction::Return(Some(expr)), None, 0).emission),
{
}

} // verus!
