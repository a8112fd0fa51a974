//! Statements.
//!
//! A statement inside a loop may leave it or start its next turn. Those jumps are emitted
//! with an empty field that the loop fills in when its end is known; the places of such
//! fields are kept with the loop.

use crate::arena::{
    arena_reset_emission, emit_arena_loop_rewind, emit_arena_reset, emit_native_epilogue,
    epilogue_emission, law_epilogues_succeed, rewind_program,
};
use crate::assembler::{read_disp32, Code, CodeBuffer};
use crate::assign::{assign_emission, assignable, let_emission, lower_assign, lower_let};
use crate::aggregate::refuse;
use crate::bytecode::{BytecodeExpr, BytecodeInstruction, Compound, CompoundCode};
use crate::bytes::{law_le32_signed_reads_back, le32, lemma_le32_periodic, push_u32};
use crate::context::NativeCtx;
use crate::emission::{
    emit, emit_bytes, emit_code, fits, lemma_emit_nothing, lemma_emit_step, tells, Emission,
};
use crate::layout::{measurable, NativeType};
use vstd::prelude::*;

verus! {

/// A loop that is being lowered.
#[derive(Debug, PartialEq, Eq)]
pub struct NativeLoop {
    /// Drops the owned temporaries that are live in the body.
    pub drops: CodeBuffer,
    /// The slot that keeps the bump pointer, where the loop rewinds at every turn.
    pub arena_reset_mark: Option<i32>,
    /// Where the next turn starts, if that is known yet.
    pub continue_target: Option<usize>,
    /// The empty fields of jumps out of the loop.
    pub break_sites: Vec<usize>,
    /// The empty fields of jumps to the next turn.
    pub continue_sites: Vec<usize>,
}

/// What a statement needs to know of the loop around it.
pub struct Around {
    pub drops: Code,
    pub mark: Option<i32>,
    pub target: Option<int>,
}

impl NativeLoop {
    /// What a statement in this loop needs to know of it.
    pub open spec fn around(self) -> Around {
        Around {
            drops: self.drops@,
            mark: self.arena_reset_mark,
            target: match self.continue_target {
                Some(target) => Some(target as int),
                None => None,
            },
        }
    }
}

/// The innermost loop.
pub open spec fn innermost(loops: Seq<NativeLoop>) -> Option<Around> {
    if loops.len() == 0 {
        None
    } else {
        Some(loops.last().around())
    }
}

/// What lowering a statement appends, and the empty fields in that of jumps that leave the
/// innermost loop or start its next turn.
#[verifier::ext_equal]
pub struct Flow {
    pub emission: Emission,
    pub breaks: Seq<int>,
    pub continues: Seq<int>,
}

/// Places in code that is moved up by `by` bytes.
pub open spec fn moved(sites: Seq<int>, by: int) -> Seq<int> {
    sites.map_values(|site: int| site + by)
}

/// The places of a list.
pub open spec fn places(sites: Seq<usize>) -> Seq<int> {
    sites.map_values(|site: usize| site as int)
}

impl Flow {
    /// A statement without jumps to its loop.
    pub open spec fn plain(emission: Emission) -> Flow {
        Flow { emission, breaks: seq![], continues: seq![] }
    }

    /// This, and `next` if this did not stop early.
    pub open spec fn then_flow(self, next: Flow) -> Flow {
        if self.emission.error is Some {
            self
        } else {
            let length = self.emission.code.bytes.len() as int;
            Flow {
                emission: self.emission.then_emit(next.emission),
                breaks: self.breaks + moved(next.breaks, length),
                continues: self.continues + moved(next.continues, length),
            }
        }
    }
}

/// A jump whose displacement is `field`.
pub open spec fn jump_code(field: Seq<u8>) -> Code {
    Code { bytes: seq![0xE9u8] + field, refs: seq![] }
}

/// What comes before a jump out of a turn: the drops, and the rewind where there is one.
pub open spec fn before_jump(around: Around) -> Emission {
    Emission::of(around.drops).then_emit(
        match around.mark {
            Some(mark) => Emission::of_program(rewind_program(mark)),
            None => Emission::nothing(),
        },
    )
}

/// Leaving the loop.
pub open spec fn break_flow(around: Option<Around>) -> Flow {
    match around {
        None => Flow::plain(Emission::refused("`break` outside a loop"@)),
        Some(around) => {
            let first = before_jump(around);
            Flow {
                emission: first.then_emit(Emission::of(jump_code(le32(0)))),
                breaks: seq![first.code.bytes.len() as int + 1],
                continues: seq![],
            }
        },
    }
}

/// Starting the next turn, from code that is appended at `at`: a jump to its start where
/// that is known, else one that the loop fills in.
pub open spec fn continue_flow(around: Option<Around>, at: int) -> Flow {
    match around {
        None => Flow::plain(Emission::refused("`continue` outside a loop"@)),
        Some(around) => {
            let first = before_jump(around);
            let site = first.code.bytes.len() as int + 1;
            match around.target {
                Some(target) => Flow::plain(
                    first.then_emit(Emission::of(jump_code(le32(target - (at + site + 4))))),
                ),
                None => Flow {
                    emission: first.then_emit(Emission::of(jump_code(le32(0)))),
                    breaks: seq![],
                    continues: seq![site],
                },
            }
        },
    }
}

/// The flow of a lowered compound statement.
pub open spec fn compound_flow(code: CompoundCode) -> Flow {
    Flow {
        emission: code.emitted@,
        breaks: places(code.breaks@),
        continues: places(code.continues@),
    }
}

/// Returning `value`.
pub open spec fn return_emission(ctx: NativeCtx, value: Option<BytecodeExpr>) -> Emission {
    let epilogue = epilogue_emission(ctx.frame_size, ctx.saved_reg_slots@);
    match value {
        Some(expr) => expr.code.returned@.then_emit(
            arena_reset_emission(ctx, Some(&expr)).then_emit(epilogue),
        ),
        None => if !(ctx.return_ty@ is Void) {
            Emission::refused(
                "a bare `return` in a value-returning function is not in the native subset"@,
            )
        } else {
            arena_reset_emission(ctx, None).then_emit(epilogue)
        },
    }
}

/// A statement that is appended at `at`.
pub open spec fn stmt_flow(
    ctx: NativeCtx,
    stmt: BytecodeInstruction,
    around: Option<Around>,
    at: int,
) -> Flow
    decreases stmt, 0int,
{
    match stmt {
        BytecodeInstruction::Let { name, value } => Flow::plain(let_emission(ctx, name@, value)),
        BytecodeInstruction::Assign(a) => Flow::plain(assign_emission(ctx, a)),
        BytecodeInstruction::Return(value) => Flow::plain(return_emission(ctx, value)),
        BytecodeInstruction::Expr(expr) => Flow::plain(expr.code.word@),
        BytecodeInstruction::Break => break_flow(around),
        BytecodeInstruction::Continue => continue_flow(around, at),
        BytecodeInstruction::Compound(compound) => compound_flow(compound.statement),
        BytecodeInstruction::RegionBlock { body } => stmts_flow(
            ctx,
            body@,
            0,
            body@.len() as int,
            around,
            at,
        ),
        BytecodeInstruction::Asm { bytes } => Flow::plain(
            Emission::of(Code { bytes: bytes@, refs: seq![] }),
        ),
        BytecodeInstruction::Throw | BytecodeInstruction::Try => Flow::plain(
            Emission::refused("throw/try is not in the native subset"@),
        ),
    }
}

/// The statements from `k` up to `n`, the first of them appended at `at`.
pub open spec fn stmts_flow(
    ctx: NativeCtx,
    body: Seq<BytecodeInstruction>,
    k: int,
    n: int,
    around: Option<Around>,
    at: int,
) -> Flow
    decreases body, n - k,
{
    if k < 0 || k >= n || n > body.len() {
        Flow::plain(Emission::nothing())
    } else {
        let first = stmt_flow(ctx, body[k], around, at);
        first.then_flow(
            stmts_flow(ctx, body, k + 1, n, around, at + first.emission.code.bytes.len()),
        )
    }
}

/// Whether a statement can be lowered at all: see [`assignable`].
pub open spec fn lowerable(ctx: NativeCtx, stmt: BytecodeInstruction) -> bool
    decreases stmt,
{
    match stmt {
        BytecodeInstruction::Let { name, .. } => ctx.local_of(name@) matches Some(local)
            ==> measurable(local.ty@),
        BytecodeInstruction::Assign(a) => assignable(ctx, a),
        BytecodeInstruction::RegionBlock { body } => forall|i: int|
            0 <= i < body@.len() ==> lowerable(ctx, #[trigger] body@[i]),
        BytecodeInstruction::Compound(compound) => compound_placed(compound.statement),
        _ => true,
    }
}

/// Whether the fields of a compound statement's jumps lie in its code.
pub open spec fn compound_placed(code: CompoundCode) -> bool {
    &&& forall|i: int|
        0 <= i < code.breaks@.len() ==> (#[trigger] code.breaks@[i])
            <= code.emitted@.code.bytes.len()
    &&& forall|i: int|
        0 <= i < code.continues@.len() ==> (#[trigger] code.continues@[i])
            <= code.emitted@.code.bytes.len()
}

/// Whether `after` is `before` with the fields of `flow`, appended at `at`, added to the
/// innermost loop.
pub open spec fn recorded(
    before: Seq<NativeLoop>,
    after: Seq<NativeLoop>,
    flow: Flow,
    at: int,
) -> bool {
    &&& after.len() == before.len()
    &&& forall|i: int| 0 <= i < before.len() - 1 ==> after[i] == before[i]
    &&& before.len() > 0 ==> {
        &&& after.last().around() == before.last().around()
        &&& places(after.last().break_sites@) == places(before.last().break_sites@) + moved(
            flow.breaks,
            at,
        )
        &&& places(after.last().continue_sites@) == places(before.last().continue_sites@) + moved(
            flow.continues,
            at,
        )
    }
}

// Lowering

/// Appends a jump with the displacement `to - from`.
fn emit_jump(to: usize, from: usize, code: &mut CodeBuffer)
    requires
        to <= u32::MAX,
        from <= u32::MAX,
    ensures
        final(code)@ == old(code)@.then_code(jump_code(le32(to - from))),
{
    let distance: i64 = to as i64 - from as i64;
    let word: u32 = if distance < 0 {
        (distance + 0x1_0000_0000) as u32
    } else {
        distance as u32
    };
    proof {
        lemma_le32_periodic(distance as int, 1);
        lemma_le32_periodic(distance as int, 0);
    }
    let mut bytes: Vec<u8> = Vec::new();
    bytes.push(0xE9);
    push_u32(&mut bytes, word);
    assert(bytes@ =~= seq![0xE9u8] + le32(to - from));
    emit_bytes(code, &bytes);
}

/// Appends what comes before a jump out of a turn.
fn emit_before_jump(around: &NativeLoop, code: &mut CodeBuffer)
    requires
        fits(old(code)@, before_jump(around.around())),
    ensures
        final(code)@ == old(code)@.then_code(before_jump(around.around()).code),
        before_jump(around.around()).error is None,
{
    let ghost drops = Emission::of(around.drops@);
    let ghost rewind = match around.arena_reset_mark {
        Some(mark) => Emission::of_program(rewind_program(mark)),
        None => Emission::nothing(),
    };
    proof {
        lemma_emit_step(code@, drops, rewind);
    }
    emit_code(code, &around.drops);
    match around.arena_reset_mark {
        Some(mark) => emit_arena_loop_rewind(mark, code),
        None => {
            proof {
                lemma_emit_nothing(code@);
            }
        },
    }
}

/// Adds a place to a list.
fn push_site(sites: &mut Vec<usize>, site: usize)
    ensures
        places(final(sites)@) == places(old(sites)@).push(site as int),
{
    sites.push(site);
    assert(places(sites@) =~= places(old(sites)@).push(site as int));
}

/// Adds places, each `at` bytes further up.
fn push_sites(sites: &mut Vec<usize>, more: &Vec<usize>, at: usize)
    requires
        forall|i: int| 0 <= i < more@.len() ==> (#[trigger] more@[i]) + at <= usize::MAX,
    ensures
        places(final(sites)@) == places(old(sites)@) + moved(places(more@), at as int),
{
    let ghost all = moved(places(more@), at as int);
    let mut i: usize = 0;
    while i < more.len()
        invariant
            i <= more@.len(),
            all == moved(places(more@), at as int),
            forall|k: int| 0 <= k < more@.len() ==> (#[trigger] more@[k]) + at <= usize::MAX,
            places(sites@) =~= places(old(sites)@) + all.take(i as int),
        decreases more@.len() - i,
    {
        push_site(sites, more[i] + at);
        proof {
            assert(all[i as int] == more@[i as int] + at);
            assert(all.take(i + 1) =~= all.take(i as int).push(all[i as int]));
        }
        i += 1;
    }
    assert(all.take(i as int) =~= all);
}

/// Lowers a `break`.
fn lower_break(code: &mut CodeBuffer, loops: &mut Vec<NativeLoop>) -> (result: Result<(), String>)
    requires
        fits(old(code)@, break_flow(innermost(old(loops)@)).emission),
    ensures
        final(code)@ == old(code)@.then_code(break_flow(innermost(old(loops)@)).emission.code),
        tells(result, break_flow(innermost(old(loops)@)).emission),
        recorded(
            old(loops)@,
            final(loops)@,
            break_flow(innermost(old(loops)@)),
            old(code)@.bytes.len() as int,
        ),
{
    let mut inner = match loops.pop() {
        Some(inner) => inner,
        None => {
            return refuse(code, "`break` outside a loop");
        },
    };
    let ghost first = before_jump(inner.around());
    let ghost jump = Emission::of(jump_code(le32(0)));
    proof {
        lemma_emit_step(code@, first, jump);
    }
    emit_before_jump(&inner, code);
    let site: usize = code.code.len() + 1;
    emit_jump(0, 0, code);
    push_site(&mut inner.break_sites, site);
    loops.push(inner);
    proof {
        let flow = break_flow(innermost(old(loops)@));
        let at = old(code)@.bytes.len() as int;
        assert(moved(flow.breaks, at) =~= seq![site as int]);
        assert(moved(flow.continues, at) =~= seq![]);
        assert(places(loops@.last().break_sites@) =~= places(old(loops)@.last().break_sites@)
            + moved(flow.breaks, at));
        assert(places(loops@.last().continue_sites@) =~= places(
            old(loops)@.last().continue_sites@,
        ) + moved(flow.continues, at));
    }
    Ok(())
}

/// Lowers a `continue`.
fn lower_continue(code: &mut CodeBuffer, loops: &mut Vec<NativeLoop>) -> (result: Result<
    (),
    String,
>)
    requires
        innermost(old(loops)@) matches Some(around) ==> (around.target matches Some(target)
            ==> target <= u32::MAX),
        fits(
            old(code)@,
            continue_flow(
                innermost(old(loops)@),
                old(code)@.bytes.len() as int,
            ).emission,
        ),
    ensures
        final(code)@ == old(code)@.then_code(
            continue_flow(
                innermost(old(loops)@),
                old(code)@.bytes.len() as int,
            ).emission.code,
        ),
        tells(
            result,
            continue_flow(
                innermost(old(loops)@),
                old(code)@.bytes.len() as int,
            ).emission,
        ),
        recorded(
            old(loops)@,
            final(loops)@,
            continue_flow(innermost(old(loops)@), old(code)@.bytes.len() as int),
            old(code)@.bytes.len() as int,
        ),
{
    let mut inner = match loops.pop() {
        Some(inner) => inner,
        None => {
            return refuse(code, "`continue` outside a loop");
        },
    };
    let ghost at = old(code)@.bytes.len() as int;
    let ghost flow = continue_flow(innermost(old(loops)@), at);
    let ghost first = before_jump(inner.around());
    let ghost field = match inner.around().target {
        Some(target) => le32(target - (at + first.code.bytes.len() + 1 + 4)),
        None => le32(0),
    };
    proof {
        lemma_emit_step(code@, first, Emission::of(jump_code(field)));
    }
    emit_before_jump(&inner, code);
    let site: usize = code.code.len() + 1;
    match inner.continue_target {
        Some(target) => {
            emit_jump(target, site + 4, code);
        },
        None => {
            emit_jump(0, 0, code);
            push_site(&mut inner.continue_sites, site);
        },
    }
    loops.push(inner);
    proof {
        assert(moved(flow.breaks, at) =~= seq![]);
        assert(places(loops@.last().break_sites@) =~= places(old(loops)@.last().break_sites@)
            + moved(flow.breaks, at));
        assert(places(loops@.last().continue_sites@) =~= places(
            old(loops)@.last().continue_sites@,
        ) + moved(flow.continues, at));
    }
    Ok(())
}

/// Appends a lowered compound statement.
pub(crate) fn lower_compound(
    compound: &CompoundCode,
    code: &mut CodeBuffer,
    loops: &mut Vec<NativeLoop>,
) -> (result: Result<(), String>)
    requires
        compound_placed(*compound),
        fits(old(code)@, compound.emitted@),
    ensures
        final(code)@ == old(code)@.then_code(compound.emitted@.code),
        tells(result, compound.emitted@),
        recorded(
            old(loops)@,
            final(loops)@,
            compound_flow(*compound),
            old(code)@.bytes.len() as int,
        ),
{
    let at: usize = code.code.len();
    let ghost whole = code@.then_code(compound.emitted@.code);
    let result = emit(code, &compound.emitted);
    match loops.pop() {
        Some(mut inner) => {
            push_sites(&mut inner.break_sites, &compound.breaks, at);
            push_sites(&mut inner.continue_sites, &compound.continues, at);
            loops.push(inner);
        },
        None => {},
    }
    result
}

/// Lowers a `return`.
fn lower_return(ctx: &NativeCtx, value: &Option<BytecodeExpr>, code: &mut CodeBuffer) -> (result:
    Result<(), String>)
    requires
        fits(old(code)@, return_emission(*ctx, *value)),
    ensures
        final(code)@ == old(code)@.then_code(return_emission(*ctx, *value).code),
        tells(result, return_emission(*ctx, *value)),
{
    let ghost epilogue = epilogue_emission(ctx.frame_size, ctx.saved_reg_slots@);
    proof {
        law_epilogues_succeed(ctx.frame_size, ctx.saved_reg_slots@);
    }
    match value {
        Some(expr) => {
            let ghost reset = arena_reset_emission(*ctx, Some(expr));
            proof {
                lemma_emit_step(code@, expr.code.returned@, reset.then_emit(epilogue));
            }
            match emit(code, &expr.code.returned) {
                Ok(_) => {},
                Err(why) => {
                    return Err(why);
                },
            }
            proof {
                lemma_emit_step(code@, reset, epilogue);
            }
            match emit_arena_reset(ctx, code, Some(expr)) {
                Ok(_) => {},
                Err(why) => {
                    return Err(why);
                },
            }
        },
        None => {
            match ctx.return_ty {
                NativeType::Void => {},
                _ => {
                    return refuse(
                        code,
                        "a bare `return` in a value-returning function is not in the native subset",
                    );
                },
            }
            proof {
                lemma_emit_step(code@, arena_reset_emission(*ctx, None), epilogue);
            }
            match emit_arena_reset(ctx, code, None) {
                Ok(_) => {},
                Err(why) => {
                    return Err(why);
                },
            }
        },
    }
    emit_native_epilogue(code, ctx.frame_size, &ctx.saved_reg_slots);
    Ok(())
}

/// What two statements in sequence leave with the loop is what their flow says.
proof fn lemma_recorded_step(
    before: Seq<NativeLoop>,
    middle: Seq<NativeLoop>,
    after: Seq<NativeLoop>,
    first: Flow,
    next: Flow,
    at: int,
)
    requires
        first.emission.error is None,
        recorded(before, middle, first, at),
        recorded(middle, after, next, at + first.emission.code.bytes.len()),
    ensures
        recorded(before, after, first.then_flow(next), at),
{
    let length = first.emission.code.bytes.len() as int;
    let whole = first.then_flow(next);
    assert(moved(whole.breaks, at) =~= moved(first.breaks, at) + moved(next.breaks, at + length));
    assert(moved(whole.continues, at) =~= moved(first.continues, at) + moved(
        next.continues,
        at + length,
    ));
    if before.len() > 0 {
        assert(places(after.last().break_sites@) =~= places(before.last().break_sites@) + moved(
            whole.breaks,
            at,
        ));
        assert(places(after.last().continue_sites@) =~= places(before.last().continue_sites@)
            + moved(whole.continues, at));
    }
}

proof fn lemma_recorded_nothing(loops: Seq<NativeLoop>, emission: Emission, at: int)
    ensures
        recorded(loops, loops, Flow::plain(emission), at),
{
    assert(moved(seq![], at) =~= seq![]);
    if loops.len() > 0 {
        assert(places(loops.last().break_sites@) + moved(seq![], at) =~= places(
            loops.last().break_sites@,
        ));
        assert(places(loops.last().continue_sites@) + moved(seq![], at) =~= places(
            loops.last().continue_sites@,
        ));
    }
}

/// Whether the turns of every loop start where a displacement reaches.
pub open spec fn targets_reachable(loops: Seq<NativeLoop>) -> bool {
    innermost(loops) matches Some(around) ==> (around.target matches Some(target) ==> target
        <= u32::MAX)
}

/// Lowers the first `n` statements in sequence, up to one that cannot be lowered.
pub(crate) fn lower_first_stmts(
    ctx: &NativeCtx,
    body: &Vec<BytecodeInstruction>,
    n: usize,
    code: &mut CodeBuffer,
    loops: &mut Vec<NativeLoop>,
) -> (result: Result<(), String>)
    requires
        n <= body@.len(),
        forall|i: int| 0 <= i < n ==> lowerable(*ctx, #[trigger] body@[i]),
        targets_reachable(old(loops)@),
        fits(
            old(code)@,
            stmts_flow(
                *ctx,
                body@,
                0,
                n as int,
                innermost(old(loops)@),
                old(code)@.bytes.len() as int,
            ).emission,
        ),
    ensures
        ({
            let at = old(code)@.bytes.len() as int;
            let flow = stmts_flow(*ctx, body@, 0, n as int, innermost(old(loops)@), at);
            &&& final(code)@ == old(code)@.then_code(flow.emission.code)
            &&& tells(result, flow.emission)
            &&& recorded(old(loops)@, final(loops)@, flow, at)
        }),
    decreases body, 1int,
{
    let ghost around = innermost(loops@);
    let ghost at = code@.bytes.len() as int;
    let ghost whole = stmts_flow(*ctx, body@, 0, n as int, around, at);
    let ghost before = loops@;
    let ghost start = code@;
    let ghost mut done = Flow::plain(Emission::nothing());
    proof {
        lemma_emit_nothing(code@);
        lemma_recorded_nothing(loops@, Emission::nothing(), at);
        lemma_flow_nothing(whole);
    }
    let mut k: usize = 0;
    while k < n
        invariant
            k <= n <= body@.len(),
            forall|i: int| 0 <= i < n ==> lowerable(*ctx, #[trigger] body@[i]),
            targets_reachable(before),
            around == innermost(before),
            before == old(loops)@,
            start == old(code)@,
            at == start.bytes.len(),
            whole == stmts_flow(*ctx, body@, 0, n as int, around, at),
            done.emission.error is None,
            code@ == start.then_code(done.emission.code),
            recorded(before, loops@, done, at),
            innermost(loops@) == around,
            whole == done.then_flow(
                stmts_flow(
                    *ctx,
                    body@,
                    k as int,
                    n as int,
                    around,
                    code@.bytes.len() as int,
                ),
            ),
            fits(
                code@,
                stmts_flow(
                    *ctx,
                    body@,
                    k as int,
                    n as int,
                    around,
                    code@.bytes.len() as int,
                ).emission,
            ),
        decreases n - k,
    {
        let ghost here = code@.bytes.len() as int;
        let ghost first = stmt_flow(*ctx, body@[k as int], around, here);
        let ghost rest = stmts_flow(
            *ctx,
            body@,
            k + 1,
            n as int,
            around,
            here + first.emission.code.bytes.len(),
        );
        let ghost middle = loops@;
        proof {
            lemma_emit_step(code@, first.emission, rest.emission);
            lemma_flow_associates(done, first, rest);
        }
        let result = lower_native_stmt(ctx, &body[k], code, loops);
        proof {
            lemma_recorded_step(before, middle, loops@, done, first, at);
            crate::assembler::law_code_sequencing_associates(
                start,
                done.emission.code,
                first.emission.code,
            );
            assert(code@ == start.then_code(done.then_flow(first).emission.code));
        }
        match result {
            Ok(_) => {},
            Err(why) => {
                return Err(why);
            },
        }
        proof {
            done = done.then_flow(first);
        }
        k += 1;
    }
    proof {
        lemma_flow_nothing(done);
    }
    Ok(())
}

proof fn lemma_flow_nothing(flow: Flow)
    ensures
        Flow::plain(Emission::nothing()).then_flow(flow) == flow,
        flow.then_flow(Flow::plain(Emission::nothing())) == flow,
{
    crate::emission::law_emitting_nothing(flow.emission);
    assert(moved(flow.breaks, 0) =~= flow.breaks);
    assert(moved(flow.continues, 0) =~= flow.continues);
    assert(Flow::plain(Emission::nothing()).then_flow(flow) =~= flow);
    assert(flow.then_flow(Flow::plain(Emission::nothing())) =~= flow);
}

proof fn lemma_flow_associates(a: Flow, b: Flow, c: Flow)
    ensures
        a.then_flow(b).then_flow(c) == a.then_flow(b.then_flow(c)),
{
    crate::emission::law_emitting_associates(a.emission, b.emission, c.emission);
    let left = a.then_flow(b).then_flow(c);
    let right = a.then_flow(b.then_flow(c));
    assert(left.breaks =~= right.breaks);
    assert(left.continues =~= right.continues);
}

/// Lowers statements in sequence, up to the first that cannot be lowered.
pub fn lower_native_stmts(
    ctx: &NativeCtx,
    body: &Vec<BytecodeInstruction>,
    code: &mut CodeBuffer,
    loops: &mut Vec<NativeLoop>,
) -> (result: Result<(), String>)
    requires
        forall|i: int| 0 <= i < body@.len() ==> lowerable(*ctx, #[trigger] body@[i]),
        targets_reachable(old(loops)@),
        fits(
            old(code)@,
            stmts_flow(
                *ctx,
                body@,
                0,
                body@.len() as int,
                innermost(old(loops)@),
                old(code)@.bytes.len() as int,
            ).emission,
        ),
    ensures
        ({
            let at = old(code)@.bytes.len() as int;
            let flow = stmts_flow(
                *ctx,
                body@,
                0,
                body@.len() as int,
                innermost(old(loops)@),
                at,
            );
            &&& final(code)@ == old(code)@.then_code(flow.emission.code)
            &&& tells(result, flow.emission)
            &&& recorded(old(loops)@, final(loops)@, flow, at)
        }),
    decreases body, 2int,
{
    lower_first_stmts(ctx, body, body.len(), code, loops)
}

/// Lowers one statement. On an error, what was appended before it stands; the function is
/// then given up.
pub fn lower_native_stmt(
    ctx: &NativeCtx,
    stmt: &BytecodeInstruction,
    code: &mut CodeBuffer,
    loops: &mut Vec<NativeLoop>,
) -> (result: Result<(), String>)
    requires
        lowerable(*ctx, *stmt),
        targets_reachable(old(loops)@),
        fits(
            old(code)@,
            stmt_flow(
                *ctx,
                *stmt,
                innermost(old(loops)@),
                old(code)@.bytes.len() as int,
            ).emission,
        ),
    ensures
        ({
            let at = old(code)@.bytes.len() as int;
            let flow = stmt_flow(*ctx, *stmt, innermost(old(loops)@), at);
            &&& final(code)@ == old(code)@.then_code(flow.emission.code)
            &&& tells(result, flow.emission)
            &&& recorded(old(loops)@, final(loops)@, flow, at)
        }),
    decreases stmt, 0int,
{
    let ghost at = code@.bytes.len() as int;
    let ghost emission = stmt_flow(*ctx, *stmt, innermost(loops@), at).emission;
    proof {
        lemma_recorded_nothing(loops@, emission, at);
    }
    match stmt {
        BytecodeInstruction::Let { name, value } => lower_let(ctx, name, value, code),
        BytecodeInstruction::Assign(a) => lower_assign(ctx, a, code),
        BytecodeInstruction::Return(value) => lower_return(ctx, value, code),
        BytecodeInstruction::Expr(expr) => emit(code, &expr.code.word),
        BytecodeInstruction::Break => lower_break(code, loops),
        BytecodeInstruction::Continue => lower_continue(code, loops),
        BytecodeInstruction::Compound(compound) => lower_compound(
            &compound.statement,
            code,
            loops,
        ),
        BytecodeInstruction::RegionBlock { body } => lower_native_stmts(ctx, body, code, loops),
        BytecodeInstruction::Asm { bytes } => {
            emit_bytes(code, bytes);
            Ok(())
        },
        BytecodeInstruction::Throw | BytecodeInstruction::Try => refuse(
            code,
            "throw/try is not in the native subset",
        ),
    }
}

// Jumps out of a turn

/// Whether the field at `site` of `code` is the empty displacement of a jump.
pub open spec fn open_jump(code: Seq<u8>, site: int) -> bool {
    &&& 1 <= site
    &&& site + 4 <= code.len()
    &&& code[site - 1] == 0xE9
    &&& read_disp32(code, site) == 0
}

/// A `break` runs what has to come before it, and ends in a jump with an empty field, which
/// is the one place that it leaves for the loop's end.
pub proof fn law_break_leaves_its_jump_open(around: Around)
    ensures
        ({
            let flow = break_flow(Some(around));
            let code = flow.emission.code.bytes;
            let n = code.len() as int;
            &&& flow.emission.error == before_jump(around).error
            &&& flow.emission.error is None ==> {
                &&& n >= 5
                &&& code.take(n - 5) == before_jump(around).code.bytes
                &&& open_jump(code, n - 4)
                &&& flow.breaks == seq![n - 4]
                &&& flow.continues.len() == 0
            }
        }),
{
    lemma_jump_behind(before_jump(around), 0);
}

/// A `continue` to a turn whose start is known runs what has to come before it, and ends in
/// a jump that lands on that start, from wherever its code is put.
pub proof fn law_continue_lands_on_the_next_turn(around: Around, target: int, at: int)
    requires
        around.target == Some(target),
        i32::MIN <= target - (at + continue_flow(Some(around), at).emission.code.bytes.len())
            <= i32::MAX,
    ensures
        ({
            let flow = continue_flow(Some(around), at);
            let code = flow.emission.code.bytes;
            let n = code.len() as int;
            &&& flow.emission.error == before_jump(around).error
            &&& flow.emission.error is None ==> {
                &&& n >= 5
                &&& code.take(n - 5) == before_jump(around).code.bytes
                &&& code[n - 5] == 0xE9
                &&& at + n + read_disp32(code, n - 4) == target
                &&& flow.breaks.len() == 0
                &&& flow.continues.len() == 0
            }
        }),
{
    let first = before_jump(around);
    if first.error is None {
        lemma_jump_behind(first, target - (at + first.code.bytes.len() + 5));
    }
}

/// A `continue` to a turn whose start is not known yet leaves its jump open for the loop.
pub proof fn law_continue_leaves_its_jump_open(around: Around, at: int)
    requires
        around.target is None,
    ensures
        ({
            let flow = continue_flow(Some(around), at);
            let code = flow.emission.code.bytes;
            let n = code.len() as int;
            &&& flow.emission.error == before_jump(around).error
            &&& flow.emission.error is None ==> {
                &&& n >= 5
                &&& code.take(n - 5) == before_jump(around).code.bytes
                &&& open_jump(code, n - 4)
                &&& flow.continues == seq![n - 4]
                &&& flow.breaks.len() == 0
            }
        }),
{
    lemma_jump_behind(before_jump(around), 0);
}

proof fn lemma_jump_behind(first: Emission, by: int)
    requires
        i32::MIN <= by <= i32::MAX,
    ensures
        ({
            let whole = first.then_emit(Emission::of(jump_code(le32(by))));
            let code = whole.code.bytes;
            let n = code.len() as int;
            &&& whole.error == first.error
            &&& first.error is None ==> {
                &&& n == first.code.bytes.len() + 5
                &&& code.take(n - 5) == first.code.bytes
                &&& code[n - 5] == 0xE9
                &&& read_disp32(code, n - 4) == by
            }
        }),
{
    if first.error is None {
        let jump = jump_code(le32(by)).bytes;
        let code = first.code.bytes + jump;
        let n = code.len() as int;
        law_le32_signed_reads_back(by);
        assert(jump.len() == 5);
        assert(first.then_emit(Emission::of(jump_code(le32(by)))).code.bytes =~= code);
        assert(code.take(n - 5) =~= first.code.bytes);
        assert(code[n - 4] == le32(by)[0] && code[n - 3] == le32(by)[1] && code[n - 2] == le32(
            by,
        )[2] && code[n - 1] == le32(by)[3]);
    }
}

/// Whether every place that `flow` leaves for its loop is the empty field of a jump.
pub open spec fn jumps_open(flow: Flow) -> bool {
    &&& forall|i: int|
        0 <= i < flow.breaks.len() ==> open_jump(
            flow.emission.code.bytes,
            #[trigger] flow.breaks[i],
        )
    &&& forall|i: int|
        0 <= i < flow.continues.len() ==> open_jump(
            flow.emission.code.bytes,
            #[trigger] flow.continues[i],
        )
}

/// Whether this holds of every compound statement in `stmt`.
pub open spec fn compounds_open(stmt: BytecodeInstruction) -> bool
    decreases stmt,
{
    match stmt {
        BytecodeInstruction::Compound(compound) => jumps_open(compound_flow(compound.statement)),
        BytecodeInstruction::RegionBlock { body } => forall|i: int|
            0 <= i < body@.len() ==> compounds_open(#[trigger] body@[i]),
        _ => true,
    }
}

proof fn lemma_jumps_stay_open(a: Flow, b: Flow)
    requires
        jumps_open(a),
        jumps_open(b),
    ensures
        jumps_open(a.then_flow(b)),
{
    if a.emission.error is None {
        let whole = a.then_flow(b);
        let length = a.emission.code.bytes.len() as int;
        let code = whole.emission.code.bytes;
        assert(code =~= a.emission.code.bytes + b.emission.code.bytes);
        assert forall|site: int| open_jump(a.emission.code.bytes,
            site) implies #[trigger] open_jump(
            code,
            site,
        ) by {}
        assert forall|site: int| #[trigger] open_jump(b.emission.code.bytes,
            site) implies open_jump(
            code,
            site + length,
        ) by {
            assert(code[site + length] == b.emission.code.bytes[site]);
            assert(code[site + length + 1] == b.emission.code.bytes[site + 1]);
            assert(code[site + length + 2] == b.emission.code.bytes[site + 2]);
            assert(code[site + length + 3] == b.emission.code.bytes[site + 3]);
            assert(code[site + length - 1] == b.emission.code.bytes[site - 1]);
        }
        assert forall|i: int| 0 <= i < whole.breaks.len() implies open_jump(
            code,
            #[trigger] whole.breaks[i],
        ) by {
            if i < a.breaks.len() {
                assert(whole.breaks[i] == a.breaks[i]);
                assert(open_jump(a.emission.code.bytes, a.breaks[i]));
            } else {
                let j = i - a.breaks.len();
                assert(whole.breaks[i] == b.breaks[j] + length);
                assert(open_jump(b.emission.code.bytes, b.breaks[j]));
            }
        }
        assert forall|i: int| 0 <= i < whole.continues.len() implies open_jump(
            code,
            #[trigger] whole.continues[i],
        ) by {
            if i < a.continues.len() {
                assert(whole.continues[i] == a.continues[i]);
                assert(open_jump(a.emission.code.bytes, a.continues[i]));
            } else {
                let j = i - a.continues.len();
                assert(whole.continues[i] == b.continues[j] + length);
                assert(open_jump(b.emission.code.bytes, b.continues[j]));
            }
        }
    }
}

/// Every place that a statement leaves for its loop is the empty field of a jump, wherever
/// in the statement the jump stands; so it is of any statement whose compound statements
/// keep to that.
pub proof fn law_jumps_are_left_open(
    ctx: NativeCtx,
    stmt: BytecodeInstruction,
    around: Option<Around>,
    at: int,
)
    requires
        compounds_open(stmt),
        around matches Some(a) ==> before_jump(a).error is None,
    ensures
        jumps_open(stmt_flow(ctx, stmt, around, at)),
    decreases stmt, 0int,
{
    match stmt {
        BytecodeInstruction::Break => {
            if let Some(a) = around {
                law_break_leaves_its_jump_open(a);
            }
        },
        BytecodeInstruction::Continue => {
            if let Some(a) = around {
                if a.target is None {
                    law_continue_leaves_its_jump_open(a, at);
                }
            }
        },
        BytecodeInstruction::RegionBlock { body } => {
            law_jumps_of_statements_are_left_open(ctx, body@, 0, body@.len() as int, around, at);
        },
        _ => {},
    }
}

/// The same of statements in a row.
pub proof fn law_jumps_of_statements_are_left_open(
    ctx: NativeCtx,
    body: Seq<BytecodeInstruction>,
    k: int,
    n: int,
    around: Option<Around>,
    at: int,
)
    requires
        forall|i: int| 0 <= i < body.len() ==> compounds_open(#[trigger] body[i]),
        around matches Some(a) ==> before_jump(a).error is None,
    ensures
        jumps_open(stmts_flow(ctx, body, k, n, around, at)),
    decreases body, n - k,
{
    if 0 <= k < n && n <= body.len() {
        let first = stmt_flow(ctx, body[k], around, at);
        let next = at + first.emission.code.bytes.len();
        law_jumps_are_left_open(ctx, body[k], around, at);
        law_jumps_of_statements_are_left_open(ctx, body, k + 1, n, around, next);
        lemma_jumps_stay_open(first, stmts_flow(ctx, body, k + 1, n, around, next));
    }
}

} // verus!
