//! What the code of bindings and assignments does.
//!
//! A statement's code holds the code of its expressions. The laws here take what that code does
//! as given, and say what the whole does.

use crate::assembler::{assembled, contained, law_programs_assemble_in_sequence, Code};
use crate::assign::{
    assign_emission, immediate, let_emission, promoted_variable, store_at,
    update_in_place,
};
use crate::behavior::frames::slot_at;
use crate::behavior::instructions::{
    lemma_begin, lemma_load, lemma_mov, lemma_pop, lemma_push, lemma_store, Run,
};
use crate::bytecode::{AssignOp, Assignment, BinaryOp, BytecodeExpr, BytecodeExprKind, ScalarPlace};
use crate::context::NativeCtx;
use crate::emission::Emission;
use crate::layout::Layout;
use crate::machine::{
    effect, extended, flows, kept, law_one_step, law_programs_run_in_sequence, law_then_step,
    law_word_keeps_bytes, law_word_reads_back, step, with_word, word_at, word_span, wrap, Machine,
    Outcome, World,
};
use crate::mnemonics::{alu, alu_imm32, alu_imm32_mem, alu_store, at, frame, load, store};
use crate::vectorize::{acc_from_rax, acc_to_rax};
use crate::x86::{Alu, Insn, Reg, Rm, Width};
use crate::x86::Insn::{Pop, Push};
use crate::x86::Reg::{Rax, Rbp, Rcx, Rsp};
use vstd::prelude::*;

verus! {

// Running code

/// Whether an emission is the code of a program.
pub open spec fn codes(emission: Emission, program: Seq<Insn>) -> bool {
    emission == Emission::of_program(program) && contained(program)
}

/// Whether emitted code takes the machine from one state to another: it is the code of a program
/// that runs from its start to its end between the two.
pub open spec fn runs(world: World, emission: Emission, before: Machine, after: Machine) -> bool {
    exists|program: Seq<Insn>| #[trigger]
        codes(emission, program) && flows(world, program, before, after)
}

/// A program's code runs as the program.
pub proof fn lemma_program_runs(
    world: World,
    program: Seq<Insn>,
    before: Machine,
    after: Machine,
)
    requires
        contained(program),
        flows(world, program, before, after),
    ensures
        runs(world, Emission::of_program(program), before, after),
{
    assert(codes(Emission::of_program(program), program));
}

/// No code does nothing.
pub proof fn lemma_nothing_runs(world: World, m: Machine)
    ensures
        runs(world, Emission::nothing(), m, m),
{
    let program = Seq::<Insn>::empty();
    reveal(assembled);
    assert(assembled(program) =~= Code::empty());
    law_one_step(world, program, 0, m);
    assert(codes(Emission::nothing(), program));
}

/// Code in sequence runs in sequence.
pub proof fn law_emissions_run_in_sequence(
    world: World,
    first: Emission,
    next: Emission,
    before: Machine,
    between: Machine,
    after: Machine,
)
    requires
        runs(world, first, before, between),
        runs(world, next, between, after),
    ensures
        runs(world, first.then_emit(next), before, after),
{
    let a = choose|program: Seq<Insn>| #[trigger]
        codes(first, program) && flows(world, program, before, between);
    let b = choose|program: Seq<Insn>| #[trigger]
        codes(next, program) && flows(world, program, between, after);
    law_programs_run_in_sequence(
        world,
        a,
        b,
        before,
        between,
        Outcome::At(b.len() as int, after),
    );
    law_programs_assemble_in_sequence(a, b);
    assert forall|i: int| 0 <= i < (a + b).len() implies 0 <= i + (
    #[trigger] (a + b)[i]).jump_distance() <= (a + b).len() by {
        if i < a.len() {
            assert((a + b)[i] == a[i]);
        } else {
            assert((a + b)[i] == b[i - a.len()]);
        }
    }
    assert(codes(first.then_emit(next), a + b));
}

// Locals

/// The word of a local, in its register or in its slot.
pub open spec fn local_word(m: Machine, reg: Option<Reg>, slot: i32) -> u64 {
    match reg {
        Some(reg) => m.regs[reg],
        None => word_at(m.mem, slot_at(m.regs[Rbp], slot)),
    }
}

/// Whether a local was given a word, and nothing else changed but the flags.
pub open spec fn given(
    before: Machine,
    after: Machine,
    reg: Option<Reg>,
    slot: i32,
    word: u64,
) -> bool {
    let at = slot_at(before.regs[Rbp], slot);
    &&& local_word(after, reg, slot) == word
    &&& after.xmms == before.xmms
    &&& match reg {
        Some(reg) => after.regs == before.regs.insert(reg, word) && after.mem == before.mem,
        None => after.regs == before.regs && kept(before.mem, after.mem, at, at + 8),
    }
}

/// Whether a register may hold a local: neither the stack nor the frame pointer, nor the
/// register that values are computed in.
pub open spec fn holds_locals(reg: Option<Reg>) -> bool {
    reg matches Some(reg) ==> reg != Rax && reg != Rcx && reg != Rsp && reg != Rbp
}

/// Writing a word changes that word only.
pub proof fn lemma_put(mem: spec_fn(int) -> u8, at: int, value: u64)
    ensures
        word_at(with_word(mem, at, value), at) == value,
        kept(mem, with_word(mem, at, value), at, at + 8),
{
    law_word_reads_back(mem, at, value);
    assert forall|p: int| p < at || at + 8 <= p implies #[trigger] with_word(mem, at, value)(p)
        == mem(p) by {
        law_word_keeps_bytes(mem, at, value, p);
    }
}

/// `rax` goes where the local lives.
proof fn lemma_from_rax(world: World, reg: Option<Reg>, slot: i32, m: Machine) -> (after: Machine)
    requires
        holds_locals(reg),
    ensures
        runs(world, Emission::of_program(seq![acc_from_rax(reg, slot)]), m, after),
        given(m, after, reg, slot, m.regs[Rax]),
{
    let program = seq![acc_from_rax(reg, slot)];
    let run = Run { world, program, start: 0, before: m };
    let at = slot_at(m.regs[Rbp], slot);
    assert(program.len() == 1);
    lemma_begin(run);
    let after = match reg {
        Some(reg) => {
            lemma_mov(run, 0, m, reg, Rax);
            m.set(reg, m.regs[Rax])
        },
        None => {
            assert(m.address(world, frame(slot)) == at);
            lemma_store(run, 0, m, frame(slot), Rax);
            lemma_put(m.mem, at, m.regs[Rax]);
            m.store(Width::Quad, at, m.regs[Rax] as int)
        },
    };
    lemma_program_runs(world, program, m, after);
    after
}

/// Whether a layout is one word that is passed in `rax`.
pub open spec fn one_word(ty: Layout) -> bool {
    ty is I64 || ty is Text || ty is List || ty is Mapping || ty is HeapStruct
}

/// A `let` of a word gives the local the word that the value's code leaves in `rax`, and changes
/// nothing else.
pub proof fn law_let_gives_the_word(
    world: World,
    ctx: NativeCtx,
    name: Seq<char>,
    value: BytecodeExpr,
    m: Machine,
    computed: Machine,
) -> (after: Machine)
    requires
        ctx.local_of(name) is Some,
        one_word(ctx.local_of(name)->0.ty@),
        holds_locals(ctx.register_of(ctx.local_of(name)->0.slot)),
        runs(world, value.code.word@, m, computed),
    ensures
        runs(world, let_emission(ctx, name, value), m, after),
        ({
            let slot = ctx.local_of(name)->0.slot;
            given(computed, after, ctx.register_of(slot), slot, computed.regs[Rax])
        }),
{
    let slot = ctx.local_of(name)->0.slot;
    let after = lemma_from_rax(world, ctx.register_of(slot), slot, computed);
    law_emissions_run_in_sequence(
        world,
        value.code.word@,
        Emission::of_program(seq![acc_from_rax(ctx.register_of(slot), slot)]),
        m,
        computed,
        after,
    );
    after
}

// Assignments

/// Whether an assignment is of a word to `place`: through a path, or to an integer local.
pub open spec fn to_word(ctx: NativeCtx, a: Assignment, place: ScalarPlace) -> bool {
    &&& a.path@.len() > 0 || (ctx.local_of(a.name@) is Some && ctx.local_of(a.name@)->0.ty@ is I64)
    &&& a.typed_place is Ok
    &&& !(a.typed_place->Ok_0.ty@ is Narrow)
    &&& !(a.typed_place->Ok_0.ty@ is F64)
    &&& !(a.typed_place->Ok_0.ty@ is F32)
    &&& a.place == Ok::<ScalarPlace, String>(place)
}

/// `x = value` gives `x` the word that the value's code leaves in `rax`, and changes nothing
/// else.
pub proof fn law_assignment_gives_the_word(
    world: World,
    ctx: NativeCtx,
    a: Assignment,
    slot: i32,
    m: Machine,
    computed: Machine,
) -> (after: Machine)
    requires
        to_word(ctx, a, ScalarPlace::Const { slot }),
        a.op == AssignOp::Replace,
        update_in_place(ctx, slot, a.value) is None,
        holds_locals(ctx.register_of(slot)),
        runs(world, a.value.code.word@, m, computed),
    ensures
        runs(world, assign_emission(ctx, a), m, after),
        given(computed, after, ctx.register_of(slot), slot, computed.regs[Rax]),
{
    let after = lemma_from_rax(world, ctx.register_of(slot), slot, computed);
    law_emissions_run_in_sequence(
        world,
        a.value.code.word@,
        Emission::of_program(seq![acc_from_rax(ctx.register_of(slot), slot)]),
        m,
        computed,
        after,
    );
    after
}

/// The state with a word pushed on the stack.
pub open spec fn pushed(m: Machine, word: u64) -> Machine {
    let top = wrap(m.regs[Rsp] - 8);
    m.store(Width::Quad, top as int, word as int).set(Rsp, top)
}

/// `x op= value` gives `x` what the combining code leaves in `rax`. That code follows the code
/// of the value, and that in turn the word of `x`, which is on the stack by then. Nothing else
/// changes.
pub proof fn law_compound_assignment_gives_the_outcome(
    world: World,
    ctx: NativeCtx,
    a: Assignment,
    slot: i32,
    m: Machine,
    computed: Machine,
    combined: Machine,
) -> (after: Machine)
    requires
        to_word(ctx, a, ScalarPlace::Const { slot }),
        a.op != AssignOp::Replace,
        holds_locals(ctx.register_of(slot)),
        ({
            let left = local_word(m, ctx.register_of(slot), slot);
            runs(world, a.value.code.word@, pushed(m.set(Rax, left), left), computed)
        }),
        runs(world, a.combine@, computed, combined),
    ensures
        runs(world, assign_emission(ctx, a), m, after),
        given(combined, after, ctx.register_of(slot), slot, combined.regs[Rax]),
{
    let reg = ctx.register_of(slot);
    let left = local_word(m, reg, slot);
    let first = seq![acc_to_rax(reg, slot), Push(Rax)];
    let run = Run { world, program: first, start: 0, before: m };
    let m1 = m.set(Rax, left);
    let m2 = pushed(m1, left);
    assert(first.len() == 2);
    lemma_begin(run);
    match reg {
        Some(reg) => lemma_mov(run, 0, m, Rax, reg),
        None => {
            assert(m.address(world, frame(slot)) == slot_at(m.regs[Rbp], slot));
            lemma_load(run, 0, m, Rax, frame(slot));
        },
    }
    lemma_push(run, 1, m1, Rax);
    lemma_program_runs(world, first, m, m2);
    let after = lemma_from_rax(world, reg, slot, combined);
    let last = Emission::of_program(seq![acc_from_rax(reg, slot)]);
    law_emissions_run_in_sequence(world, a.combine@, last, computed, combined, after);
    law_emissions_run_in_sequence(
        world,
        a.value.code.word@,
        a.combine@.then_emit(last),
        m2,
        computed,
        after,
    );
    law_emissions_run_in_sequence(
        world,
        Emission::of_program(first),
        a.value.code.word@.then_emit(a.combine@.then_emit(last)),
        m,
        m2,
        after,
    );
    after
}

/// Whether the word at an address was written, and nothing else changed in memory.
pub open spec fn wrote(before: Machine, after: Machine, at: int, word: u64) -> bool {
    &&& word_at(after.mem, at) == word
    &&& kept(before.mem, after.mem, at, at + 8)
    &&& after.xmms == before.xmms
}

/// `array[i] op= value`: the element's word goes on the stack behind its address, the value's code
/// and the combining code follow, and what the latter leaves in `rax` goes to the address that
/// is then on top of the stack.
pub proof fn law_compound_assignment_to_an_element(
    world: World,
    ctx: NativeCtx,
    a: Assignment,
    place: ScalarPlace,
    m: Machine,
    found: Machine,
    computed: Machine,
    combined: Machine,
) -> (after: Machine)
    requires
        to_word(ctx, a, place),
        a.op != AssignOp::Replace,
        place is Dynamic,
        runs(world, place->address@, m, found),
        ({
            let kept_address = pushed(found, found.regs[Rcx]);
            let left = word_at(kept_address.mem, found.regs[Rcx] as int);
            runs(
                world,
                a.value.code.word@,
                pushed(kept_address.set(Rax, left), left),
                computed,
            )
        }),
        runs(world, a.combine@, computed, combined),
    ensures
        runs(world, assign_emission(ctx, a), m, after),
        ({
            let element = word_at(combined.mem, combined.regs[Rsp] as int);
            &&& wrote(combined, after, element as int, combined.regs[Rax])
            &&& after.regs == combined.regs.insert(Rcx, element).insert(
                Rsp,
                wrap(combined.regs[Rsp] + 8),
            )
        }),
{
    let first = seq![Push(Rcx), load(Rax, at(Rcx)), Push(Rax)];
    let run = Run { world, program: first, start: 0, before: found };
    assert(first.len() == 3);
    lemma_begin(run);
    lemma_push(run, 0, found, Rcx);
    let m1 = pushed(found, found.regs[Rcx]);
    assert(m1.address(world, at(Rcx)) == found.regs[Rcx]);
    lemma_load(run, 1, m1, Rax, at(Rcx));
    let left = word_at(m1.mem, found.regs[Rcx] as int);
    let m2 = m1.set(Rax, left);
    lemma_push(run, 2, m2, Rax);
    let m3 = pushed(m2, left);
    lemma_program_runs(world, first, found, m3);
    let last = seq![Pop(Rcx), store(at(Rcx), Rax)];
    let end = Run { world, program: last, start: 0, before: combined };
    assert(last.len() == 2);
    lemma_begin(end);
    lemma_pop(end, 0, combined, Rcx);
    let element = word_at(combined.mem, combined.regs[Rsp] as int);
    let m4 = combined.set(Rsp, wrap(combined.regs[Rsp] + 8)).set(Rcx, element);
    assert(m4.address(world, at(Rcx)) == element);
    lemma_store(end, 1, m4, at(Rcx), Rax);
    lemma_put(combined.mem, element as int, combined.regs[Rax]);
    let after = m4.store(Width::Quad, element as int, combined.regs[Rax] as int);
    assert(after.regs =~= combined.regs.insert(Rcx, element).insert(
        Rsp,
        wrap(combined.regs[Rsp] + 8),
    ));
    lemma_program_runs(world, last, combined, after);
    let tail = Emission::of_program(last);
    law_emissions_run_in_sequence(world, a.combine@, tail, computed, combined, after);
    law_emissions_run_in_sequence(
        world,
        a.value.code.word@,
        a.combine@.then_emit(tail),
        m3,
        computed,
        after,
    );
    law_emissions_run_in_sequence(
        world,
        Emission::of_program(first),
        a.value.code.word@.then_emit(a.combine@.then_emit(tail)),
        found,
        m3,
        after,
    );
    law_emissions_run_in_sequence(
        world,
        place->address@,
        Emission::of_program(first).then_emit(
            a.value.code.word@.then_emit(a.combine@.then_emit(tail)),
        ),
        m,
        found,
        after,
    );
    after
}

/// Keeps `rax` on the stack while an address is computed, and takes it back.
proof fn lemma_address_beside_rax(
    world: World,
    address: Emission,
    insn: Insn,
    m: Machine,
    found: Machine,
    after: Machine,
)
    requires
        runs(world, address, pushed(m, m.regs[Rax]), found),
        ({
            let back = found.set(Rsp, wrap(found.regs[Rsp] + 8)).set(
                Rax,
                word_at(found.mem, found.regs[Rsp] as int),
            );
            flows(world, seq![insn], back, after)
        }),
        insn.jump_distance() == 0,
    ensures
        runs(world, store_at(address, insn), m, after),
{
    let first = seq![Push(Rax)];
    let run = Run { world, program: first, start: 0, before: m };
    assert(first.len() == 1);
    lemma_begin(run);
    lemma_push(run, 0, m, Rax);
    lemma_program_runs(world, first, m, pushed(m, m.regs[Rax]));
    let pop = seq![Pop(Rax)];
    let taking = Run { world, program: pop, start: 0, before: found };
    assert(pop.len() == 1);
    lemma_begin(taking);
    lemma_pop(taking, 0, found, Rax);
    let back = found.set(Rsp, wrap(found.regs[Rsp] + 8)).set(
        Rax,
        word_at(found.mem, found.regs[Rsp] as int),
    );
    law_programs_run_in_sequence(world, pop, seq![insn], found, back, Outcome::At(1, after));
    let last = seq![Pop(Rax), insn];
    assert(pop + seq![insn] =~= last);
    lemma_program_runs(world, last, found, after);
    law_emissions_run_in_sequence(
        world,
        address,
        Emission::of_program(last),
        pushed(m, m.regs[Rax]),
        found,
        after,
    );
    law_emissions_run_in_sequence(
        world,
        Emission::of_program(first),
        address.then_emit(Emission::of_program(last)),
        m,
        pushed(m, m.regs[Rax]),
        after,
    );
}

/// `array[i] = value` writes the word that the value's code leaves in `rax` at the address that
/// the element's code leaves in `rcx`, where that code finds the word on top of the stack and
/// leaves it there.
pub proof fn law_assignment_to_an_element(
    world: World,
    ctx: NativeCtx,
    a: Assignment,
    place: ScalarPlace,
    m: Machine,
    computed: Machine,
    found: Machine,
) -> (after: Machine)
    requires
        to_word(ctx, a, place),
        a.op == AssignOp::Replace,
        place is Dynamic,
        runs(world, a.value.code.word@, m, computed),
        runs(world, place->address@, pushed(computed, computed.regs[Rax]), found),
        word_at(found.mem, found.regs[Rsp] as int) == computed.regs[Rax],
    ensures
        runs(world, assign_emission(ctx, a), m, after),
        wrote(found, after, found.regs[Rcx] as int, computed.regs[Rax]),
        after.regs == found.regs.insert(Rsp, wrap(found.regs[Rsp] + 8)).insert(
            Rax,
            computed.regs[Rax],
        ),
{
    let insn = store(at(Rcx), Rax);
    let value = computed.regs[Rax];
    let back = found.set(Rsp, wrap(found.regs[Rsp] + 8)).set(Rax, value);
    let run = Run { world, program: seq![insn], start: 0, before: back };
    let element = found.regs[Rcx] as int;
    lemma_begin(run);
    assert(back.address(world, at(Rcx)) == element);
    lemma_store(run, 0, back, at(Rcx), Rax);
    lemma_put(found.mem, element, value);
    let after = back.store(Width::Quad, element, value as int);
    lemma_address_beside_rax(world, place->address@, insn, computed, found, after);
    law_emissions_run_in_sequence(
        world,
        a.value.code.word@,
        store_at(place->address@, insn),
        m,
        computed,
        after,
    );
    after
}

// Updates in place

/// What an operator of an update computes.
pub open spec fn updated(op: BinaryOp, x: u64, y: int) -> u64 {
    if op == BinaryOp::Add {
        wrap(x + y)
    } else {
        wrap(x - y)
    }
}

/// `op [mem], src`, of an addition or a subtraction
proof fn lemma_alu_store(run: Run, m: Machine, op: Alu, slot: i32) -> (after: Machine)
    requires
        run.at(0, m),
        run.program == seq![alu_store(op, frame(slot), Rax)],
        op == Alu::Add || op == Alu::Sub,
    ensures
        run.at(1, after),
        ({
            let x = word_at(m.mem, slot_at(m.regs[Rbp], slot));
            let y = m.regs[Rax] as int;
            given(
                m,
                after,
                None,
                slot,
                if op == Alu::Add {
                    wrap(x + y)
                } else {
                    wrap(x - y)
                },
            )
        }),
{
    reveal(effect);
    reveal(step);
    let at = slot_at(m.regs[Rbp], slot);
    let x = word_at(m.mem, at);
    let y = m.regs[Rax] as int;
    let result = if op == Alu::Add {
        wrap(x + y)
    } else {
        wrap(x - y)
    };
    assert(m.address(run.world, frame(slot)) == at);
    assert(m.get(Width::Quad, Rax) == y);
    law_then_step(run.world, run.program, run.start, run.before, 0, m);
    lemma_put(m.mem, at, result);
    m.computed(run.world, op, Width::Quad, Rm::Mem(frame(slot)), y)
}

/// `op [mem], imm`, of an addition or a subtraction
proof fn lemma_alu_imm_mem(run: Run, m: Machine, op: Alu, slot: i32, imm: i32) -> (after: Machine)
    requires
        run.at(0, m),
        run.program == seq![alu_imm32_mem(op, frame(slot), imm)],
        op == Alu::Add || op == Alu::Sub,
    ensures
        run.at(1, after),
        ({
            let x = word_at(m.mem, slot_at(m.regs[Rbp], slot));
            given(
                m,
                after,
                None,
                slot,
                if op == Alu::Add {
                    wrap(x + imm)
                } else {
                    wrap(x - imm)
                },
            )
        }),
{
    reveal(effect);
    reveal(step);
    let at = slot_at(m.regs[Rbp], slot);
    let x = word_at(m.mem, at);
    let y = extended(Width::Quad, imm);
    let result = if op == Alu::Add {
        wrap(x + imm)
    } else {
        wrap(x - imm)
    };
    assert(m.address(run.world, frame(slot)) == at);
    assert(y == imm || y == imm + word_span());
    assert(wrap(x + y) == wrap(x + imm) && wrap(x - y) == wrap(x - imm));
    law_then_step(run.world, run.program, run.start, run.before, 0, m);
    lemma_put(m.mem, at, result);
    m.computed(run.world, op, Width::Quad, Rm::Mem(frame(slot)), y)
}

/// `op reg, imm`, of an addition or a subtraction
proof fn lemma_alu_imm_reg(run: Run, m: Machine, op: Alu, reg: Reg, imm: i32) -> (after: Machine)
    requires
        run.at(0, m),
        run.program == seq![alu_imm32(op, reg, imm)],
        op == Alu::Add || op == Alu::Sub,
    ensures
        run.at(1, after),
        after.mem == m.mem,
        after.xmms == m.xmms,
        after.regs == m.regs.insert(
            reg,
            if op == Alu::Add {
                wrap(m.regs[reg] + imm)
            } else {
                wrap(m.regs[reg] - imm)
            },
        ),
{
    reveal(effect);
    reveal(step);
    let x = m.regs[reg];
    let y = extended(Width::Quad, imm);
    assert(m.get(Width::Quad, reg) == x);
    assert(y == imm || y == imm + word_span());
    assert(wrap(x + y) == wrap(x + imm) && wrap(x - y) == wrap(x - imm));
    law_then_step(run.world, run.program, run.start, run.before, 0, m);
    m.computed(run.world, op, Width::Quad, Rm::Reg(reg), y)
}

/// `op dst, src`, of an addition or a subtraction
proof fn lemma_alu_regs(run: Run, m: Machine, op: Alu, dst: Reg, src: Reg) -> (after: Machine)
    requires
        run.at(0, m),
        run.program == seq![alu(op, dst, src)],
        op == Alu::Add || op == Alu::Sub,
    ensures
        run.at(1, after),
        after.mem == m.mem,
        after.xmms == m.xmms,
        after.regs == m.regs.insert(
            dst,
            if op == Alu::Add {
                wrap(m.regs[dst] + m.regs[src])
            } else {
                wrap(m.regs[dst] - m.regs[src])
            },
        ),
{
    reveal(effect);
    reveal(step);
    assert(m.get(Width::Quad, dst) == m.regs[dst]);
    assert(m.get(Width::Quad, src) == m.regs[src]);
    law_then_step(run.world, run.program, run.start, run.before, 0, m);
    m.computed(run.world, op, Width::Quad, Rm::Reg(dst), m.regs[src] as int)
}

/// `x = x + right` and `x = x - right` leave the sum or the difference in `x` and change nothing
/// else. The right operand is an integer literal, a local in a register, or what its code leaves
/// in `rax`; in the last case `x` is read after that code has run.
pub proof fn law_update_gives_the_outcome(
    world: World,
    ctx: NativeCtx,
    a: Assignment,
    slot: i32,
    m: Machine,
    computed: Machine,
) -> (after: Machine)
    requires
        to_word(ctx, a, ScalarPlace::Const { slot }),
        a.op == AssignOp::Replace,
        update_in_place(ctx, slot, a.value) is Some,
        holds_locals(ctx.register_of(slot)),
        runs(world, a.value.kind->right.code.word@, m, computed),
    ensures
        a.value.kind is Binary,
        runs(world, assign_emission(ctx, a), m, after),
        ({
            let op = a.value.kind->Binary_op;
            let right = *a.value.kind->right;
            let reg = ctx.register_of(slot);
            &&& op == BinaryOp::Add || op == BinaryOp::Subtract
            &&& match (right.kind, promoted_variable(ctx, right)) {
                (BytecodeExprKind::Integer(n), _) => if i32::MIN <= n <= i32::MAX {
                    given(m, after, reg, slot, updated(op, local_word(m, reg, slot), n as int))
                } else {
                    given(
                        computed,
                        after,
                        reg,
                        slot,
                        updated(op, local_word(computed, reg, slot), computed.regs[Rax] as int),
                    )
                },
                (_, Some(source)) if reg is Some => given(
                    m,
                    after,
                    reg,
                    slot,
                    updated(op, local_word(m, reg, slot), m.regs[source] as int),
                ),
                _ => given(
                    computed,
                    after,
                    reg,
                    slot,
                    updated(op, local_word(computed, reg, slot), computed.regs[Rax] as int),
                ),
            }
        }),
{
    let right = *a.value.kind->right;
    let op = update_in_place(ctx, slot, a.value)->0;
    let alu_op = op.0;
    let reg = ctx.register_of(slot);
    match (reg, immediate(right), promoted_variable(ctx, right)) {
        (Some(dst), Some(imm), _) => {
            let program = seq![alu_imm32(alu_op, dst, imm)];
            let run = Run { world, program, start: 0, before: m };
            lemma_begin(run);
            let after = lemma_alu_imm_reg(run, m, alu_op, dst, imm);
            lemma_program_runs(world, program, m, after);
            after
        },
        (None, Some(imm), _) => {
            let program = seq![alu_imm32_mem(alu_op, frame(slot), imm)];
            let run = Run { world, program, start: 0, before: m };
            lemma_begin(run);
            let after = lemma_alu_imm_mem(run, m, alu_op, slot, imm);
            lemma_program_runs(world, program, m, after);
            after
        },
        (Some(dst), None, Some(source)) => {
            let program = seq![alu(alu_op, dst, source)];
            let run = Run { world, program, start: 0, before: m };
            lemma_begin(run);
            let after = lemma_alu_regs(run, m, alu_op, dst, source);
            lemma_program_runs(world, program, m, after);
            after
        },
        (Some(dst), None, None) => {
            let program = seq![alu(alu_op, dst, Rax)];
            let run = Run { world, program, start: 0, before: computed };
            lemma_begin(run);
            let after = lemma_alu_regs(run, computed, alu_op, dst, Rax);
            lemma_program_runs(world, program, computed, after);
            law_emissions_run_in_sequence(
                world,
                right.code.word@,
                Emission::of_program(program),
                m,
                computed,
                after,
            );
            after
        },
        (None, None, _) => {
            let program = seq![alu_store(alu_op, frame(slot), Rax)];
            let run = Run { world, program, start: 0, before: computed };
            lemma_begin(run);
            let after = lemma_alu_store(run, computed, alu_op, slot);
            lemma_program_runs(world, program, computed, after);
            law_emissions_run_in_sequence(
                world,
                right.code.word@,
                Emission::of_program(program),
                m,
                computed,
                after,
            );
            after
        },
    }
}

} // verus!
