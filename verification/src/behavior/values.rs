//! What the code that puts values into frame slots does.

use crate::aggregate::{
    aggregate_emission, copy_emission, heap_words_emission, payload_emission, store_through_rcx,
    value_emission,
};
use crate::assign::{assign_emission, float_compound, let_emission, push_xmm0};
use crate::behavior::frames::slot_at;
use crate::behavior::instructions::{
    lemma_alu_imm8, lemma_begin, lemma_double_store, lemma_float_load, lemma_lea, lemma_load,
    lemma_mov, lemma_set_q, lemma_store, lemma_store_b, lemma_store_d, lemma_store_w, Run,
};
use crate::behavior::startup::{argument, law_word_param};
use crate::behavior::statements::{
    given, law_emissions_run_in_sequence, lemma_nothing_runs, lemma_program_runs, lemma_put, runs,
    wrote,
};
use crate::bytecode::{AssignOp, Assignment, BytecodeExpr, ScalarPlace};
use crate::context::{slot_above, NativeCtx};
use crate::emission::Emission;
use crate::function::{
    arg_reg, arg_xmm, argument_into_rax, copy_in_emission, float_param_program, param_emission,
    word_param_program,
};
use crate::layout::{words_of, Layout};
use crate::machine::{
    effect, flags_of_difference, flags_of_sum, kept, law_kept_bytes_keep_words,
    law_number_keeps_bytes, law_number_writes_bytes, law_then_step, nth_byte, number_at, step,
    with_number, word_at, word_span, wrap, Machine, World,
};
use crate::mnemonics::{
    alu_imm8, at, at_d, frame, lea, load, load_float_local, load_local, set_q, store,
    store_float_local, store_local,
};
use crate::x86::{Alu, FloatWidth, Insn, Reg, ScalarOp, Sse, Width, Xmm};
use crate::x86::Reg::{Rax, Rbp, Rcx, Rsp};
use crate::x86::Xmm::{Xmm0, Xmm1};
use vstd::prelude::*;

verus! {

// Words

/// `rax` goes into a slot.
proof fn lemma_into_slot(world: World, slot: i32, m: Machine) -> (after: Machine)
    ensures
        runs(world, Emission::of_program(seq![store_local(slot)]), m, after),
        given(m, after, None, slot, m.regs[Rax]),
{
    let program = seq![store_local(slot)];
    let run = Run { world, program, start: 0, before: m };
    let at = slot_at(m.regs[Rbp], slot);
    assert(program.len() == 1);
    lemma_begin(run);
    assert(m.address(world, frame(slot)) == at);
    lemma_store(run, 0, m, frame(slot), Rax);
    lemma_put(m.mem, at, m.regs[Rax]);
    let after = m.store(Width::Quad, at, m.regs[Rax] as int);
    lemma_program_runs(world, program, m, after);
    after
}

/// A value of one word, as an element or a field, goes into its slot from `rax`.
pub proof fn law_word_goes_into_its_slot(
    world: World,
    ctx: NativeCtx,
    slot: i32,
    ty: Layout,
    value: BytecodeExpr,
    m: Machine,
    computed: Machine,
) -> (after: Machine)
    requires
        ty is I64 || ty is Text,
        runs(world, value.code.word@, m, computed),
    ensures
        runs(world, value_emission(ctx, slot, ty, value), m, after),
        runs(world, payload_emission(slot, ty, value), m, after),
        given(computed, after, None, slot, computed.regs[Rax]),
{
    let after = lemma_into_slot(world, slot, computed);
    law_emissions_run_in_sequence(
        world,
        value.code.word@,
        Emission::of_program(seq![store_local(slot)]),
        m,
        computed,
        after,
    );
    after
}

/// A mutable heap value in a payload goes into its slot as the pointer to a fresh copy.
pub proof fn law_heap_payload_is_copied(
    world: World,
    slot: i32,
    ty: Layout,
    value: BytecodeExpr,
    m: Machine,
    computed: Machine,
) -> (after: Machine)
    requires
        ty is HeapStruct || ty is List || ty is Mapping,
        runs(world, value.code.heap_copy@, m, computed),
    ensures
        runs(world, payload_emission(slot, ty, value), m, after),
        given(computed, after, None, slot, computed.regs[Rax]),
{
    let after = lemma_into_slot(world, slot, computed);
    law_emissions_run_in_sequence(
        world,
        value.code.heap_copy@,
        Emission::of_program(seq![store_local(slot)]),
        m,
        computed,
        after,
    );
    after
}

/// An assignment to a string, a list or a map gives the local's slot the pointer.
pub proof fn law_pointer_assignment(
    world: World,
    ctx: NativeCtx,
    a: Assignment,
    m: Machine,
    computed: Machine,
) -> (after: Machine)
    requires
        a.path@.len() == 0,
        a.op == AssignOp::Replace,
        ctx.local_of(a.name@) is Some,
        ({
            let ty = ctx.local_of(a.name@)->0.ty@;
            ty is Text || ty is List || ty is Mapping
        }),
        runs(world, a.value.code.word@, m, computed),
    ensures
        runs(world, assign_emission(ctx, a), m, after),
        given(computed, after, None, ctx.local_of(a.name@)->0.slot, computed.regs[Rax]),
{
    let slot = ctx.local_of(a.name@)->0.slot;
    let after = lemma_into_slot(world, slot, computed);
    law_emissions_run_in_sequence(
        world,
        a.value.code.word@,
        Emission::of_program(seq![store_local(slot)]),
        m,
        computed,
        after,
    );
    after
}

/// The tag of an enum goes into its first slot.
pub proof fn law_tag_goes_into_its_slot(world: World, base: i32, tag: i64, m: Machine) -> (after:
    Machine)
    ensures
        runs(world, Emission::of_program(seq![set_q(Rax, tag), store_local(base)]), m, after),
        word_at(after.mem, slot_at(m.regs[Rbp], base)) == wrap(tag as int),
        kept(
            m.mem,
            after.mem,
            slot_at(m.regs[Rbp], base),
            slot_at(m.regs[Rbp], base) + 8,
        ),
        after.regs == m.regs.insert(Rax, wrap(tag as int)),
{
    let program = seq![set_q(Rax, tag), store_local(base)];
    let run = Run { world, program, start: 0, before: m };
    let at = slot_at(m.regs[Rbp], base);
    let word = wrap(tag as int);
    assert(program.len() == 2);
    lemma_begin(run);
    lemma_set_q(run, 0, m, Rax, tag);
    let m1 = m.set(Rax, word);
    assert(m1.address(world, frame(base)) == at);
    lemma_store(run, 1, m1, frame(base), Rax);
    lemma_put(m.mem, at, word);
    let after = m1.store(Width::Quad, at, word as int);
    lemma_program_runs(world, program, m, after);
    after
}

// Floats

/// Whether the float in `xmm0` went into a slot, and nothing else changed.
pub open spec fn float_given(
    before: Machine,
    after: Machine,
    slot: i32,
    width: FloatWidth,
) -> bool {
    let at = slot_at(before.regs[Rbp], slot);
    let low = before.xmms[Xmm0].0;
    &&& after.regs == before.regs
    &&& after.xmms == before.xmms
    &&& match width {
        FloatWidth::F64 => word_at(after.mem, at) == low && kept(before.mem, after.mem, at, at + 8),
        FloatWidth::F32 => put_bytes(before.mem, after.mem, at, 4, low as int % 0x1_0000_0000),
    }
}

/// Whether a number was written to `n` bytes, lowest first, and nothing else changed.
pub open spec fn put_bytes(
    before: spec_fn(int) -> u8,
    after: spec_fn(int) -> u8,
    at: int,
    n: nat,
    number: int,
) -> bool {
    &&& kept(before, after, at, at + n)
    &&& forall|i: int| 0 <= i < n ==> after(at + i) == #[trigger] nth_byte(number, i as nat)
}

proof fn lemma_put_bytes(mem: spec_fn(int) -> u8, at: int, n: nat, number: int)
    ensures
        put_bytes(mem, with_number(mem, at, n, number), at, n, number),
{
    law_number_keeps_bytes(mem, at, n, number);
    assert forall|i: int| 0 <= i < n implies with_number(mem, at, n, number)(at + i)
        == #[trigger] nth_byte(number, i as nat) by {
        law_number_writes_bytes(mem, at, n, number, i as nat);
    }
}

proof fn lemma_float_into_slot(world: World, slot: i32, width: FloatWidth, m: Machine) -> (after:
    Machine)
    ensures
        runs(world, Emission::of_program(seq![store_float_local(slot, width)]), m, after),
        float_given(m, after, slot, width),
{
    let program = seq![store_float_local(slot, width)];
    let run = Run { world, program, start: 0, before: m };
    let at = slot_at(m.regs[Rbp], slot);
    let low = m.xmms[Xmm0].0;
    assert(program.len() == 1);
    lemma_begin(run);
    assert(m.address(world, frame(slot)) == at);
    reveal(effect);
    reveal(step);
    law_then_step(world, program, 0, m, 0, m);
    let after = match width {
        FloatWidth::F64 => {
            lemma_put(m.mem, at, low);
            m.store(Width::Quad, at, low as int)
        },
        FloatWidth::F32 => {
            lemma_put_bytes(m.mem, at, 4, low as int % 0x1_0000_0000);
            m.store(Width::Long, at, low as int % 0x1_0000_0000)
        },
    };
    lemma_program_runs(world, program, m, after);
    after
}

/// A float value goes into its slot from `xmm0`: in a `let`, as an element or a field, and as a
/// payload.
pub proof fn law_float_goes_into_its_slot(
    world: World,
    ctx: NativeCtx,
    slot: i32,
    ty: Layout,
    name: Seq<char>,
    value: BytecodeExpr,
    m: Machine,
    computed: Machine,
) -> (after: Machine)
    requires
        ty is F64 || ty is F32,
        runs(world, value.code.float.0@, m, computed),
    ensures
        runs(world, value_emission(ctx, slot, ty, value), m, after),
        runs(world, payload_emission(slot, ty, value), m, after),
        ctx.local_of(name) is Some && ctx.local_of(name)->0.slot == slot && ctx.local_of(
            name,
        )->0.ty@ == ty ==> runs(world, let_emission(ctx, name, value), m, after),
        float_given(computed, after, slot, value.code.float.1),
{
    let width = value.code.float.1;
    let after = lemma_float_into_slot(world, slot, width, computed);
    law_emissions_run_in_sequence(
        world,
        value.code.float.0@,
        Emission::of_program(seq![store_float_local(slot, width)]),
        m,
        computed,
        after,
    );
    after
}

/// `x = value` gives a float local the value in `xmm0`, at the local's width.
pub proof fn law_float_assignment(
    world: World,
    ctx: NativeCtx,
    a: Assignment,
    width: FloatWidth,
    m: Machine,
    computed: Machine,
) -> (after: Machine)
    requires
        a.path@.len() == 0,
        a.op == AssignOp::Replace,
        ctx.local_of(a.name@) is Some,
        match width {
            FloatWidth::F64 => ctx.local_of(a.name@)->0.ty@ is F64,
            FloatWidth::F32 => ctx.local_of(a.name@)->0.ty@ is F32,
        },
        runs(world, a.value.code.float.0@, m, computed),
    ensures
        runs(world, assign_emission(ctx, a), m, after),
        float_given(computed, after, ctx.local_of(a.name@)->0.slot, width),
{
    let slot = ctx.local_of(a.name@)->0.slot;
    let after = lemma_float_into_slot(world, slot, width, computed);
    law_emissions_run_in_sequence(
        world,
        a.value.code.float.0@,
        Emission::of_program(seq![store_float_local(slot, width)]),
        m,
        computed,
        after,
    );
    after
}

/// The arithmetic of a compound assignment operator.
pub open spec fn float_operation(op: AssignOp) -> ScalarOp {
    match op {
        AssignOp::Add => ScalarOp::Plus,
        AssignOp::Subtract => ScalarOp::Minus,
        AssignOp::Multiply => ScalarOp::Times,
        _ => ScalarOp::Over,
    }
}

/// What the processor's arithmetic gives for two floats of a width.
pub open spec fn float_outcome(
    world: World,
    width: FloatWidth,
    op: ScalarOp,
    left: u64,
    right: u64,
) -> u64 {
    match width {
        FloatWidth::F64 => (world.double)(op, left, right),
        FloatWidth::F32 => (world.single)(op, left, right),
    }
}

/// The float in a slot.
pub open spec fn float_in_slot(m: Machine, slot: i32, width: FloatWidth) -> u64 {
    let at = slot_at(m.regs[Rbp], slot);
    match width {
        FloatWidth::F64 => word_at(m.mem, at),
        FloatWidth::F32 => number_at(m.mem, at, 4) as u64,
    }
}

/// `x op= value` on a float local: the local's value, as the left operand, and the value that its
/// code leaves in `xmm0`, as the right one, give what the local holds then. Nothing else in the
/// frame changes: the stack below its top serves in between.
#[verifier::rlimit(40)]
pub proof fn law_float_compound_assignment(
    world: World,
    ctx: NativeCtx,
    a: Assignment,
    width: FloatWidth,
    m: Machine,
    computed: Machine,
) -> (after: Machine)
    requires
        a.path@.len() == 0,
        a.op == AssignOp::Add || a.op == AssignOp::Subtract || a.op == AssignOp::Multiply || a.op
            == AssignOp::Divide,
        ctx.local_of(a.name@) is Some,
        match width {
            FloatWidth::F64 => ctx.local_of(a.name@)->0.ty@ is F64,
            FloatWidth::F32 => ctx.local_of(a.name@)->0.ty@ is F32,
        },
        runs(world, a.value.code.float.0@, m, computed),
        8 <= computed.regs[Rsp],
        ({
            let at = slot_at(computed.regs[Rbp], ctx.local_of(a.name@)->0.slot);
            at + 8 <= computed.regs[Rsp] - 8 || computed.regs[Rsp] <= at
        }),
    ensures
        runs(world, assign_emission(ctx, a), m, after),
        ({
            let slot = ctx.local_of(a.name@)->0.slot;
            let at = slot_at(computed.regs[Rbp], slot);
            let outcome = float_outcome(
                world,
                width,
                float_operation(a.op),
                float_in_slot(computed, slot, width),
                computed.xmms[Xmm0].0,
            );
            &&& match width {
                FloatWidth::F64 => word_at(after.mem, at) == outcome,
                FloatWidth::F32 => forall|i: int|
                    0 <= i < 4 ==> (after.mem)(at + i) == #[trigger] nth_byte(
                        outcome as int % 0x1_0000_0000,
                        i as nat,
                    ),
            }
            &&& forall|p: int|
                !(at <= p < at + 8) && !(computed.regs[Rsp] - 8 <= p < computed.regs[Rsp])
                    ==> #[trigger] (after.mem)(p) == (computed.mem)(p)
            &&& forall|reg: Reg| #[trigger] after.regs[reg] == computed.regs[reg]
        }),
{
    let slot = ctx.local_of(a.name@)->0.slot;
    let op = float_operation(a.op);
    let top = (computed.regs[Rsp] - 8) as u64;
    let a_slot = slot_at(computed.regs[Rbp], slot);
    let right = computed.xmms[Xmm0].0;
    let left = float_in_slot(computed, slot, width);
    let outcome = float_outcome(world, width, op, left, right);
    let program = seq![
        alu_imm8(Alu::Sub, Rsp, 8),
        Insn::MovsStore { width: FloatWidth::F64, mem: at(Rsp), xmm: Xmm0 },
        load_float_local(slot, width),
        Insn::MovsLoad { width: FloatWidth::F64, xmm: Xmm1, mem: at(Rsp) },
        alu_imm8(Alu::Add, Rsp, 8),
        Insn::SseRr { op: Sse::Scalar(width, op), dst: Xmm0, src: Xmm1 },
        store_float_local(slot, width),
    ];
    let run = Run { world, program, start: 0, before: computed };
    assert(program.len() == 7);
    lemma_begin(run);
    lemma_alu_imm8(run, 0, computed, Alu::Sub, Rsp, 8);
    let m1 = computed.set(Rsp, top).flagged(
        flags_of_difference(Width::Quad, computed.regs[Rsp] as int, 8),
    );
    assert(run.at(1, m1));
    assert(m1.address(world, at(Rsp)) == top);
    lemma_double_store(run, 1, m1, at(Rsp), Xmm0);
    let m2 = m1.store(Width::Quad, top as int, right as int);
    lemma_put(m1.mem, top as int, right);
    assert(m2.address(world, frame(slot)) == a_slot);
    lemma_float_load(run, 2, m2, width, Xmm0, frame(slot));
    assert(match width {
        FloatWidth::F64 => word_at(m2.mem, a_slot) == left,
        FloatWidth::F32 => number_at(m2.mem, a_slot, 4) as u64 == left,
    }) by {
        law_kept_bytes_keep_words(m1.mem, m2.mem, top as int, top + 8, a_slot);
        lemma_number_kept_here(m1.mem, m2.mem, top as int, a_slot);
    }
    let m3 = m2.set_lanes(Xmm0, (left, 0));
    assert(m3.address(world, at(Rsp)) == top);
    lemma_float_load(run, 3, m3, FloatWidth::F64, Xmm1, at(Rsp));
    let m4 = m3.set_lanes(Xmm1, (right, 0));
    lemma_alu_imm8(run, 4, m4, Alu::Add, Rsp, 8);
    let m5 = m4.set(Rsp, computed.regs[Rsp]).flagged(
        flags_of_sum(Width::Quad, top as int, 8),
    );
    assert(run.at(5, m5));
    let m6 = m5.set_lanes(Xmm0, (outcome, 0));
    assert(m5.xmms[Xmm0] == (left, 0u64) && m5.xmms[Xmm1] == (right, 0u64));
    assert(run.at(6, m6)) by {
        reveal(effect);
        reveal(step);
        law_then_step(world, program, 0, computed, 5, m5);
    }
    assert(m6.address(world, frame(slot)) == a_slot);
    let after = match width {
        FloatWidth::F64 => {
            lemma_put(m6.mem, a_slot, outcome);
            m6.store(Width::Quad, a_slot, outcome as int)
        },
        FloatWidth::F32 => {
            lemma_put_bytes(m6.mem, a_slot, 4, outcome as int % 0x1_0000_0000);
            m6.store(Width::Long, a_slot, outcome as int % 0x1_0000_0000)
        },
    };
    assert(run.at(7, after)) by {
        reveal(effect);
        reveal(step);
        law_then_step(world, program, 0, computed, 6, m6);
    }
    lemma_program_runs(world, program, computed, after);
    assert(float_compound(slot, width, a.op) =~= program);
    law_emissions_run_in_sequence(
        world,
        a.value.code.float.0@,
        Emission::of_program(program),
        m,
        computed,
        after,
    );
    after
}

/// Four bytes apart from a word that was written.
proof fn lemma_number_kept_here(
    before: spec_fn(int) -> u8,
    after: spec_fn(int) -> u8,
    top: int,
    a: int,
)
    requires
        kept(before, after, top, top + 8),
        a + 8 <= top || top + 8 <= a,
    ensures
        number_at(after, a, 4) == number_at(before, a, 4),
{
    reveal_with_fuel(number_at, 5);
}

// Packed elements

/// The largest number of `bytes` bytes, and one.
pub open spec fn span_of(bytes: usize) -> int {
    if bytes == 1 {
        0x100
    } else if bytes == 2 {
        0x1_0000
    } else {
        0x1_0000_0000
    }
}

proof fn lemma_packed_into_slot(world: World, slot: i32, bytes: usize, m: Machine) -> (after:
    Machine)
    requires
        bytes == 1 || bytes == 2 || bytes == 4,
    ensures
        runs(
            world,
            Emission::of_program(seq![lea(Rcx, frame(slot)), store_through_rcx(bytes)]),
            m,
            after,
        ),
        put_bytes(
            m.mem,
            after.mem,
            slot_at(m.regs[Rbp], slot),
            bytes as nat,
            m.regs[Rax] as int % span_of(bytes),
        ),
        after.regs == m.regs.insert(Rcx, slot_at(m.regs[Rbp], slot) as u64),
        after.xmms == m.xmms,
{
    let program = seq![lea(Rcx, frame(slot)), store_through_rcx(bytes)];
    let run = Run { world, program, start: 0, before: m };
    let a = slot_at(m.regs[Rbp], slot);
    let number = m.regs[Rax] as int % span_of(bytes);
    assert(program.len() == 2);
    lemma_begin(run);
    assert(m.address(world, frame(slot)) == a);
    lemma_lea(run, 0, m, Rcx, frame(slot));
    let m1 = m.set(Rcx, a as u64);
    assert(m1.address(world, at(Rcx)) == a);
    lemma_put_bytes(m.mem, a, bytes as nat, number);
    let after = Machine { mem: with_number(m.mem, a, bytes as nat, number), ..m1 };
    if bytes == 1 {
        lemma_store_b(run, 1, m1, at(Rcx), Rax);
        reveal_with_fuel(with_number, 2);
        assert(number % 256 == number);
    } else if bytes == 2 {
        lemma_store_w(run, 1, m1, at(Rcx), Rax);
    } else {
        lemma_store_d(run, 1, m1, at(Rcx), Rax);
    }
    lemma_program_runs(world, program, m, after);
    after
}

/// A packed element takes the low bytes of `rax`, as many as it has, and the bytes around it stay
/// as they were.
pub proof fn law_packed_element_takes_its_bytes(
    world: World,
    ctx: NativeCtx,
    slot: i32,
    ty: Layout,
    value: BytecodeExpr,
    m: Machine,
    computed: Machine,
) -> (after: Machine)
    requires
        ty is Narrow,
        ty->bytes == 1 || ty->bytes == 2 || ty->bytes == 4,
        runs(world, value.code.word@, m, computed),
    ensures
        runs(world, value_emission(ctx, slot, ty, value), m, after),
        put_bytes(
            computed.mem,
            after.mem,
            slot_at(computed.regs[Rbp], slot),
            ty->bytes as nat,
            computed.regs[Rax] as int % span_of(ty->bytes as usize),
        ),
        after.regs == computed.regs.insert(Rcx, after.regs[Rcx]),
{
    let bytes = ty->bytes as usize;
    let after = lemma_packed_into_slot(world, slot, bytes, computed);
    law_emissions_run_in_sequence(
        world,
        value.code.word@,
        Emission::of_program(seq![lea(Rcx, frame(slot)), store_through_rcx(bytes)]),
        m,
        computed,
        after,
    );
    after
}

/// So it does in an assignment to an element whose place is known.
pub proof fn law_packed_assignment(
    world: World,
    ctx: NativeCtx,
    a: Assignment,
    slot: i32,
    bytes: usize,
    m: Machine,
    computed: Machine,
) -> (after: Machine)
    requires
        a.path@.len() > 0,
        a.op == AssignOp::Replace,
        a.typed_place is Ok,
        a.typed_place->Ok_0.ty@ is Narrow,
        a.typed_place->Ok_0.ty@->bytes == bytes,
        a.typed_place->Ok_0.place == (ScalarPlace::Const { slot }),
        bytes == 1 || bytes == 2 || bytes == 4,
        runs(world, a.value.code.word@, m, computed),
    ensures
        runs(world, assign_emission(ctx, a), m, after),
        put_bytes(
            computed.mem,
            after.mem,
            slot_at(computed.regs[Rbp], slot),
            bytes as nat,
            computed.regs[Rax] as int % span_of(bytes),
        ),
        after.regs == computed.regs.insert(Rcx, after.regs[Rcx]),
{
    let after = lemma_packed_into_slot(world, slot, bytes, computed);
    law_emissions_run_in_sequence(
        world,
        a.value.code.word@,
        Emission::of_program(seq![lea(Rcx, frame(slot)), store_through_rcx(bytes)]),
        m,
        computed,
        after,
    );
    after
}

// Copies

/// Whether the `n` words of slots have addresses that do not wrap around.
pub open spec fn slots_in_frame(bp: u64, slot: i32, n: int) -> bool {
    &&& 0 <= n <= 0xFFF_FFFF
    &&& i32::MIN <= slot - 8 * n
    &&& 0 <= bp - slot
    &&& bp - slot + 8 * n < word_span()
}

/// Whether `n` words were copied from `from` to `to`, and nothing else in memory changed.
pub open spec fn copied_words(before: Machine, after: Machine, from: int, to: int, n: int) -> bool {
    &&& kept(before.mem, after.mem, to, to + 8 * n)
    &&& forall|k: int|
        0 <= k < n ==> word_at(after.mem, to + 8 * k) == #[trigger] word_at(
            before.mem,
            from + 8 * k,
        )
}

/// One word more.
proof fn lemma_one_word_more(
    m: Machine,
    next: Machine,
    after: Machine,
    from: int,
    to: int,
    k: int,
    n: int,
)
    requires
        0 <= k < n,
        from + 8 * n <= to || to + 8 * n <= from,
        wrote(m, next, to + 8 * k, word_at(m.mem, from + 8 * k)),
        kept(next.mem, after.mem, to + 8 * (k + 1), to + 8 * n),
        forall|j: int|
            k + 1 <= j < n ==> word_at(after.mem, to + 8 * j) == #[trigger] word_at(
                next.mem,
                from + 8 * j,
            ),
    ensures
        kept(m.mem, after.mem, to + 8 * k, to + 8 * n),
        forall|j: int|
            k <= j < n ==> word_at(after.mem, to + 8 * j) == #[trigger] word_at(
                m.mem,
                from + 8 * j,
            ),
{
    assert forall|p: int| p < to + 8 * k || to + 8 * n <= p implies #[trigger] (after.mem)(p)
        == (m.mem)(p) by {
        assert((after.mem)(p) == (next.mem)(p));
        assert((next.mem)(p) == (m.mem)(p));
    }
    assert forall|j: int| k <= j < n implies word_at(after.mem, to + 8 * j) == #[trigger] word_at(
        m.mem,
        from + 8 * j,
    ) by {
        if j == k {
            law_kept_bytes_keep_words(
                next.mem,
                after.mem,
                to + 8 * (k + 1),
                to + 8 * n,
                to + 8 * k,
            );
        } else {
            assert(word_at(after.mem, to + 8 * j) == word_at(next.mem, from + 8 * j));
            law_kept_bytes_keep_words(
                m.mem,
                next.mem,
                to + 8 * k,
                to + 8 * k + 8,
                from + 8 * j,
            );
        }
    }
}

proof fn lemma_copy(world: World, source: i32, base: i32, k: int, n: int, m: Machine) -> (after:
    Machine)
    requires
        0 <= k <= n,
        slots_in_frame(m.regs[Rbp], source, n),
        slots_in_frame(m.regs[Rbp], base, n),
        8 * n <= source - base || 8 * n <= base - source,
    ensures
        runs(world, copy_emission(source, base, k, n), m, after),
        ({
            let from = m.regs[Rbp] - source;
            let to = m.regs[Rbp] - base;
            &&& kept(m.mem, after.mem, to + 8 * k, to + 8 * n)
            &&& forall|j: int|
                k <= j < n ==> word_at(after.mem, to + 8 * j) == #[trigger] word_at(
                    m.mem,
                    from + 8 * j,
                )
            &&& forall|reg: Reg| reg != Rax ==> #[trigger] after.regs[reg] == m.regs[reg]
            &&& after.xmms == m.xmms
        }),
    decreases n - k,
{
    let bp = m.regs[Rbp];
    let from = bp - source;
    let to = bp - base;
    if k < n {
        let (s, t) = (slot_above(source, k as usize, 8), slot_above(base, k as usize, 8));
        assert(s == source - 8 * k && t == base - 8 * k);
        let program = seq![load_local(s), store_local(t)];
        let run = Run { world, program, start: 0, before: m };
        let word = word_at(m.mem, from + 8 * k);
        assert(program.len() == 2);
        lemma_begin(run);
        assert(m.address(world, frame(s)) == from + 8 * k);
        lemma_load(run, 0, m, Rax, frame(s));
        let m1 = m.set(Rax, word);
        assert(m1.address(world, frame(t)) == to + 8 * k);
        lemma_store(run, 1, m1, frame(t), Rax);
        lemma_put(m.mem, to + 8 * k, word);
        let next = m1.store(Width::Quad, to + 8 * k, word as int);
        lemma_program_runs(world, program, m, next);
        let after = lemma_copy(world, source, base, k + 1, n, next);
        lemma_one_word_more(m, next, after, from, to, k, n);
        law_emissions_run_in_sequence(
            world,
            Emission::of_program(program),
            copy_emission(source, base, k + 1, n),
            m,
            next,
            after,
        );
        after
    } else {
        lemma_nothing_runs(world, m);
        m
    }
}

/// A binding to another local's aggregate copies its words, all of them and in order, and changes
/// nothing else in memory.
pub proof fn law_aggregate_copies(
    world: World,
    ctx: NativeCtx,
    base: i32,
    ty: Layout,
    value: BytecodeExpr,
    source: Seq<char>,
    m: Machine,
) -> (after: Machine)
    requires
        value.kind is Variable,
        value.kind->Variable_0@ == source,
        ctx.local_of(source) is Some,
        ctx.local_of(source)->0.ty@ == ty,
        ({
            let from = ctx.local_of(source)->0.slot;
            let n = words_of(ty);
            &&& slots_in_frame(m.regs[Rbp], from, n)
            &&& slots_in_frame(m.regs[Rbp], base, n)
            &&& 8 * n <= from - base || 8 * n <= base - from
        }),
    ensures
        runs(world, aggregate_emission(ctx, base, ty, value), m, after),
        copied_words(
            m,
            after,
            m.regs[Rbp] - ctx.local_of(source)->0.slot,
            m.regs[Rbp] - base,
            words_of(ty),
        ),
        forall|reg: Reg| reg != Rax ==> #[trigger] after.regs[reg] == m.regs[reg],
{
    lemma_copy(world, ctx.local_of(source)->0.slot, base, 0, words_of(ty), m)
}

/// A binding to an inline array inside another local copies its words in the same way.
pub proof fn law_inline_array_copies(
    world: World,
    ctx: NativeCtx,
    base: i32,
    ty: Layout,
    value: BytecodeExpr,
    m: Machine,
) -> (after: Machine)
    requires
        value.kind is Field || value.kind is Index,
        ty is Array,
        value.code.source is Ok,
        ({
            let (from, source_ty) = value.code.source->Ok_0;
            let n = words_of(ty);
            &&& source_ty@ == ty
            &&& slots_in_frame(m.regs[Rbp], from, n)
            &&& slots_in_frame(m.regs[Rbp], base, n)
            &&& 8 * n <= from - base || 8 * n <= base - from
        }),
    ensures
        runs(world, aggregate_emission(ctx, base, ty, value), m, after),
        ({
            let (from, _) = value.code.source->Ok_0;
            copied_words(m, after, m.regs[Rbp] - from, m.regs[Rbp] - base, words_of(ty))
        }),
        forall|reg: Reg| reg != Rax ==> #[trigger] after.regs[reg] == m.regs[reg],
{
    let (from, source_ty) = value.code.source->Ok_0;
    lemma_copy(world, from, base, 0, words_of(ty), m)
}

/// The words of a heap struct, whose address is in `rcx`, go into slots.
pub proof fn law_heap_struct_is_read(world: World, base: i32, k: int, n: int, m: Machine) -> (after:
    Machine)
    requires
        0 <= k <= n,
        slots_in_frame(m.regs[Rbp], base, n),
        m.regs[Rcx] + 8 * n < word_span(),
        m.regs[Rcx] + 8 * n <= m.regs[Rbp] - base || m.regs[Rbp] - base + 8 * n <= m.regs[Rcx],
    ensures
        runs(world, heap_words_emission(base, k, n), m, after),
        ({
            let from = m.regs[Rcx] as int;
            let to = m.regs[Rbp] - base;
            &&& kept(m.mem, after.mem, to + 8 * k, to + 8 * n)
            &&& forall|j: int|
                k <= j < n ==> word_at(after.mem, to + 8 * j) == #[trigger] word_at(
                    m.mem,
                    from + 8 * j,
                )
            &&& forall|reg: Reg| reg != Rax ==> #[trigger] after.regs[reg] == m.regs[reg]
            &&& after.xmms == m.xmms
        }),
    decreases n - k,
{
    let from = m.regs[Rcx] as int;
    let to = m.regs[Rbp] - base;
    if k < n {
        let t = slot_above(base, k as usize, 8);
        let disp = (k as usize as i32).wrapping_mul(8);
        assert(t == base - 8 * k && disp == 8 * k);
        let program = seq![load(Rax, at_d(Rcx, disp)), store_local(t)];
        let run = Run { world, program, start: 0, before: m };
        let word = word_at(m.mem, from + 8 * k);
        assert(program.len() == 2);
        lemma_begin(run);
        assert(m.address(world, at_d(Rcx, disp)) == from + 8 * k);
        lemma_load(run, 0, m, Rax, at_d(Rcx, disp));
        let m1 = m.set(Rax, word);
        assert(m1.address(world, frame(t)) == to + 8 * k);
        lemma_store(run, 1, m1, frame(t), Rax);
        lemma_put(m.mem, to + 8 * k, word);
        let next = m1.store(Width::Quad, to + 8 * k, word as int);
        lemma_program_runs(world, program, m, next);
        let after = law_heap_struct_is_read(world, base, k + 1, n, next);
        lemma_one_word_more(m, next, after, from, to, k, n);
        law_emissions_run_in_sequence(
            world,
            Emission::of_program(program),
            heap_words_emission(base, k + 1, n),
            m,
            next,
            after,
        );
        after
    } else {
        lemma_nothing_runs(world, m);
        m
    }
}

// Parameters

/// The words that `rax` points to go into slots.
proof fn lemma_copy_in(world: World, slot: i32, k: int, n: int, m: Machine) -> (after: Machine)
    requires
        0 <= k <= n,
        slots_in_frame(m.regs[Rbp], slot, n),
        m.regs[Rax] + 8 * n < word_span(),
        m.regs[Rax] + 8 * n <= m.regs[Rbp] - slot || m.regs[Rbp] - slot + 8 * n <= m.regs[Rax],
    ensures
        runs(world, copy_in_emission(slot, k, n), m, after),
        ({
            let from = m.regs[Rax] as int;
            let to = m.regs[Rbp] - slot;
            &&& kept(m.mem, after.mem, to + 8 * k, to + 8 * n)
            &&& forall|j: int|
                k <= j < n ==> word_at(after.mem, to + 8 * j) == #[trigger] word_at(
                    m.mem,
                    from + 8 * j,
                )
            &&& forall|reg: Reg| reg != Rcx ==> #[trigger] after.regs[reg] == m.regs[reg]
            &&& after.xmms == m.xmms
        }),
    decreases n - k,
{
    let from = m.regs[Rax] as int;
    let to = m.regs[Rbp] - slot;
    if k < n {
        let t = slot_above(slot, k as usize, 8);
        let disp = (k as usize as i32).wrapping_mul(8);
        assert(t == slot - 8 * k && disp == 8 * k);
        let program = seq![load(Rcx, at_d(Rax, disp)), store(frame(t), Rcx)];
        let run = Run { world, program, start: 0, before: m };
        let word = word_at(m.mem, from + 8 * k);
        assert(program.len() == 2);
        lemma_begin(run);
        assert(m.address(world, at_d(Rax, disp)) == from + 8 * k);
        lemma_load(run, 0, m, Rcx, at_d(Rax, disp));
        let m1 = m.set(Rcx, word);
        assert(m1.address(world, frame(t)) == to + 8 * k);
        lemma_store(run, 1, m1, frame(t), Rcx);
        lemma_put(m.mem, to + 8 * k, word);
        let next = m1.store(Width::Quad, to + 8 * k, word as int);
        lemma_program_runs(world, program, m, next);
        assert(next.regs[Rax] as int == from && next.regs[Rbp] - slot == to);
        let after = lemma_copy_in(world, slot, k + 1, n, next);
        assert forall|j: int| k + 1 <= j < n implies word_at(after.mem, to + 8 * j)
            == #[trigger] word_at(next.mem, from + 8 * j) by {}
        lemma_one_word_more(m, next, after, from, to, k, n);
        law_emissions_run_in_sequence(
            world,
            Emission::of_program(program),
            copy_in_emission(slot, k + 1, n),
            m,
            next,
            after,
        );
        after
    } else {
        lemma_nothing_runs(world, m);
        m
    }
}

/// An aggregate parameter is copied whole from where its argument points into the frame.
pub proof fn law_aggregate_parameter_is_copied_in(
    world: World,
    ctx: NativeCtx,
    name: Seq<char>,
    position: usize,
    m: Machine,
) -> (after: Machine)
    requires
        position < 0x800_0000,
        m.regs[Rbp] + 48 + 8 * position < word_span(),
        ctx.local_of(name) is Some,
        ({
            let local = ctx.local_of(name)->0;
            let n = words_of(local.ty@);
            let from = argument(m, position);
            &&& local.ty@ is Struct || local.ty@ is Array || local.ty@ is Enum || local.ty@
                is FatArray
            &&& slots_in_frame(m.regs[Rbp], local.slot, n)
            &&& from + 8 * n < word_span()
            &&& from + 8 * n <= m.regs[Rbp] - local.slot || m.regs[Rbp] - local.slot + 8 * n
                <= from
        }),
    ensures
        runs(world, param_emission(ctx, name, position), m, after),
        ({
            let local = ctx.local_of(name)->0;
            copied_words(
                m,
                after,
                argument(m, position) as int,
                m.regs[Rbp] - local.slot,
                words_of(local.ty@),
            )
        }),
        forall|reg: Reg| reg != Rax && reg != Rcx ==> #[trigger] after.regs[reg] == m.regs[reg],
{
    let local = ctx.local_of(name)->0;
    let n = words_of(local.ty@);
    let program = seq![argument_into_rax(position)];
    let run = Run { world, program, start: 0, before: m };
    let m1 = m.set(Rax, argument(m, position));
    assert(program.len() == 1);
    lemma_begin(run);
    if position >= 4 {
        let disp = 48i32.wrapping_add((position as i32).wrapping_sub(4).wrapping_mul(8));
        assert(disp == 48 + 8 * (position - 4));
        assert(m.address(world, at_d(Rbp, disp)) == m.regs[Rbp] + disp);
        lemma_load(run, 0, m, Rax, at_d(Rbp, disp));
    } else {
        lemma_mov(run, 0, m, Rax, arg_reg(position));
    }
    lemma_program_runs(world, program, m, m1);
    let after = lemma_copy_in(world, local.slot, 0, n, m1);
    let from = argument(m, position) as int;
    assert(m1.mem == m.mem && m1.regs[Rax] == from);
    assert(copied_words(m1, after, from, m.regs[Rbp] - local.slot, n));
    assert forall|k: int| 0 <= k < n implies word_at(after.mem, m.regs[Rbp] - local.slot + 8 * k)
        == #[trigger] word_at(m.mem, from + 8 * k) by {
        assert(word_at(m1.mem, from + 8 * k) == word_at(m.mem, from + 8 * k));
    }
    law_emissions_run_in_sequence(
        world,
        Emission::of_program(program),
        copy_in_emission(local.slot, 0, n),
        m,
        m1,
        after,
    );
    after
}

/// A word parameter is kept where its local lives.
pub proof fn law_word_parameter_is_kept(
    world: World,
    ctx: NativeCtx,
    name: Seq<char>,
    position: usize,
    m: Machine,
) -> (after: Machine)
    requires
        position < 0x800_0000,
        m.regs[Rbp] + 48 + 8 * position < word_span(),
        ctx.local_of(name) is Some,
        ctx.local_of(name)->0.ty@ is I64 || ctx.local_of(name)->0.ty@ is Text || ctx.local_of(
            name,
        )->0.ty@ is List || ctx.local_of(name)->0.ty@ is Mapping || ctx.local_of(name)->0.ty@
            is HeapStruct,
        0 <= ctx.local_of(name)->0.slot <= m.regs[Rbp],
    ensures
        runs(world, param_emission(ctx, name, position), m, after),
        ({
            let slot = ctx.local_of(name)->0.slot;
            match ctx.register_of(slot) {
                Some(reg) => after.regs[reg] == argument(m, position) && after.mem == m.mem,
                None => word_at(after.mem, m.regs[Rbp] - slot) == argument(m, position) && kept(
                    m.mem,
                    after.mem,
                    m.regs[Rbp] - slot,
                    m.regs[Rbp] - slot + 8,
                ),
            }
        }),
        forall|other: Reg|
            other != Rax && ctx.register_of(ctx.local_of(name)->0.slot) != Some(other)
                ==> #[trigger] after.regs[other] == m.regs[other],
{
    let slot = ctx.local_of(name)->0.slot;
    let reg = ctx.register_of(slot);
    let after = law_word_param(world, m, slot, position, reg);
    lemma_program_runs(world, word_param_program(slot, position, reg), m, after);
    after
}

/// The low lane of the register of the float argument at `position`, one of the first four.
pub open spec fn float_argument(m: Machine, position: usize) -> u64 {
    m.xmms[seq![Xmm0, Xmm1, Xmm::Xmm2, Xmm::Xmm3][position as int]].0
}

/// A float parameter is kept in its slot, at its width; one that lies on the stack is kept as
/// a whole word.
pub proof fn law_float_parameter_is_kept(
    world: World,
    ctx: NativeCtx,
    name: Seq<char>,
    position: usize,
    width: FloatWidth,
    m: Machine,
) -> (after: Machine)
    requires
        position < 0x800_0000,
        m.regs[Rbp] + 48 + 8 * position < word_span(),
        ctx.local_of(name) is Some,
        match width {
            FloatWidth::F64 => ctx.local_of(name)->0.ty@ is F64,
            FloatWidth::F32 => ctx.local_of(name)->0.ty@ is F32,
        },
        0 <= ctx.local_of(name)->0.slot <= m.regs[Rbp],
    ensures
        runs(world, param_emission(ctx, name, position), m, after),
        ({
            let at = m.regs[Rbp] - ctx.local_of(name)->0.slot;
            if position >= 4 {
                word_at(after.mem, at) == argument(m, position) && kept(
                    m.mem,
                    after.mem,
                    at,
                    at + 8,
                )
            } else {
                let low = float_argument(m, position);
                match width {
                    FloatWidth::F64 => word_at(after.mem, at) == low && kept(
                        m.mem,
                        after.mem,
                        at,
                        at + 8,
                    ),
                    FloatWidth::F32 => put_bytes(
                        m.mem,
                        after.mem,
                        at,
                        4,
                        low as int % 0x1_0000_0000,
                    ),
                }
            }
        }),
        forall|other: Reg| other != Rax ==> #[trigger] after.regs[other] == m.regs[other],
{
    let slot = ctx.local_of(name)->0.slot;
    let at = m.regs[Rbp] - slot;
    let program = float_param_program(slot, position, width);
    if position >= 4 {
        let after = law_word_param(world, m, slot, position, None);
        assert(program == word_param_program(slot, position, None));
        lemma_program_runs(world, program, m, after);
        after
    } else {
        let run = Run { world, program, start: 0, before: m };
        let low = float_argument(m, position);
        assert(program.len() == 1);
        lemma_begin(run);
        assert(m.address(world, frame(slot)) == at);
        assert(m.xmms[arg_xmm(position)].0 == low);
        reveal(effect);
        reveal(step);
        law_then_step(world, program, 0, m, 0, m);
        let after = match width {
            FloatWidth::F64 => {
                lemma_put(m.mem, at, low);
                m.store(Width::Quad, at, low as int)
            },
            FloatWidth::F32 => {
                lemma_put_bytes(m.mem, at, 4, low as int % 0x1_0000_0000);
                m.store(Width::Long, at, low as int % 0x1_0000_0000)
            },
        };
        lemma_program_runs(world, program, m, after);
        after
    }
}

// Float elements

/// A machine with the low lane of `xmm0` on top of its stack.
pub open spec fn float_pushed(m: Machine) -> Machine {
    let top = wrap(m.regs[Rsp] - 8);
    m.set(Rsp, top).flagged(flags_of_difference(Width::Quad, m.regs[Rsp] as int, 8)).store(
        Width::Quad,
        top as int,
        m.xmms[Xmm0].0 as int,
    )
}

/// Whether the float `low` was written at `at`, and nothing else in memory changed.
pub open spec fn float_written(
    before: Machine,
    after: Machine,
    at: int,
    width: FloatWidth,
    low: u64,
) -> bool {
    match width {
        FloatWidth::F64 => word_at(after.mem, at) == low && kept(before.mem, after.mem, at, at + 8),
        FloatWidth::F32 => put_bytes(before.mem, after.mem, at, 4, low as int % 0x1_0000_0000),
    }
}

/// `array[i] = value` on an array of floats writes the float that the value's code leaves in
/// `xmm0` at the address that the element's code leaves in `rcx`, where that code finds the
/// float on top of the stack and leaves it there. The stack is as that code found it but for
/// the float.
#[verifier::rlimit(30)]
pub proof fn law_float_goes_into_its_element(
    world: World,
    ctx: NativeCtx,
    a: Assignment,
    width: FloatWidth,
    m: Machine,
    computed: Machine,
    found: Machine,
) -> (after: Machine)
    requires
        a.path@.len() > 0,
        a.op == AssignOp::Replace,
        a.typed_place is Ok,
        match width {
            FloatWidth::F64 => a.typed_place->Ok_0.ty@ is F64,
            FloatWidth::F32 => a.typed_place->Ok_0.ty@ is F32,
        },
        a.typed_place->Ok_0.place is Dynamic,
        runs(world, a.value.code.float.0@, m, computed),
        runs(world, a.typed_place->Ok_0.place->address@, float_pushed(computed), found),
        word_at(found.mem, found.regs[Rsp] as int) == computed.xmms[Xmm0].0,
    ensures
        runs(world, assign_emission(ctx, a), m, after),
        float_written(found, after, found.regs[Rcx] as int, width, computed.xmms[Xmm0].0),
        after.regs == found.regs.insert(Rsp, wrap(found.regs[Rsp] + 8)),
{
    let address = a.typed_place->Ok_0.place->address@;
    let top = wrap(computed.regs[Rsp] - 8);
    let low = computed.xmms[Xmm0].0;
    let spill = push_xmm0();
    let first = Run { world, program: spill, start: 0, before: computed };
    assert(spill.len() == 2);
    lemma_begin(first);
    lemma_alu_imm8(first, 0, computed, Alu::Sub, Rsp, 8);
    let m1 = computed.set(Rsp, top).flagged(
        flags_of_difference(Width::Quad, computed.regs[Rsp] as int, 8),
    );
    assert(first.at(1, m1));
    assert(m1.address(world, at(Rsp)) == top);
    lemma_double_store(first, 1, m1, at(Rsp), Xmm0);
    lemma_program_runs(world, spill, computed, float_pushed(computed));
    let last = seq![
        Insn::MovsLoad { width: FloatWidth::F64, xmm: Xmm0, mem: at(Rsp) },
        alu_imm8(Alu::Add, Rsp, 8),
        Insn::MovsStore { width, mem: at(Rcx), xmm: Xmm0 },
    ];
    let run = Run { world, program: last, start: 0, before: found };
    let element = found.regs[Rcx] as int;
    assert(last.len() == 3);
    lemma_begin(run);
    assert(found.address(world, at(Rsp)) == found.regs[Rsp]);
    lemma_float_load(run, 0, found, FloatWidth::F64, Xmm0, at(Rsp));
    let m2 = found.set_lanes(Xmm0, (low, 0));
    lemma_alu_imm8(run, 1, m2, Alu::Add, Rsp, 8);
    let m3 = m2.set(Rsp, wrap(found.regs[Rsp] + 8)).flagged(
        flags_of_sum(Width::Quad, found.regs[Rsp] as int, 8),
    );
    assert(run.at(2, m3));
    assert(m3.address(world, at(Rcx)) == element);
    assert(m3.xmms[Xmm0].0 == low);
    let after = match width {
        FloatWidth::F64 => {
            lemma_put(m3.mem, element, low);
            m3.store(Width::Quad, element, low as int)
        },
        FloatWidth::F32 => {
            lemma_put_bytes(m3.mem, element, 4, low as int % 0x1_0000_0000);
            m3.store(Width::Long, element, low as int % 0x1_0000_0000)
        },
    };
    assert(run.at(3, after)) by {
        reveal(effect);
        reveal(step);
        law_then_step(world, last, 0, found, 2, m3);
    }
    lemma_program_runs(world, last, found, after);
    let ending = Emission::of_program(last);
    let middle = Emission::of_program(spill).then_emit(address.then_emit(ending));
    law_emissions_run_in_sequence(
        world,
        address,
        ending,
        float_pushed(computed),
        found,
        after,
    );
    law_emissions_run_in_sequence(
        world,
        Emission::of_program(spill),
        address.then_emit(ending),
        computed,
        float_pushed(computed),
        after,
    );
    law_emissions_run_in_sequence(world, a.value.code.float.0@, middle, m, computed, after);
    after
}

/// A float element whose place is known takes the value in `xmm0`, at its width.
pub proof fn law_float_goes_into_its_known_element(
    world: World,
    ctx: NativeCtx,
    a: Assignment,
    width: FloatWidth,
    m: Machine,
    computed: Machine,
) -> (after: Machine)
    requires
        a.path@.len() > 0,
        a.op == AssignOp::Replace,
        a.typed_place is Ok,
        match width {
            FloatWidth::F64 => a.typed_place->Ok_0.ty@ is F64,
            FloatWidth::F32 => a.typed_place->Ok_0.ty@ is F32,
        },
        a.typed_place->Ok_0.place is Const,
        runs(world, a.value.code.float.0@, m, computed),
    ensures
        runs(world, assign_emission(ctx, a), m, after),
        float_given(computed, after, a.typed_place->Ok_0.place->Const_slot, width),
{
    let slot = a.typed_place->Ok_0.place->Const_slot;
    let after = lemma_float_into_slot(world, slot, width, computed);
    law_emissions_run_in_sequence(
        world,
        a.value.code.float.0@,
        Emission::of_program(seq![store_float_local(slot, width)]),
        m,
        computed,
        after,
    );
    after
}

} // verus!
