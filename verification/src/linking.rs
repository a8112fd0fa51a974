//! Routines that call each other.
//!
//! [`machine`](crate::machine) runs one program up to a call; here the called routine runs
//! too, and its caller goes on where it returns.

use crate::machine::{
    comes_to, step, steps, with_word, word_at, wrap, Machine, Outcome, World,
};
use crate::symbols::Symbol;
use crate::x86::{Insn, Reg};
use vstd::prelude::*;

verus! {

/// The state in which a called routine starts: the address to return to is on the stack.
pub open spec fn entered(world: World, program: Seq<Insn>, back: int, m: Machine) -> Machine {
    let top = wrap(m.regs[Reg::Rsp] - 8);
    Machine {
        regs: m.regs.insert(Reg::Rsp, top),
        mem: with_word(m.mem, top as int, (world.site)(program, back)),
        ..m
    }
}

/// Whether a called routine returned to its caller: the stack is as before the call, and
/// the address it returned to is the one the call left there.
pub open spec fn returned_home(
    world: World,
    program: Seq<Insn>,
    back: int,
    m: Machine,
    out: Machine,
) -> bool {
    &&& out.regs[Reg::Rsp] == m.regs[Reg::Rsp]
    &&& word_at(out.mem, wrap(m.regs[Reg::Rsp] - 8) as int) == (world.site)(program, back)
}

/// What comes of running a program and the routines it calls, given this much time.
pub open spec fn linked(world: World, program: Seq<Insn>, pc: int, m: Machine, time: nat) -> Outcome
    decreases time,
{
    if time == 0 {
        Outcome::At(pc, m)
    } else {
        let rest = (time - 1) as nat;
        match step(world, program, pc, m) {
            Outcome::At(pc2, m2) => linked(world, program, pc2, m2, rest),
            Outcome::Left(symbol, m2) => linked(world, (world.code)(symbol), 0, m2, rest),
            Outcome::Called(symbol, back, m2) => match linked(
                world,
                (world.code)(symbol),
                0,
                entered(world, program, back, m2),
                rest,
            ) {
                Outcome::Returned(out) => if returned_home(world, program, back, m2, out) {
                    linked(world, program, back, out, rest)
                } else {
                    Outcome::Lost
                },
                Outcome::Trapped(out) => Outcome::Trapped(out),
                Outcome::At(_, _) => Outcome::At(pc, m),
                _ => Outcome::Lost,
            },
            outcome => outcome,
        }
    }
}

/// Whether an outcome ends a run for good.
pub open spec fn ends_a_run(outcome: Outcome) -> bool {
    outcome is Returned || outcome is Trapped
}

/// Whether a program, run with the routines it calls, ends in `outcome`.
#[verifier::opaque]
pub open spec fn ends_in(world: World, program: Seq<Insn>, pc: int, m: Machine,
    outcome: Outcome) -> bool {
    ends_a_run(outcome)
        && exists|time: nat| #[trigger] linked(world, program, pc, m, time) == outcome
}

/// An end stays when more time is given.
proof fn lemma_more_time(
    world: World,
    program: Seq<Insn>,
    pc: int,
    m: Machine,
    time: nat,
    more: nat,
)
    requires
        ends_a_run(linked(world, program, pc, m, time)),
        time <= more,
    ensures
        linked(world, program, pc, m, more) == linked(world, program, pc, m, time),
    decreases time,
{
    let rest = (time - 1) as nat;
    let rest2 = (more - 1) as nat;
    match step(world, program, pc, m) {
        Outcome::At(pc2, m2) => {
            lemma_more_time(world, program, pc2, m2, rest, rest2);
        },
        Outcome::Left(symbol, m2) => {
            lemma_more_time(world, (world.code)(symbol), 0, m2, rest, rest2);
        },
        Outcome::Called(symbol, back, m2) => {
            let callee = (world.code)(symbol);
            let start = entered(world, program, back, m2);
            lemma_more_time(world, callee, 0, start, rest, rest2);
            match linked(world, callee, 0, start, rest) {
                Outcome::Returned(out) => {
                    lemma_more_time(world, program, back, out, rest, rest2);
                },
                _ => {},
            }
        },
        _ => {},
    }
}

/// A step that stays in the program.
proof fn lemma_linked_step(
    world: World,
    program: Seq<Insn>,
    pc: int,
    m: Machine,
    pc2: int,
    m2: Machine,
    outcome: Outcome,
)
    requires
        step(world, program, pc, m) == Outcome::At(pc2, m2),
        ends_in(world, program, pc2, m2, outcome),
    ensures
        ends_in(world, program, pc, m, outcome),
{
    reveal(ends_in);
    let time = choose|time: nat| #[trigger] linked(world, program, pc2, m2, time) == outcome;
    assert(linked(world, program, pc, m, time + 1) == outcome);
}

proof fn lemma_linked_steps(
    world: World,
    program: Seq<Insn>,
    pc: int,
    m: Machine,
    n: nat,
    out: Machine,
    outcome: Outcome,
)
    requires
        match steps(world, program, pc, m, n) {
            Outcome::At(pc2, m2) => ends_in(world, program, pc2, m2, outcome),
            Outcome::Called(symbol, back, m2) => {
                let callee = (world.code)(symbol);
                let start = entered(world, program, back, m2);
                ||| outcome is Trapped && ends_in(world, callee, 0, start, outcome)
                ||| {
                    &&& ends_in(world, callee, 0, start, Outcome::Returned(out))
                    &&& returned_home(world, program, back, m2, out)
                    &&& ends_in(world, program, back, out, outcome)
                }
            },
            Outcome::Left(symbol, m2) => ends_in(world, (world.code)(symbol), 0, m2, outcome),
            other => other == outcome && ends_a_run(outcome),
        },
    ensures
        ends_in(world, program, pc, m, outcome),
    decreases n,
{
    if n > 0 {
        match step(world, program, pc, m) {
            Outcome::At(pc2, m2) => {
                lemma_linked_steps(world, program, pc2, m2, (n - 1) as nat, out, outcome);
                lemma_linked_step(world, program, pc, m, pc2, m2, outcome);
            },
            Outcome::Called(symbol, back, m2) => {
                reveal(ends_in);
                let callee = (world.code)(symbol);
                let start = entered(world, program, back, m2);
                assert(steps(world, program, pc, m, n) == Outcome::Called(symbol, back, m2));
                if outcome is Trapped && ends_in(world, callee, 0, start, outcome) {
                    let a = choose|time: nat| #[trigger]
                        linked(world, callee, 0, start, time) == outcome;
                    assert(linked(world, program, pc, m, a + 1) == outcome);
                } else {
                    let a = choose|time: nat| #[trigger]
                        linked(world, callee, 0, start, time) == Outcome::Returned(out);
                    let b = choose|time: nat| #[trigger]
                        linked(world, program, back, out, time) == outcome;
                    let time = a + b;
                    lemma_more_time(world, callee, 0, start, a, time);
                    lemma_more_time(world, program, back, out, b, time);
                    assert(linked(world, program, pc, m, time + 1) == outcome);
                }
            },
            Outcome::Left(symbol, m2) => {
                reveal(ends_in);
                let callee = (world.code)(symbol);
                assert(steps(world, program, pc, m, n) == Outcome::Left(symbol, m2));
                let a = choose|time: nat| #[trigger] linked(world, callee, 0, m2, time) == outcome;
                assert(linked(world, program, pc, m, a + 1) == outcome);
            },
            other => {
                reveal(ends_in);
                assert(steps(world, program, pc, m, n) == outcome);
                reveal_with_fuel(linked, 2);
                assert(linked(world, program, pc, m, 1) == outcome);
            },
        }
    }
}

/// A program that ends without calling anything ends so.
pub proof fn law_ends_alone(world: World, program: Seq<Insn>, pc: int, m: Machine, outcome: Outcome)
    requires
        comes_to(world, program, pc, m, outcome),
        ends_a_run(outcome),
    ensures
        ends_in(world, program, pc, m, outcome),
{
    reveal(comes_to);
    let n = choose|n: nat| #[trigger] steps(world, program, pc, m, n) == outcome;
    lemma_linked_steps(world, program, pc, m, n, m, outcome);
}

/// A program that comes to a position ends as it does from there.
pub proof fn law_runs_into(
    world: World,
    program: Seq<Insn>,
    pc: int,
    m: Machine,
    pc2: int,
    m2: Machine,
    outcome: Outcome,
)
    requires
        comes_to(world, program, pc, m, Outcome::At(pc2, m2)),
        ends_in(world, program, pc2, m2, outcome),
    ensures
        ends_in(world, program, pc, m, outcome),
{
    reveal(comes_to);
    let n = choose|n: nat| #[trigger] steps(world, program, pc, m, n) == Outcome::At(pc2, m2);
    lemma_linked_steps(world, program, pc, m, n, m, outcome);
}

/// A call: the called routine runs to its return, and the caller goes on from there.
pub proof fn law_call(
    world: World,
    program: Seq<Insn>,
    pc: int,
    m: Machine,
    symbol: Symbol,
    back: int,
    calling: Machine,
    out: Machine,
    outcome: Outcome,
)
    requires
        comes_to(world, program, pc, m, Outcome::Called(symbol, back, calling)),
        ends_in(
            world,
            (world.code)(symbol),
            0,
            entered(world, program, back, calling),
            Outcome::Returned(out),
        ),
        returned_home(world, program, back, calling, out),
        ends_in(world, program, back, out, outcome),
    ensures
        ends_in(world, program, pc, m, outcome),
{
    reveal(comes_to);
    let n = choose|n: nat| #[trigger]
        steps(world, program, pc, m, n) == Outcome::Called(symbol, back, calling);
    lemma_linked_steps(world, program, pc, m, n, out, outcome);
}

/// A call of a routine that traps traps.
pub proof fn law_call_traps(
    world: World,
    program: Seq<Insn>,
    pc: int,
    m: Machine,
    symbol: Symbol,
    back: int,
    calling: Machine,
    out: Machine,
)
    requires
        comes_to(world, program, pc, m, Outcome::Called(symbol, back, calling)),
        ends_in(
            world,
            (world.code)(symbol),
            0,
            entered(world, program, back, calling),
            Outcome::Trapped(out),
        ),
    ensures
        ends_in(world, program, pc, m, Outcome::Trapped(out)),
{
    reveal(comes_to);
    let n = choose|n: nat| #[trigger]
        steps(world, program, pc, m, n) == Outcome::Called(symbol, back, calling);
    lemma_linked_steps(world, program, pc, m, n, m, Outcome::Trapped(out));
}

/// A routine that another one goes on to returns for it.
pub proof fn law_goes_on_to(
    world: World,
    program: Seq<Insn>,
    pc: int,
    m: Machine,
    symbol: Symbol,
    leaving: Machine,
    outcome: Outcome,
)
    requires
        comes_to(world, program, pc, m, Outcome::Left(symbol, leaving)),
        ends_in(world, (world.code)(symbol), 0, leaving, outcome),
    ensures
        ends_in(world, program, pc, m, outcome),
{
    reveal(comes_to);
    let n = choose|n: nat| #[trigger]
        steps(world, program, pc, m, n) == Outcome::Left(symbol, leaving);
    lemma_linked_steps(world, program, pc, m, n, m, outcome);
}

/// A run has one end only.
pub proof fn law_run_ends_once(
    world: World,
    program: Seq<Insn>,
    pc: int,
    m: Machine,
    a: Outcome,
    b: Outcome,
)
    requires
        ends_in(world, program, pc, m, a),
        ends_in(world, program, pc, m, b),
    ensures
        a == b,
{
    reveal(ends_in);
    let i = choose|time: nat| #[trigger] linked(world, program, pc, m, time) == a;
    let j = choose|time: nat| #[trigger] linked(world, program, pc, m, time) == b;
    if i <= j {
        lemma_more_time(world, program, pc, m, i, j);
    } else {
        lemma_more_time(world, program, pc, m, j, i);
    }
}

} // verus!
