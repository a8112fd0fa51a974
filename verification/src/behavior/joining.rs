//! Joining strings.

use crate::behavior::allocation::{
    block_of, has_room, heap_fits, idle, in_block, lemma_alloc_call, lemma_heap_stands, span_held,
    spare,
};
use crate::behavior::building::{
    builds, can_build, lemma_at_the_call, lemma_built, lemma_enter, lemma_leave,
    lemma_span_safe_inside, lemma_span_stays, span_safe,
};
use crate::behavior::dropping::list_items;
use crate::behavior::guards::law_comparisons_order;
use crate::behavior::heap::{came_back, volatile};
use crate::behavior::instructions::{
    lemma_alu, lemma_begin, lemma_call, lemma_inc, lemma_jcc, lemma_jmp, lemma_load, lemma_mov,
    lemma_set_d, lemma_store, lemma_test, lemma_zero, operated, Run,
};
use crate::behavior::owning::lemma_span_through_build;
use crate::behavior::routines::{
    among, frame_head, frame_tail, lemma_frame_head, lemma_frame_tail, lemma_saved_stays, saved,
};
use crate::behavior::search::{chars_in, text_at};
use crate::behavior::strings::{
    holds_string, law_str_concat, lemma_lengths, string_safe, with_lengths,
};
use crate::linking::{
    ends_in, entered, law_call, law_call_traps, law_ends_alone, law_runs_into, returned_home,
};
use crate::machine::{
    comes_to, flags_of_bits, kept, law_kept_bytes_keep_words, law_word_of_bytes, part_of, word_at,
    Machine, Outcome, World,
};
use crate::mnemonics::{at_b, at_d, index8_d};
use crate::runtime::strings::{str_concat_program, str_join_program};
use crate::symbols::Symbol;
use crate::x86::{Alu, Hop, Insn, Reg, Width};
use crate::x86::Cond::{Ae, Ne};
use crate::x86::Reg::{R12, R13, R14, Rax, Rbx, Rcx, Rdi, Rdx, Rsp};
use vstd::prelude::*;

verus! {

/// Texts with a separator between them.
pub open spec fn joined(texts: Seq<Seq<u8>>, sep: Seq<u8>) -> Seq<u8>
    decreases texts.len(),
{
    if texts.len() == 0 {
        Seq::empty()
    } else if texts.len() == 1 {
        texts[0]
    } else {
        joined(texts.drop_last(), sep) + sep + texts.last()
    }
}

proof fn lemma_joined_step(texts: Seq<Seq<u8>>, sep: Seq<u8>, i: int)
    requires
        0 < i < texts.len(),
    ensures
        joined(texts.take(i + 1), sep) == joined(texts.take(i), sep) + sep + texts[i],
{
    assert(texts.take(i + 1).drop_last() =~= texts.take(i));
}

proof fn lemma_joined_grows(texts: Seq<Seq<u8>>, sep: Seq<u8>, i: int, k: int)
    requires
        0 < i <= k <= texts.len(),
    ensures
        joined(texts.take(i), sep).len() <= joined(texts.take(k), sep).len(),
    decreases k - i,
{
    if i < k {
        lemma_joined_grows(texts, sep, i, k - 1);
        lemma_joined_step(texts, sep, k - 1);
    }
}

/// Whether memory was taken from the allocator at most: nothing else changed, but for
/// `depth` bytes below the stack.
pub open spec fn only_takes(
    world: World,
    m: Machine,
    after: spec_fn(int) -> u8,
    blocks: Seq<u64>,
    left: Seq<u64>,
    depth: int,
) -> bool {
    let top = m.regs[Rsp] as int;
    &&& heap_fits(world, after, left)
    &&& forall|p: int| #[trigger] idle(world, after, left, p) ==> idle(world, m.mem, blocks, p)
    &&& forall|p: int|
        !idle(world, m.mem, blocks, p) && (p < top - depth || top <= p) ==> #[trigger] after(p)
            == (m.mem)(p)
}

/// What was built was only taken from the allocator.
pub proof fn lemma_building_takes(
    world: World,
    m: Machine,
    now: spec_fn(int) -> u8,
    after: spec_fn(int) -> u8,
    blocks: Seq<u64>,
    left: Seq<u64>,
    least: Seq<u64>,
    size: int,
    payload: u64,
    depth: int,
)
    requires
        only_takes(world, m, now, blocks, left, depth),
        builds(world, (Machine { mem: now, ..m }), after, left, least, size, payload, depth),
    ensures
        only_takes(world, m, after, blocks, least, depth),
{
    let top = m.regs[Rsp] as int;
    assert forall|p: int| #[trigger] idle(world, after, least, p) implies idle(
        world,
        m.mem,
        blocks,
        p,
    ) by {
        assert(idle(world, now, left, p));
    }
    assert forall|p: int|
        !idle(world, m.mem, blocks, p) && (p < top - depth || top <= p) implies #[trigger] after(p)
        == (m.mem)(p) by {
        assert(!idle(world, now, left, p));
        assert(now(p) == (m.mem)(p));
    }
}

/// A string that is not the allocator's stays while memory is taken.
pub proof fn lemma_string_stays(
    world: World,
    m: Machine,
    now: spec_fn(int) -> u8,
    blocks: Seq<u64>,
    left: Seq<u64>,
    depth: int,
    record: u64,
    text: Seq<u8>,
)
    requires
        only_takes(world, m, now, blocks, left, depth),
        string_safe(world, m, blocks, record, depth),
        holds_string(m.mem, record, text),
    ensures
        string_safe(world, (Machine { mem: now, ..m }), left, record, depth),
        holds_string(now, record, text),
        word_at(now, record + 8) == word_at(m.mem, record + 8),
{
    let n = word_at(m.mem, record + 8);
    assert forall|p: int| record <= p < record + 16 + n implies #[trigger] now(p) == (m.mem)(p)
        && !idle(world, now, left, p) by {
        assert(!idle(world, m.mem, blocks, p));
    }
    law_word_of_bytes(now, m.mem, record as int);
    law_word_of_bytes(now, m.mem, record + 8);
    assert(text_at(now, record) =~= text) by {
        assert(text_at(m.mem, record) == text);
    }
}

/// Concatenating from a routine that has used 72 bytes of the stack.
#[verifier::rlimit(40)]
proof fn lemma_concat_from(
    world: World,
    base: Machine,
    calling: Machine,
    program: Seq<Insn>,
    back: int,
    blocks: Seq<u64>,
    left_text: Seq<u8>,
    right_text: Seq<u8>,
) -> (end: (Machine, Seq<u64>))
    requires
        (world.code)(Symbol::StrConcat) == str_concat_program(),
        can_build(world, base, blocks, 160),
        calling.mem == base.mem,
        calling.regs[Rsp] == base.regs[Rsp] - 72,
        string_safe(world, base, blocks, calling.regs[Rcx], 160),
        string_safe(world, base, blocks, calling.regs[Rdx], 160),
        holds_string(base.mem, calling.regs[Rcx], left_text),
        holds_string(base.mem, calling.regs[Rdx], right_text),
        16 + left_text.len() + right_text.len() <= u64::MAX / 2,
    ensures
        ({
            let (out, left) = end;
            let text = left_text + right_text;
            let size = 16 + text.len() as int;
            let start = entered(world, program, back, calling);
            let result = out.regs[Rax];
            let room = has_room(world, base.mem, blocks, size);
            &&& room ==> {
                &&& ends_in(world, str_concat_program(), 0, start, Outcome::Returned(out))
                &&& returned_home(world, program, back, calling, out)
                &&& out.regs[Rsp] == calling.regs[Rsp]
                &&& forall|reg: Reg|
                    !volatile(reg) && reg != Rsp ==> #[trigger] out.regs[reg] == calling.regs[reg]
                &&& forall|p: int|
                    calling.regs[Rsp] <= p < base.regs[Rsp] ==> #[trigger] (out.mem)(p) == (
                    calling.mem)(p)
                &&& builds(world, base, out.mem, blocks, left, size, result, 160)
                &&& holds_string(out.mem, result, text)
                &&& string_safe(world, (Machine { mem: out.mem, ..base }), left, result, 160)
            }
            &&& !room ==> ends_in(world, str_concat_program(), 0, start, Outcome::Trapped(out))
        }),
{
    let a = calling.regs[Rcx];
    let b = calling.regs[Rdx];
    let text = left_text + right_text;
    let size = 16 + text.len() as int;
    let top = base.regs[Rsp] as int;
    let start = entered(world, program, back, calling);
    lemma_enter(world, base, calling, program, back, blocks, 160, 80, size);
    let na = 16 + word_at(base.mem, a + 8);
    let nb = 16 + word_at(base.mem, b + 8);
    lemma_span_safe_inside(world, base, calling, program, back, blocks, 160, 80, a as int, na);
    lemma_span_safe_inside(world, base, calling, program, back, blocks, 160, 80, b as int, nb);
    law_word_of_bytes(start.mem, base.mem, a as int);
    law_word_of_bytes(start.mem, base.mem, a + 8);
    law_word_of_bytes(start.mem, base.mem, b as int);
    law_word_of_bytes(start.mem, base.mem, b + 8);
    assert(text_at(start.mem, a) =~= left_text) by {
        assert(text_at(base.mem, a) == left_text);
    }
    assert(text_at(start.mem, b) =~= right_text) by {
        assert(text_at(base.mem, b) == right_text);
    }
    let (out, left) = law_str_concat(world, start, blocks, left_text, right_text);
    if has_room(world, base.mem, blocks, size) {
        let result = out.regs[Rax];
        lemma_leave(
            world,
            base,
            calling,
            out,
            program,
            back,
            blocks,
            left,
            size,
            result,
            160,
            80,
        );
        lemma_span_through_build(
            world,
            base,
            out.mem,
            blocks,
            left,
            size,
            result,
            160,
            top - 160,
            160,
        );
        assert(word_at(out.mem, result + 8) == text.len()) by {
            assert(text_at(out.mem, result) == text);
        }
        assert forall|p: int| result <= p < result + size implies !#[trigger] idle(
            world,
            out.mem,
            left,
            p,
        ) by {
            assert(in_block(out.mem, block_of(result), p));
        }
    }
    (out, left)
}

/// What joining takes off the rest of the region at most, from the `i`-th text on.
pub open spec fn join_cost(texts: Seq<Seq<u8>>, sep: Seq<u8>, i: int) -> int
    decreases texts.len() - i,
{
    if i >= texts.len() {
        0
    } else {
        let first = joined(texts.take(i), sep).len() + sep.len();
        let second = joined(texts.take(i + 1), sep).len();
        39 + first + 39 + second + join_cost(texts, sep, i + 1)
    }
}

proof fn lemma_join_cost(texts: Seq<Seq<u8>>, sep: Seq<u8>, i: int)
    ensures
        0 <= join_cost(texts, sep, i),
    decreases texts.len() - i,
{
    if i < texts.len() {
        lemma_join_cost(texts, sep, i + 1);
    }
}

/// Whether the strings of a list, and a separator, can be read while a string is built: the
/// list in `rcx` holds these texts, the string in `rdx` this separator.
pub open spec fn can_join(
    world: World,
    m: Machine,
    blocks: Seq<u64>,
    texts: Seq<Seq<u8>>,
    sep: Seq<u8>,
) -> bool {
    let list = m.regs[Rcx];
    let strings = list_items(m.mem, list);
    &&& (world.code)(Symbol::StrConcat) == str_concat_program()
    &&& can_build(world, m, blocks, 160)
    &&& strings.len() == texts.len()
    &&& span_safe(world, m, blocks, list as int, 16 + 8 * strings.len() as int, 160)
    &&& forall|i: int|
        0 <= i < texts.len() ==> string_safe(world, m, blocks, #[trigger] strings[i], 160)
    &&& forall|i: int|
        0 <= i < texts.len() ==> holds_string(m.mem, #[trigger] strings[i], texts[i])
    &&& string_safe(world, m, blocks, m.regs[Rdx], 160)
    &&& holds_string(m.mem, m.regs[Rdx], sep)
    &&& 16 + joined(texts, sep).len() <= u64::MAX / 2
}

/// The registers that `str_join` saves.
pub open spec fn join_saves() -> Seq<Reg> {
    seq![Rbx, Rdi, R12, R13, R14]
}

/// The state of the routine when it holds `text`.
spec fn join_state(
    world: World,
    m: Machine,
    now: Machine,
    blocks: Seq<u64>,
    left: Seq<u64>,
    text: Seq<u8>,
) -> bool {
    let top = m.regs[Rsp] as int;
    let list = m.regs[Rcx];
    &&& now.regs[Rsp] == top - 72
    &&& now.regs[R12] == list
    &&& now.regs[R13] == m.regs[Rdx]
    &&& now.regs[R14] == word_at(m.mem, list as int)
    &&& saved(now.mem, top, join_saves(), m.regs)
    &&& only_takes(world, m, now.mem, blocks, left, 160)
    &&& string_safe(world, (Machine { mem: now.mem, ..m }), left, now.regs[Rbx], 160)
    &&& holds_string(now.mem, now.regs[Rbx], text)
    &&& forall|reg: Reg|
        !volatile(reg) && reg != Rsp && !among(reg, join_saves()) ==> #[trigger] now.regs[reg]
            == m.regs[reg]
}

/// What the routine leaves when it returns with `text`.
pub open spec fn joins(
    world: World,
    m: Machine,
    after: Machine,
    blocks: Seq<u64>,
    left: Seq<u64>,
    text: Seq<u8>,
) -> bool {
    &&& came_back(m, after)
    &&& only_takes(world, m, after.mem, blocks, left, 160)
    &&& holds_string(after.mem, after.regs[Rax], text)
    &&& span_held(world, after.mem, left, after.regs[Rax] as int, 16 + text.len() as int)
}

/// Whether an outcome of the routine is right: it returns with the text, or traps; with this
/// much of the region to spare it returns.
spec fn join_ends(
    world: World,
    m: Machine,
    now: Machine,
    pc: int,
    outcome: Outcome,
    blocks: Seq<u64>,
    left: Seq<u64>,
    text: Seq<u8>,
    cost: int,
) -> bool {
    &&& ends_in(world, str_join_program(), pc, now, outcome)
    &&& outcome is Trapped || (outcome is Returned && joins(
        world,
        m,
        outcome->Returned_0,
        blocks,
        left,
        text,
    ))
    &&& cost <= spare(world, now.mem) ==> outcome is Returned
}

/// Returning what the routine holds.
proof fn lemma_join_return(
    world: World,
    m: Machine,
    now: Machine,
    blocks: Seq<u64>,
    left: Seq<u64>,
    text: Seq<u8>,
) -> (outcome: Outcome)
    requires
        join_state(world, m, now, blocks, left, text),
        160 <= m.regs[Rsp],
    ensures
        join_ends(world, m, now, 31, outcome, blocks, left, text, 0),
        outcome is Returned,
{
    let program = str_join_program();
    let run = Run { world, program, start: 31, before: now };
    let regs = join_saves();
    assert(program.len() == 39);
    assert(regs[0] == Rbx && regs[1] == Rdi && regs[2] == R12 && regs[3] == R13 && regs[4] == R14);
    lemma_begin(run);
    lemma_mov(run, 31, now, Rax, Rbx);
    let m1 = now.set(Rax, now.regs[Rbx]);
    assert(part_of(frame_tail(regs, 32), program, 32));
    let after = lemma_frame_tail(run, 32, m, m1, regs, 32);
    law_ends_alone(world, program, 31, now, Outcome::Returned(after));
    assert(word_at(now.mem, now.regs[Rbx] + 8) == text.len()) by {
        assert(text_at(now.mem, now.regs[Rbx]) == text);
    }
    Outcome::Returned(after)
}

/// One concatenation inside the routine: up to the move of its result to `rbx`.
proof fn lemma_join_concat(
    world: World,
    m: Machine,
    calling: Machine,
    back: int,
    blocks: Seq<u64>,
    left: Seq<u64>,
    text: Seq<u8>,
    other: Seq<u8>,
) -> (end: (Machine, Seq<u64>, Machine))
    requires
        (world.code)(Symbol::StrConcat) == str_concat_program(),
        can_build(world, m, blocks, 160),
        join_state(world, m, calling, blocks, left, text),
        calling.regs[Rcx] == calling.regs[Rbx],
        string_safe(
            world,
            (Machine { mem: calling.mem, ..m }),
            left,
            calling.regs[Rdx],
            160,
        ),
        holds_string(calling.mem, calling.regs[Rdx], other),
        16 + text.len() + other.len() <= u64::MAX / 2,
        back == 24 || back == 28,
    ensures
        ({
            let (out, least, now) = end;
            let program = str_join_program();
            let start = entered(world, program, back, calling);
            let size = 16 + text.len() as int + other.len();
            let room = has_room(world, calling.mem, left, size);
            &&& room ==> {
                &&& ends_in(world, str_concat_program(), 0, start, Outcome::Returned(out))
                &&& returned_home(world, program, back, calling, out)
                &&& comes_to(world, program, back, out, Outcome::At(back + 1, now))
                &&& join_state(world, m, now, blocks, least, text + other)
                &&& now.regs[Rdi] == calling.regs[Rdi]
                &&& now.regs[Rbx] == out.regs[Rax]
                &&& spare(world, calling.mem) - (size + 23) <= spare(world, now.mem)
            }
            &&& !room ==> ends_in(world, str_concat_program(), 0, start, Outcome::Trapped(out))
        }),
{
    let program = str_join_program();
    let base = Machine { mem: calling.mem, ..m };
    let top = m.regs[Rsp] as int;
    let regs = join_saves();
    assert(program.len() == 39);
    assert(regs[0] == Rbx && regs[1] == Rdi && regs[2] == R12 && regs[3] == R13 && regs[4] == R14);
    assert(can_build(world, base, left, 160)) by {
        assert forall|p: int| top - 160 <= p < top implies !#[trigger] idle(
            world,
            calling.mem,
            left,
            p,
        ) by {
            assert(!idle(world, m.mem, blocks, p));
        }
    }
    let (out, least) = lemma_concat_from(
        world,
        base,
        calling,
        program,
        back,
        left,
        text,
        other,
    );
    if has_room(world, calling.mem, left, 16 + text.len() as int + other.len()) {
        let run = Run { world, program, start: back, before: out };
        lemma_begin(run);
        lemma_mov(run, back, out, Rbx, Rax);
        let now = out.set(Rbx, out.regs[Rax]);
        lemma_building_takes(
            world,
            m,
            calling.mem,
            out.mem,
            blocks,
            left,
            least,
            16 + text.len() as int + other.len(),
            out.regs[Rax],
            160,
        );
        lemma_saved_stays(calling.mem, now.mem, top, regs, m.regs);
        assert(Machine { mem: now.mem, ..m } == Machine { mem: out.mem, ..base });
        (out, least, now)
    } else {
        (out, least, out)
    }
}

/// The loop, when `i` texts are joined.
#[verifier::rlimit(60)]
proof fn lemma_join_loop(
    world: World,
    m: Machine,
    now: Machine,
    blocks: Seq<u64>,
    left: Seq<u64>,
    texts: Seq<Seq<u8>>,
    sep: Seq<u8>,
    i: int,
) -> (end: (Outcome, Seq<u64>))
    requires
        can_join(world, m, blocks, texts, sep),
        0 < i <= texts.len(),
        join_state(world, m, now, blocks, left, joined(texts.take(i), sep)),
        now.regs[Rdi] == i,
    ensures
        join_ends(
            world,
            m,
            now,
            19,
            end.0,
            blocks,
            end.1,
            joined(texts, sep),
            join_cost(texts, sep, i),
        ),
    decreases texts.len() - i,
{
    let program = str_join_program();
    let run = Run { world, program, start: 19, before: now };
    let list = m.regs[Rcx];
    let strings = list_items(m.mem, list);
    let n = texts.len() as int;
    let text = joined(texts.take(i), sep);
    let regs = join_saves();
    assert(program.len() == 39);
    assert(regs[0] == Rbx && regs[1] == Rdi && regs[2] == R12 && regs[3] == R13 && regs[4] == R14);
    lemma_begin(run);
    lemma_alu(run, 19, now, Alu::Cmp, Rdi, R14);
    let m1 = operated(now, Alu::Cmp, Rdi, n as u64);
    law_comparisons_order(i as u64, n as u64);
    lemma_jcc(run, 20, m1, Ae, false, Hop::Forward(11));
    lemma_join_cost(texts, sep, i);
    if i == n {
        assert(texts.take(n) =~= texts);
        let outcome = lemma_join_return(world, m, m1, blocks, left, text);
        law_runs_into(world, program, 19, now, 31, m1, outcome);
        (outcome, left)
    } else {
        let wider = joined(texts.take(i + 1), sep);
        lemma_joined_step(texts, sep, i);
        lemma_joined_grows(texts, sep, i + 1, n);
        lemma_join_cost(texts, sep, i + 1);
        assert(texts.take(n) =~= texts);
        lemma_mov(run, 21, m1, Rcx, Rbx);
        let m2 = m1.set(Rcx, now.regs[Rbx]);
        lemma_mov(run, 22, m2, Rdx, R13);
        let calling = m2.set(Rdx, m.regs[Rdx]);
        lemma_call(run, 23, calling, Symbol::StrConcat);
        lemma_string_stays(world, m, now.mem, blocks, left, 160, m.regs[Rdx], sep);
        let (out, some, n1) = lemma_join_concat(
            world,
            m,
            calling,
            24,
            blocks,
            left,
            text,
            sep,
        );
        if has_room(world, now.mem, left, 16 + text.len() as int + sep.len()) {
            let run2 = Run { world, program, start: 24, before: out };
            lemma_mov(run2, 25, n1, Rcx, Rbx);
            let n2 = n1.set(Rcx, n1.regs[Rbx]);
            let at = list + 16 + 8 * i;
            assert(strings[i] == word_at(m.mem, at));
            assert(word_at(n2.mem, at) == strings[i]) by {
                assert forall|p: int| at <= p < at + 8 implies #[trigger] (n2.mem)(p) == (m.mem)(p) by {
                    assert(!idle(world, m.mem, blocks, p));
                }
                law_word_of_bytes(n2.mem, m.mem, at);
            }
            assert(n2.address(world, index8_d(R12, Rdi, 16)) == at);
            lemma_load(run2, 26, n2, Rdx, index8_d(R12, Rdi, 16));
            let second = n2.set(Rdx, strings[i]);
            lemma_call(run2, 27, second, Symbol::StrConcat);
            lemma_string_stays(world, m, n1.mem, blocks, some, 160, strings[i], texts[i]);
            let (out2, least, n3) = lemma_join_concat(
                world,
                m,
                second,
                28,
                blocks,
                some,
                text + sep,
                texts[i],
            );
            if has_room(world, second.mem, some, 16 + (text + sep).len() as int + texts[i].len()) {
                let run3 = Run { world, program, start: 28, before: out2 };
                let n4 = lemma_inc(run3, 29, n3, Rdi);
                lemma_jmp(run3, 30, n4, false, Hop::Back(11));
                assert(n4.regs[Rdi] == i + 1);
                assert(join_state(world, m, n4, blocks, least, wider));
                let (outcome, none) = lemma_join_loop(
                    world,
                    m,
                    n4,
                    blocks,
                    least,
                    texts,
                    sep,
                    i + 1,
                );
                law_runs_into(world, program, 28, out2, 19, n4, outcome);
                law_call(
                    world,
                    program,
                    24,
                    out,
                    Symbol::StrConcat,
                    28,
                    second,
                    out2,
                    outcome,
                );
                law_call(world, program, 19, now, Symbol::StrConcat, 24, calling, out, outcome);
                (outcome, none)
            } else {
                law_call_traps(world, program, 24, out, Symbol::StrConcat, 28, second, out2);
                law_call(
                    world,
                    program,
                    19,
                    now,
                    Symbol::StrConcat,
                    24,
                    calling,
                    out,
                    Outcome::Trapped(out2),
                );
                (Outcome::Trapped(out2), least)
            }
        } else {
            law_call_traps(world, program, 19, now, Symbol::StrConcat, 24, calling, out);
            (Outcome::Trapped(out), some)
        }
    }
}

/// The empty list: a fresh empty string.
#[verifier::rlimit(40)]
proof fn lemma_join_nothing(
    world: World,
    m: Machine,
    now: Machine,
    blocks: Seq<u64>,
    cost: int,
) -> (end: (Outcome, Seq<u64>))
    requires
        can_build(world, m, blocks, 160),
        kept(m.mem, now.mem, m.regs[Rsp] - 160, m.regs[Rsp] as int),
        saved(now.mem, m.regs[Rsp] as int, join_saves(), m.regs),
        now.regs[Rsp] == m.regs[Rsp] - 72,
        forall|reg: Reg|
            !volatile(reg) && reg != Rsp && !among(reg, join_saves()) ==> #[trigger] now.regs[reg]
                == m.regs[reg],
        39 <= cost,
    ensures
        join_ends(world, m, now, 11, end.0, blocks, end.1, Seq::empty(), cost),
{
    let program = str_join_program();
    let run = Run { world, program, start: 11, before: now };
    let regs = join_saves();
    let top = m.regs[Rsp] as int;
    assert(program.len() == 39);
    assert(regs[0] == Rbx && regs[1] == Rdi && regs[2] == R12 && regs[3] == R13 && regs[4] == R14);
    lemma_begin(run);
    lemma_set_d(run, 11, now, Rcx, 16);
    let calling = now.set(Rcx, 16);
    lemma_call(run, 12, calling, Symbol::HeapAlloc);
    lemma_at_the_call(world, m, calling, blocks, 160, 16);
    let (out, left) = lemma_alloc_call(world, program, 13, calling, blocks);
    if has_room(world, m.mem, blocks, 16) {
        let dst = out.regs[Rax];
        lemma_span_stays(world, m, calling, out, blocks, left, 16, 160, top - 160, 160);
        let run2 = Run { world, program, start: 13, before: out };
        lemma_begin(run2);
        let n1 = lemma_zero(run2, 13, out, Rdx);
        assert(n1.address(world, at_b(Rax, 0)) == dst);
        lemma_store(run2, 14, n1, at_b(Rax, 0), Rdx);
        let n2 = n1.store(Width::Quad, dst as int, 0);
        assert(n2.address(world, at_b(Rax, 8)) == dst + 8);
        lemma_store(run2, 15, n2, at_b(Rax, 8), Rdx);
        let n3 = n2.store(Width::Quad, dst + 8, 0);
        assert(n3.mem == with_lengths(out.mem, dst, 0, 0));
        lemma_lengths(out.mem, dst, 0, 0);
        lemma_jmp(run2, 16, n3, false, Hop::Forward(16));
        lemma_built(world, m, calling, out, n3.mem, blocks, left, 16, 160);
        assert forall|p: int| top - 40 <= p < top implies #[trigger] (n3.mem)(p) == (now.mem)(p) by {
            assert((out.mem)(p) == (calling.mem)(p));
        }
        lemma_saved_stays(now.mem, n3.mem, top, regs, m.regs);
        assert(part_of(frame_tail(regs, 32), program, 32));
        let after = lemma_frame_tail(run2, 32, m, n3, regs, 32);
        law_ends_alone(world, program, 13, out, Outcome::Returned(after));
        law_call(
            world,
            program,
            11,
            now,
            Symbol::HeapAlloc,
            13,
            calling,
            out,
            Outcome::Returned(after),
        );
        assert(text_at(after.mem, dst) =~= Seq::empty());
        assert(chars_in(Seq::<u8>::empty()) == 0);
        assert forall|p: int| dst <= p < dst + 16 implies !#[trigger] idle(
            world,
            after.mem,
            left,
            p,
        ) by {
            assert(in_block(after.mem, block_of(dst), p));
        }
        (Outcome::Returned(after), left)
    } else {
        law_call_traps(world, program, 11, now, Symbol::HeapAlloc, 13, calling, out);
        (Outcome::Trapped(out), left)
    }
}

/// What joining takes off the rest of the region at most.
pub open spec fn whole_join_cost(texts: Seq<Seq<u8>>, sep: Seq<u8>) -> int {
    if texts.len() == 0 {
        39
    } else {
        join_cost(texts, sep, 1)
    }
}

/// `str_join` gives the texts of a list with the separator between them. It takes memory
/// from the allocator, and changes nothing else; it may trap for want of room, but not when
/// the rest of the region holds every string on the way.
#[verifier::rlimit(40)]
pub proof fn law_str_join(
    world: World,
    m: Machine,
    blocks: Seq<u64>,
    texts: Seq<Seq<u8>>,
    sep: Seq<u8>,
) -> (end: (Outcome, Seq<u64>))
    requires
        can_join(world, m, blocks, texts, sep),
    ensures
        ({
            let (outcome, left) = end;
            let room = whole_join_cost(texts, sep) <= spare(world, m.mem);
            &&& ends_in(world, str_join_program(), 0, m, outcome)
            &&& outcome is Trapped || (outcome is Returned && joins(
                world,
                m,
                outcome->Returned_0,
                blocks,
                left,
                joined(texts, sep),
            ))
            &&& room ==> outcome is Returned
        }),
{
    let program = str_join_program();
    let run = Run { world, program, start: 0, before: m };
    let regs = join_saves();
    let list = m.regs[Rcx];
    let strings = list_items(m.mem, list);
    let top = m.regs[Rsp] as int;
    let n = word_at(m.mem, list as int);
    assert(program.len() == 39);
    assert(regs[0] == Rbx && regs[1] == Rdi && regs[2] == R12 && regs[3] == R13 && regs[4] == R14);
    assert(part_of(frame_head(regs, 32), program, 0));
    let m1 = lemma_frame_head(run, m, regs, 32);
    lemma_mov(run, 6, m1, R12, Rcx);
    let m2 = m1.set(R12, list);
    lemma_mov(run, 7, m2, R13, Rdx);
    let m3 = m2.set(R13, m.regs[Rdx]);
    assert(m3.address(world, at_b(R12, 0)) == list);
    law_kept_bytes_keep_words(m.mem, m1.mem, top - 40, top, list as int);
    lemma_load(run, 8, m3, R14, at_b(R12, 0));
    let m4 = m3.set(R14, n);
    lemma_test(run, 9, m4, R14);
    let m5 = m4.flagged(flags_of_bits(Width::Quad, n as int));
    lemma_jcc(run, 10, m5, Ne, false, Hop::Forward(7));
    assert forall|p: int| #[trigger] idle(world, m.mem, blocks, p) implies (m5.mem)(p) == (m.mem)(
        p,
    ) by {}
    lemma_heap_stands(world, m.mem, m5.mem, blocks);
    if n == 0 {
        let (outcome, left) = lemma_join_nothing(world, m, m5, blocks, 39);
        law_runs_into(world, program, 0, m, 11, m5, outcome);
        assert(joined(texts, sep) =~= Seq::empty());
        (outcome, left)
    } else {
        let at = list + 16;
        assert(strings[0] == word_at(m.mem, list + 16 + 8 * 0));
        law_kept_bytes_keep_words(m.mem, m1.mem, top - 40, top, at);
        assert(m5.address(world, at_d(R12, 16)) == at);
        lemma_load(run, 17, m5, Rbx, at_d(R12, 16));
        let m6 = m5.set(Rbx, strings[0]);
        lemma_set_d(run, 18, m6, Rdi, 1);
        let m7 = m6.set(Rdi, 1);
        assert(only_takes(world, m, m7.mem, blocks, blocks, 160));
        lemma_string_stays(world, m, m7.mem, blocks, blocks, 160, strings[0], texts[0]);
        assert(joined(texts.take(1), sep) == texts[0]);
        let (outcome, left) = lemma_join_loop(world, m, m7, blocks, blocks, texts, sep, 1);
        law_runs_into(world, program, 0, m, 19, m7, outcome);
        (outcome, left)
    }
}

} // verus!
