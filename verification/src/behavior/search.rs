//! Searching strings: what the search routines return.

use crate::behavior::guards::law_comparisons_order;
use crate::behavior::heap::{came_back, returns_with, volatile};
use crate::behavior::instructions::{
    lemma_alu, lemma_and_imm_b, lemma_begin, lemma_compare_b, lemma_compare_imm_b, lemma_inc,
    lemma_jcc, lemma_jmp, lemma_lea, lemma_load, lemma_load_b, lemma_mov, lemma_mov_imm, lemma_test,
    lemma_zero, operated, Run,
};
use crate::behavior::routines::{among, lemma_restore, lemma_save, restoring, saved, saving};
use crate::machine::{
    flags_of_bits, flags_of_difference, kept, law_kept_bytes_keep_words, part_of, signed, word_at,
    word_span, wrap, Machine, World,
};
use crate::mnemonics::{alu, alu_imm8_b, at_b, index, jcc, jmp_back, load_b, unary};
use crate::runtime::search::{
    byte_search_program, load_two_strings_program, match_at_program, str_contains_program,
    str_count_program, str_ends_with_program, str_find_program, str_starts_with_program,
};
use crate::runtime::NOT_FOUND;
use crate::x86::Cond::{E, Ge, Ne, G};
use crate::x86::Reg::{R10, R11, R12, R13, R8, R9, Rax, Rcx, Rdi, Rdx, Rsi, Rsp};
use crate::x86::{Alu, Hop, Insn, Reg, Unary, Width};
use vstd::prelude::*;

verus! {

// Texts

/// The bytes from `a` up to `a + n`.
pub open spec fn bytes_at(mem: spec_fn(int) -> u8, a: int, n: int) -> Seq<u8> {
    Seq::new(n as nat, |i: int| mem(a + i))
}

/// The bytes of a string record: behind its two lengths, as many as the second says.
pub open spec fn text_at(mem: spec_fn(int) -> u8, record: u64) -> Seq<u8> {
    bytes_at(mem, record + 16, word_at(mem, record + 8) as int)
}

/// Whether a string record lies in memory, no longer than a signed length can say, and
/// apart from the bytes from `low` up to `high`.
pub open spec fn text_apart(mem: spec_fn(int) -> u8, record: u64, low: int, high: int) -> bool {
    let len = word_at(mem, record + 8);
    &&& len <= i64::MAX
    &&& record + 16 + len < word_span()
    &&& record + 16 + len <= low || high <= record
}

/// Whether `needle` stands in `hay` from byte `pos` on.
pub open spec fn occurs_at(hay: Seq<u8>, needle: Seq<u8>, pos: int) -> bool {
    &&& 0 <= pos
    &&& pos + needle.len() <= hay.len()
    &&& hay.subrange(pos, pos + needle.len()) == needle
}

/// A truth value as a word.
pub open spec fn word_of(truth: bool) -> u64 {
    if truth {
        1
    } else {
        0
    }
}

/// Whether `n` bytes at two addresses agree.
pub open spec fn agree(mem: spec_fn(int) -> u8, a: int, b: int, n: int) -> bool {
    bytes_at(mem, a, n) == bytes_at(mem, b, n)
}

/// The registers that a comparison changes.
pub open spec fn compared(reg: Reg) -> bool {
    reg == Rax || reg == Rcx || reg == Rdx || reg == R9
}

// Comparing

/// The loop that compares, after `j` bytes that agree.
proof fn lemma_match_from(run: Run, pc: int, m0: Machine, m: Machine, j: int) -> (after: Machine)
    requires
        part_of(match_at_program(), run.program, pc),
        run.at(pc + 1, m),
        m.regs[R9] == j,
        m.mem == m0.mem,
        forall|reg: Reg| !compared(reg) ==> #[trigger] m.regs[reg] == m0.regs[reg],
        ({
            let n = m0.regs[R12];
            let cur = m0.regs[R11];
            let needle = m0.regs[Rdi];
            &&& n <= i64::MAX
            &&& 0 <= j <= n
            &&& cur + n < word_span()
            &&& needle + n < word_span()
            &&& agree(m0.mem, cur as int, needle as int, j)
        }),
    ensures
        run.at(pc + 12, after),
        after.mem == m0.mem,
        after.regs[Rax] == word_of(
            agree(m0.mem, m0.regs[R11] as int, m0.regs[Rdi] as int, m0.regs[R12] as int),
        ),
        forall|reg: Reg| !compared(reg) ==> #[trigger] after.regs[reg] == m0.regs[reg],
    decreases m0.regs[R12] - j,
{
    let part = match_at_program();
    assert(part.len() == 12);
    assert(run.program[pc + 1] == part[1]);
    assert(run.program[pc + 2] == part[2]);
    let n = m0.regs[R12];
    let cur = m0.regs[R11];
    let needle = m0.regs[Rdi];
    assert(m.regs[R12] == n && m.regs[R11] == cur && m.regs[Rdi] == needle);
    lemma_alu(run, pc + 1, m, Alu::Cmp, R9, R12);
    let m1 = operated(m, Alu::Cmp, R9, n);
    law_comparisons_order(j as u64, n);
    lemma_jcc(run, pc + 2, m1, Ge, false, Hop::Forward(7));
    if j >= n {
        assert(run.program[pc + 9] == part[9]);
        assert(run.program[pc + 10] == part[10]);
        lemma_mov_imm(run, pc + 9, m1, Rax, 1);
        let m2 = m1.set(Rax, 1);
        lemma_jmp(run, pc + 10, m2, false, Hop::Forward(2));
        m2
    } else {
        assert(run.program[pc + 3] == part[3]);
        assert(run.program[pc + 4] == part[4]);
        assert(run.program[pc + 5] == part[5]);
        assert(run.program[pc + 6] == part[6]);
        assert(m1.address(run.world, index(R11, R9)) == cur + j);
        let m2 = lemma_load_b(run, pc + 3, m1, Rcx, index(R11, R9));
        assert(m2.address(run.world, index(Rdi, R9)) == needle + j);
        let m3 = lemma_load_b(run, pc + 4, m2, Rdx, index(Rdi, R9));
        let a = (m0.mem)(cur + j);
        let b = (m0.mem)(needle + j);
        lemma_compare_b(run, pc + 5, m3, Rcx, Rdx);
        let m4 = m3.flagged(flags_of_difference(Width::Byte, a as int, b as int));
        assert(m4.flags.zero == (a == b));
        lemma_jcc(run, pc + 6, m4, Ne, false, Hop::Forward(5));
        if a == b {
            assert(run.program[pc + 7] == part[7]);
            assert(run.program[pc + 8] == part[8]);
            let m5 = lemma_inc(run, pc + 7, m4, R9);
            lemma_jmp(run, pc + 8, m5, false, Hop::Back(7));
            let left = bytes_at(m0.mem, cur as int, j + 1);
            let right = bytes_at(m0.mem, needle as int, j + 1);
            assert forall|i: int| 0 <= i < j + 1 implies left[i] == right[i] by {
                if i < j {
                    assert(left[i] == bytes_at(m0.mem, cur as int, j)[i]);
                    assert(right[i] == bytes_at(m0.mem, needle as int, j)[i]);
                }
            }
            assert(left =~= right);
            lemma_match_from(run, pc, m0, m5, j + 1)
        } else {
            assert(run.program[pc + 11] == part[11]);
            assert(bytes_at(m0.mem, cur as int, n as int)[j] == a);
            assert(bytes_at(m0.mem, needle as int, n as int)[j] == b);
            lemma_zero(run, pc + 11, m4, Rax)
        }
    }
}

/// The comparison leaves whether all bytes agree.
proof fn lemma_match_at(run: Run, pc: int, m: Machine) -> (after: Machine)
    requires
        part_of(match_at_program(), run.program, pc),
        run.at(pc, m),
        m.regs[R12] <= i64::MAX,
        m.regs[R11] + m.regs[R12] < word_span(),
        m.regs[Rdi] + m.regs[R12] < word_span(),
    ensures
        run.at(pc + 12, after),
        after.mem == m.mem,
        after.regs[Rax] == word_of(
            agree(m.mem, m.regs[R11] as int, m.regs[Rdi] as int, m.regs[R12] as int),
        ),
        forall|reg: Reg| !compared(reg) ==> #[trigger] after.regs[reg] == m.regs[reg],
{
    let part = match_at_program();
    assert(run.program[pc] == part[0]);
    let m1 = lemma_zero(run, pc, m, R9);
    assert(bytes_at(m.mem, m.regs[R11] as int, 0) =~= bytes_at(m.mem, m.regs[Rdi] as int, 0));
    lemma_match_from(run, pc, m, m1, 0)
}

/// Bytes that agree are an occurrence.
proof fn lemma_agree_occurs(mem: spec_fn(int) -> u8, hay: u64, needle: u64, pos: int)
    requires
        0 <= pos,
        pos + word_at(mem, needle + 8) <= word_at(mem, hay + 8),
    ensures
        agree(mem, hay + 16 + pos, needle + 16, word_at(mem, needle + 8) as int) == occurs_at(
            text_at(mem, hay),
            text_at(mem, needle),
            pos,
        ),
{
    let len = word_at(mem, needle + 8) as int;
    let window = text_at(mem, hay).subrange(pos, pos + len);
    assert(window =~= bytes_at(mem, hay + 16 + pos, len));
}

// The frame of a search routine

/// The registers that the search routines save.
pub open spec fn search_saves() -> Seq<Reg> {
    seq![Rsi, Rdi, R12, R13]
}

/// What the search routines start with: four registers saved, and the two strings taken
/// apart.
pub open spec fn search_head() -> Seq<Insn> {
    saving(search_saves()) + load_two_strings_program()
}

/// The state behind the head of a search routine.
pub open spec fn searching(before: Machine, m: Machine) -> bool {
    let top = before.regs[Rsp] as int;
    let hay = before.regs[Rcx];
    let needle = before.regs[Rdx];
    &&& m.regs[Rsp] == top - 32
    &&& m.regs[R13] == word_at(before.mem, hay + 8)
    &&& m.regs[Rsi] == hay + 16
    &&& m.regs[R12] == word_at(before.mem, needle + 8)
    &&& m.regs[Rdi] == needle + 16
    &&& kept(before.mem, m.mem, top - 32, top)
    &&& saved(m.mem, top, search_saves(), before.regs)
    &&& word_at(m.mem, hay + 8) == word_at(before.mem, hay + 8)
    &&& word_at(m.mem, needle + 8) == word_at(before.mem, needle + 8)
    &&& text_at(m.mem, hay) == text_at(before.mem, hay)
    &&& text_at(m.mem, needle) == text_at(before.mem, needle)
    &&& forall|reg: Reg|
        reg != Rsp && reg != R13 && reg != Rsi && reg != R12 && reg != Rdi
            ==> #[trigger] m.regs[reg]
            == before.regs[reg]
}

/// Whether a search routine can run: there is room for the saved registers, and the
/// strings lie apart from it.
pub open spec fn can_search(m: Machine) -> bool {
    let top = m.regs[Rsp] as int;
    &&& 32 <= top
    &&& text_apart(m.mem, m.regs[Rcx], top - 32, top)
    &&& text_apart(m.mem, m.regs[Rdx], top - 32, top)
}

/// A text that lies apart from the changed bytes stays.
pub proof fn lemma_text_kept(
    before: spec_fn(int) -> u8,
    after: spec_fn(int) -> u8,
    low: int,
    high: int,
    record: u64,
)
    requires
        kept(before, after, low, high),
        text_apart(before, record, low, high),
        low <= high,
    ensures
        word_at(after, record as int) == word_at(before, record as int),
        word_at(after, record + 8) == word_at(before, record + 8),
        text_at(after, record) == text_at(before, record),
{
    law_kept_bytes_keep_words(before, after, low, high, record as int);
    law_kept_bytes_keep_words(before, after, low, high, record + 8);
    let len = word_at(before, record + 8) as int;
    assert forall|i: int| 0 <= i < len implies text_at(after, record)[i] == text_at(
        before,
        record,
    )[i] by {
        let p = record + 16 + i;
        assert(after(p) == before(p));
    }
    assert(text_at(after, record) =~= text_at(before, record));
}

proof fn lemma_search_head(run: Run, m: Machine) -> (after: Machine)
    requires
        part_of(search_head(), run.program, 0),
        run.start == 0,
        run.before == m,
        can_search(m),
    ensures
        run.at(8, after),
        searching(m, after),
{
    let regs = search_saves();
    let head = search_head();
    let saves = saving(regs);
    let loads = load_two_strings_program();
    assert(head.len() == 8);
    assert forall|i: int| 0 <= i < 4 implies #[trigger] saves[i] == run.program[i] by {
        assert(head[i] == saves[i]);
    }
    assert(run.program[4] == head[4] && head[4] == loads[0]);
    assert(run.program[5] == head[5] && head[5] == loads[1]);
    assert(run.program[6] == head[6] && head[6] == loads[2]);
    assert(run.program[7] == head[7] && head[7] == loads[3]);
    let top = m.regs[Rsp] as int;
    let hay = m.regs[Rcx];
    let needle = m.regs[Rdx];
    lemma_begin(run);
    assert(part_of(saves, run.program, 0));
    let m1 = lemma_save(run, 0, m, regs);
    lemma_text_kept(m.mem, m1.mem, top - 32, top, hay);
    lemma_text_kept(m.mem, m1.mem, top - 32, top, needle);
    assert(m1.regs[Rcx] == hay && m1.regs[Rdx] == needle);
    assert(m1.address(run.world, at_b(Rcx, 8)) == hay + 8);
    lemma_load(run, 4, m1, R13, at_b(Rcx, 8));
    let m2 = m1.set(R13, word_at(m.mem, hay + 8));
    assert(m2.address(run.world, at_b(Rcx, 16)) == hay + 16);
    lemma_lea(run, 5, m2, Rsi, at_b(Rcx, 16));
    let m3 = m2.set(Rsi, (hay + 16) as u64);
    assert(m3.address(run.world, at_b(Rdx, 8)) == needle + 8);
    lemma_load(run, 6, m3, R12, at_b(Rdx, 8));
    let m4 = m3.set(R12, word_at(m.mem, needle + 8));
    assert(m4.address(run.world, at_b(Rdx, 16)) == needle + 16);
    lemma_lea(run, 7, m4, Rdi, at_b(Rdx, 16));
    m4.set(Rdi, (needle + 16) as u64)
}

/// The four restored registers and the return.
proof fn lemma_search_tail(run: Run, pc: int, m: Machine, done: Machine) -> (after: Machine)
    requires
        part_of(search_tail(), run.program, pc),
        run.start == 0,
        run.before == m,
        run.at(pc, done),
        32 <= m.regs[Rsp],
        done.regs[Rsp] == m.regs[Rsp] - 32,
        saved(done.mem, m.regs[Rsp] as int, search_saves(), m.regs),
        forall|reg: Reg|
            !volatile(reg) && reg != Rsp && reg != R13 && reg != Rsi && reg != R12 && reg != Rdi
                ==> #[trigger] done.regs[reg] == m.regs[reg],
    ensures
        returns_with(run.world, run.program, m, after),
        came_back(m, after),
        after.mem == done.mem,
        after.regs[Rax] == done.regs[Rax],
{
    let regs = search_saves();
    let tail = search_tail();
    let pops = restoring(regs);
    assert forall|i: int| 0 <= i < 4 implies #[trigger] pops[i] == run.program[pc + i] by {
        assert(tail[i] == pops[i]);
    }
    assert(run.program[pc + 4] == tail[4]);
    assert forall|reg: Reg|
        !volatile(reg) && reg != Rsp && !among(reg, regs) implies #[trigger] done.regs[reg]
        == m.regs[reg] by {
        assert(regs[0] == Rsi && regs[1] == Rdi && regs[2] == R12 && regs[3] == R13);
    }
    let after = lemma_restore(run, pc, m, done, regs);
    assert(!among(Rax, regs));
    after
}

/// What the search routines end with.
pub open spec fn search_tail() -> Seq<Insn> {
    restoring(search_saves()) + seq![Insn::Ret]
}

/// What a search returns: a word, with nothing in memory changed but below the stack.
pub open spec fn search_gives(
    world: World,
    program: Seq<Insn>,
    m: Machine,
    after: Machine,
    found: u64,
) -> bool {
    let top = m.regs[Rsp] as int;
    &&& returns_with(world, program, m, after)
    &&& came_back(m, after)
    &&& after.regs[Rax] == found
    &&& kept(m.mem, after.mem, top - 32, top)
}

// Prefixes and suffixes

/// `starts_with` returns whether the string starts with the prefix.
pub proof fn law_str_starts_with(world: World, m: Machine) -> (after: Machine)
    requires
        can_search(m),
    ensures
        search_gives(
            world,
            str_starts_with_program(),
            m,
            after,
            word_of(
                occurs_at(text_at(m.mem, m.regs[Rcx]), text_at(m.mem, m.regs[Rdx]), 0),
            ),
        ),
{
    let program = str_starts_with_program();
    let run = Run { world, program, start: 0, before: m };
    let matching = match_at_program();
    assert(program.len() == 30);
    assert(part_of(search_head(), program, 0));
    assert(part_of(matching, program, 11));
    assert(part_of(search_tail(), program, 25));
    let hay = m.regs[Rcx];
    let needle = m.regs[Rdx];
    let m1 = lemma_search_head(run, m);
    let h = m1.regs[R13];
    let n = m1.regs[R12];
    lemma_alu(run, 8, m1, Alu::Cmp, R12, R13);
    let m2 = operated(m1, Alu::Cmp, R12, h);
    law_comparisons_order(n, h);
    lemma_jcc(run, 9, m2, G, false, Hop::Forward(15));
    let done = if n > h {
        lemma_zero(run, 24, m2, Rax)
    } else {
        lemma_mov(run, 10, m2, R11, Rsi);
        let m3 = m2.set(R11, m2.regs[Rsi]);
        let m4 = lemma_match_at(run, 11, m3);
        lemma_agree_occurs(m1.mem, hay, needle, 0);
        lemma_jmp(run, 23, m4, false, Hop::Forward(2));
        m4
    };
    lemma_search_tail(run, 25, m, done)
}

/// `ends_with` returns whether the string ends with the suffix.
pub proof fn law_str_ends_with(world: World, m: Machine) -> (after: Machine)
    requires
        can_search(m),
    ensures
        ({
            let hay = text_at(m.mem, m.regs[Rcx]);
            let suffix = text_at(m.mem, m.regs[Rdx]);
            search_gives(
                world,
                str_ends_with_program(),
                m,
                after,
                word_of(occurs_at(hay, suffix, hay.len() - suffix.len())),
            )
        }),
{
    let program = str_ends_with_program();
    let run = Run { world, program, start: 0, before: m };
    let matching = match_at_program();
    assert(program.len() == 32);
    assert(part_of(search_head(), program, 0));
    assert(part_of(matching, program, 13));
    assert(part_of(search_tail(), program, 27));
    let hay = m.regs[Rcx];
    let needle = m.regs[Rdx];
    let m1 = lemma_search_head(run, m);
    let h = m1.regs[R13];
    let n = m1.regs[R12];
    lemma_alu(run, 8, m1, Alu::Cmp, R12, R13);
    let m2 = operated(m1, Alu::Cmp, R12, h);
    law_comparisons_order(n, h);
    lemma_jcc(run, 9, m2, G, false, Hop::Forward(17));
    let done = if n > h {
        lemma_zero(run, 26, m2, Rax)
    } else {
        lemma_mov(run, 10, m2, R11, Rsi);
        let m3 = m2.set(R11, m2.regs[Rsi]);
        lemma_alu(run, 11, m3, Alu::Add, R11, R13);
        let m4 = operated(m3, Alu::Add, R11, h);
        lemma_alu(run, 12, m4, Alu::Sub, R11, R12);
        let m5 = operated(m4, Alu::Sub, R11, n);
        assert(m5.regs[R11] == hay + 16 + (h - n));
        let m6 = lemma_match_at(run, 13, m5);
        lemma_agree_occurs(m1.mem, hay, needle, h - n);
        lemma_jmp(run, 25, m6, false, Hop::Forward(2));
        m6
    };
    lemma_search_tail(run, 27, m, done)
}

// The first occurrence

/// Whether `needle` stands in `hay` somewhere.
pub open spec fn occurs(hay: Seq<u8>, needle: Seq<u8>) -> bool {
    exists|pos: int| occurs_at(hay, needle, pos)
}

/// Whether `pos` is the first place where `needle` stands in `hay`.
pub open spec fn first_occurrence(hay: Seq<u8>, needle: Seq<u8>, pos: int) -> bool {
    &&& occurs_at(hay, needle, pos)
    &&& forall|p: int| #[trigger] occurs_at(hay, needle, p) ==> pos <= p
}

/// The registers that a search changes.
pub open spec fn searched(reg: Reg) -> bool {
    compared(reg) || reg == R8 || reg == R10 || reg == R11
}

/// The search from byte `pos` on, when no earlier byte starts an occurrence.
proof fn lemma_search_from(run: Run, pc: int, before: Machine, m: Machine, pos: int) -> (after:
    Machine)
    requires
        part_of(byte_search_program(), run.program, pc),
        run.at(pc + 4, m),
        can_search(before),
        ({
            let hay = text_at(before.mem, before.regs[Rcx]);
            let needle = text_at(before.mem, before.regs[Rdx]);
            &&& text_at(m.mem, before.regs[Rcx]) == hay
            &&& text_at(m.mem, before.regs[Rdx]) == needle
            &&& word_at(m.mem, before.regs[Rcx] + 8) == hay.len()
            &&& word_at(m.mem, before.regs[Rdx] + 8) == needle.len()
            &&& m.regs[R13] == hay.len()
            &&& m.regs[R12] == needle.len()
            &&& m.regs[Rsi] == before.regs[Rcx] + 16
            &&& m.regs[Rdi] == before.regs[Rdx] + 16
            &&& signed(m.regs[R10]) == hay.len() - needle.len()
            &&& m.regs[R8] == pos
            &&& m.regs[Rax] == 0
            &&& pos == 0 || (0 < needle.len() && 0 < pos <= hay.len() - needle.len() + 1)
            &&& forall|p: int| #[trigger] occurs_at(hay, needle, p) ==> pos <= p
        }),
    ensures
        run.at(pc + 24, after),
        after.mem == m.mem,
        ({
            let hay = text_at(before.mem, before.regs[Rcx]);
            let needle = text_at(before.mem, before.regs[Rdx]);
            &&& after.regs[Rax] == word_of(occurs(hay, needle))
            &&& occurs(hay, needle) ==> first_occurrence(hay, needle, after.regs[R8] as int)
        }),
        forall|reg: Reg| !searched(reg) ==> #[trigger] after.regs[reg] == m.regs[reg],
    decreases text_at(before.mem, before.regs[Rcx]).len() + 1 - pos,
{
    let part = byte_search_program();
    let matching = match_at_program();
    let h = before.regs[Rcx];
    let n = before.regs[Rdx];
    let hay = text_at(before.mem, h);
    let needle = text_at(before.mem, n);
    assert(part.len() == 24);
    assert(run.program[pc + 4] == part[4]);
    assert(run.program[pc + 5] == part[5]);
    lemma_alu(run, pc + 4, m, Alu::Cmp, R8, R10);
    let m1 = operated(m, Alu::Cmp, R8, m.regs[R10]);
    law_comparisons_order(m.regs[R8], m.regs[R10]);
    lemma_jcc(run, pc + 5, m1, G, false, Hop::Forward(19));
    if pos > hay.len() - needle.len() {
        assert forall|p: int| !occurs_at(hay, needle, p) by {}
        m1
    } else {
        assert(run.program[pc + 6] == part[6]);
        assert(run.program[pc + 7] == part[7]);
        assert forall|i: int| 0 <= i < 12 implies #[trigger] matching[i] == run.program[pc + 8
            + i] by {
            assert(part[8 + i] == matching[i]);
        }
        assert(run.program[pc + 20] == part[20]);
        assert(run.program[pc + 21] == part[21]);
        lemma_mov(run, pc + 6, m1, R11, Rsi);
        let m2 = m1.set(R11, m1.regs[Rsi]);
        lemma_alu(run, pc + 7, m2, Alu::Add, R11, R8);
        let m3 = operated(m2, Alu::Add, R11, m2.regs[R8]);
        assert(m3.regs[R11] == h + 16 + pos);
        let m4 = lemma_match_at(run, pc + 8, m3);
        lemma_agree_occurs(m.mem, h, n, pos);
        lemma_test(run, pc + 20, m4, Rax);
        let m5 = m4.flagged(flags_of_bits(Width::Quad, m4.regs[Rax] as int));
        lemma_jcc(run, pc + 21, m5, Ne, false, Hop::Forward(3));
        if occurs_at(hay, needle, pos) {
            m5
        } else {
            assert(run.program[pc + 22] == part[22]);
            assert(run.program[pc + 23] == part[23]);
            if needle.len() == 0 {
                assert(hay.subrange(pos, pos) =~= needle);
            }
            let m6 = lemma_inc(run, pc + 22, m5, R8);
            lemma_jmp(run, pc + 23, m6, false, Hop::Back(19));
            lemma_search_from(run, pc, before, m6, pos + 1)
        }
    }
}

/// The byte search leaves whether the needle occurs and where it does first.
proof fn lemma_search(run: Run, pc: int, before: Machine, m: Machine) -> (after: Machine)
    requires
        part_of(byte_search_program(), run.program, pc),
        run.at(pc, m),
        can_search(before),
        searching(before, m),
    ensures
        run.at(pc + 24, after),
        after.mem == m.mem,
        ({
            let hay = text_at(before.mem, before.regs[Rcx]);
            let needle = text_at(before.mem, before.regs[Rdx]);
            &&& after.regs[Rax] == word_of(occurs(hay, needle))
            &&& occurs(hay, needle) ==> first_occurrence(hay, needle, after.regs[R8] as int)
        }),
        forall|reg: Reg| !searched(reg) ==> #[trigger] after.regs[reg] == m.regs[reg],
{
    let part = byte_search_program();
    assert(part.len() == 24);
    assert(run.program[pc] == part[0]);
    assert(run.program[pc + 1] == part[1]);
    assert(run.program[pc + 2] == part[2]);
    assert(run.program[pc + 3] == part[3]);
    lemma_mov(run, pc, m, R10, R13);
    let m1 = m.set(R10, m.regs[R13]);
    lemma_alu(run, pc + 1, m1, Alu::Sub, R10, R12);
    let m2 = operated(m1, Alu::Sub, R10, m1.regs[R12]);
    assert(signed(m2.regs[R10]) == m.regs[R13] - m.regs[R12]);
    let m3 = lemma_zero(run, pc + 2, m2, R8);
    let m4 = lemma_zero(run, pc + 3, m3, Rax);
    lemma_search_from(run, pc, before, m4, 0)
}

/// `contains` returns whether the substring occurs.
pub proof fn law_str_contains(world: World, m: Machine) -> (after: Machine)
    requires
        can_search(m),
    ensures
        search_gives(
            world,
            str_contains_program(),
            m,
            after,
            word_of(occurs(text_at(m.mem, m.regs[Rcx]), text_at(m.mem, m.regs[Rdx]))),
        ),
{
    let program = str_contains_program();
    let run = Run { world, program, start: 0, before: m };
    assert(program.len() == 37);
    assert(part_of(search_head(), program, 0));
    assert(part_of(byte_search_program(), program, 8));
    assert(part_of(search_tail(), program, 32));
    let m1 = lemma_search_head(run, m);
    let done = lemma_search(run, 8, m, m1);
    lemma_search_tail(run, 32, m, done)
}

// Characters

/// Whether a byte continues a character that an earlier byte started.
pub open spec fn continues(byte: u8) -> bool {
    byte & 0xC0 == 0x80
}

/// How many characters start in these bytes.
pub open spec fn chars_in(text: Seq<u8>) -> nat
    decreases text.len(),
{
    if text.len() == 0 {
        0
    } else {
        chars_in(text.drop_last()) + if continues(text.last()) {
            0nat
        } else {
            1nat
        }
    }
}

pub proof fn lemma_chars_bounded(text: Seq<u8>)
    ensures
        chars_in(text) <= text.len(),
    decreases text.len(),
{
    if text.len() > 0 {
        lemma_chars_bounded(text.drop_last());
    }
}

/// Counting the characters that start in the bytes from `j` up to `r8`.
proof fn lemma_count_chars(run: Run, pc: int, m0: Machine, m: Machine, j: int) -> (after: Machine)
    requires
        0 <= pc,
        pc + 9 <= run.program.len(),
        run.program[pc] == alu(Alu::Cmp, R9, R8),
        run.program[pc + 1] == jcc(Ge, 9),
        run.program[pc + 2] == load_b(Rcx, index(Rsi, R9)),
        run.program[pc + 3] == alu_imm8_b(Alu::And, Rcx, 0xC0),
        run.program[pc + 4] == alu_imm8_b(Alu::Cmp, Rcx, 0x80),
        run.program[pc + 5] == jcc(E, 2),
        run.program[pc + 6] == unary(Unary::Inc, Rax),
        run.program[pc + 7] == unary(Unary::Inc, R9),
        run.program[pc + 8] == jmp_back(8),
        run.at(pc, m),
        m.regs[R9] == j,
        m.mem == m0.mem,
        forall|reg: Reg| !compared(reg) ==> #[trigger] m.regs[reg] == m0.regs[reg],
        ({
            let n = m0.regs[R8];
            let data = m0.regs[Rsi];
            &&& n <= i64::MAX
            &&& data + n < word_span()
            &&& 0 <= j <= n
            &&& m.regs[Rax] == chars_in(bytes_at(m0.mem, data as int, j))
        }),
    ensures
        run.at(pc + 10, after),
        after.mem == m0.mem,
        after.regs[Rax] == chars_in(
            bytes_at(m0.mem, m0.regs[Rsi] as int, m0.regs[R8] as int),
        ),
        forall|reg: Reg| !compared(reg) ==> #[trigger] after.regs[reg] == m0.regs[reg],
    decreases m0.regs[R8] - j,
{
    let n = m0.regs[R8];
    let data = m0.regs[Rsi];
    assert(m.regs[R8] == n && m.regs[Rsi] == data);
    lemma_alu(run, pc, m, Alu::Cmp, R9, R8);
    let m1 = operated(m, Alu::Cmp, R9, n);
    law_comparisons_order(j as u64, n);
    lemma_jcc(run, pc + 1, m1, Ge, false, Hop::Forward(9));
    if j >= n {
        m1
    } else {
        assert(m1.address(run.world, index(Rsi, R9)) == data + j);
        let byte = (m0.mem)(data + j);
        let m2 = lemma_load_b(run, pc + 2, m1, Rcx, index(Rsi, R9));
        let m3 = lemma_and_imm_b(run, pc + 3, m2, Rcx, 0xC0);
        let masked = byte & 0xC0;
        lemma_compare_imm_b(run, pc + 4, m3, Rcx, 0x80);
        let m4 = m3.flagged(flags_of_difference(Width::Byte, masked as int, 0x80));
        assert(m4.flags.zero == continues(byte));
        lemma_jcc(run, pc + 5, m4, E, false, Hop::Forward(2));
        let longer = bytes_at(m0.mem, data as int, j + 1);
        assert(longer.drop_last() =~= bytes_at(m0.mem, data as int, j));
        assert(longer.last() == byte);
        lemma_chars_bounded(longer.drop_last());
        let m5 = if continues(byte) {
            m4
        } else {
            lemma_inc(run, pc + 6, m4, Rax)
        };
        let m6 = lemma_inc(run, pc + 7, m5, R9);
        lemma_jmp(run, pc + 8, m6, false, Hop::Back(8));
        lemma_count_chars(run, pc, m0, m6, j + 1)
    }
}

/// `find` returns how many characters start before the first occurrence of the needle, and
/// -1 when there is none.
pub proof fn law_str_find(world: World, m: Machine) -> (after: Machine)
    requires
        can_search(m),
    ensures
        ({
            let hay = text_at(m.mem, m.regs[Rcx]);
            let needle = text_at(m.mem, m.regs[Rdx]);
            &&& search_gives(world, str_find_program(), m, after, after.regs[Rax])
            &&& !occurs(hay, needle) ==> signed(after.regs[Rax]) == -1
            &&& forall|pos: int| #[trigger]
                first_occurrence(hay, needle, pos) ==> after.regs[Rax] == chars_in(hay.take(pos))
        }),
{
    let program = str_find_program();
    let run = Run { world, program, start: 0, before: m };
    assert(program.len() == 51);
    assert(part_of(search_head(), program, 0));
    assert(part_of(byte_search_program(), program, 8));
    assert(part_of(search_tail(), program, 46));
    let hay = text_at(m.mem, m.regs[Rcx]);
    let needle = text_at(m.mem, m.regs[Rdx]);
    let m1 = lemma_search_head(run, m);
    let m2 = lemma_search(run, 8, m, m1);
    let pos = m2.regs[R8] as int;
    lemma_test(run, 32, m2, Rax);
    let m3 = m2.flagged(flags_of_bits(Width::Quad, m2.regs[Rax] as int));
    lemma_jcc(run, 33, m3, E, false, Hop::Forward(12));
    let done = if occurs(hay, needle) {
        let m4 = lemma_zero(run, 34, m3, Rax);
        let m5 = lemma_zero(run, 35, m4, R9);
        let data = m5.regs[Rsi];
        assert(bytes_at(m5.mem, data as int, 0) =~= Seq::empty());
        let m6 = lemma_count_chars(run, 36, m5, m5, 0);
        assert(bytes_at(m5.mem, data as int, pos) =~= text_at(m5.mem, m.regs[Rcx]).take(pos));
        assert forall|p: int| #[trigger] first_occurrence(hay, needle, p) implies p == pos by {}
        m6
    } else {
        lemma_mov_imm(run, 45, m3, Rax, NOT_FOUND);
        m3.set(Rax, wrap(NOT_FOUND as int))
    };
    lemma_search_tail(run, 46, m, done)
}

// Counting

/// How many occurrences that do not overlap stand from byte `pos` on, taken greedily; none
/// of an empty needle.
pub open spec fn matches_from(hay: Seq<u8>, needle: Seq<u8>, pos: int) -> nat
    decreases hay.len() - pos,
{
    if needle.len() == 0 || pos < 0 || pos + needle.len() > hay.len() {
        0
    } else if occurs_at(hay, needle, pos) {
        1 + matches_from(hay, needle, pos + needle.len())
    } else {
        matches_from(hay, needle, pos + 1)
    }
}

/// The count from byte `pos` on, when `count` occurrences were seen before.
#[verifier::rlimit(20)]
proof fn lemma_count_from(run: Run, before: Machine, m: Machine, pos: int, count: nat) -> (after:
    Machine)
    requires
        run.program == str_count_program(),
        run.at(14, m),
        can_search(before),
        ({
            let hay = text_at(before.mem, before.regs[Rcx]);
            let needle = text_at(before.mem, before.regs[Rdx]);
            &&& text_at(m.mem, before.regs[Rcx]) == hay
            &&& text_at(m.mem, before.regs[Rdx]) == needle
            &&& word_at(m.mem, before.regs[Rcx] + 8) == hay.len()
            &&& word_at(m.mem, before.regs[Rdx] + 8) == needle.len()
            &&& m.regs[R13] == hay.len()
            &&& m.regs[R12] == needle.len()
            &&& m.regs[Rsi] == before.regs[Rcx] + 16
            &&& m.regs[Rdi] == before.regs[Rdx] + 16
            &&& 0 < needle.len()
            &&& 0 <= pos <= hay.len()
            &&& m.regs[R10] == pos
            &&& m.regs[R8] == count
            &&& count <= pos
        }),
    ensures
        run.at(40, after),
        after.mem == m.mem,
        after.regs[Rax] == count + matches_from(
            text_at(before.mem, before.regs[Rcx]),
            text_at(before.mem, before.regs[Rdx]),
            pos,
        ),
        forall|reg: Reg| !searched(reg) ==> #[trigger] after.regs[reg] == m.regs[reg],
    decreases text_at(before.mem, before.regs[Rcx]).len() - pos,
{
    let h = before.regs[Rcx];
    let n = before.regs[Rdx];
    let hay = text_at(before.mem, h);
    let needle = text_at(before.mem, n);
    assert(run.program.len() == 45);
    lemma_mov(run, 14, m, Rax, R13);
    let m1 = m.set(Rax, m.regs[R13]);
    lemma_alu(run, 15, m1, Alu::Sub, Rax, R12);
    let m2 = operated(m1, Alu::Sub, Rax, m1.regs[R12]);
    let limit = m2.regs[Rax];
    assert(signed(limit) == hay.len() - needle.len());
    lemma_alu(run, 16, m2, Alu::Cmp, R10, Rax);
    let m3 = operated(m2, Alu::Cmp, R10, limit);
    law_comparisons_order(pos as u64, limit);
    lemma_jcc(run, 17, m3, G, false, Hop::Forward(22));
    if pos > hay.len() - needle.len() {
        lemma_mov(run, 39, m3, Rax, R8);
        m3.set(Rax, m3.regs[R8])
    } else {
        assert(part_of(match_at_program(), run.program, 20));
        lemma_mov(run, 18, m3, R11, Rsi);
        let m4 = m3.set(R11, m3.regs[Rsi]);
        lemma_alu(run, 19, m4, Alu::Add, R11, R10);
        let m5 = operated(m4, Alu::Add, R11, m4.regs[R10]);
        assert(m5.regs[R11] == h + 16 + pos);
        let m6 = lemma_match_at(run, 20, m5);
        lemma_agree_occurs(m.mem, h, n, pos);
        lemma_test(run, 32, m6, Rax);
        let m7 = m6.flagged(flags_of_bits(Width::Quad, m6.regs[Rax] as int));
        lemma_jcc(run, 33, m7, E, false, Hop::Forward(4));
        if occurs_at(hay, needle, pos) {
            let m8 = lemma_inc(run, 34, m7, R8);
            lemma_alu(run, 35, m8, Alu::Add, R10, R12);
            let m9 = operated(m8, Alu::Add, R10, m8.regs[R12]);
            lemma_jmp(run, 36, m9, false, Hop::Back(22));
            lemma_count_from(run, before, m9, pos + needle.len(), count + 1)
        } else {
            let m8 = lemma_inc(run, 37, m7, R10);
            lemma_jmp(run, 38, m8, false, Hop::Back(24));
            lemma_count_from(run, before, m8, pos + 1, count)
        }
    }
}

/// `count` returns how many occurrences of the needle stand in the string without
/// overlapping, and 0 of an empty needle.
pub proof fn law_str_count(world: World, m: Machine) -> (after: Machine)
    requires
        can_search(m),
    ensures
        ({
            let hay = text_at(m.mem, m.regs[Rcx]);
            let needle = text_at(m.mem, m.regs[Rdx]);
            &&& search_gives(world, str_count_program(), m, after, after.regs[Rax])
            &&& after.regs[Rax] == matches_from(hay, needle, 0)
        }),
{
    let program = str_count_program();
    let run = Run { world, program, start: 0, before: m };
    assert(program.len() == 45);
    assert(part_of(search_head(), program, 0));
    assert(part_of(search_tail(), program, 40));
    let m1 = lemma_search_head(run, m);
    let n = m1.regs[R12];
    lemma_test(run, 8, m1, R12);
    let m2 = m1.flagged(flags_of_bits(Width::Quad, n as int));
    lemma_jcc(run, 9, m2, Ne, false, Hop::Forward(3));
    let done = if n == 0 {
        let m3 = lemma_zero(run, 10, m2, Rax);
        lemma_jmp(run, 11, m3, false, Hop::Forward(29));
        m3
    } else {
        let m3 = lemma_zero(run, 12, m2, R8);
        let m4 = lemma_zero(run, 13, m3, R10);
        lemma_count_from(run, m, m4, 0, 0)
    };
    lemma_search_tail(run, 40, m, done)
}

} // verus!
