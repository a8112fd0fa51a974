//! Trimming strings.

use crate::behavior::allocation::has_room;
use crate::behavior::building::{can_build, lemma_enter, lemma_leave, lemma_span_safe_inside};
use crate::behavior::characters::{char_offset, slice_of, starts_clean};
use crate::behavior::guards::law_comparisons_order;
use crate::behavior::heap::volatile;
use crate::behavior::instructions::{
    lemma_alu, lemma_alu_imm8, lemma_begin, lemma_call, lemma_compare_imm_b, lemma_compare_imm_d,
    lemma_dec, lemma_inc, lemma_jcc, lemma_jmp, lemma_lea, lemma_lea_d, lemma_load, lemma_mov,
    lemma_movzx_load, lemma_ret, lemma_zero, operated, Run,
};
use crate::behavior::search::{bytes_at, chars_in, lemma_chars_bounded, text_at};
use crate::behavior::slicing::{in_bounds, law_str_substring};
use crate::behavior::strings::{builds_string, holds_string, string_safe};
use crate::linking::{ends_in, entered, law_call, law_call_traps, law_ends_alone};
use crate::machine::{
    comes_to, flags_of_difference, law_word_of_bytes, word_span, wrap, Machine, Outcome, World,
};
use crate::mnemonics::{at_b, below, index, index_below};
use crate::runtime::search::str_substring_program;
use crate::runtime::strings::str_trim_program;
use crate::symbols::Symbol;
use crate::x86::{Alu, Hop, Reg, Width};
use crate::x86::Cond::{Be, E, Ge, Le};
use crate::x86::Reg::{R10, R11, R8, R9, Rax, Rcx, Rdx, Rsp};
use vstd::prelude::*;

verus! {

/// Whether a byte is ASCII whitespace.
pub open spec fn white(byte: u8) -> bool {
    byte == 0x20 || 9 <= byte <= 13
}

/// The first byte from `i` on that is not whitespace, or the end.
pub open spec fn first_kept(text: Seq<u8>, i: int) -> int
    decreases text.len() - i,
{
    if i < 0 || i >= text.len() || !white(text[i]) {
        i
    } else {
        first_kept(text, i + 1)
    }
}

/// The end of the bytes from `start` up to `end` without the whitespace behind them.
pub open spec fn last_kept(text: Seq<u8>, start: int, end: int) -> int
    decreases end - start,
{
    if end <= start || !white(text[end - 1]) {
        end
    } else {
        last_kept(text, start, end - 1)
    }
}

/// Where the trimmed text starts and ends.
pub open spec fn trim_bounds(text: Seq<u8>) -> (int, int) {
    let start = first_kept(text, 0);
    (start, last_kept(text, start, text.len() as int))
}

/// Trimming takes off whitespace, and nothing but whitespace.
pub proof fn law_trim_bounds(text: Seq<u8>)
    ensures
        ({
            let (start, end) = trim_bounds(text);
            &&& 0 <= start <= end <= text.len()
            &&& forall|i: int| 0 <= i < start ==> white(#[trigger] text[i])
            &&& forall|i: int| end <= i < text.len() ==> white(#[trigger] text[i])
            &&& start < end ==> !white(text[start]) && !white(text[end - 1])
        }),
{
    lemma_first_kept(text, 0);
    lemma_last_kept(text, first_kept(text, 0), text.len() as int);
}

proof fn lemma_first_kept(text: Seq<u8>, i: int)
    requires
        0 <= i <= text.len(),
    ensures
        ({
            let start = first_kept(text, i);
            &&& i <= start <= text.len()
            &&& forall|k: int| i <= k < start ==> white(#[trigger] text[k])
            &&& start < text.len() ==> !white(text[start])
        }),
    decreases text.len() - i,
{
    if i < text.len() && white(text[i]) {
        lemma_first_kept(text, i + 1);
    }
}

proof fn lemma_last_kept(text: Seq<u8>, start: int, end: int)
    requires
        0 <= start <= end <= text.len(),
    ensures
        ({
            let stop = last_kept(text, start, end);
            &&& start <= stop <= end
            &&& forall|k: int| stop <= k < end ==> white(#[trigger] text[k])
            &&& start < stop ==> !white(text[stop - 1])
        }),
    decreases end - start,
{
    if start < end && white(text[end - 1]) {
        lemma_last_kept(text, start, end - 1);
    }
}

/// In a text of ASCII bytes every byte is a character.
pub proof fn law_ascii_offsets(text: Seq<u8>, k: int)
    requires
        0 <= k <= text.len(),
        forall|i: int| 0 <= i < text.len() ==> #[trigger] text[i] < 0x80,
    ensures
        char_offset(text, k) == k,
        chars_in(text) == text.len(),
    decreases k,
{
    lemma_ascii_chars(text);
    if k > 0 {
        law_ascii_offsets(text, k - 1);
        if k < text.len() {
            let byte = text[k];
            assert(byte < 0x80 ==> byte & 0xC0 != 0x80) by (bit_vector);
        }
    }
}

pub proof fn lemma_ascii_chars(text: Seq<u8>)
    requires
        forall|i: int| 0 <= i < text.len() ==> #[trigger] text[i] < 0x80,
    ensures
        chars_in(text) == text.len(),
    decreases text.len(),
{
    if text.len() > 0 {
        let byte = text.last();
        assert(byte < 0x80 ==> byte & 0xC0 != 0x80) by (bit_vector);
        assert forall|i: int| 0 <= i < text.len() - 1 implies #[trigger] text.drop_last()[i] < 0x80 by {
            assert(text.drop_last()[i] == text[i]);
        }
        lemma_ascii_chars(text.drop_last());
    }
}

/// The registers that the scans change.
pub open spec fn scanned(reg: Reg) -> bool {
    reg == Rax || reg == Rdx || reg == R8 || reg == R11
}

/// Whether the scans find a text where they look for one.
pub open spec fn scans_on(m: Machine, text: Seq<u8>) -> bool {
    &&& m.regs[R9] == text.len()
    &&& text.len() <= i64::MAX
    &&& m.regs[R10] + text.len() < word_span()
    &&& bytes_at(m.mem, m.regs[R10] as int, text.len() as int) == text
}

/// The test of a byte: on to `pc + 7` when it is whitespace, to `pc + 9` when it is not.
proof fn lemma_white(run: Run, pc: int, m: Machine, byte: u8) -> (after: Machine)
    requires
        run.program == str_trim_program(),
        pc == 6 || pc == 18,
        run.at(pc + 1, m),
        m.regs[Rdx] == byte,
    ensures
        white(byte) ==> run.at(pc + 7, after),
        !white(byte) ==> run.at(pc + 9, after),
        after.mem == m.mem,
        forall|reg: Reg| reg != R11 ==> #[trigger] after.regs[reg] == m.regs[reg],
{
    assert(run.program.len() == 31);
    lemma_compare_imm_b(run, pc + 1, m, Rdx, 0x20);
    let m1 = m.flagged(flags_of_difference(Width::Byte, byte as int, 0x20));
    assert(m1.flags.zero == (byte == 0x20));
    lemma_jcc(run, pc + 2, m1, E, false, Hop::Forward(5));
    if byte == 0x20 {
        m1
    } else {
        lemma_lea_d(run, pc + 3, m1, R11, below(Rdx, 9));
        let distance = m1.address(run.world, below(Rdx, 9)) % 0x1_0000_0000;
        assert(distance == if byte >= 9 {
            byte - 9
        } else {
            0x1_0000_0000 + byte - 9
        });
        let m2 = m1.set(R11, distance as u64);
        lemma_compare_imm_d(run, pc + 4, m2, R11, 4);
        let m3 = m2.flagged(flags_of_difference(Width::Long, distance, 4));
        assert(m3.flags.holds(Be) == (distance <= 4));
        lemma_jcc(run, pc + 5, m3, Be, false, Hop::Forward(2));
        if distance > 4 {
            lemma_jmp(run, pc + 6, m3, false, Hop::Forward(3));
        }
        m3
    }
}

proof fn lemma_forward(run: Run, m0: Machine, m: Machine, text: Seq<u8>, i: int) -> (after: Machine)
    requires
        run.program == str_trim_program(),
        run.at(4, m),
        scans_on(m0, text),
        m.mem == m0.mem,
        0 <= i <= text.len(),
        m.regs[Rax] == i,
        forall|reg: Reg| !scanned(reg) ==> #[trigger] m.regs[reg] == m0.regs[reg],
    ensures
        run.at(15, after),
        after.mem == m0.mem,
        after.regs[Rax] == first_kept(text, i),
        forall|reg: Reg| !scanned(reg) ==> #[trigger] after.regs[reg] == m0.regs[reg],
    decreases text.len() - i,
{
    let n = text.len() as u64;
    let data = m0.regs[R10];
    assert(run.program.len() == 31);
    assert(m.regs[R9] == n && m.regs[R10] == data);
    lemma_alu(run, 4, m, Alu::Cmp, Rax, R9);
    let m1 = operated(m, Alu::Cmp, Rax, n);
    law_comparisons_order(i as u64, n);
    lemma_jcc(run, 5, m1, Ge, false, Hop::Forward(10));
    if i >= n {
        m1
    } else {
        assert(m1.address(run.world, index(R10, Rax)) == data + i);
        lemma_movzx_load(run, 6, m1, Rdx, index(R10, Rax));
        let byte = text[i];
        assert(bytes_at(m0.mem, data as int, n as int)[i] == (m0.mem)(data + i));
        let m2 = m1.set(Rdx, byte as u64);
        let m3 = lemma_white(run, 6, m2, byte);
        if white(byte) {
            let m4 = lemma_inc(run, 13, m3, Rax);
            lemma_jmp(run, 14, m4, false, Hop::Back(10));
            lemma_forward(run, m0, m4, text, i + 1)
        } else {
            m3
        }
    }
}

proof fn lemma_backward(run: Run, m0: Machine, m: Machine, text: Seq<u8>, start: int,
    end: int) -> (after:
    Machine)
    requires
        run.program == str_trim_program(),
        run.at(16, m),
        scans_on(m0, text),
        m.mem == m0.mem,
        0 <= start <= end <= text.len(),
        m.regs[Rax] == start,
        m.regs[R8] == end,
        forall|reg: Reg| !scanned(reg) ==> #[trigger] m.regs[reg] == m0.regs[reg],
    ensures
        run.at(27, after),
        after.mem == m0.mem,
        after.regs[Rax] == start,
        after.regs[R8] == last_kept(text, start, end),
        forall|reg: Reg| !scanned(reg) ==> #[trigger] after.regs[reg] == m0.regs[reg],
    decreases end - start,
{
    let n = text.len() as int;
    let data = m0.regs[R10];
    assert(run.program.len() == 31);
    assert(m.regs[R10] == data);
    lemma_alu(run, 16, m, Alu::Cmp, R8, Rax);
    let m1 = operated(m, Alu::Cmp, R8, start as u64);
    law_comparisons_order(end as u64, start as u64);
    lemma_jcc(run, 17, m1, Le, false, Hop::Forward(10));
    if end <= start {
        m1
    } else {
        assert(m1.address(run.world, index_below(R10, R8, 1)) == data + (end - 1));
        lemma_movzx_load(run, 18, m1, Rdx, index_below(R10, R8, 1));
        let byte = text[end - 1];
        assert(bytes_at(m0.mem, data as int, n)[end - 1] == (m0.mem)(data + (end - 1)));
        let m2 = m1.set(Rdx, byte as u64);
        let m3 = lemma_white(run, 18, m2, byte);
        if white(byte) {
            let m4 = lemma_dec(run, 25, m3, R8);
            lemma_jmp(run, 26, m4, false, Hop::Back(10));
            lemma_backward(run, m0, m4, text, start, end - 1)
        } else {
            m3
        }
    }
}

/// Whether a string can be trimmed.
pub open spec fn can_trim(world: World, m: Machine, blocks: Seq<u64>, text: Seq<u8>) -> bool {
    &&& can_build(world, m, blocks, 96)
    &&& (world.code)(Symbol::StrSubstring) == str_substring_program()
    &&& string_safe(world, m, blocks, m.regs[Rcx], 96)
    &&& 16 + text.len() <= u64::MAX / 2
    &&& holds_string(m.mem, m.regs[Rcx], text)
    &&& starts_clean(text)
}

/// The scans: up to the call.
proof fn lemma_trim_call(world: World, m: Machine, blocks: Seq<u64>,
    text: Seq<u8>) -> (calling: Machine)
    requires
        can_trim(world, m, blocks, text),
    ensures
        comes_to(
            world,
            str_trim_program(),
            0,
            m,
            Outcome::Called(Symbol::StrSubstring, 29, calling),
        ),
        calling.mem == m.mem,
        calling.regs[Rsp] == m.regs[Rsp] - 8,
        calling.regs[Rcx] == m.regs[Rcx],
        calling.regs[Rdx] == trim_bounds(text).0,
        calling.regs[R8] == trim_bounds(text).1,
        forall|reg: Reg|
            !volatile(reg) && reg != Rsp ==> #[trigger] calling.regs[reg] == m.regs[reg],
{
    let program = str_trim_program();
    let run = Run { world, program, start: 0, before: m };
    let record = m.regs[Rcx];
    let n = text.len() as int;
    let (start, end) = trim_bounds(text);
    law_trim_bounds(text);
    assert(program.len() == 31);
    lemma_begin(run);
    lemma_alu_imm8(run, 0, m, Alu::Sub, Rsp, 8);
    let m1 = operated(m, Alu::Sub, Rsp, 8);
    assert(m1.address(world, at_b(Rcx, 8)) == record + 8);
    lemma_load(run, 1, m1, R9, at_b(Rcx, 8));
    let m2 = m1.set(R9, n as u64);
    assert(m2.address(world, at_b(Rcx, 16)) == record + 16);
    lemma_lea(run, 2, m2, R10, at_b(Rcx, 16));
    let m3 = m2.set(R10, (record + 16) as u64);
    let m4 = lemma_zero(run, 3, m3, Rax);
    let m5 = lemma_forward(run, m4, m4, text, 0);
    lemma_mov(run, 15, m5, R8, R9);
    let m6 = m5.set(R8, n as u64);
    let m7 = lemma_backward(run, m4, m6, text, start, n);
    lemma_mov(run, 27, m7, Rdx, Rax);
    let calling = m7.set(Rdx, start as u64);
    lemma_call(run, 28, calling, Symbol::StrSubstring);
    assert forall|reg: Reg| !volatile(reg) && reg != Rsp implies #[trigger] calling.regs[reg]
        == m.regs[reg] by {
        assert(m7.regs[reg] == m4.regs[reg]);
    }
    assert(m7.regs[Rsp] == m4.regs[Rsp] && m7.regs[Rcx] == m4.regs[Rcx]);
    calling
}

/// `trim` gives a fresh string without the whitespace at both ends, whose byte bounds it takes
/// for character indices: in a text of ASCII bytes they are the same. Bounds that are no
/// character indices trap, and so does a string without room for it.
#[verifier::rlimit(40)]
pub proof fn law_str_trim(world: World, m: Machine, blocks: Seq<u64>, text: Seq<u8>) -> (end: (
    Machine,
    Seq<u64>,
))
    requires
        can_trim(world, m, blocks, text),
    ensures
        ({
            let (after, left) = end;
            let program = str_trim_program();
            let (from, to) = trim_bounds(text);
            let inside = to <= chars_in(text);
            let slice = slice_of(text, from, to);
            let room = has_room(world, m.mem, blocks, 16 + slice.len() as int);
            &&& inside && room ==> builds_string(
                world,
                program,
                m,
                after,
                blocks,
                left,
                slice,
                96,
            )
            &&& !inside || !room ==> ends_in(world, program, 0, m, Outcome::Trapped(after))
        }),
{
    let program = str_trim_program();
    let (from, to) = trim_bounds(text);
    law_trim_bounds(text);
    let slice = slice_of(text, from, to);
    let size = 16 + slice.len() as int;
    let record = m.regs[Rcx];
    let n = text.len() as int;
    assert(program.len() == 31);
    let calling = lemma_trim_call(world, m, blocks, text);
    lemma_enter(world, m, calling, program, 29, blocks, 96, 80, size);
    lemma_span_safe_inside(
        world,
        m,
        calling,
        program,
        29,
        blocks,
        96,
        80,
        record as int,
        16 + n,
    );
    let start = entered(world, program, 29, calling);
    law_word_of_bytes(start.mem, m.mem, record as int);
    law_word_of_bytes(start.mem, m.mem, record + 8);
    assert(text_at(start.mem, record) =~= text) by {
        assert forall|i: int| 0 <= i < n implies text_at(start.mem, record)[i] == text[i] by {
            let p = record + 16 + i;
            assert((start.mem)(p) == (m.mem)(p));
            assert(text_at(m.mem, record)[i] == (m.mem)(p));
        }
    }
    let (out, left) = law_str_substring(world, start, blocks, text);
    let inside = to <= chars_in(text);
    assert(in_bounds(start.regs[Rdx], start.regs[R8], chars_in(text) as int) == inside) by {
        lemma_chars_bounded(text);
    }
    if inside && has_room(world, m.mem, blocks, size) {
        let payload = out.regs[Rax];
        lemma_leave(
            world,
            m,
            calling,
            out,
            program,
            29,
            blocks,
            left,
            size,
            payload,
            96,
            80,
        );
        let run = Run { world, program, start: 29, before: out };
        lemma_begin(run);
        lemma_alu_imm8(run, 29, out, Alu::Add, Rsp, 8);
        let n1 = operated(out, Alu::Add, Rsp, 8);
        lemma_ret(run, 30, n1);
        let after = n1.set(Rsp, wrap(n1.regs[Rsp] + 8));
        law_ends_alone(world, program, 29, out, Outcome::Returned(after));
        law_call(
            world,
            program,
            0,
            m,
            Symbol::StrSubstring,
            29,
            calling,
            out,
            Outcome::Returned(after),
        );
        (after, left)
    } else {
        law_call_traps(world, program, 0, m, Symbol::StrSubstring, 29, calling, out);
        (out, left)
    }
}

} // verus!
