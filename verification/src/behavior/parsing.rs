//! Parsing integers.

use crate::behavior::allocation::{allocated, has_room, lemma_alloc_call};
use crate::behavior::building::{
    builds, can_build, filled, lemma_at_the_call, lemma_built, lemma_span_stays,
};
use crate::behavior::encoding::wrote;
use crate::behavior::guards::law_comparisons_order;
use crate::behavior::heap::{came_back, volatile};
use crate::behavior::instructions::{
    lemma_alu, lemma_alu_imm8, lemma_begin, lemma_call, lemma_compare_al, lemma_imul_imm8,
    lemma_inc, lemma_jcc, lemma_jmp, lemma_lea, lemma_load, lemma_mov, lemma_movzx,
    lemma_movzx_load, lemma_rep_movsb, lemma_set_d, lemma_set_q, lemma_set_w, lemma_store,
    lemma_store_d, lemma_store_w, lemma_sub_al, lemma_test, lemma_zero, lemma_zero_d, operated, Run,
};
use crate::behavior::routines::{
    among, frame_head, frame_tail, lemma_frame_head, lemma_frame_tail, lemma_saved_stays, saved,
};
use crate::behavior::search::{bytes_at, chars_in, lemma_chars_bounded, lemma_text_kept, text_at};
use crate::behavior::strings::{
    holds_string, law_chars_add_up, lemma_lengths, string_safe, with_lengths,
};
use crate::behavior::trimming::lemma_ascii_chars;
use crate::linking::{ends_in, law_call, law_call_traps, law_ends_alone};
use crate::machine::{
    exceeds, flags_of_bits, flags_of_difference, kept, law_bytes_copied, law_kept_bytes_keep_words,
    law_number_keeps_bytes, law_number_writes_bytes, law_word_keeps_bytes, law_word_of_bytes,
    law_word_writes_bytes, nth_byte, part_of, signed, with_number, with_word, word_span, Machine,
    Outcome, World,
};
use crate::mnemonics::{at, at_b, at_d, index_d};
use crate::runtime::format::parse_i64_program;
use crate::symbols::Symbol;
use crate::x86::{Alu, Hop, Reg, Width};
use crate::x86::Cond::{A, Ae, E, Ne, O};
use crate::x86::Reg::{R10, R11, R12, R13, Rax, Rbx, Rcx, Rdi, Rdx, Rsi, Rsp};
use vstd::prelude::*;

verus! {

// What a text says

/// Whether a byte is a decimal digit.
pub open spec fn is_digit(byte: u8) -> bool {
    0x30 <= byte <= 0x39
}

/// The number that the digits from `start` up to `end` say.
pub open spec fn digits_value(text: Seq<u8>, start: int, end: int) -> int
    decreases end - start,
{
    if end <= start {
        0
    } else {
        10 * digits_value(text, start, end - 1) + (text[end - 1] - 0x30)
    }
}

/// Whether the bytes from `start` up to `end` are digits.
pub open spec fn all_digits(text: Seq<u8>, start: int, end: int) -> bool {
    forall|i: int| start <= i < end ==> is_digit(#[trigger] text[i])
}

/// Whether a text starts with a minus sign.
pub open spec fn is_negative(text: Seq<u8>) -> bool {
    text.len() > 0 && text[0] == 0x2D
}

/// Where the digits start: behind one sign.
pub open spec fn digits_start(text: Seq<u8>) -> int {
    if text.len() > 0 && (text[0] == 0x2D || text[0] == 0x2B) {
        1
    } else {
        0
    }
}

/// A number with its sign.
pub open spec fn with_sign(negative: bool, value: int) -> int {
    if negative {
        -value
    } else {
        value
    }
}

/// The integer a text says: an optional sign and one or more digits, and no more than 64 bits
/// hold.
pub open spec fn parsed(text: Seq<u8>) -> Option<int> {
    let start = digits_start(text);
    let n = text.len() as int;
    let value = with_sign(is_negative(text), digits_value(text, start, n));
    if start < n && all_digits(text, start, n) && i64::MIN <= value <= i64::MAX {
        Some(value)
    } else {
        None
    }
}

proof fn lemma_value_grows(text: Seq<u8>, start: int, i: int, end: int)
    requires
        start <= i <= end,
        all_digits(text, start, end),
    ensures
        0 <= digits_value(text, start, i) <= digits_value(text, start, end),
    decreases end - start,
{
    if i < end {
        lemma_value_grows(text, start, i, end - 1);
        assert(is_digit(text[end - 1]));
    } else if start < i {
        lemma_value_grows(text, start, i - 1, i - 1);
        assert(is_digit(text[i - 1]));
    }
}

// Reading digits

/// The registers that reading digits changes.
pub open spec fn read_over(reg: Reg) -> bool {
    reg == Rax || reg == R10 || reg == Rdi
}

/// Whether the loop finds a text where it looks for one.
pub open spec fn reads_on(m: Machine, text: Seq<u8>) -> bool {
    &&& m.regs[Rsi] == text.len()
    &&& m.regs[Rbx] + 16 + text.len() < word_span()
    &&& bytes_at(m.mem, m.regs[Rbx] + 16, text.len() as int) == text
}

/// One digit more: the accumulator with it, or on to the failure when 64 bits do not hold it.
#[verifier::rlimit(20)]
proof fn lemma_accumulate(run: Run, m: Machine, negative: bool, acc: int, digit: int) -> (after:
    Machine)
    requires
        run.program == parse_i64_program(),
        run.at(31, m),
        signed(m.regs[R10]) == acc,
        m.regs[Rax] == digit,
        0 <= digit <= 9,
        m.regs[R11] == if negative {
            1
        } else {
            0int
        },
        negative ==> acc <= 0,
        !negative ==> 0 <= acc,
    ensures
        ({
            let next = 10 * acc + with_sign(negative, digit);
            let holds = i64::MIN <= next <= i64::MAX;
            &&& holds ==> run.at(40, after) && signed(after.regs[R10]) == next
            &&& !holds ==> run.at(45, after)
        }),
        after.mem == m.mem,
        forall|reg: Reg| reg != R10 ==> #[trigger] after.regs[reg] == m.regs[reg],
{
    assert(run.program.len() == 75);
    lemma_imul_imm8(run, 31, m, R10, R10, 10);
    let m1 = m.multiplied(run.world, R10, m.regs[R10], 10);
    let product = acc * 10;
    let tenfold = m1.regs[R10];
    assert(m1.flags.overflow == exceeds(Width::Quad, product));
    lemma_jcc(run, 32, m1, O, false, Hop::Forward(13));
    if exceeds(Width::Quad, product) {
        m1
    } else {
        assert(signed(tenfold) == product);
        lemma_test(run, 33, m1, R11);
        let m2 = m1.flagged(flags_of_bits(Width::Quad, m1.regs[R11] as int));
        lemma_jcc(run, 34, m2, Ne, false, Hop::Forward(4));
        if negative {
            lemma_alu(run, 38, m2, Alu::Sub, R10, Rax);
            let m3 = operated(m2, Alu::Sub, R10, digit as u64);
            assert(m3.flags.overflow == exceeds(Width::Quad, product - digit));
            lemma_jcc(run, 39, m3, O, false, Hop::Forward(6));
            m3
        } else {
            lemma_alu(run, 35, m2, Alu::Add, R10, Rax);
            let m3 = operated(m2, Alu::Add, R10, digit as u64);
            assert(m3.flags.overflow == exceeds(Width::Quad, product + digit));
            lemma_jcc(run, 36, m3, O, false, Hop::Forward(9));
            if !exceeds(Width::Quad, product + digit) {
                lemma_jmp(run, 37, m3, false, Hop::Forward(3));
            }
            m3
        }
    }
}

/// The digits from `i` on: to the success with the number, or to the failure.
#[verifier::rlimit(20)]
proof fn lemma_digits_from(
    run: Run,
    m0: Machine,
    m: Machine,
    text: Seq<u8>,
    start: int,
    negative: bool,
    i: int,
) -> (after: Machine)
    requires
        run.program == parse_i64_program(),
        run.at(24, m),
        reads_on(m0, text),
        m.mem == m0.mem,
        0 <= start <= i <= text.len(),
        m.regs[Rdi] == i,
        m.regs[R11] == if negative {
            1
        } else {
            0int
        },
        signed(m.regs[R10]) == with_sign(negative, digits_value(text, start, i)),
        all_digits(text, start, i),
        forall|reg: Reg| !read_over(reg) ==> #[trigger] m.regs[reg] == m0.regs[reg],
    ensures
        ({
            let n = text.len() as int;
            let value = with_sign(negative, digits_value(text, start, n));
            let good = all_digits(text, start, n) && i64::MIN <= value <= i64::MAX;
            &&& good ==> run.at(42, after) && signed(after.regs[R10]) == value
            &&& !good ==> run.at(45, after)
        }),
        after.mem == m0.mem,
        forall|reg: Reg| !read_over(reg) ==> #[trigger] after.regs[reg] == m0.regs[reg],
    decreases text.len() - i,
{
    let n = text.len() as u64;
    let data = m0.regs[Rbx] + 16;
    assert(run.program.len() == 75);
    assert(m.regs[Rsi] == n && m.regs[Rbx] == m0.regs[Rbx]);
    lemma_alu(run, 24, m, Alu::Cmp, Rdi, Rsi);
    let m1 = operated(m, Alu::Cmp, Rdi, n);
    law_comparisons_order(i as u64, n);
    lemma_jcc(run, 25, m1, Ae, false, Hop::Forward(17));
    if i >= n {
        m1
    } else {
        let byte = text[i];
        assert(bytes_at(m0.mem, data, n as int)[i] == (m0.mem)(data + i));
        assert(m1.address(run.world, index_d(Rbx, Rdi, 16)) == data + i);
        lemma_movzx_load(run, 26, m1, Rax, index_d(Rbx, Rdi, 16));
        let m2 = m1.set(Rax, byte as u64);
        let m3 = lemma_sub_al(run, 27, m2, 0x30);
        let digit = (byte - 0x30) % 256;
        assert(digit == if byte >= 0x30 {
            byte - 0x30
        } else {
            byte + 208
        });
        lemma_compare_al(run, 28, m3, 9);
        let m4 = m3.flagged(flags_of_difference(Width::Byte, digit, 9));
        assert(m4.flags.holds(A) == (digit > 9));
        lemma_jcc(run, 29, m4, A, false, Hop::Forward(16));
        if digit > 9 {
            assert(!is_digit(text[i]));
            m4
        } else {
            assert(is_digit(text[i]));
            lemma_value_grows(text, start, i, i);
            let acc = with_sign(negative, digits_value(text, start, i));
            lemma_movzx(run, 30, m4, Rax, Rax);
            let m5 = m4.set(Rax, digit as u64);
            let m6 = lemma_accumulate(run, m5, negative, acc, digit);
            let next = 10 * acc + with_sign(negative, digit);
            assert(next == with_sign(negative, digits_value(text, start, i + 1)));
            if i64::MIN <= next <= i64::MAX {
                let m7 = lemma_inc(run, 40, m6, Rdi);
                lemma_jmp(run, 41, m7, false, Hop::Back(17));
                lemma_digits_from(run, m0, m7, text, start, negative, i + 1)
            } else {
                if all_digits(text, start, n as int) {
                    lemma_value_grows(text, start, i + 1, n as int);
                }
                m6
            }
        }
    }
}

/// The registers that `parse_i64` saves.
pub open spec fn parse_saves() -> Seq<Reg> {
    seq![Rbx, Rsi, Rdi, R12, R13]
}

/// Whether a text can be parsed: on failure the message needs room in memory.
pub open spec fn can_parse(world: World, m: Machine, blocks: Seq<u64>, text: Seq<u8>) -> bool {
    &&& can_build(world, m, blocks, 80)
    &&& string_safe(world, m, blocks, m.regs[Rcx], 80)
    &&& 38 + text.len() <= u64::MAX / 2
    &&& holds_string(m.mem, m.regs[Rcx], text)
}

/// The state when the text is read.
pub open spec fn parsing(m: Machine, now: Machine) -> bool {
    let top = m.regs[Rsp] as int;
    &&& now.regs[Rbx] == m.regs[Rcx]
    &&& kept(m.mem, now.mem, top - 80, top)
    &&& framed(m, now)
}

/// The state in which the routine can return.
pub open spec fn framed(m: Machine, now: Machine) -> bool {
    let top = m.regs[Rsp] as int;
    &&& now.regs[Rsp] == top - 72
    &&& saved(now.mem, top, parse_saves(), m.regs)
    &&& forall|reg: Reg|
        !volatile(reg) && reg != Rsp && !among(reg, parse_saves()) ==> #[trigger] now.regs[reg]
            == m.regs[reg]
}

/// Reading the text: to the success with its number, or to the failure.
#[verifier::rlimit(40)]
proof fn lemma_parse(run: Run, m: Machine, blocks: Seq<u64>, text: Seq<u8>) -> (after: Machine)
    requires
        run.program == parse_i64_program(),
        run.start == 0,
        run.before == m,
        can_parse(run.world, m, blocks, text),
    ensures
        match parsed(text) {
            Some(value) => run.at(42, after) && signed(after.regs[R10]) == value,
            None => run.at(45, after),
        },
        parsing(m, after),
{
    let regs = parse_saves();
    let top = m.regs[Rsp] as int;
    let record = m.regs[Rcx];
    let n = text.len() as int;
    let program = run.program;
    assert(program.len() == 75);
    assert(part_of(frame_head(regs, 32), program, 0));
    assert(regs[0] == Rbx && regs[1] == Rsi && regs[2] == Rdi && regs[3] == R12 && regs[4] == R13);
    let m1 = lemma_frame_head(run, m, regs, 32);
    lemma_text_kept(m.mem, m1.mem, top - 80, top, record);
    lemma_mov(run, 6, m1, Rbx, Rcx);
    let m2 = m1.set(Rbx, record);
    assert(m2.address(run.world, at_b(Rbx, 8)) == record + 8);
    lemma_load(run, 7, m2, Rsi, at_b(Rbx, 8));
    let m3 = m2.set(Rsi, n as u64);
    let m4 = lemma_zero(run, 8, m3, Rdi);
    let m5 = lemma_zero(run, 9, m4, R10);
    let m6 = lemma_zero(run, 10, m5, R11);
    lemma_test(run, 11, m6, Rsi);
    let m7 = m6.flagged(flags_of_bits(Width::Quad, n));
    lemma_jcc(run, 12, m7, E, false, Hop::Forward(33));
    if n == 0 {
        m7
    } else {
        let byte = text[0];
        assert(m7.address(run.world, index_d(Rbx, Rdi, 16)) == record + 16);
        lemma_movzx_load(run, 13, m7, Rax, index_d(Rbx, Rdi, 16));
        assert(text_at(m1.mem, record)[0] == (m1.mem)(record + 16 + 0));
        let m8 = m7.set(Rax, byte as u64);
        lemma_compare_al(run, 14, m8, 0x2D);
        let m9 = m8.flagged(flags_of_difference(Width::Byte, byte as int, 0x2D));
        assert(m9.flags.zero == (byte == 0x2D));
        lemma_jcc(run, 15, m9, Ne, false, Hop::Forward(4));
        let m12 = if byte == 0x2D {
            lemma_set_d(run, 16, m9, R11, 1);
            let m10 = m9.set(R11, 1);
            let m11 = lemma_inc(run, 17, m10, Rdi);
            lemma_jmp(run, 18, m11, false, Hop::Forward(4));
            m11
        } else {
            lemma_compare_al(run, 19, m9, 0x2B);
            let m10 = m9.flagged(flags_of_difference(Width::Byte, byte as int, 0x2B));
            assert(m10.flags.zero == (byte == 0x2B));
            lemma_jcc(run, 20, m10, Ne, false, Hop::Forward(2));
            if byte == 0x2B {
                lemma_inc(run, 21, m10, Rdi)
            } else {
                m10
            }
        };
        let start = digits_start(text);
        let negative = is_negative(text);
        assert(m12.regs[Rdi] == start);
        lemma_alu(run, 22, m12, Alu::Cmp, Rdi, Rsi);
        let m13 = operated(m12, Alu::Cmp, Rdi, n as u64);
        law_comparisons_order(start as u64, n as u64);
        lemma_jcc(run, 23, m13, Ae, false, Hop::Forward(22));
        if start >= n {
            m13
        } else {
            let after = lemma_digits_from(run, m13, m13, text, start, negative, start);
            assert forall|reg: Reg|
                !volatile(reg) && reg != Rsp && !among(reg, regs) implies #[trigger] after.regs[reg]
                == m.regs[reg] by {
                assert(after.regs[reg] == m13.regs[reg]);
            }
            assert(after.regs[Rbx] == m13.regs[Rbx] && after.regs[Rsp] == m13.regs[Rsp]);
            after
        }
    }
}

// The message

/// The bytes of "cannot parse `".
pub open spec fn message_head() -> Seq<u8> {
    seq![0x63, 0x61, 0x6E, 0x6E, 0x6F, 0x74, 0x20, 0x70, 0x61, 0x72, 0x73, 0x65, 0x20, 0x60]
}

/// The bytes of "` as i64".
pub open spec fn message_tail() -> Seq<u8> {
    seq![0x60, 0x20, 0x61, 0x73, 0x20, 0x69, 0x36, 0x34]
}

/// Why a text is no integer.
pub open spec fn parse_message(text: Seq<u8>) -> Seq<u8> {
    message_head() + text + message_tail()
}

proof fn lemma_message_chars(text: Seq<u8>)
    ensures
        chars_in(parse_message(text)) == chars_in(text) + 22,
        parse_message(text).len() == text.len() + 22,
{
    let head = message_head();
    let tail = message_tail();
    law_chars_add_up(head + text, tail);
    law_chars_add_up(head, text);
    lemma_ascii_chars(head);
    lemma_ascii_chars(tail);
}

/// The first bytes of the message, as the stores put them.
proof fn lemma_head_stored(mem: spec_fn(int) -> u8, at: int) -> (after: spec_fn(int) -> u8)
    ensures
        after == with_number(
            with_number(
                with_word(mem, at, 0x7020746F6E6E6163),
                at + 8,
                4,
                1702064737,
            ),
            at + 12,
            2,
            0x6020,
        ),
        wrote(mem, after, at, message_head()),
{
    let a = with_word(mem, at, 0x7020746F6E6E6163);
    let b = with_number(a, at + 8, 4, 1702064737);
    let c = with_number(b, at + 12, 2, 0x6020);
    let head = message_head();
    law_number_keeps_bytes(a, at + 8, 4, 1702064737);
    law_number_keeps_bytes(b, at + 12, 2, 0x6020);
    law_word_writes_bytes(mem, at, 0x7020746F6E6E6163);
    law_number_writes_bytes(a, at + 8, 4, 1702064737, 0);
    law_number_writes_bytes(a, at + 8, 4, 1702064737, 1);
    law_number_writes_bytes(a, at + 8, 4, 1702064737, 2);
    law_number_writes_bytes(a, at + 8, 4, 1702064737, 3);
    law_number_writes_bytes(b, at + 12, 2, 0x6020, 0);
    law_number_writes_bytes(b, at + 12, 2, 0x6020, 1);
    reveal_with_fuel(nth_byte, 8);
    let v: int = 0x7020746F6E6E6163;
    assert(nth_byte(v, 0) == head[0]);
    assert(nth_byte(v, 1) == head[1]);
    assert(nth_byte(v, 2) == head[2]);
    assert(nth_byte(v, 3) == head[3]);
    assert(nth_byte(v, 4) == head[4]);
    assert(nth_byte(v, 5) == head[5]);
    assert(nth_byte(v, 6) == head[6]);
    assert(nth_byte(v, 7) == head[7]);
    assert forall|i: int| 0 <= i < 8 implies #[trigger] c(at + i) == a(at + i) by {
        assert(b(at + i) == a(at + i));
    }
    assert forall|i: int| 8 <= i < 12 implies #[trigger] c(at + i) == b(at + i) by {}
    assert forall|i: int| 0 <= i < 14 implies bytes_at(c, at, 14)[i] == head[i] by {
        if i < 8 {
            assert(nth_byte(v, i as nat) == a(at + i));
            assert(c(at + i) == a(at + i));
        } else if i < 12 {
            assert(c(at + i) == b(at + i));
        }
    }
    assert(bytes_at(c, at, 14) =~= head);
    assert forall|p: int| p < at || at + 14 <= p implies #[trigger] c(p) == mem(p) by {
        law_word_keeps_bytes(mem, at, 0x7020746F6E6E6163, p);
        assert(b(p) == a(p));
    }
    c
}

/// The last bytes of the message, as the store puts them.
proof fn lemma_tail_stored(mem: spec_fn(int) -> u8, at: int)
    ensures
        wrote(mem, with_word(mem, at, 0x3436692073612060), at, message_tail()),
{
    let c = with_word(mem, at, 0x3436692073612060);
    let tail = message_tail();
    law_word_writes_bytes(mem, at, 0x3436692073612060);
    reveal_with_fuel(nth_byte, 8);
    let v: int = 0x3436692073612060;
    assert(nth_byte(v, 0) == tail[0]);
    assert(nth_byte(v, 1) == tail[1]);
    assert(nth_byte(v, 2) == tail[2]);
    assert(nth_byte(v, 3) == tail[3]);
    assert(nth_byte(v, 4) == tail[4]);
    assert(nth_byte(v, 5) == tail[5]);
    assert(nth_byte(v, 6) == tail[6]);
    assert(nth_byte(v, 7) == tail[7]);
    assert forall|i: int| 0 <= i < 8 implies bytes_at(c, at, 8)[i] == tail[i] by {
        assert(nth_byte(v, i as nat) == c(at + i));
    }
    assert(bytes_at(c, at, 8) =~= tail);
    assert forall|p: int| p < at || at + 8 <= p implies #[trigger] c(p) == mem(p) by {
        law_word_keeps_bytes(mem, at, 0x3436692073612060, p);
    }
}

/// Writing the message, from behind the call on.
#[verifier::rlimit(60)]
proof fn lemma_write_message(
    run: Run,
    m: Machine,
    calling: Machine,
    out: Machine,
    blocks: Seq<u64>,
    left: Seq<u64>,
    text: Seq<u8>,
) -> (after: Machine)
    requires
        run.program == parse_i64_program(),
        run.start == 48,
        run.before == out,
        can_parse(run.world, m, blocks, text),
        parsing(m, calling),
        calling.regs[R12] == text.len(),
        allocated(run.world, calling, out, blocks, left, 38 + text.len() as int),
    ensures
        run.at(68, after),
        framed(m, after),
        after.regs[Rax] == 1,
        builds(
            run.world,
            m,
            after.mem,
            blocks,
            left,
            16 + parse_message(text).len() as int,
            after.regs[Rdx],
            80,
        ),
        holds_string(after.mem, after.regs[Rdx], parse_message(text)),
{
    let world = run.world;
    let regs = parse_saves();
    let top = m.regs[Rsp] as int;
    let record = m.regs[Rcx];
    let n = text.len() as int;
    let size = 38 + n;
    let dst = out.regs[Rax];
    let message = parse_message(text);
    lemma_message_chars(text);
    lemma_chars_bounded(text);
    assert(run.program.len() == 75);
    assert(regs[0] == Rbx && regs[1] == Rsi && regs[2] == Rdi && regs[3] == R12 && regs[4] == R13);
    lemma_span_stays(world, m, calling, out, blocks, left, size, 80, record as int, 16 + n);
    law_word_of_bytes(out.mem, m.mem, record as int);
    let chars = (chars_in(text) + 22) as u64;
    let bytes = (n + 22) as u64;
    lemma_begin(run);
    assert(out.regs[Rbx] == record && out.regs[R12] == n && out.regs[Rsp] == top - 72);
    lemma_mov(run, 48, out, R13, Rax);
    let m1 = out.set(R13, dst);
    assert(m1.address(world, at_b(Rbx, 0)) == record);
    lemma_load(run, 49, m1, Rdx, at_b(Rbx, 0));
    let m2 = m1.set(Rdx, chars_in(text) as u64);
    lemma_alu_imm8(run, 50, m2, Alu::Add, Rdx, 22);
    let m3 = operated(m2, Alu::Add, Rdx, 22);
    assert(m3.regs[Rdx] == chars);
    assert(m3.address(world, at_b(Rax, 0)) == dst);
    lemma_store(run, 51, m3, at_b(Rax, 0), Rdx);
    let m4 = m3.store(Width::Quad, dst as int, chars as int);
    assert(m4.address(world, at_b(R12, 22)) == bytes);
    lemma_lea(run, 52, m4, Rdx, at_b(R12, 22));
    let m5 = m4.set(Rdx, bytes);
    assert(m5.address(world, at_b(Rax, 8)) == dst + 8);
    lemma_store(run, 53, m5, at_b(Rax, 8), Rdx);
    let m6 = m5.store(Width::Quad, dst + 8, bytes as int);
    assert(m6.mem == with_lengths(out.mem, dst, chars, bytes));
    lemma_lengths(out.mem, dst, chars, bytes);
    lemma_set_q(run, 54, m6, Rcx, 0x7020746F6E6E6163);
    let m7 = m6.set(Rcx, 0x7020746F6E6E6163);
    assert(m7.address(world, at_b(Rax, 16)) == dst + 16);
    lemma_store(run, 55, m7, at_b(Rax, 16), Rcx);
    let m8 = m7.store(Width::Quad, dst + 16, 0x7020746F6E6E6163);
    lemma_set_d(run, 56, m8, Rcx, 1702064737);
    let m9 = m8.set(Rcx, 1702064737);
    assert(m9.address(world, at_b(Rax, 24)) == dst + 24);
    lemma_store_d(run, 57, m9, at_b(Rax, 24), Rcx);
    let m10 = Machine { mem: with_number(m9.mem, dst + 24, 4, 1702064737), ..m9 };
    let m11 = lemma_set_w(run, 58, m10, Rcx, 0x6020);
    assert(m11.address(world, at_b(Rax, 28)) == dst + 28);
    lemma_store_w(run, 59, m11, at_b(Rax, 28), Rcx);
    let m12 = Machine { mem: with_number(m11.mem, dst + 28, 2, 0x6020), ..m11 };
    let headed = lemma_head_stored(m6.mem, dst + 16);
    assert(m12.mem == headed);
    assert(m12.address(world, at_b(Rbx, 16)) == record + 16);
    lemma_lea(run, 60, m12, Rsi, at_b(Rbx, 16));
    let m13 = m12.set(Rsi, (record + 16) as u64);
    assert(m13.address(world, at_b(Rax, 30)) == dst + 30);
    lemma_lea(run, 61, m13, Rdi, at_b(Rax, 30));
    let m14 = m13.set(Rdi, (dst + 30) as u64);
    lemma_mov(run, 62, m14, Rcx, R12);
    let m15 = m14.set(Rcx, n as u64);
    let m16 = lemma_rep_movsb(run, 63, m15);
    law_bytes_copied(m15.mem, record + 16, dst + 30, n as nat);
    lemma_set_q(run, 64, m16, Rcx, 0x3436692073612060);
    let m17 = m16.set(Rcx, 0x3436692073612060);
    assert(m17.regs[Rdi] == dst + 30 + n);
    assert(m17.address(world, at(Rdi)) == dst + 30 + n);
    lemma_store(run, 65, m17, at(Rdi), Rcx);
    let m18 = m17.store(Width::Quad, dst + 30 + n, 0x3436692073612060);
    lemma_tail_stored(m17.mem, dst + 30 + n);
    lemma_set_d(run, 66, m18, Rax, 1);
    let m19 = m18.set(Rax, 1);
    lemma_mov(run, 67, m19, Rdx, R13);
    let m20 = m19.set(Rdx, dst);
    // The bytes.
    assert(kept(m6.mem, m20.mem, dst + 16, dst + size)) by {
        assert forall|p: int| p < dst + 16 || dst + size <= p implies #[trigger] (m20.mem)(p) == (
        m6.mem)(p) by {
            assert((m18.mem)(p) == (m17.mem)(p));
            assert((m16.mem)(p) == (m15.mem)(p));
            assert((m12.mem)(p) == (m6.mem)(p));
        }
    }
    law_kept_bytes_keep_words(m6.mem, m20.mem, dst + 16, dst + size, dst as int);
    law_kept_bytes_keep_words(m6.mem, m20.mem, dst + 16, dst + size, dst + 8);
    let whole = text_at(m20.mem, dst);
    assert forall|i: int| 0 <= i < n + 22 implies whole[i] == message[i] by {
        let p = dst + 16 + i;
        assert(whole[i] == (m20.mem)(p));
        if i < 14 {
            assert((m18.mem)(p) == (m17.mem)(p));
            assert((m16.mem)(p) == (m15.mem)(p));
            assert(bytes_at(m12.mem, dst + 16, 14)[i] == (m12.mem)(p));
        } else if i < 14 + n {
            let q = record + 16 + (i - 14);
            assert((m18.mem)(p) == (m17.mem)(p));
            assert((m16.mem)(p) == (m15.mem)(record + 16 + (p - (dst + 30))));
            assert((m12.mem)(q) == (m6.mem)(q));
            assert((m6.mem)(q) == (out.mem)(q));
            assert((out.mem)(q) == (m.mem)(q));
            assert(text_at(m.mem, record)[i - 14] == (m.mem)(q));
        } else {
            let j = i - 14 - n;
            assert(bytes_at(m18.mem, dst + 30 + n, 8)[j] == (m18.mem)(dst + 30 + n + j));
        }
    }
    assert(whole =~= message);
    assert(filled(out.mem, m20.mem, dst as int, size, top - 80, top)) by {
        assert forall|p: int| p < dst || dst + size <= p implies #[trigger] (m20.mem)(p) == (
        out.mem)(p) by {
            assert((m6.mem)(p) == (out.mem)(p));
        }
    }
    lemma_built(world, m, calling, out, m20.mem, blocks, left, size, 80);
    assert forall|p: int| top - 40 <= p < top implies #[trigger] (m20.mem)(p) == (calling.mem)(p) by {
        assert((m6.mem)(p) == (out.mem)(p));
        assert((out.mem)(p) == (calling.mem)(p));
    }
    lemma_saved_stays(calling.mem, m20.mem, top, regs, m.regs);
    m20
}

/// `parse_i64` returns the tag 0 and the integer that the text says, with nothing changed but
/// below the stack; when it says none, the tag 1 and a fresh string that says so, or it traps
/// without room for that.
#[verifier::rlimit(40)]
pub proof fn law_parse_i64(world: World, m: Machine, blocks: Seq<u64>, text: Seq<u8>) -> (end: (
    Machine,
    Seq<u64>,
))
    requires
        can_parse(world, m, blocks, text),
    ensures
        ({
            let (after, left) = end;
            let program = parse_i64_program();
            let top = m.regs[Rsp] as int;
            let message = parse_message(text);
            let room = has_room(world, m.mem, blocks, 16 + message.len() as int);
            let returned = ends_in(world, program, 0, m, Outcome::Returned(after)) && came_back(
                m,
                after,
            );
            match parsed(text) {
                Some(value) => {
                    &&& returned
                    &&& after.regs[Rax] == 0
                    &&& signed(after.regs[Rdx]) == value
                    &&& kept(m.mem, after.mem, top - 80, top)
                },
                None => {
                    &&& room ==> {
                        &&& returned
                        &&& after.regs[Rax] == 1
                        &&& builds(
                            world,
                            m,
                            after.mem,
                            blocks,
                            left,
                            16 + message.len() as int,
                            after.regs[Rdx],
                            80,
                        )
                        &&& holds_string(after.mem, after.regs[Rdx], message)
                    }
                    &&& !room ==> ends_in(world, program, 0, m, Outcome::Trapped(after))
                },
            }
        }),
{
    let program = parse_i64_program();
    let run = Run { world, program, start: 0, before: m };
    let regs = parse_saves();
    let top = m.regs[Rsp] as int;
    let record = m.regs[Rcx];
    let n = text.len() as int;
    let size = 38 + n;
    assert(program.len() == 75);
    assert(part_of(frame_tail(regs, 32), program, 68));
    assert(regs[0] == Rbx && regs[1] == Rsi && regs[2] == Rdi && regs[3] == R12 && regs[4] == R13);
    lemma_message_chars(text);
    let m1 = lemma_parse(run, m, blocks, text);
    if parsed(text) is Some {
        let m2 = lemma_zero_d(run, 42, m1, Rax);
        lemma_mov(run, 43, m2, Rdx, R10);
        let m3 = m2.set(Rdx, m2.regs[R10]);
        lemma_jmp(run, 44, m3, false, Hop::Forward(24));
        let after = lemma_frame_tail(run, 68, m, m3, regs, 32);
        law_ends_alone(world, program, 0, m, Outcome::Returned(after));
        (after, blocks)
    } else {
        law_kept_bytes_keep_words(m.mem, m1.mem, top - 80, top, record + 8);
        assert(m1.address(world, at_b(Rbx, 8)) == record + 8);
        lemma_load(run, 45, m1, R12, at_b(Rbx, 8));
        let m2 = m1.set(R12, n as u64);
        assert(m2.address(world, at_d(R12, 38)) == size);
        lemma_lea(run, 46, m2, Rcx, at_d(R12, 38));
        let calling = m2.set(Rcx, size as u64);
        lemma_call(run, 47, calling, Symbol::HeapAlloc);
        lemma_at_the_call(world, m, calling, blocks, 80, size);
        let (out, left) = lemma_alloc_call(world, program, 48, calling, blocks);
        if has_room(world, m.mem, blocks, size) {
            let run2 = Run { world, program, start: 48, before: out };
            let m3 = lemma_write_message(run2, m, calling, out, blocks, left, text);
            let after = lemma_frame_tail(run2, 68, m, m3, regs, 32);
            law_ends_alone(world, program, 48, out, Outcome::Returned(after));
            law_call(
                world,
                program,
                0,
                m,
                Symbol::HeapAlloc,
                48,
                calling,
                out,
                Outcome::Returned(after),
            );
            (after, left)
        } else {
            law_call_traps(world, program, 0, m, Symbol::HeapAlloc, 48, calling, out);
            (out, left)
        }
    }
}

} // verus!
