//! Writing integers as decimal strings.

use crate::behavior::allocation::{has_room, lemma_alloc_call};
use crate::behavior::building::{
    can_build, filled, lemma_at_the_call, lemma_built, lemma_span_stays,
};
use crate::behavior::encoding::wrote;
use crate::behavior::heap::volatile;
use crate::behavior::instructions::{
    lemma_add_imm_b, lemma_alu, lemma_begin, lemma_call, lemma_dec, lemma_div, lemma_inc, lemma_jcc,
    lemma_jmp, lemma_lea, lemma_mov, lemma_neg, lemma_pop, lemma_push, lemma_set_d, lemma_store,
    lemma_store_b, lemma_store_imm_b, lemma_test, lemma_zero, operated, Run,
};
use crate::behavior::parsing::{all_digits, digits_value, is_digit, parsed};
use crate::behavior::routines::{
    among, frame_head, frame_tail, lemma_frame_head, lemma_frame_tail, lemma_saved_stays, saved,
};
use crate::behavior::search::{bytes_at, chars_in, text_at, word_of};
use crate::behavior::strings::{builds_string, lemma_lengths, with_lengths};
use crate::behavior::trimming::lemma_ascii_chars;
use crate::linking::{ends_in, law_call, law_call_traps, law_ends_alone};
use crate::machine::{
    comes_to, flags_of_bits, kept, law_kept_bytes_keep_words, law_word_keeps_bytes,
    law_word_of_bytes, law_word_reads_back, part_of, signed, with_byte, word_at, word_span, Machine,
    Outcome, World,
};
use crate::mnemonics::{at, at_d};
use crate::runtime::format::str_from_int_program;
use crate::symbols::Symbol;
use crate::x86::{Alu, Hop, Reg, Width};
use crate::x86::Cond::{E, Ge, Ne};
use crate::x86::Reg::{R12, R13, Rax, Rbx, Rcx, Rdi, Rdx, Rsi, Rsp};
use vstd::prelude::*;

verus! {

// Decimal digits

/// The decimal digits of a number.
pub open spec fn decimal(n: int) -> Seq<u8>
    decreases n,
{
    if n < 10 {
        seq![(0x30 + n) as u8]
    } else {
        decimal(n / 10).push((0x30 + n % 10) as u8)
    }
}

/// 10^k.
pub open spec fn pow10(k: nat) -> int
    decreases k,
{
    if k == 0 {
        1
    } else {
        10 * pow10((k - 1) as nat)
    }
}

proof fn lemma_decimal_len(n: int, k: nat)
    requires
        0 <= n < pow10(k),
        0 < k,
    ensures
        1 <= decimal(n).len() <= k,
    decreases k,
{
    if n >= 10 {
        if k == 1 {
            reveal_with_fuel(pow10, 2);
        } else {
            lemma_decimal_len(n / 10, (k - 1) as nat);
        }
    }
}

proof fn lemma_word_decimal_len(n: u64)
    ensures
        1 <= decimal(n as int).len() <= 20,
{
    reveal_with_fuel(pow10, 21);
    lemma_decimal_len(n as int, 20);
}

proof fn lemma_decimal_digits(n: int)
    requires
        0 <= n,
    ensures
        decimal(n).len() >= 1,
        forall|i: int| 0 <= i < decimal(n).len() ==> is_digit(#[trigger] decimal(n)[i]),
    decreases n,
{
    if n >= 10 {
        lemma_decimal_digits(n / 10);
        let shorter = decimal(n / 10);
        assert forall|i: int| 0 <= i < decimal(n).len() implies is_digit(#[trigger] decimal(n)[i]) by {
            if i < shorter.len() {
                assert(decimal(n)[i] == shorter[i]);
            }
        }
    }
}

/// The text of an integer: of the word as a signed number when `signed_flag` is not zero.
pub open spec fn shown(word: u64, signed_flag: u64) -> Seq<u8> {
    if signed_flag != 0 && signed(word) < 0 {
        seq![0x2Du8] + decimal(-signed(word))
    } else {
        decimal(word as int)
    }
}

/// The digits of a number say it, behind any bytes.
proof fn lemma_decimal_value(before: Seq<u8>, n: int)
    requires
        0 <= n,
    ensures
        digits_value(before + decimal(n), before.len() as int, (before + decimal(n)).len() as int)
            == n,
    decreases n,
{
    let text = before + decimal(n);
    let start = before.len() as int;
    let end = text.len() as int;
    lemma_decimal_digits(n);
    assert(text.last() == decimal(n).last());
    if n < 10 {
        assert(digits_value(text, start, end - 1) == 0);
    } else {
        lemma_decimal_value(before, n / 10);
        let shorter = before + decimal(n / 10);
        lemma_value_of_prefix(text, shorter, start, end - 1);
    }
}

proof fn lemma_value_of_prefix(a: Seq<u8>, b: Seq<u8>, start: int, end: int)
    requires
        end <= a.len(),
        end <= b.len(),
        0 <= start,
        forall|i: int| start <= i < end ==> #[trigger] a[i] == b[i],
    ensures
        digits_value(a, start, end) == digits_value(b, start, end),
    decreases end - start,
{
    if start < end {
        lemma_value_of_prefix(a, b, start, end - 1);
        assert(a[end - 1] == b[end - 1]);
    }
}

/// Parsing the text of a signed integer gives it back.
pub proof fn law_shown_parses_back(word: u64)
    ensures
        parsed(shown(word, 1)) == Some(signed(word)),
{
    let text = shown(word, 1);
    if signed(word) < 0 {
        let digits = decimal(-signed(word));
        lemma_decimal_digits(-signed(word));
        lemma_decimal_value(seq![0x2Du8], -signed(word));
        assert forall|i: int| 1 <= i < text.len() implies is_digit(#[trigger] text[i]) by {
            assert(text[i] == digits[i - 1]);
        }
        assert(all_digits(text, 1, text.len() as int));
    } else {
        lemma_decimal_digits(word as int);
        lemma_decimal_value(Seq::empty(), word as int);
        assert(Seq::<u8>::empty() + decimal(word as int) =~= text);
        assert(is_digit(text[0]));
        assert(all_digits(text, 0, text.len() as int));
    }
}

// Counting digits

/// The count, when `q` is left of the number and `c` digits are known.
proof fn lemma_count_digits(run: Run, m0: Machine, m: Machine, q: int, c: int) -> (after: Machine)
    requires
        run.program == str_from_int_program(),
        run.at(17, m),
        m.mem == m0.mem,
        m.regs[Rax] == q,
        m.regs[R13] == c,
        m.regs[Rcx] == 10,
        0 < c,
        c + decimal(q).len() <= 21,
        forall|reg: Reg|
            reg != Rax && reg != Rdx && reg != R13 ==> #[trigger] m.regs[reg] == m0.regs[reg],
    ensures
        run.at(23, after),
        after.mem == m0.mem,
        after.regs[R13] == c + decimal(q).len() - 1,
        forall|reg: Reg|
            reg != Rax && reg != Rdx && reg != R13 ==> #[trigger] after.regs[reg] == m0.regs[reg],
    decreases q,
{
    assert(run.program.len() == 54);
    let m1 = lemma_zero(run, 17, m, Rdx);
    lemma_div(run, 18, m1, Rcx);
    let m2 = m1.set(Rax, (q / 10) as u64).set(Rdx, (q % 10) as u64).flagged(
        (run.world.undefined)(m1),
    );
    lemma_test(run, 19, m2, Rax);
    let m3 = m2.flagged(flags_of_bits(Width::Quad, q / 10));
    lemma_jcc(run, 20, m3, E, true, Hop::Forward(3));
    if q < 10 {
        m3
    } else {
        let m4 = lemma_inc(run, 21, m3, R13);
        lemma_jmp(run, 22, m4, true, Hop::Back(5));
        lemma_count_digits(run, m0, m4, q / 10, c + 1)
    }
}

// Writing digits

/// The digits, when `q` is left of the number and the others stand from `rsi` on.
#[verifier::rlimit(20)]
proof fn lemma_write_digits(run: Run, m0: Machine, m: Machine, digits: Seq<u8>, q: int,
    first: int) -> (after:
    Machine)
    requires
        run.program == str_from_int_program(),
        run.at(33, m),
        m.regs[Rbx] == q,
        m.regs[Rcx] == 10,
        ({
            let end = first + digits.len();
            let cursor = m.regs[Rsi] as int;
            &&& 0 <= first
            &&& end < word_span()
            &&& cursor == first + decimal(q).len()
            &&& cursor <= end
            &&& digits == decimal(q) + bytes_at(m.mem, cursor, end - cursor)
            &&& kept(m0.mem, m.mem, cursor, end)
        }),
        forall|reg: Reg|
            reg != Rax && reg != Rdx && reg != Rbx && reg != Rsi ==> #[trigger] m.regs[reg]
                == m0.regs[reg],
    ensures
        run.at(42, after),
        after.regs[Rsi] == first,
        wrote(m0.mem, after.mem, first, digits),
        forall|reg: Reg|
            reg != Rax && reg != Rdx && reg != Rbx && reg != Rsi ==> #[trigger] after.regs[reg]
                == m0.regs[reg],
    decreases q,
{
    assert(run.program.len() == 54);
    let end = first + digits.len();
    let cursor = m.regs[Rsi] as int;
    lemma_decimal_digits(q);
    lemma_mov(run, 33, m, Rax, Rbx);
    let m1 = m.set(Rax, q as u64);
    let m2 = lemma_zero(run, 34, m1, Rdx);
    lemma_div(run, 35, m2, Rcx);
    let m3 = m2.set(Rax, (q / 10) as u64).set(Rdx, (q % 10) as u64).flagged(
        (run.world.undefined)(m2),
    );
    lemma_mov(run, 36, m3, Rbx, Rax);
    let m4 = m3.set(Rbx, (q / 10) as u64);
    let m5 = lemma_add_imm_b(run, 37, m4, Rdx, 0x30);
    let m6 = lemma_dec(run, 38, m5, Rsi);
    assert(m6.regs[Rsi] == cursor - 1);
    let digit = (0x30 + q % 10) as u8;
    assert(m6.regs[Rdx] % 256 == digit);
    assert(m6.address(run.world, at(Rsi)) == cursor - 1);
    lemma_store_b(run, 39, m6, at(Rsi), Rdx);
    let m7 = Machine { mem: with_byte(m6.mem, cursor - 1, digit), ..m6 };
    lemma_test(run, 40, m7, Rbx);
    let m8 = m7.flagged(flags_of_bits(Width::Quad, q / 10));
    lemma_jcc(run, 41, m8, Ne, false, Hop::Back(8));
    let tail = bytes_at(m.mem, cursor, end - cursor);
    let longer = bytes_at(m8.mem, cursor - 1, end - (cursor - 1));
    assert(longer =~= seq![digit] + tail);
    if q < 10 {
        assert(decimal(q) =~= seq![digit]);
        assert(longer =~= digits);
        m8
    } else {
        assert(decimal(q) =~= decimal(q / 10) + seq![digit]);
        assert(digits =~= decimal(q / 10) + longer);
        lemma_write_digits(run, m0, m8, digits, q / 10, first)
    }
}

/// The registers that `str_from_int` saves.
pub open spec fn int_saves() -> Seq<Reg> {
    seq![Rbx, Rsi, Rdi, R12, R13]
}

/// The sign and the digits to count: up to the call.
#[verifier::rlimit(30)]
proof fn lemma_int_call(world: World, m: Machine, blocks: Seq<u64>) -> (calling: Machine)
    requires
        can_build(world, m, blocks, 80),
    ensures
        comes_to(
            world,
            str_from_int_program(),
            0,
            m,
            Outcome::Called(Symbol::HeapAlloc, 27, calling),
        ),
        ({
            let top = m.regs[Rsp] as int;
            let value = m.regs[Rcx];
            let negative = m.regs[Rdx] != 0 && signed(value) < 0;
            let text = shown(value, m.regs[Rdx]);
            &&& text.len() <= 21
            &&& calling.regs[Rcx] == 16 + text.len()
            &&& calling.regs[R12] == text.len()
            &&& calling.regs[Rdi] == word_of(negative)
            &&& calling.regs[Rbx] == if negative {
                -signed(value)
            } else {
                value as int
            }
            &&& calling.regs[Rsp] == top - 72
            &&& kept(m.mem, calling.mem, top - 80, top)
            &&& saved(calling.mem, top, int_saves(), m.regs)
            &&& forall|reg: Reg|
                !volatile(reg) && reg != Rsp && !among(reg, int_saves())
                    ==> #[trigger] calling.regs[reg] == m.regs[reg]
        }),
{
    let program = str_from_int_program();
    let run = Run { world, program, start: 0, before: m };
    let regs = int_saves();
    let value = m.regs[Rcx];
    let flag = m.regs[Rdx];
    let negative = flag != 0 && signed(value) < 0;
    let text = shown(value, flag);
    assert(program.len() == 54);
    assert(part_of(frame_head(regs, 32), program, 0));
    assert(regs[0] == Rbx && regs[1] == Rsi && regs[2] == Rdi && regs[3] == R12 && regs[4] == R13);
    let m1 = lemma_frame_head(run, m, regs, 32);
    let m2 = lemma_zero(run, 6, m1, Rdi);
    lemma_mov(run, 7, m2, Rbx, Rcx);
    let m3 = m2.set(Rbx, value);
    lemma_test(run, 8, m3, Rdx);
    let m4 = m3.flagged(flags_of_bits(Width::Quad, flag as int));
    lemma_jcc(run, 9, m4, E, true, Hop::Forward(5));
    let m8 = if flag == 0 {
        m4
    } else {
        lemma_test(run, 10, m4, Rbx);
        let m5 = m4.flagged(flags_of_bits(Width::Quad, value as int));
        assert(m5.flags.holds(Ge) == (signed(value) >= 0));
        lemma_jcc(run, 11, m5, Ge, true, Hop::Forward(3));
        if signed(value) >= 0 {
            m5
        } else {
            let m6 = lemma_neg(run, 12, m5, Rbx);
            assert(m6.regs[Rbx] == -signed(value));
            lemma_set_d(run, 13, m6, Rdi, 1);
            m6.set(Rdi, 1)
        }
    };
    let magnitude = m8.regs[Rbx];
    lemma_word_decimal_len(magnitude);
    lemma_mov(run, 14, m8, Rax, Rbx);
    let m9 = m8.set(Rax, magnitude);
    lemma_set_d(run, 15, m9, R13, 1);
    let m10 = m9.set(R13, 1);
    lemma_set_d(run, 16, m10, Rcx, 10);
    let m11 = m10.set(Rcx, 10);
    let m12 = lemma_count_digits(run, m11, m11, magnitude as int, 1);
    let digits = decimal(magnitude as int).len() as u64;
    lemma_mov(run, 23, m12, R12, R13);
    let m13 = m12.set(R12, digits);
    lemma_alu(run, 24, m13, Alu::Add, R12, Rdi);
    let m14 = operated(m13, Alu::Add, R12, m13.regs[Rdi]);
    assert(m14.regs[R12] == text.len());
    assert(m14.address(world, at_d(R12, 16)) == 16 + text.len());
    lemma_lea(run, 25, m14, Rcx, at_d(R12, 16));
    let calling = m14.set(Rcx, (16 + text.len()) as u64);
    lemma_call(run, 26, calling, Symbol::HeapAlloc);
    assert forall|reg: Reg|
        !volatile(reg) && reg != Rsp && !among(reg, regs) implies #[trigger] calling.regs[reg]
        == m.regs[reg] by {
        assert(m12.regs[reg] == m11.regs[reg]);
    }
    assert(m12.regs[Rdi] == m11.regs[Rdi] && m12.regs[Rbx] == m11.regs[Rbx] && m12.regs[Rsp]
        == m11.regs[Rsp]);
    calling
}

proof fn lemma_shown_ascii(word: u64, flag: u64)
    ensures
        chars_in(shown(word, flag)) == shown(word, flag).len(),
{
    let text = shown(word, flag);
    if flag != 0 && signed(word) < 0 {
        let digits = decimal(-signed(word));
        lemma_decimal_digits(-signed(word));
        assert forall|i: int| 0 <= i < text.len() implies #[trigger] text[i] < 0x80 by {
            if i > 0 {
                assert(text[i] == digits[i - 1]);
            }
        }
    } else {
        lemma_decimal_digits(word as int);
        assert forall|i: int| 0 <= i < text.len() implies #[trigger] text[i] < 0x80 by {
            assert(is_digit(decimal(word as int)[i]));
        }
    }
    lemma_ascii_chars(text);
}

/// `str_from_int` gives a fresh string with the decimal digits of the integer, behind a minus
/// sign when it is taken as signed and below zero; without room it traps.
#[verifier::rlimit(60)]
pub proof fn law_str_from_int(world: World, m: Machine, blocks: Seq<u64>) -> (end: (
    Machine,
    Seq<u64>,
))
    requires
        can_build(world, m, blocks, 80),
    ensures
        ({
            let (after, left) = end;
            let program = str_from_int_program();
            let text = shown(m.regs[Rcx], m.regs[Rdx]);
            let room = has_room(world, m.mem, blocks, 16 + text.len() as int);
            &&& room ==> builds_string(world, program, m, after, blocks, left, text, 80)
            &&& !room ==> ends_in(world, program, 0, m, Outcome::Trapped(after))
        }),
{
    let program = str_from_int_program();
    let regs = int_saves();
    let top = m.regs[Rsp] as int;
    let value = m.regs[Rcx];
    let negative = m.regs[Rdx] != 0 && signed(value) < 0;
    let text = shown(value, m.regs[Rdx]);
    lemma_shown_ascii(value, m.regs[Rdx]);
    assert(program.len() == 54);
    assert(regs[0] == Rbx && regs[1] == Rsi && regs[2] == Rdi && regs[3] == R12 && regs[4] == R13);
    let calling = lemma_int_call(world, m, blocks);
    let n = text.len() as u64;
    let size = 16 + n;
    lemma_at_the_call(world, m, calling, blocks, 80, size);
    let (out, left) = lemma_alloc_call(world, program, 27, calling, blocks);
    if has_room(world, m.mem, blocks, size) {
        let dst = out.regs[Rax];
        let magnitude = calling.regs[Rbx];
        let digits = decimal(magnitude as int);
        let sign = word_of(negative);
        lemma_span_stays(world, m, calling, out, blocks, left, size, 80, top - 80, 80);
        let run = Run { world, program, start: 27, before: out };
        lemma_begin(run);
        assert(out.regs[Rbx] == magnitude && out.regs[R12] == n && out.regs[Rdi] == sign
            && out.regs[Rsp] == top - 72);
        assert(out.address(world, at_d(Rax, 0)) == dst);
        lemma_store(run, 27, out, at_d(Rax, 0), R12);
        let n1 = out.store(Width::Quad, dst as int, n as int);
        assert(n1.address(world, at_d(Rax, 8)) == dst + 8);
        lemma_store(run, 28, n1, at_d(Rax, 8), R12);
        let n2 = n1.store(Width::Quad, dst + 8, n as int);
        assert(n2.mem == with_lengths(out.mem, dst, n, n));
        lemma_lengths(out.mem, dst, n, n);
        lemma_push(run, 29, n2, Rax);
        let low = (top - 80) as u64;
        let n3 = n2.store(Width::Quad, low as int, dst as int).set(Rsp, low);
        assert forall|p: int| p < low || low + 8 <= p implies #[trigger] (n3.mem)(p) == (n2.mem)(
            p,
        ) by {
            law_word_keeps_bytes(n2.mem, low as int, dst, p);
        }
        law_word_reads_back(n2.mem, low as int, dst);
        assert(n3.address(world, at_d(Rax, 16)) == dst + 16);
        lemma_lea(run, 30, n3, Rsi, at_d(Rax, 16));
        let n4 = n3.set(Rsi, (dst + 16) as u64);
        lemma_alu(run, 31, n4, Alu::Add, Rsi, R12);
        let n5 = operated(n4, Alu::Add, Rsi, n);
        assert(n5.regs[Rsi] == dst + 16 + n);
        lemma_set_d(run, 32, n5, Rcx, 10);
        let n6 = n5.set(Rcx, 10);
        assert(digits =~= digits + bytes_at(n6.mem, dst + 16 + n, 0));
        let n7 = lemma_write_digits(
            run,
            n6,
            n6,
            digits,
            magnitude as int,
            dst + 16 + sign,
        );
        assert(n7.regs[Rdi] == sign);
        lemma_test(run, 42, n7, Rdi);
        let n8 = n7.flagged(flags_of_bits(Width::Quad, sign as int));
        lemma_jcc(run, 43, n8, E, true, Hop::Forward(3));
        let n11 = if negative {
            let n9 = lemma_dec(run, 44, n8, Rsi);
            assert(n9.address(world, at(Rsi)) == dst + 16);
            lemma_store_imm_b(run, 45, n9, at(Rsi), 45);
            let n10 = Machine { mem: with_byte(n9.mem, dst + 16, 45), ..n9 };
            assert(bytes_at(n10.mem, dst + 16, n as int) =~= text) by {
                assert forall|i: int| 0 <= i < n implies bytes_at(n10.mem, dst + 16, n as int)[i]
                    == text[i] by {
                    if i > 0 {
                        assert(bytes_at(n7.mem, dst + 17, n - 1)[i - 1] == (n7.mem)(dst + 16 + i));
                        assert(text[i] == digits[i - 1]);
                    }
                }
            }
            n10
        } else {
            n8
        };
        assert(bytes_at(n11.mem, dst + 16, n as int) == text);
        assert(kept(n3.mem, n11.mem, dst + 16, dst + size)) by {
            assert forall|p: int| p < dst + 16 || dst + size <= p implies #[trigger] (n11.mem)(p)
                == (n3.mem)(p) by {
                assert((n7.mem)(p) == (n6.mem)(p));
            }
        }
        law_kept_bytes_keep_words(n3.mem, n11.mem, dst + 16, dst + size, low as int);
        law_kept_bytes_keep_words(n3.mem, n11.mem, dst + 16, dst + size, dst as int);
        law_kept_bytes_keep_words(n3.mem, n11.mem, dst + 16, dst + size, dst + 8);
        assert(word_at(n3.mem, dst as int) == n && word_at(n3.mem, dst + 8) == n) by {
            law_word_of_bytes(n3.mem, n2.mem, dst as int);
            law_word_of_bytes(n3.mem, n2.mem, dst + 8);
        }
        assert(n11.regs[Rsp] == low) by {
            assert(n7.regs[Rsp] == n6.regs[Rsp]);
        }
        lemma_pop(run, 46, n11, Rax);
        let n12 = n11.set(Rsp, (top - 72) as u64).set(Rax, dst);
        assert(text_at(n12.mem, dst) == text);
        assert(filled(out.mem, n12.mem, dst as int, size, top - 80, top)) by {
            assert forall|p: int|
                (p < dst || dst + size <= p) && (p < top - 80 || top <= p) implies #[trigger] (
            n12.mem)(p) == (out.mem)(p) by {
                assert((n3.mem)(p) == (n2.mem)(p));
                assert((n2.mem)(p) == (out.mem)(p));
            }
        }
        lemma_built(world, m, calling, out, n12.mem, blocks, left, size, 80);
        assert forall|p: int| top - 40 <= p < top implies #[trigger] (n12.mem)(p) == (calling.mem)(
            p,
        ) by {
            assert((n3.mem)(p) == (n2.mem)(p));
            assert((n2.mem)(p) == (out.mem)(p));
            assert((out.mem)(p) == (calling.mem)(p));
        }
        lemma_saved_stays(calling.mem, n12.mem, top, regs, m.regs);
        assert(part_of(frame_tail(regs, 32), program, 47));
        assert forall|reg: Reg|
            !volatile(reg) && reg != Rsp && !among(reg, regs) implies #[trigger] n12.regs[reg]
            == m.regs[reg] by {
            assert(n7.regs[reg] == n6.regs[reg]);
        }
        let after = lemma_frame_tail(run, 47, m, n12, regs, 32);
        law_ends_alone(world, program, 27, out, Outcome::Returned(after));
        law_call(
            world,
            program,
            0,
            m,
            Symbol::HeapAlloc,
            27,
            calling,
            out,
            Outcome::Returned(after),
        );
        (after, left)
    } else {
        law_call_traps(world, program, 0, m, Symbol::HeapAlloc, 27, calling, out);
        (out, left)
    }
}

} // verus!
