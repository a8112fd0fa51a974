//! Splitting strings.

use crate::behavior::allocation::{
    allocated, block_of, block_size, has_room, idle, in_block, lemma_alloc_call, lemma_heap_stands,
    lemma_room_stands, spare,
};
use crate::behavior::building::{
    builds, can_build, lemma_at_the_call, lemma_built, lemma_enter, lemma_leave,
    lemma_span_safe_inside, lemma_span_stays,
};
use crate::behavior::characters::{slice_of, starts_clean};
use crate::behavior::dropping::list_items;
use crate::behavior::fields::{
    clean_at, cuts_clean, fields_from, law_fields_count_matches, lemma_next_match,
    lemma_offset_of_count, next_match,
};
use crate::behavior::heap::{came_back, volatile};
use crate::behavior::holding::{
    all_held, held, lemma_held_apart, lemma_held_droppable, lemma_hold_built, lemma_hold_dropped,
    lemma_hold_stack, lemma_hold_swapped, lemma_hold_written, may_hold, same_blocks,
};
use crate::behavior::instructions::{
    lemma_alu, lemma_alu_load, lemma_begin, lemma_call, lemma_inc, lemma_jcc, lemma_jmp, lemma_lea,
    lemma_load, lemma_mov, lemma_store, lemma_test, lemma_ud2, lemma_zero_d, operated, Run,
};
use crate::behavior::joining::{lemma_string_stays, only_takes};
use crate::behavior::owning::lemma_drop_from;
use crate::behavior::routines::{
    among, frame_head, frame_tail, lemma_frame_head, lemma_frame_tail, lemma_saved_stays, saved,
};
use crate::behavior::search::{
    can_search, chars_in, first_occurrence, law_str_count, law_str_find, lemma_chars_bounded,
    matches_from, occurs, occurs_at, text_at,
};
use crate::behavior::slicing::law_str_substring;
use crate::behavior::strings::{
    holds_string, law_chars_add_up, lemma_lengths, string_safe, with_lengths,
};
use crate::linking::{
    ends_in, entered, law_call, law_call_traps, law_ends_alone, law_runs_into, returned_home,
};
use crate::machine::{
    comes_to, flags_of_bits, kept, law_kept_bytes_keep_words, law_word_keeps_bytes,
    law_word_of_bytes, law_word_reads_back, part_of, with_word, word_at, wrap, Machine, Outcome,
    World,
};
use crate::mnemonics::{at_b, index8_d, scaled8};
use crate::runtime::search::{str_count_program, str_find_program, str_substring_program};
use crate::runtime::strings::str_split_program;
use crate::symbols::Symbol;
use crate::x86::{Alu, Hop, Insn, Reg, Width};
use crate::x86::Cond::{Ne, S};
use crate::x86::Reg::{R12, R13, R14, R15, R8, Rax, Rbx, Rcx, Rdi, Rdx, Rsi, Rsp};
use vstd::prelude::*;

verus! {

/// Whether a called routine came back to a caller whose frame ends at `top`: the registers
/// it counts on and its stack are as they were.
spec fn back_home(calling: Machine, out: Machine, top: int) -> bool {
    &&& out.regs[Rsp] == calling.regs[Rsp]
    &&& forall|reg: Reg|
        !volatile(reg) && reg != Rsp ==> #[trigger] out.regs[reg] == calling.regs[reg]
    &&& forall|p: int| calling.regs[Rsp] <= p < top ==> #[trigger] (out.mem)(p) == (calling.mem)(p)
}

/// Whether a string is there to be read: it can be, and it is no longer than a slice may be.
pub open spec fn readable(
    world: World,
    base: Machine,
    blocks: Seq<u64>,
    record: u64,
    text: Seq<u8>,
) -> bool {
    &&& string_safe(world, base, blocks, record, 192)
    &&& holds_string(base.mem, record, text)
    &&& 16 + text.len() <= u64::MAX / 2
}

/// A string that is there stays there in the state a called routine starts with.
proof fn lemma_readable_inside(
    world: World,
    base: Machine,
    calling: Machine,
    program: Seq<Insn>,
    back: int,
    blocks: Seq<u64>,
    record: u64,
    text: Seq<u8>,
)
    requires
        can_build(world, base, blocks, 192),
        calling.mem == base.mem,
        calling.regs[Rsp] == base.regs[Rsp] - 104,
        readable(world, base, blocks, record, text),
    ensures
        ({
            let start = entered(world, program, back, calling);
            &&& string_safe(world, start, blocks, record, 80)
            &&& holds_string(start.mem, record, text)
            &&& word_at(start.mem, record + 8) == text.len()
        }),
{
    let start = entered(world, program, back, calling);
    let n = 16 + word_at(base.mem, record + 8);
    lemma_enter(world, base, calling, program, back, blocks, 192, 80, 0);
    lemma_span_safe_inside(
        world,
        base,
        calling,
        program,
        back,
        blocks,
        192,
        80,
        record as int,
        n,
    );
    law_word_of_bytes(start.mem, base.mem, record as int);
    law_word_of_bytes(start.mem, base.mem, record + 8);
    assert(text_at(base.mem, record) == text);
    assert(text_at(start.mem, record) =~= text);
}

/// Slicing from the routine.
#[verifier::rlimit(40)]
proof fn lemma_slice_from(
    world: World,
    base: Machine,
    calling: Machine,
    program: Seq<Insn>,
    back: int,
    blocks: Seq<u64>,
    text: Seq<u8>,
    start: int,
    end: int,
) -> (done: (Machine, Seq<u64>))
    requires
        can_build(world, base, blocks, 192),
        calling.mem == base.mem,
        calling.regs[Rsp] == base.regs[Rsp] - 104,
        readable(world, base, blocks, calling.regs[Rcx], text),
        starts_clean(text),
        calling.regs[Rdx] == start,
        calling.regs[R8] == end,
        0 <= start <= end <= chars_in(text),
    ensures
        ({
            let (out, left) = done;
            let slice = slice_of(text, start, end);
            let size = 16 + slice.len() as int;
            let from = entered(world, program, back, calling);
            let room = has_room(world, base.mem, blocks, size);
            &&& room ==> {
                &&& ends_in(world, str_substring_program(), 0, from, Outcome::Returned(out))
                &&& returned_home(world, program, back, calling, out)
                &&& back_home(calling, out, base.regs[Rsp] as int)
                &&& builds(world, base, out.mem, blocks, left, size, out.regs[Rax], 192)
                &&& holds_string(out.mem, out.regs[Rax], slice)
            }
            &&& !room ==> ends_in(world, str_substring_program(), 0, from, Outcome::Trapped(out))
        }),
{
    let slice = slice_of(text, start, end);
    let size = 16 + slice.len() as int;
    let from = entered(world, program, back, calling);
    let record = calling.regs[Rcx];
    lemma_enter(world, base, calling, program, back, blocks, 192, 80, size);
    lemma_readable_inside(world, base, calling, program, back, blocks, record, text);
    lemma_chars_bounded(text);
    let (out, left) = law_str_substring(world, from, blocks, text);
    if has_room(world, base.mem, blocks, size) {
        lemma_leave(
            world,
            base,
            calling,
            out,
            program,
            back,
            blocks,
            left,
            size,
            out.regs[Rax],
            192,
            80,
        );
    }
    (out, left)
}

/// The state in which a search starts from the routine.
proof fn lemma_search_enter(
    world: World,
    base: Machine,
    calling: Machine,
    program: Seq<Insn>,
    back: int,
    blocks: Seq<u64>,
    hay: Seq<u8>,
    needle: Seq<u8>,
)
    requires
        can_build(world, base, blocks, 192),
        calling.mem == base.mem,
        calling.regs[Rsp] == base.regs[Rsp] - 104,
        readable(world, base, blocks, calling.regs[Rcx], hay),
        readable(world, base, blocks, calling.regs[Rdx], needle),
    ensures
        ({
            let start = entered(world, program, back, calling);
            &&& can_search(start)
            &&& start.regs[Rcx] == calling.regs[Rcx]
            &&& start.regs[Rdx] == calling.regs[Rdx]
            &&& text_at(start.mem, calling.regs[Rcx]) == hay
            &&& text_at(start.mem, calling.regs[Rdx]) == needle
        }),
{
    lemma_enter(world, base, calling, program, back, blocks, 192, 80, 0);
    lemma_readable_inside(
        world,
        base,
        calling,
        program,
        back,
        blocks,
        calling.regs[Rcx],
        hay,
    );
    lemma_readable_inside(
        world,
        base,
        calling,
        program,
        back,
        blocks,
        calling.regs[Rdx],
        needle,
    );
}

/// What a search leaves to the routine: only bytes below its frame have changed.
proof fn lemma_search_leave(
    world: World,
    base: Machine,
    calling: Machine,
    out: Machine,
    program: Seq<Insn>,
    back: int,
)
    requires
        192 <= base.regs[Rsp],
        calling.mem == base.mem,
        calling.regs[Rsp] == base.regs[Rsp] - 104,
        came_back(entered(world, program, back, calling), out),
        kept(
            entered(world, program, back, calling).mem,
            out.mem,
            entered(world, program, back, calling).regs[Rsp] - 32,
            entered(world, program, back, calling).regs[Rsp] as int,
        ),
    ensures
        returned_home(world, program, back, calling, out),
        back_home(calling, out, base.regs[Rsp] as int),
        kept(base.mem, out.mem, base.regs[Rsp] - 144, base.regs[Rsp] - 104),
{
    let start = entered(world, program, back, calling);
    let top = base.regs[Rsp] as int;
    let at = top - 112;
    let site = (world.site)(program, back);
    assert(wrap(at) == at);
    assert forall|p: int| p < at || at + 8 <= p implies #[trigger] (start.mem)(p) == (calling.mem)(
        p,
    ) by {
        law_word_keeps_bytes(calling.mem, at, site, p);
    }
    law_word_reads_back(calling.mem, at, site);
    law_kept_bytes_keep_words(start.mem, out.mem, at - 32, at, at);
    assert forall|p: int| p < top - 144 || top - 104 <= p implies #[trigger] (out.mem)(p) == (
    base.mem)(p) by {
        assert((start.mem)(p) == (calling.mem)(p));
    }
}

// The heap while a string is split

/// Whether a block holds a string with this text.
pub open spec fn field_held(mem: spec_fn(int) -> u8, r: u64, text: Seq<u8>) -> bool {
    &&& holds_string(mem, r, text)
    &&& 32 + text.len() <= block_size(mem, block_of(r))
}

proof fn lemma_field_stays(
    before: spec_fn(int) -> u8,
    after: spec_fn(int) -> u8,
    r: u64,
    text: Seq<u8>,
)
    requires
        16 < r,
        field_held(before, r, text),
        forall|p: int| in_block(before, block_of(r), p) ==> #[trigger] after(p) == before(p),
    ensures
        field_held(after, r, text),
{
    let block = block_of(r);
    assert(text_at(before, r) == text);
    assert forall|p: int| block <= p < r + 16 + text.len() implies #[trigger] after(p) == before(p) by {
        assert(in_block(before, block, p));
    }
    law_word_of_bytes(after, before, block as int);
    law_word_of_bytes(after, before, r as int);
    law_word_of_bytes(after, before, r + 8);
    assert(text_at(after, r) =~= text);
}

/// What the routine holds: a list with room for the fields, the strings of the first of
/// them in its slots, and further blocks.
spec fn holds_fields(
    world: World,
    m: Machine,
    mem: spec_fn(int) -> u8,
    blocks: Seq<u64>,
    left: Seq<u64>,
    fields: Seq<Seq<u8>>,
    list: u64,
    strings: Seq<u64>,
    extra: Seq<u64>,
) -> bool {
    let n = fields.len();
    &&& only_takes(world, m, mem, blocks, left, 192)
    &&& all_held(world, m, mem, blocks, left, seq![list] + strings + extra)
    &&& strings.len() <= n
    &&& 32 + 8 * n <= block_size(mem, block_of(list))
    &&& word_at(mem, list as int) == n
    &&& word_at(mem, list + 8) == n
    &&& forall|j: int|
        0 <= j < strings.len() ==> word_at(mem, list + 16 + 8 * j) == #[trigger] strings[j]
    &&& forall|j: int| 0 <= j < strings.len() ==> field_held(mem, #[trigger] strings[j], fields[j])
}

/// The list and its strings stay when their blocks do.
proof fn lemma_fields_stay(
    world: World,
    m: Machine,
    now: spec_fn(int) -> u8,
    after: spec_fn(int) -> u8,
    blocks: Seq<u64>,
    left: Seq<u64>,
    least: Seq<u64>,
    fields: Seq<Seq<u8>>,
    list: u64,
    strings: Seq<u64>,
    extra: Seq<u64>,
    more: Seq<u64>,
)
    requires
        holds_fields(world, m, now, blocks, left, fields, list, strings, extra),
        only_takes(world, m, after, blocks, least, 192),
        all_held(world, m, after, blocks, least, seq![list] + strings + more),
        same_blocks(now, after, seq![list] + strings),
    ensures
        holds_fields(world, m, after, blocks, least, fields, list, strings, more),
{
    let refs = seq![list] + strings + extra;
    let kept_refs = seq![list] + strings;
    let n = fields.len();
    let block = block_of(list);
    assert(refs[0] == list && kept_refs[0] == list);
    assert(held(world, m, now, blocks, left, refs[0]));
    assert forall|p: int| block <= p < list + 16 + 8 * n implies #[trigger] after(p) == now(p) by {
        assert(in_block(now, block_of(kept_refs[0]), p));
    }
    law_word_of_bytes(after, now, block as int);
    law_word_of_bytes(after, now, list as int);
    law_word_of_bytes(after, now, list + 8);
    assert forall|j: int| 0 <= j < strings.len() implies word_at(after, list + 16 + 8 * j)
        == #[trigger] strings[j] by {
        law_word_of_bytes(after, now, list + 16 + 8 * j);
    }
    assert forall|j: int| 0 <= j < strings.len() implies field_held(
        after,
        #[trigger] strings[j],
        fields[j],
    ) by {
        assert(refs[j + 1] == strings[j] && kept_refs[j + 1] == strings[j]);
        assert(held(world, m, now, blocks, left, refs[j + 1]));
        assert forall|p: int| in_block(now, block_of(strings[j]), p) implies #[trigger] after(p)
            == now(p) by {
            assert(in_block(now, block_of(kept_refs[j + 1]), p));
        }
        lemma_field_stays(now, after, strings[j], fields[j]);
    }
}

/// The first blocks of a sequence stay when all do.
proof fn lemma_same_first(
    before: spec_fn(int) -> u8,
    after: spec_fn(int) -> u8,
    refs: Seq<u64>,
    more: Seq<u64>,
)
    requires
        same_blocks(before, after, refs + more),
    ensures
        same_blocks(before, after, refs),
{
    let all = refs + more;
    assert forall|i: int, p: int|
        0 <= i < refs.len()
            && in_block(before, block_of(#[trigger] refs[i]), p) implies #[trigger] after(
        p,
    ) == before(p) by {
        assert(all[i] == refs[i]);
        assert(in_block(before, block_of(all[i]), p));
    }
}

/// A string in the next slot of the list: the first of the further blocks.
#[verifier::rlimit(40)]
proof fn lemma_fields_slot(
    world: World,
    m: Machine,
    now: spec_fn(int) -> u8,
    blocks: Seq<u64>,
    left: Seq<u64>,
    fields: Seq<Seq<u8>>,
    list: u64,
    strings: Seq<u64>,
    x: u64,
    rest: Seq<u64>,
) -> (after: spec_fn(int) -> u8)
    requires
        may_hold(world, m, blocks, 192),
        holds_fields(world, m, now, blocks, left, fields, list, strings, seq![x] + rest),
        strings.len() < fields.len(),
        field_held(now, x, fields[strings.len() as int]),
    ensures
        after == with_word(now, list + 16 + 8 * strings.len(), x),
        holds_fields(world, m, after, blocks, left, fields, list, strings.push(x), rest),
        spare(world, after) == spare(world, now),
        kept(now, after, list as int, list + 16 + 8 * fields.len()),
        same_blocks(now, after, seq![x] + rest),
{
    let k = strings.len() as int;
    let at = list + 16 + 8 * k;
    let after = with_word(now, at, x);
    let extra = seq![x] + rest;
    let refs = seq![list] + strings + extra;
    let longer = strings.push(x);
    let block = block_of(list);
    assert(refs[0] == list);
    assert(held(world, m, now, blocks, left, refs[0]));
    assert forall|p: int| p < at || at + 8 <= p implies #[trigger] after(p) == now(p) by {
        law_word_keeps_bytes(now, at, x, p);
    }
    lemma_hold_written(world, m, now, after, blocks, left, refs, at, 8, 192);
    assert(seq![list] + longer + rest =~= refs);
    law_kept_bytes_keep_words(now, after, at, at + 8, list as int);
    law_kept_bytes_keep_words(now, after, at, at + 8, list + 8);
    law_word_reads_back(now, at, x);
    assert forall|j: int| 0 <= j < longer.len() implies word_at(after, list + 16 + 8 * j)
        == #[trigger] longer[j] by {
        if j < k {
            assert(longer[j] == strings[j]);
            law_kept_bytes_keep_words(now, after, at, at + 8, list + 16 + 8 * j);
        }
    }
    assert forall|j: int| 0 <= j < longer.len() implies field_held(
        after,
        #[trigger] longer[j],
        fields[j],
    ) by {
        assert(refs[j + 1] == longer[j]);
        assert(held(world, m, now, blocks, left, refs[j + 1]));
        if j < k {
            assert(longer[j] == strings[j]);
        }
        assert forall|p: int| in_block(now, block_of(longer[j]), p) implies #[trigger] after(p)
            == now(p) by {
            assert(in_block(now, block_of(refs[j + 1]), p));
        }
        lemma_field_stays(now, after, longer[j], fields[j]);
    }
    assert forall|i: int, p: int|
        0 <= i < extra.len()
            && in_block(now, block_of(#[trigger] extra[i]), p) implies #[trigger] after(
        p,
    ) == now(p) by {
        assert(refs[1 + k + i] == extra[i]);
        assert(in_block(now, block_of(refs[1 + k + i]), p));
    }
    after
}

// The routine

/// Whether a string can be split: the string in `rcx` holds this text, the one in `rdx` this
/// separator; both are whole characters, and so is what follows a separator.
pub open spec fn can_split(
    world: World,
    m: Machine,
    blocks: Seq<u64>,
    text: Seq<u8>,
    sep: Seq<u8>,
) -> bool {
    &&& (world.code)(Symbol::StrCount) == str_count_program()
    &&& (world.code)(Symbol::StrFind) == str_find_program()
    &&& (world.code)(Symbol::StrSubstring) == str_substring_program()
    &&& may_hold(world, m, blocks, 192)
    &&& readable(world, m, blocks, m.regs[Rcx], text)
    &&& readable(world, m, blocks, m.regs[Rdx], sep)
    &&& starts_clean(text)
    &&& starts_clean(sep)
    &&& cuts_clean(text, sep)
    &&& 24 + 8 * text.len() <= u64::MAX / 2
}

/// The registers that `str_split` saves.
pub open spec fn split_saves() -> Seq<Reg> {
    seq![Rbx, Rsi, Rdi, R12, R13, R14, R15]
}

proof fn lemma_split_saves()
    ensures
        ({
            let regs = split_saves();
            &&& regs.len() == 7
            &&& regs[0] == Rbx
            &&& regs[1] == Rsi
            &&& regs[2] == Rdi
            &&& regs[3] == R12
            &&& regs[4] == R13
            &&& regs[5] == R14
            &&& regs[6] == R15
        }),
{
}

/// What the registers hold in the loop.
spec fn split_frame(m: Machine, now: Machine, text: Seq<u8>, list: u64) -> bool {
    let top = m.regs[Rsp] as int;
    &&& now.regs[Rsp] == top - 104
    &&& now.regs[R12] == m.regs[Rcx]
    &&& now.regs[R13] == m.regs[Rdx]
    &&& now.regs[Rbx] == list
    &&& now.regs[R15] == chars_in(text)
    &&& saved(now.mem, top, split_saves(), m.regs)
    &&& forall|reg: Reg|
        !volatile(reg) && reg != Rsp && !among(reg, split_saves()) ==> #[trigger] now.regs[reg]
            == m.regs[reg]
}

/// The state of the loop when the text up to byte `pos` is split.
spec fn split_round(
    world: World,
    m: Machine,
    now: Machine,
    blocks: Seq<u64>,
    left: Seq<u64>,
    text: Seq<u8>,
    sep: Seq<u8>,
    list: u64,
    strings: Seq<u64>,
    pos: int,
) -> bool {
    let fields = fields_from(text, sep, 0);
    &&& split_frame(m, now, text, list)
    &&& holds_fields(world, m, now.mem, blocks, left, fields, list, strings, Seq::empty())
    &&& now.regs[Rdi] == strings.len()
    &&& now.regs[Rsi] == chars_in(text.take(pos))
    &&& 0 <= pos <= text.len()
    &&& clean_at(text, pos)
    &&& strings.len() < fields.len()
    &&& fields.skip(strings.len() as int) == fields_from(text, sep, pos)
}

/// A held string can be read.
proof fn lemma_held_readable(
    world: World,
    m: Machine,
    mem: spec_fn(int) -> u8,
    blocks: Seq<u64>,
    left: Seq<u64>,
    r: u64,
    text: Seq<u8>,
)
    requires
        may_hold(world, m, blocks, 192),
        held(world, m, mem, blocks, left, r),
        field_held(mem, r, text),
        16 + text.len() <= u64::MAX / 2,
    ensures
        readable(world, (Machine { mem, ..m }), left, r, text),
{
    let top = m.regs[Rsp] as int;
    lemma_held_apart(world, m, mem, blocks, left, r, top - 192, 192);
    assert(text_at(mem, r) == text);
    assert forall|p: int| r <= p < r + 16 + text.len() implies !#[trigger] idle(
        world,
        mem,
        left,
        p,
    ) by {
        assert(in_block(mem, block_of(r), p));
    }
}

/// The stack of the routine stays its own.
proof fn lemma_may_build(
    world: World,
    m: Machine,
    mem: spec_fn(int) -> u8,
    blocks: Seq<u64>,
    left: Seq<u64>,
)
    requires
        may_hold(world, m, blocks, 192),
        only_takes(world, m, mem, blocks, left, 192),
    ensures
        can_build(world, (Machine { mem, ..m }), left, 192),
{
    let top = m.regs[Rsp] as int;
    assert forall|p: int| top - 192 <= p < top implies !#[trigger] idle(world, mem, left, p) by {
        assert(!idle(world, m.mem, blocks, p));
    }
}

/// The text from byte `pos` on, as a slice.
proof fn lemma_rest_is_a_slice(text: Seq<u8>, pos: int)
    requires
        starts_clean(text),
        0 <= pos <= text.len(),
        clean_at(text, pos),
    ensures
        chars_in(text.take(pos)) <= chars_in(text),
        slice_of(text, chars_in(text.take(pos)) as int, chars_in(text) as int) == text.skip(pos),
        starts_clean(text.skip(pos)),
{
    lemma_offset_of_count(text, pos);
    assert(text.take(text.len() as int) =~= text);
    lemma_offset_of_count(text, text.len() as int);
    assert(text.subrange(pos, text.len() as int) =~= text.skip(pos));
}

/// The rest of the text as a string.
#[verifier::rlimit(40)]
proof fn lemma_split_rest(
    world: World,
    m: Machine,
    now: Machine,
    blocks: Seq<u64>,
    left: Seq<u64>,
    text: Seq<u8>,
    sep: Seq<u8>,
    list: u64,
    strings: Seq<u64>,
    pos: int,
) -> (done: (Machine, Seq<u64>))
    requires
        can_split(world, m, blocks, text, sep),
        split_round(world, m, now, blocks, left, text, sep, list, strings, pos),
    ensures
        ({
            let (after, least) = done;
            let program = str_split_program();
            let rest = text.skip(pos);
            let size = 16 + rest.len() as int;
            let fields = fields_from(text, sep, 0);
            let r = after.regs[R14];
            let room = has_room(world, now.mem, left, size);
            &&& room ==> {
                &&& forall|outcome: Outcome| #[trigger]
                    ends_in(world, program, 31, after, outcome) ==> ends_in(
                        world,
                        program,
                        26,
                        now,
                        outcome,
                    )
                &&& split_frame(m, after, text, list)
                &&& holds_fields(
                    world,
                    m,
                    after.mem,
                    blocks,
                    least,
                    fields,
                    list,
                    strings,
                    seq![r],
                )
                &&& field_held(after.mem, r, rest)
                &&& after.regs[Rdi] == now.regs[Rdi]
                &&& after.regs[Rsi] == now.regs[Rsi]
                &&& spare(world, now.mem) - (size + 23) <= spare(world, after.mem)
            }
            &&& !room ==> ends_in(world, program, 26, now, Outcome::Trapped(after))
        }),
{
    let program = str_split_program();
    let run = Run { world, program, start: 26, before: now };
    let base = Machine { mem: now.mem, ..m };
    let top = m.regs[Rsp] as int;
    let record = m.regs[Rcx];
    let rest = text.skip(pos);
    let size = 16 + rest.len() as int;
    let start = chars_in(text.take(pos)) as int;
    let end = chars_in(text) as int;
    let fields = fields_from(text, sep, 0);
    let refs = seq![list] + strings;
    lemma_split_saves();
    lemma_rest_is_a_slice(text, pos);
    assert(program.len() == 60);
    lemma_begin(run);
    lemma_mov(run, 26, now, Rcx, R12);
    let m1 = now.set(Rcx, record);
    lemma_mov(run, 27, m1, Rdx, Rsi);
    let m2 = m1.set(Rdx, start as u64);
    lemma_mov(run, 28, m2, R8, R15);
    let calling = m2.set(R8, end as u64);
    lemma_call(run, 29, calling, Symbol::StrSubstring);
    lemma_may_build(world, m, now.mem, blocks, left);
    lemma_string_stays(world, m, now.mem, blocks, left, 192, record, text);
    let (out, least) = lemma_slice_from(
        world,
        base,
        calling,
        program,
        30,
        left,
        text,
        start,
        end,
    );
    if has_room(world, now.mem, left, size) {
        let r = out.regs[Rax];
        let run2 = Run { world, program, start: 30, before: out };
        lemma_begin(run2);
        lemma_mov(run2, 30, out, R14, Rax);
        let after = out.set(R14, r);
        assert(refs + Seq::<u64>::empty() =~= refs);
        assert(seq![list] + strings + Seq::<u64>::empty() =~= refs);
        lemma_hold_built(
            world,
            m,
            now.mem,
            out.mem,
            blocks,
            left,
            least,
            refs,
            size,
            r,
            192,
        );
        assert(refs.push(r) =~= seq![list] + strings + seq![r]);
        lemma_fields_stay(
            world,
            m,
            now.mem,
            out.mem,
            blocks,
            left,
            least,
            fields,
            list,
            strings,
            Seq::empty(),
            seq![r],
        );
        assert forall|p: int| top - 56 <= p < top implies #[trigger] (after.mem)(p) == (now.mem)(p) by {
            assert((out.mem)(p) == (calling.mem)(p));
        }
        lemma_saved_stays(now.mem, after.mem, top, split_saves(), m.regs);
        assert forall|outcome: Outcome| #[trigger]
            ends_in(world, program, 31, after, outcome) implies ends_in(
            world,
            program,
            26,
            now,
            outcome,
        ) by {
            law_runs_into(world, program, 30, out, 31, after, outcome);
            law_call(
                world,
                program,
                26,
                now,
                Symbol::StrSubstring,
                30,
                calling,
                out,
                outcome,
            );
        }
        (after, least)
    } else {
        law_call_traps(world, program, 26, now, Symbol::StrSubstring, 30, calling, out);
        (out, least)
    }
}

/// Where the separator stands first in the rest of the text.
proof fn lemma_match_in_rest(text: Seq<u8>, sep: Seq<u8>, pos: int)
    requires
        0 <= pos <= text.len(),
    ensures
        ({
            let rest = text.skip(pos);
            let next = next_match(text, sep, pos);
            &&& next == -1 ==> !occurs(rest, sep)
            &&& next != -1 ==> {
                &&& pos <= next
                &&& occurs_at(text, sep, next)
                &&& first_occurrence(rest, sep, next - pos)
            }
        }),
{
    let rest = text.skip(pos);
    let next = next_match(text, sep, pos);
    lemma_next_match(text, sep, pos);
    assert forall|q: int| 0 <= q implies #[trigger] occurs_at(rest, sep, q) == occurs_at(
        text,
        sep,
        pos + q,
    ) by {
        if q + sep.len() <= rest.len() {
            assert(rest.subrange(q, q + sep.len()) =~= text.subrange(
                pos + q,
                pos + q + sep.len(),
            ));
        }
    }
    if next == -1 {
        assert forall|q: int| !#[trigger] occurs_at(rest, sep, q) by {
            if occurs_at(rest, sep, q) {
                assert(occurs_at(text, sep, pos + q));
            }
        }
    } else {
        assert(occurs_at(rest, sep, next - pos));
        assert forall|q: int| #[trigger] occurs_at(rest, sep, q) implies next - pos <= q by {
            assert(occurs_at(text, sep, pos + q));
        }
    }
}

/// The search for the separator in the rest of the text.
#[verifier::rlimit(40)]
proof fn lemma_split_find(
    world: World,
    m: Machine,
    now: Machine,
    blocks: Seq<u64>,
    left: Seq<u64>,
    text: Seq<u8>,
    sep: Seq<u8>,
    list: u64,
    strings: Seq<u64>,
    pos: int,
    r: u64,
) -> (after: Machine)
    requires
        can_split(world, m, blocks, text, sep),
        0 <= pos <= text.len(),
        split_frame(m, now, text, list),
        holds_fields(
            world,
            m,
            now.mem,
            blocks,
            left,
            fields_from(text, sep, 0),
            list,
            strings,
            seq![r],
        ),
        field_held(now.mem, r, text.skip(pos)),
        now.regs[R14] == r,
    ensures
        ({
            let program = str_split_program();
            let rest = text.skip(pos);
            let next = next_match(text, sep, pos);
            &&& next == -1 ==> forall|outcome: Outcome| #[trigger]
                ends_in(world, program, 49, after, outcome) ==> ends_in(
                    world,
                    program,
                    31,
                    now,
                    outcome,
                )
            &&& next != -1 ==> forall|outcome: Outcome| #[trigger]
                ends_in(world, program, 36, after, outcome) ==> ends_in(
                    world,
                    program,
                    31,
                    now,
                    outcome,
                )
            &&& split_frame(m, after, text, list)
            &&& holds_fields(
                world,
                m,
                after.mem,
                blocks,
                left,
                fields_from(text, sep, 0),
                list,
                strings,
                seq![r],
            )
            &&& field_held(after.mem, r, rest)
            &&& after.regs[R14] == r
            &&& after.regs[Rdi] == now.regs[Rdi]
            &&& after.regs[Rsi] == now.regs[Rsi]
            &&& next != -1 ==> after.regs[Rax] == chars_in(rest.take(next - pos))
            &&& spare(world, after.mem) == spare(world, now.mem)
        }),
{
    let program = str_split_program();
    let run = Run { world, program, start: 31, before: now };
    let base = Machine { mem: now.mem, ..m };
    let top = m.regs[Rsp] as int;
    let rest = text.skip(pos);
    let next = next_match(text, sep, pos);
    let fields = fields_from(text, sep, 0);
    let refs = seq![list] + strings + seq![r];
    lemma_split_saves();
    assert(program.len() == 60);
    lemma_begin(run);
    lemma_mov(run, 31, now, Rcx, R14);
    let m1 = now.set(Rcx, r);
    lemma_mov(run, 32, m1, Rdx, R13);
    let calling = m1.set(Rdx, m.regs[Rdx]);
    lemma_call(run, 33, calling, Symbol::StrFind);
    lemma_may_build(world, m, now.mem, blocks, left);
    lemma_string_stays(world, m, now.mem, blocks, left, 192, m.regs[Rdx], sep);
    assert(refs[strings.len() as int + 1] == r);
    assert(held(world, m, now.mem, blocks, left, refs[strings.len() as int + 1]));
    lemma_held_readable(world, m, now.mem, blocks, left, r, rest);
    lemma_search_enter(world, base, calling, program, 34, left, rest, sep);
    let from = entered(world, program, 34, calling);
    let out = law_str_find(world, from);
    law_ends_alone(world, str_find_program(), 0, from, Outcome::Returned(out));
    lemma_search_leave(world, base, calling, out, program, 34);
    lemma_hold_stack(
        world,
        m,
        now.mem,
        out.mem,
        blocks,
        left,
        refs,
        top - 144,
        40,
        192,
    );
    lemma_same_first(now.mem, out.mem, seq![list] + strings, seq![r]);
    lemma_fields_stay(
        world,
        m,
        now.mem,
        out.mem,
        blocks,
        left,
        left,
        fields,
        list,
        strings,
        seq![r],
        seq![r],
    );
    assert forall|p: int| in_block(now.mem, block_of(r), p) implies #[trigger] (out.mem)(p) == (
    now.mem)(p) by {
        assert(in_block(now.mem, block_of(refs[strings.len() as int + 1]), p));
    }
    lemma_field_stays(now.mem, out.mem, r, rest);
    lemma_match_in_rest(text, sep, pos);
    let run2 = Run { world, program, start: 34, before: out };
    lemma_begin(run2);
    lemma_test(run2, 34, out, Rax);
    let after = out.flagged(flags_of_bits(Width::Quad, out.regs[Rax] as int));
    lemma_jcc(run2, 35, after, S, false, Hop::Forward(14));
    if next != -1 {
        lemma_chars_bounded(rest.take(next - pos));
    }
    assert(after.flags.holds(S) == (next == -1));
    lemma_saved_stays(now.mem, after.mem, top, split_saves(), m.regs);
    let to = if next == -1 {
        49int
    } else {
        36
    };
    assert forall|outcome: Outcome| #[trigger]
        ends_in(world, program, to, after, outcome) implies ends_in(
        world,
        program,
        31,
        now,
        outcome,
    ) by {
        law_runs_into(world, program, 34, out, to, after, outcome);
        law_call(world, program, 31, now, Symbol::StrFind, 34, calling, out, outcome);
    }
    after
}

/// What the routine gives: a list of the fields. Its block and those of its strings share no
/// byte, were the allocator's before, and have one reference each.
pub open spec fn splits(
    world: World,
    m: Machine,
    after: Machine,
    blocks: Seq<u64>,
    left: Seq<u64>,
    fields: Seq<Seq<u8>>,
    strings: Seq<u64>,
) -> bool {
    let list = after.regs[Rax];
    &&& came_back(m, after)
    &&& only_takes(world, m, after.mem, blocks, left, 192)
    &&& all_held(world, m, after.mem, blocks, left, seq![list] + strings)
    &&& word_at(after.mem, list as int) == fields.len()
    &&& word_at(after.mem, list + 8) == fields.len()
    &&& 32 + 8 * fields.len() <= block_size(after.mem, block_of(list))
    &&& list_items(after.mem, list) == strings
    &&& strings.len() == fields.len()
    &&& forall|j: int|
        0 <= j < strings.len() ==> field_held(after.mem, #[trigger] strings[j], fields[j])
}

/// The last field: the rest of the text.
proof fn lemma_split_last(
    world: World,
    m: Machine,
    now: Machine,
    blocks: Seq<u64>,
    left: Seq<u64>,
    text: Seq<u8>,
    sep: Seq<u8>,
    list: u64,
    strings: Seq<u64>,
    pos: int,
    r: u64,
) -> (after: Machine)
    requires
        can_split(world, m, blocks, text, sep),
        0 <= pos <= text.len(),
        split_frame(m, now, text, list),
        holds_fields(
            world,
            m,
            now.mem,
            blocks,
            left,
            fields_from(text, sep, 0),
            list,
            strings,
            seq![r],
        ),
        field_held(now.mem, r, text.skip(pos)),
        now.regs[R14] == r,
        now.regs[Rdi] == strings.len(),
        fields_from(text, sep, 0).skip(strings.len() as int) == seq![text.skip(pos)],
        strings.len() < fields_from(text, sep, 0).len(),
    ensures
        ends_in(world, str_split_program(), 49, now, Outcome::Returned(after)),
        splits(world, m, after, blocks, left, fields_from(text, sep, 0), strings.push(r)),
{
    let program = str_split_program();
    let run = Run { world, program, start: 49, before: now };
    let top = m.regs[Rsp] as int;
    let fields = fields_from(text, sep, 0);
    let k = strings.len() as int;
    let at = list + 16 + 8 * k;
    let refs = seq![list] + strings + seq![r];
    let longer = strings.push(r);
    lemma_split_saves();
    assert(program.len() == 60);
    assert(fields.skip(k)[0] == fields[k]);
    assert(fields.skip(k).len() == 1);
    assert(refs[0] == list);
    assert(held(world, m, now.mem, blocks, left, refs[0]));
    lemma_begin(run);
    assert(now.address(world, index8_d(Rbx, Rdi, 16)) == at);
    lemma_store(run, 49, now, index8_d(Rbx, Rdi, 16), R14);
    let m1 = now.store(Width::Quad, at, r as int);
    assert(seq![r] + Seq::<u64>::empty() =~= seq![r]);
    let mem = lemma_fields_slot(
        world,
        m,
        now.mem,
        blocks,
        left,
        fields,
        list,
        strings,
        r,
        Seq::empty(),
    );
    lemma_mov(run, 50, m1, Rax, Rbx);
    let m2 = m1.set(Rax, list);
    lemma_held_apart(world, m, now.mem, blocks, left, list, top - 192, 192);
    lemma_saved_stays(now.mem, m2.mem, top, split_saves(), m.regs);
    assert(part_of(frame_tail(split_saves(), 48), program, 51));
    let after = lemma_frame_tail(run, 51, m, m2, split_saves(), 48);
    law_ends_alone(world, program, 49, now, Outcome::Returned(after));
    assert(seq![list] + longer + Seq::<u64>::empty() =~= seq![list] + longer);
    assert(list_items(after.mem, list) =~= longer) by {
        assert forall|j: int| 0 <= j < longer.len() implies #[trigger] list_items(
            after.mem,
            list,
        )[j] == longer[j] by {
            assert(word_at(after.mem, list + 16 + 8 * j) == longer[j]);
        }
    }
    after
}

/// The next field as a slice of the rest, and where the text goes on.
proof fn lemma_next_field(text: Seq<u8>, sep: Seq<u8>, pos: int)
    requires
        0 <= pos <= text.len(),
        0 < sep.len(),
        starts_clean(sep),
        clean_at(text, pos),
        cuts_clean(text, sep),
        next_match(text, sep, pos) != -1,
    ensures
        ({
            let rest = text.skip(pos);
            let next = next_match(text, sep, pos);
            let end = next + sep.len();
            let before = chars_in(rest.take(next - pos));
            &&& pos <= next
            &&& end <= text.len()
            &&& clean_at(text, end)
            &&& before <= chars_in(rest)
            &&& slice_of(rest, 0, before as int) == text.subrange(pos, next)
            &&& chars_in(text.take(end)) == chars_in(text.take(pos)) + before + chars_in(sep)
            &&& fields_from(text, sep, pos) == seq![text.subrange(pos, next)] + fields_from(
                text,
                sep,
                end,
            )
            &&& 0 < fields_from(text, sep, end).len()
        }),
{
    let rest = text.skip(pos);
    let next = next_match(text, sep, pos);
    let end = next + sep.len();
    lemma_match_in_rest(text, sep, pos);
    assert(text.subrange(next, end)[0] == sep[0]);
    assert(rest[next - pos] == sep[0]);
    lemma_offset_of_count(rest, next - pos);
    assert(rest.subrange(0, next - pos) =~= text.subrange(pos, next));
    assert(rest.take(next - pos) =~= text.subrange(pos, next));
    assert(text.take(end) =~= text.take(pos) + text.subrange(pos, next) + text.subrange(
        next,
        end,
    ));
    law_chars_add_up(text.take(pos) + text.subrange(pos, next), text.subrange(next, end));
    law_chars_add_up(text.take(pos), text.subrange(pos, next));
    law_fields_count_matches(text, sep, end);
}

/// The next field as a string, up to its slot.
#[verifier::rlimit(60)]
proof fn lemma_split_field(
    world: World,
    m: Machine,
    now: Machine,
    blocks: Seq<u64>,
    left: Seq<u64>,
    text: Seq<u8>,
    sep: Seq<u8>,
    list: u64,
    strings: Seq<u64>,
    pos: int,
    r: u64,
) -> (done: (Machine, Seq<u64>, u64))
    requires
        can_split(world, m, blocks, text, sep),
        0 < sep.len(),
        0 <= pos <= text.len(),
        clean_at(text, pos),
        next_match(text, sep, pos) != -1,
        split_frame(m, now, text, list),
        holds_fields(
            world,
            m,
            now.mem,
            blocks,
            left,
            fields_from(text, sep, 0),
            list,
            strings,
            seq![r],
        ),
        field_held(now.mem, r, text.skip(pos)),
        now.regs[R14] == r,
        now.regs[Rdi] == strings.len(),
        now.regs[Rsi] == chars_in(text.take(pos)),
        now.regs[Rax] == chars_in(text.skip(pos).take(next_match(text, sep, pos) - pos)),
        strings.len() < fields_from(text, sep, 0).len(),
        fields_from(text, sep, 0).skip(strings.len() as int) == fields_from(text, sep, pos),
    ensures
        ({
            let (after, least, f) = done;
            let program = str_split_program();
            let field = text.subrange(pos, next_match(text, sep, pos));
            let size = 16 + field.len() as int;
            let room = has_room(world, now.mem, left, size);
            &&& room ==> {
                &&& forall|outcome: Outcome| #[trigger]
                    ends_in(world, program, 43, after, outcome) ==> ends_in(
                        world,
                        program,
                        36,
                        now,
                        outcome,
                    )
                &&& split_frame(m, after, text, list)
                &&& holds_fields(
                    world,
                    m,
                    after.mem,
                    blocks,
                    least,
                    fields_from(text, sep, 0),
                    list,
                    strings.push(f),
                    seq![r],
                )
                &&& after.regs[R14] == r
                &&& after.regs[Rdi] == strings.len() + 1
                &&& after.regs[Rsi] == now.regs[Rsi]
                &&& word_at(after.mem, m.regs[Rsp] - 72) == now.regs[Rax]
                &&& spare(world, now.mem) - (size + 23) <= spare(world, after.mem)
            }
            &&& !room ==> ends_in(world, program, 36, now, Outcome::Trapped(after))
        }),
{
    let program = str_split_program();
    let run = Run { world, program, start: 36, before: now };
    let top = m.regs[Rsp] as int;
    let spill = top - 72;
    let rest = text.skip(pos);
    let next = next_match(text, sep, pos);
    let field = text.subrange(pos, next);
    let size = 16 + field.len() as int;
    let idx = now.regs[Rax];
    let fields = fields_from(text, sep, 0);
    let k = strings.len() as int;
    let some = seq![list] + strings;
    let refs = some + seq![r];
    lemma_split_saves();
    lemma_next_field(text, sep, pos);
    assert(program.len() == 60);
    assert(refs[0] == list && refs[k + 1] == r);
    assert(held(world, m, now.mem, blocks, left, refs[0]));
    assert(held(world, m, now.mem, blocks, left, refs[k + 1]));
    lemma_begin(run);
    assert(now.address(world, at_b(Rsp, 32)) == spill);
    lemma_store(run, 36, now, at_b(Rsp, 32), Rax);
    let m1 = now.store(Width::Quad, spill, idx as int);
    assert forall|p: int| p < spill || spill + 8 <= p implies #[trigger] (m1.mem)(p) == (now.mem)(
        p,
    ) by {
        law_word_keeps_bytes(now.mem, spill, idx, p);
    }
    law_word_reads_back(now.mem, spill, idx);
    lemma_hold_stack(world, m, now.mem, m1.mem, blocks, left, refs, spill, 8, 192);
    lemma_same_first(now.mem, m1.mem, some, seq![r]);
    lemma_fields_stay(
        world,
        m,
        now.mem,
        m1.mem,
        blocks,
        left,
        left,
        fields,
        list,
        strings,
        seq![r],
        seq![r],
    );
    assert forall|p: int| in_block(now.mem, block_of(r), p) implies #[trigger] (m1.mem)(p) == (
    now.mem)(p) by {
        assert(in_block(now.mem, block_of(refs[k + 1]), p));
    }
    lemma_field_stays(now.mem, m1.mem, r, rest);
    assert(held(world, m, m1.mem, blocks, left, refs[k + 1]));
    lemma_held_readable(world, m, m1.mem, blocks, left, r, rest);
    lemma_may_build(world, m, m1.mem, blocks, left);
    assert(has_room(world, m1.mem, left, size) == has_room(world, now.mem, left, size)) by {
        assert forall|p: int| #[trigger] idle(world, now.mem, left, p) implies (m1.mem)(p) == (
        now.mem)(p) by {
            if spill <= p < spill + 8 {
                assert(!idle(world, m.mem, blocks, p));
            }
        }
        lemma_room_stands(world, now.mem, m1.mem, left, size);
    }
    lemma_mov(run, 37, m1, Rcx, R14);
    let m2 = m1.set(Rcx, r);
    let m3 = lemma_zero_d(run, 38, m2, Rdx);
    lemma_mov(run, 39, m3, R8, Rax);
    let calling = m3.set(R8, idx);
    lemma_call(run, 40, calling, Symbol::StrSubstring);
    let base = Machine { mem: m1.mem, ..m };
    let (out, least) = lemma_slice_from(
        world,
        base,
        calling,
        program,
        41,
        left,
        rest,
        0,
        idx as int,
    );
    if has_room(world, now.mem, left, size) {
        let f = out.regs[Rax];
        lemma_hold_built(
            world,
            m,
            m1.mem,
            out.mem,
            blocks,
            left,
            least,
            refs,
            size,
            f,
            192,
        );
        assert(refs =~= some.push(r));
        lemma_hold_swapped(world, m, out.mem, blocks, least, some, r, f);
        assert(some.push(f).push(r) =~= some + (seq![f] + seq![r]));
        lemma_same_first(m1.mem, out.mem, some, seq![r]);
        lemma_fields_stay(
            world,
            m,
            m1.mem,
            out.mem,
            blocks,
            left,
            least,
            fields,
            list,
            strings,
            seq![r],
            seq![f] + seq![r],
        );
        assert(fields.skip(k)[0] == fields[k]);
        assert(field_held(out.mem, f, fields[k]));
        let run2 = Run { world, program, start: 41, before: out };
        lemma_begin(run2);
        let at = list + 16 + 8 * k;
        assert(out.address(world, index8_d(Rbx, Rdi, 16)) == at);
        lemma_store(run2, 41, out, index8_d(Rbx, Rdi, 16), Rax);
        let n1 = out.store(Width::Quad, at, f as int);
        let mem = lemma_fields_slot(
            world,
            m,
            out.mem,
            blocks,
            least,
            fields,
            list,
            strings,
            f,
            seq![r],
        );
        let after = lemma_inc(run2, 42, n1, Rdi);
        let held_now = some.push(f).push(r);
        assert(held_now[0] == list);
        assert(held(world, m, out.mem, blocks, least, held_now[0]));
        lemma_held_apart(world, m, out.mem, blocks, least, list, top - 192, 192);
        assert forall|p: int| top - 104 <= p < top implies #[trigger] (after.mem)(p) == (m1.mem)(p) by {
            assert((out.mem)(p) == (calling.mem)(p));
        }
        law_word_of_bytes(after.mem, m1.mem, spill);
        assert forall|p: int| top - 56 <= p < top implies #[trigger] (after.mem)(p) == (now.mem)(p) by {
            assert((after.mem)(p) == (m1.mem)(p));
        }
        lemma_saved_stays(now.mem, after.mem, top, split_saves(), m.regs);
        assert forall|outcome: Outcome| #[trigger]
            ends_in(world, program, 43, after, outcome) implies ends_in(
            world,
            program,
            36,
            now,
            outcome,
        ) by {
            law_runs_into(world, program, 41, out, 43, after, outcome);
            law_call(
                world,
                program,
                36,
                now,
                Symbol::StrSubstring,
                41,
                calling,
                out,
                outcome,
            );
        }
        (after, least, f)
    } else {
        law_call_traps(world, program, 36, now, Symbol::StrSubstring, 41, calling, out);
        (out, least, 0)
    }
}

proof fn lemma_skip_one_more(
    fields: Seq<Seq<u8>>,
    k: int,
    first: Seq<u8>,
    onward: Seq<Seq<u8>>,
)
    requires
        0 <= k < fields.len(),
        fields.skip(k) == seq![first] + onward,
    ensures
        fields.skip(k + 1) == onward,
{
    let rest = fields.skip(k);
    assert(rest.len() == onward.len() + 1);
    assert forall|i: int| 0 <= i < onward.len() implies #[trigger] fields.skip(k + 1)[i]
        == onward[i] by {
        assert(rest[i + 1] == onward[i]);
    }
    assert(fields.skip(k + 1) =~= onward);
}

/// The rest is dropped, and the loop goes on behind the separator.
#[verifier::rlimit(40)]
proof fn lemma_split_on(
    world: World,
    m: Machine,
    now: Machine,
    blocks: Seq<u64>,
    left: Seq<u64>,
    text: Seq<u8>,
    sep: Seq<u8>,
    list: u64,
    strings: Seq<u64>,
    pos: int,
    r: u64,
) -> (done: (Machine, Seq<u64>))
    requires
        can_split(world, m, blocks, text, sep),
        0 < sep.len(),
        0 <= pos <= text.len(),
        clean_at(text, pos),
        next_match(text, sep, pos) != -1,
        split_frame(m, now, text, list),
        holds_fields(
            world,
            m,
            now.mem,
            blocks,
            left,
            fields_from(text, sep, 0),
            list,
            strings,
            seq![r],
        ),
        now.regs[R14] == r,
        now.regs[Rdi] == strings.len(),
        now.regs[Rsi] == chars_in(text.take(pos)),
        word_at(now.mem, m.regs[Rsp] - 72) == chars_in(
            text.skip(pos).take(next_match(text, sep, pos) - pos),
        ),
        0 < strings.len(),
        fields_from(text, sep, 0).skip(strings.len() - 1) == fields_from(text, sep, pos),
    ensures
        ({
            let (after, least) = done;
            let program = str_split_program();
            let end = next_match(text, sep, pos) + sep.len();
            &&& forall|outcome: Outcome| #[trigger]
                ends_in(world, program, 26, after, outcome) ==> ends_in(
                    world,
                    program,
                    43,
                    now,
                    outcome,
                )
            &&& split_round(
                world,
                m,
                after,
                blocks,
                least,
                text,
                sep,
                list,
                strings,
                end,
            )
            &&& spare(world, after.mem) == spare(world, now.mem)
        }),
{
    let program = str_split_program();
    let run = Run { world, program, start: 43, before: now };
    let top = m.regs[Rsp] as int;
    let spill = top - 72;
    let rest = text.skip(pos);
    let next = next_match(text, sep, pos);
    let end = next + sep.len();
    let before = chars_in(rest.take(next - pos));
    let fields = fields_from(text, sep, 0);
    let some = seq![list] + strings;
    let k = strings.len() as int;
    let sep_record = m.regs[Rdx];
    lemma_split_saves();
    lemma_next_field(text, sep, pos);
    assert(program.len() == 60);
    lemma_begin(run);
    lemma_mov(run, 43, now, Rcx, R14);
    let calling = now.set(Rcx, r);
    lemma_call(run, 44, calling, Symbol::RcDec);
    assert(some.push(r) =~= some + seq![r]);
    assert(some.push(r)[k + 1] == r);
    assert(held(world, m, now.mem, blocks, left, some.push(r)[k + 1]));
    lemma_held_droppable(world, m, now.mem, blocks, left, r, 192);
    let (out, least) = lemma_drop_from(
        world,
        now.mem,
        calling,
        program,
        45,
        left,
        top - 192,
        top,
    );
    lemma_hold_dropped(world, m, now.mem, out.mem, blocks, left, least, some, r, 192);
    assert(some + Seq::<u64>::empty() =~= some);
    lemma_fields_stay(
        world,
        m,
        now.mem,
        out.mem,
        blocks,
        left,
        least,
        fields,
        list,
        strings,
        seq![r],
        Seq::empty(),
    );
    lemma_string_stays(world, m, out.mem, blocks, least, 192, sep_record, sep);
    law_word_of_bytes(out.mem, now.mem, spill);
    let run2 = Run { world, program, start: 45, before: out };
    lemma_begin(run2);
    assert(out.address(world, at_b(Rsp, 32)) == spill);
    lemma_load(run2, 45, out, Rax, at_b(Rsp, 32));
    let n1 = out.set(Rax, before as u64);
    lemma_alu(run2, 46, n1, Alu::Add, Rsi, Rax);
    let n2 = operated(n1, Alu::Add, Rsi, before as u64);
    assert(n2.address(world, at_b(R13, 0)) == sep_record);
    lemma_alu_load(run2, 47, n2, Alu::Add, Rsi, at_b(R13, 0));
    let after = operated(n2, Alu::Add, Rsi, word_at(n2.mem, sep_record as int));
    lemma_jmp(run2, 48, after, false, Hop::Back(22));
    lemma_chars_bounded(text.take(end));
    assert(n2.regs[Rsi] == chars_in(text.take(pos)) + before);
    assert(after.regs[Rsi] == chars_in(text.take(end)));
    lemma_saved_stays(now.mem, after.mem, top, split_saves(), m.regs);
    let onward = fields_from(text, sep, end);
    lemma_skip_one_more(fields, k - 1, text.subrange(pos, next), onward);
    assert forall|outcome: Outcome| #[trigger]
        ends_in(world, program, 26, after, outcome) implies ends_in(
        world,
        program,
        43,
        now,
        outcome,
    ) by {
        law_runs_into(world, program, 45, out, 26, after, outcome);
        law_call(world, program, 43, now, Symbol::RcDec, 45, calling, out, outcome);
    }
    (after, least)
}

/// What splitting takes off the rest of the region at most, from byte `pos` on.
pub open spec fn split_cost(text: Seq<u8>, sep: Seq<u8>, pos: int) -> int
    decreases text.len() - pos,
{
    let next = next_match(text, sep, pos);
    if sep.len() == 0 || pos < 0 || next < pos || next + sep.len() > text.len() {
        39 + (text.len() - pos)
    } else {
        39 + (text.len() - pos) + 39 + (next - pos) + split_cost(text, sep, next + sep.len())
    }
}

proof fn lemma_split_cost(text: Seq<u8>, sep: Seq<u8>, pos: int)
    requires
        0 <= pos <= text.len(),
    ensures
        39 + (text.len() - pos) <= split_cost(text, sep, pos),
    decreases text.len() - pos,
{
    let next = next_match(text, sep, pos);
    if !(sep.len() == 0 || pos < 0 || next < pos || next + sep.len() > text.len()) {
        lemma_split_cost(text, sep, next + sep.len());
    }
}

/// The loop, from byte `pos` on.
#[verifier::rlimit(40)]
proof fn lemma_split_loop(
    world: World,
    m: Machine,
    now: Machine,
    blocks: Seq<u64>,
    left: Seq<u64>,
    text: Seq<u8>,
    sep: Seq<u8>,
    list: u64,
    strings: Seq<u64>,
    pos: int,
) -> (done: (Outcome, Seq<u64>, Seq<u64>))
    requires
        can_split(world, m, blocks, text, sep),
        0 < sep.len(),
        split_round(world, m, now, blocks, left, text, sep, list, strings, pos),
    ensures
        ({
            let (outcome, least, all) = done;
            let fields = fields_from(text, sep, 0);
            &&& ends_in(world, str_split_program(), 26, now, outcome)
            &&& outcome is Trapped || (outcome is Returned && splits(
                world,
                m,
                outcome->Returned_0,
                blocks,
                least,
                fields,
                all,
            ))
            &&& split_cost(text, sep, pos) <= spare(world, now.mem) ==> outcome is Returned
        }),
    decreases text.len() - pos,
{
    let program = str_split_program();
    let next = next_match(text, sep, pos);
    let rest = text.skip(pos);
    lemma_split_cost(text, sep, pos);
    lemma_next_match(text, sep, pos);
    let (n1, some) = lemma_split_rest(
        world,
        m,
        now,
        blocks,
        left,
        text,
        sep,
        list,
        strings,
        pos,
    );
    if has_room(world, now.mem, left, 16 + rest.len() as int) {
        let r = n1.regs[R14];
        let n2 = lemma_split_find(
            world,
            m,
            n1,
            blocks,
            some,
            text,
            sep,
            list,
            strings,
            pos,
            r,
        );
        if next == -1 {
            let after = lemma_split_last(
                world,
                m,
                n2,
                blocks,
                some,
                text,
                sep,
                list,
                strings,
                pos,
                r,
            );
            assert(ends_in(world, program, 31, n1, Outcome::Returned(after)));
            (Outcome::Returned(after), some, strings.push(r))
        } else {
            let end = next + sep.len();
            lemma_split_cost(text, sep, end);
            let (n3, fewer, f) = lemma_split_field(
                world,
                m,
                n2,
                blocks,
                some,
                text,
                sep,
                list,
                strings,
                pos,
                r,
            );
            if has_room(world, n2.mem, some, 16 + text.subrange(pos, next).len() as int) {
                let longer = strings.push(f);
                let (n4, least) = lemma_split_on(
                    world,
                    m,
                    n3,
                    blocks,
                    fewer,
                    text,
                    sep,
                    list,
                    longer,
                    pos,
                    r,
                );
                let (outcome, none, all) = lemma_split_loop(
                    world,
                    m,
                    n4,
                    blocks,
                    least,
                    text,
                    sep,
                    list,
                    longer,
                    end,
                );
                assert(ends_in(world, program, 43, n3, outcome));
                assert(ends_in(world, program, 36, n2, outcome));
                assert(ends_in(world, program, 31, n1, outcome));
                (outcome, none, all)
            } else {
                assert(ends_in(world, program, 36, n2, Outcome::Trapped(n3)));
                assert(ends_in(world, program, 31, n1, Outcome::Trapped(n3)));
                (Outcome::Trapped(n3), fewer, strings)
            }
        }
    } else {
        (Outcome::Trapped(n1), some, strings)
    }
}

proof fn lemma_matches_bounded(text: Seq<u8>, sep: Seq<u8>, pos: int)
    requires
        0 <= pos <= text.len(),
    ensures
        matches_from(text, sep, pos) <= text.len() - pos,
    decreases text.len() - pos,
{
    if sep.len() > 0 && pos + sep.len() <= text.len() {
        if occurs_at(text, sep, pos) {
            lemma_matches_bounded(text, sep, pos + sep.len());
        } else {
            lemma_matches_bounded(text, sep, pos + 1);
        }
    }
}

/// The count of the fields, up to the call of the allocator.
#[verifier::rlimit(40)]
proof fn lemma_split_count(
    world: World,
    m: Machine,
    blocks: Seq<u64>,
    text: Seq<u8>,
    sep: Seq<u8>,
) -> (calling: Machine)
    requires
        can_split(world, m, blocks, text, sep),
        0 < sep.len(),
    ensures
        ({
            let top = m.regs[Rsp] as int;
            let n = fields_from(text, sep, 0).len();
            &&& forall|back: Machine, outcome: Outcome| #[trigger]
                ends_in(world, str_split_program(), 20, back, outcome) && ends_in(
                    world,
                    (world.code)(Symbol::HeapAlloc),
                    0,
                    entered(world, str_split_program(), 20, calling),
                    Outcome::Returned(back),
                ) && returned_home(world, str_split_program(), 20, calling, back) ==> ends_in(
                    world,
                    str_split_program(),
                    0,
                    m,
                    outcome,
                )
            &&& forall|out: Machine| #[trigger]
                ends_in(
                    world,
                    (world.code)(Symbol::HeapAlloc),
                    0,
                    entered(world, str_split_program(), 20, calling),
                    Outcome::Trapped(out),
                ) ==> ends_in(world, str_split_program(), 0, m, Outcome::Trapped(out))
            &&& calling.regs[Rsp] == top - 104
            &&& calling.regs[R12] == m.regs[Rcx]
            &&& calling.regs[R13] == m.regs[Rdx]
            &&& calling.regs[R14] == n
            &&& calling.regs[Rcx] == 16 + 8 * n
            &&& n <= text.len() + 1
            &&& kept(m.mem, calling.mem, top - 192, top)
            &&& saved(calling.mem, top, split_saves(), m.regs)
            &&& forall|reg: Reg|
                !volatile(reg) && reg != Rsp && !among(reg, split_saves())
                    ==> #[trigger] calling.regs[reg] == m.regs[reg]
        }),
{
    let program = str_split_program();
    let run = Run { world, program, start: 0, before: m };
    let regs = split_saves();
    let top = m.regs[Rsp] as int;
    let record = m.regs[Rcx];
    let sep_record = m.regs[Rdx];
    let n = fields_from(text, sep, 0).len();
    lemma_split_saves();
    law_fields_count_matches(text, sep, 0);
    lemma_matches_bounded(text, sep, 0);
    assert(program.len() == 60);
    assert(part_of(frame_head(regs, 48), program, 0));
    let m1 = lemma_frame_head(run, m, regs, 48);
    lemma_mov(run, 8, m1, R12, Rcx);
    let m2 = m1.set(R12, record);
    lemma_mov(run, 9, m2, R13, Rdx);
    let m3 = m2.set(R13, sep_record);
    assert forall|p: int| #[trigger] idle(world, m.mem, blocks, p) implies (m1.mem)(p) == (m.mem)(
        p,
    ) by {}
    lemma_heap_stands(world, m.mem, m1.mem, blocks);
    assert(only_takes(world, m, m1.mem, blocks, blocks, 192));
    lemma_string_stays(world, m, m1.mem, blocks, blocks, 192, record, text);
    lemma_string_stays(world, m, m1.mem, blocks, blocks, 192, sep_record, sep);
    assert(chars_in(sep) > 0) by {
        let first = sep.take(1);
        assert(sep =~= first + sep.skip(1));
        law_chars_add_up(first, sep.skip(1));
        assert(first.drop_last() =~= Seq::empty());
        assert(chars_in(first.drop_last()) == 0);
        assert(first.last() == sep[0]);
    }
    assert(m3.address(world, at_b(R13, 0)) == sep_record);
    lemma_load(run, 10, m3, Rax, at_b(R13, 0));
    let m4 = m3.set(Rax, chars_in(sep) as u64);
    lemma_test(run, 11, m4, Rax);
    let m5 = m4.flagged(flags_of_bits(Width::Quad, m4.regs[Rax] as int));
    lemma_jcc(run, 12, m5, Ne, true, Hop::Forward(2));
    lemma_mov(run, 14, m5, Rcx, R12);
    let m6 = m5.set(Rcx, record);
    lemma_mov(run, 15, m6, Rdx, R13);
    let counting = m6.set(Rdx, sep_record);
    lemma_call(run, 16, counting, Symbol::StrCount);
    let base = Machine { mem: m1.mem, ..m };
    lemma_may_build(world, m, m1.mem, blocks, blocks);
    lemma_search_enter(world, base, counting, program, 17, blocks, text, sep);
    let from = entered(world, program, 17, counting);
    let out = law_str_count(world, from);
    law_ends_alone(world, str_count_program(), 0, from, Outcome::Returned(out));
    lemma_search_leave(world, base, counting, out, program, 17);
    let run2 = Run { world, program, start: 17, before: out };
    lemma_begin(run2);
    assert(out.address(world, at_b(Rax, 1)) == n);
    lemma_lea(run2, 17, out, R14, at_b(Rax, 1));
    let n1 = out.set(R14, n as u64);
    assert(n1.address(world, scaled8(R14, 16)) == 16 + 8 * n);
    lemma_lea(run2, 18, n1, Rcx, scaled8(R14, 16));
    let calling = n1.set(Rcx, (16 + 8 * n) as u64);
    lemma_call(run2, 19, calling, Symbol::HeapAlloc);
    lemma_saved_stays(m1.mem, calling.mem, top, regs, m.regs);
    assert forall|back: Machine, outcome: Outcome| #[trigger]
        ends_in(world, program, 20, back, outcome) && ends_in(
            world,
            (world.code)(Symbol::HeapAlloc),
            0,
            entered(world, program, 20, calling),
            Outcome::Returned(back),
        ) && returned_home(world, program, 20, calling, back) implies ends_in(
        world,
        program,
        0,
        m,
        outcome,
    ) by {
        law_call(world, program, 17, out, Symbol::HeapAlloc, 20, calling, back, outcome);
        law_call(world, program, 0, m, Symbol::StrCount, 17, counting, out, outcome);
    }
    assert forall|trap: Machine| #[trigger]
        ends_in(
            world,
            (world.code)(Symbol::HeapAlloc),
            0,
            entered(world, program, 20, calling),
            Outcome::Trapped(trap),
        ) implies ends_in(world, program, 0, m, Outcome::Trapped(trap)) by {
        law_call_traps(world, program, 17, out, Symbol::HeapAlloc, 20, calling, trap);
        law_call(
            world,
            program,
            0,
            m,
            Symbol::StrCount,
            17,
            counting,
            out,
            Outcome::Trapped(trap),
        );
    }
    calling
}

/// The list, empty but for its lengths, and the start of the loop.
#[verifier::rlimit(40)]
proof fn lemma_split_start(
    world: World,
    m: Machine,
    calling: Machine,
    out: Machine,
    blocks: Seq<u64>,
    left: Seq<u64>,
    text: Seq<u8>,
    sep: Seq<u8>,
) -> (now: Machine)
    requires
        can_split(world, m, blocks, text, sep),
        0 < sep.len(),
        ({
            let top = m.regs[Rsp] as int;
            let n = fields_from(text, sep, 0).len();
            &&& calling.regs[Rsp] == top - 104
            &&& calling.regs[R12] == m.regs[Rcx]
            &&& calling.regs[R13] == m.regs[Rdx]
            &&& calling.regs[R14] == n
            &&& 0 < n <= text.len() + 1
            &&& kept(m.mem, calling.mem, top - 192, top)
            &&& saved(calling.mem, top, split_saves(), m.regs)
            &&& forall|reg: Reg|
                !volatile(reg) && reg != Rsp && !among(reg, split_saves())
                    ==> #[trigger] calling.regs[reg] == m.regs[reg]
            &&& allocated(world, calling, out, blocks, left, 16 + 8 * n as int)
        }),
    ensures
        comes_to(world, str_split_program(), 20, out, Outcome::At(26, now)),
        split_round(
            world,
            m,
            now,
            blocks,
            left,
            text,
            sep,
            out.regs[Rax],
            Seq::empty(),
            0,
        ),
        spare(world, m.mem) - (39 + 8 * fields_from(text, sep, 0).len()) <= spare(world, now.mem),
{
    let program = str_split_program();
    let run = Run { world, program, start: 20, before: out };
    let regs = split_saves();
    let top = m.regs[Rsp] as int;
    let fields = fields_from(text, sep, 0);
    let n = fields.len() as u64;
    let size = 16 + 8 * n;
    let list = out.regs[Rax];
    let record = m.regs[Rcx];
    lemma_split_saves();
    assert(program.len() == 60);
    lemma_at_the_call(world, m, calling, blocks, 192, size);
    lemma_span_stays(world, m, calling, out, blocks, left, size, 192, top - 192, 192);
    lemma_begin(run);
    lemma_mov(run, 20, out, Rbx, Rax);
    let n1 = out.set(Rbx, list);
    assert(n1.address(world, at_b(Rbx, 0)) == list);
    lemma_store(run, 21, n1, at_b(Rbx, 0), R14);
    let n2 = n1.store(Width::Quad, list as int, n as int);
    assert(n2.address(world, at_b(Rbx, 8)) == list + 8);
    lemma_store(run, 22, n2, at_b(Rbx, 8), R14);
    let n3 = n2.store(Width::Quad, list + 8, n as int);
    assert(n3.mem == with_lengths(out.mem, list, n, n));
    lemma_lengths(out.mem, list, n, n);
    let n4 = lemma_zero_d(run, 23, n3, Rsi);
    let n5 = lemma_zero_d(run, 24, n4, Rdi);
    lemma_built(world, m, calling, out, n3.mem, blocks, left, size, 192);
    assert(m == Machine { mem: m.mem, ..m });
    lemma_hold_built(
        world,
        m,
        m.mem,
        n3.mem,
        blocks,
        blocks,
        left,
        Seq::empty(),
        size,
        list,
        192,
    );
    assert(Seq::<u64>::empty().push(list) =~= seq![list] + Seq::<u64>::empty() + Seq::<u64>::empty());
    lemma_string_stays(world, m, n3.mem, blocks, left, 192, record, text);
    assert(n5.address(world, at_b(R12, 0)) == record);
    lemma_load(run, 25, n5, R15, at_b(R12, 0));
    let now = n5.set(R15, word_at(n5.mem, record as int));
    assert forall|p: int| top - 56 <= p < top implies #[trigger] (now.mem)(p) == (calling.mem)(p) by {
        assert((out.mem)(p) == (calling.mem)(p));
    }
    lemma_saved_stays(calling.mem, now.mem, top, regs, m.regs);
    lemma_chars_bounded(text);
    assert(text.take(0) =~= Seq::empty());
    assert(chars_in(text.take(0)) == 0);
    assert(fields.skip(0) =~= fields);
    now
}

/// What splitting takes off the rest of the region at most.
pub open spec fn whole_split_cost(text: Seq<u8>, sep: Seq<u8>) -> int {
    39 + 8 * fields_from(text, sep, 0).len() + split_cost(text, sep, 0)
}

/// `str_split` gives a fresh list of the parts of a text between the separators. An empty
/// separator traps. It takes memory from the allocator, and changes nothing else; it may
/// trap for want of room, but not when the rest of the region holds everything on the way.
#[verifier::rlimit(40)]
pub proof fn law_str_split(
    world: World,
    m: Machine,
    blocks: Seq<u64>,
    text: Seq<u8>,
    sep: Seq<u8>,
) -> (done: (Outcome, Seq<u64>, Seq<u64>))
    requires
        can_split(world, m, blocks, text, sep),
    ensures
        ({
            let (outcome, left, strings) = done;
            let room = whole_split_cost(text, sep) <= spare(world, m.mem);
            &&& ends_in(world, str_split_program(), 0, m, outcome)
            &&& outcome is Trapped || (outcome is Returned && splits(
                world,
                m,
                outcome->Returned_0,
                blocks,
                left,
                fields_from(text, sep, 0),
                strings,
            ))
            &&& sep.len() == 0 ==> outcome is Trapped
            &&& 0 < sep.len() && room ==> outcome is Returned
        }),
{
    let program = str_split_program();
    assert(program.len() == 60);
    if sep.len() == 0 {
        let m1 = lemma_split_empty(world, m, blocks, text, sep);
        (Outcome::Trapped(m1), blocks, Seq::empty())
    } else {
        let top = m.regs[Rsp] as int;
        let fields = fields_from(text, sep, 0);
        let size = 16 + 8 * fields.len() as int;
        law_fields_count_matches(text, sep, 0);
        lemma_split_cost(text, sep, 0);
        let calling = lemma_split_count(world, m, blocks, text, sep);
        lemma_at_the_call(world, m, calling, blocks, 192, size);
        let (out, left) = lemma_alloc_call(world, program, 20, calling, blocks);
        if has_room(world, m.mem, blocks, size) {
            let now = lemma_split_start(world, m, calling, out, blocks, left, text, sep);
            let (outcome, least, strings) = lemma_split_loop(
                world,
                m,
                now,
                blocks,
                left,
                text,
                sep,
                out.regs[Rax],
                Seq::empty(),
                0,
            );
            law_runs_into(world, program, 20, out, 26, now, outcome);
            (outcome, least, strings)
        } else {
            (Outcome::Trapped(out), left, Seq::empty())
        }
    }
}

/// The trap on an empty separator.
proof fn lemma_split_empty(
    world: World,
    m: Machine,
    blocks: Seq<u64>,
    text: Seq<u8>,
    sep: Seq<u8>,
) -> (after: Machine)
    requires
        can_split(world, m, blocks, text, sep),
        sep.len() == 0,
    ensures
        ends_in(world, str_split_program(), 0, m, Outcome::Trapped(after)),
{
    let program = str_split_program();
    let run = Run { world, program, start: 0, before: m };
    let regs = split_saves();
    let top = m.regs[Rsp] as int;
    let sep_record = m.regs[Rdx];
    lemma_split_saves();
    assert(program.len() == 60);
    assert(part_of(frame_head(regs, 48), program, 0));
    let m1 = lemma_frame_head(run, m, regs, 48);
    lemma_mov(run, 8, m1, R12, Rcx);
    let m2 = m1.set(R12, m.regs[Rcx]);
    lemma_mov(run, 9, m2, R13, Rdx);
    let m3 = m2.set(R13, sep_record);
    law_kept_bytes_keep_words(m.mem, m1.mem, top - 56, top, sep_record as int);
    assert(chars_in(sep) == 0);
    assert(m3.address(world, at_b(R13, 0)) == sep_record);
    lemma_load(run, 10, m3, Rax, at_b(R13, 0));
    let m4 = m3.set(Rax, 0);
    lemma_test(run, 11, m4, Rax);
    let m5 = m4.flagged(flags_of_bits(Width::Quad, 0));
    lemma_jcc(run, 12, m5, Ne, true, Hop::Forward(2));
    lemma_ud2(run, 13, m5);
    law_ends_alone(world, program, 0, m, Outcome::Trapped(m5));
    m5
}

} // verus!
