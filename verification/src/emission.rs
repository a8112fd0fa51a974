//! Emitting code that may be given up.
//!
//! Lowering appends code to a buffer and stops where it meets something it cannot lower.
//! What it appended up to there and why it stopped is its [`Emission`].

use crate::assembler::{
    assembled, law_assembled_size, law_code_sequencing_associates, law_code_sequencing_neutral,
    Code, CodeBuffer,
};
use crate::bytes::push_all;
use crate::image::addressable;
use crate::x86::Insn;
use vstd::prelude::*;

verus! {

/// What a piece of lowering appends, and why it stopped early if it did.
#[verifier::ext_equal]
pub struct Emission {
    pub code: Code,
    pub error: Option<Seq<char>>,
}

impl Emission {
    /// Nothing appended.
    pub open spec fn nothing() -> Emission {
        Emission { code: Code::empty(), error: None }
    }

    /// Code appended to the end.
    pub open spec fn of(code: Code) -> Emission {
        Emission { code, error: None }
    }

    /// The code of a program.
    pub open spec fn of_program(program: Seq<Insn>) -> Emission {
        Emission::of(assembled(program))
    }

    /// Giving up at once.
    pub open spec fn refused(why: Seq<char>) -> Emission {
        Emission { code: Code::empty(), error: Some(why) }
    }

    /// This, and `next` if this did not stop early.
    pub open spec fn then_emit(self, next: Emission) -> Emission {
        if self.error is Some {
            self
        } else {
            Emission { code: self.code.then_code(next.code), error: next.error }
        }
    }
}

/// Emitting in sequence is associative.
pub proof fn law_emitting_associates(a: Emission, b: Emission, c: Emission)
    ensures
        a.then_emit(b).then_emit(c) == a.then_emit(b.then_emit(c)),
{
    law_code_sequencing_associates(a.code, b.code, c.code);
}

/// Emitting nothing changes nothing.
pub proof fn law_emitting_nothing(a: Emission)
    ensures
        a.then_emit(Emission::nothing()) == a,
        Emission::nothing().then_emit(a) == a,
{
    law_code_sequencing_neutral(a.code);
}

/// Parts emitted one behind the other.
pub open spec fn in_order(parts: Seq<Emission>) -> Emission
    decreases parts.len(),
{
    if parts.len() == 0 {
        Emission::nothing()
    } else {
        in_order(parts.drop_last()).then_emit(parts.last())
    }
}

/// Emitting parts in order starts with the first of them.
pub proof fn law_first_part_comes_first(first: Emission, rest: Seq<Emission>)
    ensures
        in_order(seq![first] + rest) == first.then_emit(in_order(rest)),
    decreases rest.len(),
{
    let all = seq![first] + rest;
    assert(all.last() == if rest.len() == 0 {
        first
    } else {
        rest.last()
    });
    if rest.len() == 0 {
        assert(all.drop_last().len() == 0);
        assert(in_order(all.drop_last()) == Emission::nothing());
        assert(in_order(rest) == Emission::nothing());
        law_emitting_nothing(first);
    } else {
        assert(all.drop_last() =~= seq![first] + rest.drop_last());
        law_first_part_comes_first(first, rest.drop_last());
        law_emitting_associates(first, in_order(rest.drop_last()), rest.last());
    }
}

/// Parts that are all emitted to their ends stand whole and in order in the code: a part's code
/// comes right behind the code of the parts before it.
pub proof fn law_parts_stand_in_order(parts: Seq<Emission>, k: int)
    requires
        0 <= k < parts.len(),
        in_order(parts).error is None,
    ensures
        parts[k].error is None,
        in_order(parts.take(k)).error is None,
        ({
            let from = in_order(parts.take(k)).code.bytes.len() as int;
            let to = from + parts[k].code.bytes.len();
            let all = in_order(parts).code;
            &&& to <= all.bytes.len()
            &&& all.bytes.subrange(from, to) == parts[k].code.bytes
        }),
    decreases parts.len(),
{
    let before = in_order(parts.drop_last());
    let from = in_order(parts.take(k)).code.bytes.len() as int;
    let to = from + parts[k].code.bytes.len();
    let all = in_order(parts).code;
    if k == parts.len() - 1 {
        assert(parts.take(k) =~= parts.drop_last());
        assert(all.bytes.subrange(from, to) =~= parts[k].code.bytes);
    } else {
        law_parts_stand_in_order(parts.drop_last(), k);
        assert(parts.drop_last().take(k) =~= parts.take(k));
        assert(parts.drop_last()[k] == parts[k]);
        assert(all.bytes.subrange(from, to) =~= before.code.bytes.subrange(from, to));
    }
}

/// Whether `result` tells that `emission` stopped early, and why.
pub open spec fn tells(result: Result<(), String>, emission: Emission) -> bool {
    match result {
        Ok(_) => emission.error is None,
        Err(why) => emission.error == Some(why@),
    }
}

/// Whether `emission` can be appended to `before`: every offset fits in 32 bits.
pub open spec fn fits(before: Code, emission: Emission) -> bool {
    addressable(before.then_code(emission.code))
}

/// Appending step by step: `first`, then `rest`.
pub proof fn lemma_emit_step(before: Code, first: Emission, rest: Emission)
    requires
        fits(before, first.then_emit(rest)),
    ensures
        fits(before, first),
        first.error is Some ==> first.then_emit(rest) == first,
        first.error is None ==> {
            &&& first.then_emit(rest).error == rest.error
            &&& before.then_code(first.then_emit(rest).code) == before.then_code(
                first.code,
            ).then_code(rest.code)
            &&& fits(before.then_code(first.code), rest)
        },
{
    if first.error is None {
        law_code_sequencing_associates(before, first.code, rest.code);
        let whole = before.then_code(first.code).then_code(rest.code);
        let part = before.then_code(first.code);
        assert forall|j: int| 0 <= j < part.refs.len() implies (#[trigger] part.refs[j]).offset
            <= u32::MAX by {
            assert(whole.refs[j] == part.refs[j]);
        }
    }
}

/// The last step of appending.
pub proof fn lemma_emit_nothing(before: Code)
    ensures
        before.then_code(Emission::nothing().code) == before,
        before.then_code(Code::empty()) == before,
{
    law_code_sequencing_neutral(before);
}

/// Emitted code, and why lowering stopped if it did.
#[derive(Debug, PartialEq, Eq)]
pub struct Emitted {
    pub code: CodeBuffer,
    pub error: Option<String>,
}

impl View for Emitted {
    type V = Emission;

    open spec fn view(&self) -> Emission {
        Emission {
            code: self.code@,
            error: match self.error {
                Some(why) => Some(why@),
                None => None,
            },
        }
    }
}

impl Emitted {
    /// Code emitted to the end.
    pub fn done(code: CodeBuffer) -> (emitted: Emitted)
        ensures
            emitted@ == Emission::of(code@),
    {
        Emitted { code, error: None }
    }

    /// Giving up before any code.
    pub fn refused(why: &str) -> (emitted: Emitted)
        ensures
            emitted@ == Emission::refused(why@),
    {
        Emitted { code: CodeBuffer::new(), error: Some(why.to_owned()) }
    }
}

/// Appends what was emitted.
pub fn emit(code: &mut CodeBuffer, emitted: &Emitted) -> (result: Result<(), String>)
    requires
        fits(old(code)@, emitted@),
    ensures
        final(code)@ == old(code)@.then_code(emitted@.code),
        tells(result, emitted@),
{
    proof {
        lemma_append_fits(code@, emitted.code);
    }
    code.append(&emitted.code);
    match &emitted.error {
        Some(why) => Err(why.clone()),
        None => Ok(()),
    }
}

proof fn lemma_append_fits(before: Code, more: CodeBuffer)
    requires
        addressable(before.then_code(more@)),
    ensures
        before.bytes.len() <= u32::MAX,
        forall|j: int|
            0 <= j < more.relocations@.len() ==> before.bytes.len()
                + #[trigger] more.relocations@[j].offset <= u32::MAX,
{
    let whole = before.then_code(more@);
    assert forall|j: int| 0 <= j < more.relocations@.len() implies before.bytes.len()
        + #[trigger] more.relocations@[j].offset <= u32::MAX by {
        let k = before.refs.len() + j;
        assert(whole.refs[k].offset == more.relocations@[j].offset + before.bytes.len());
    }
}

/// Appends the code of a program.
pub fn emit_program(code: &mut CodeBuffer, program: &Vec<Insn>)
    requires
        program@.len() <= 0x100_0000,
        fits(old(code)@, Emission::of_program(program@)),
    ensures
        final(code)@ == old(code)@.then_code(assembled(program@)),
{
    proof {
        law_assembled_size(program@);
    }
    code.append_program(program);
}

/// Appends the code of one instruction.
pub fn emit_insn(code: &mut CodeBuffer, insn: Insn)
    requires
        fits(old(code)@, Emission::of_program(seq![insn])),
    ensures
        final(code)@ == old(code)@.then_code(assembled(seq![insn])),
{
    let program = vec![insn];
    assert(program@ =~= seq![insn]);
    emit_program(code, &program);
}

/// Appends what was emitted and then, unless that stopped early, a program.
pub fn emit_then_program(code: &mut CodeBuffer, emitted: &Emitted, program: &Vec<Insn>) -> (result:
    Result<(), String>)
    requires
        program@.len() <= 0x100_0000,
        fits(old(code)@, emitted@.then_emit(Emission::of_program(program@))),
    ensures
        final(code)@ == old(code)@.then_code(
            emitted@.then_emit(Emission::of_program(program@)).code,
        ),
        tells(result, emitted@.then_emit(Emission::of_program(program@))),
{
    proof {
        lemma_emit_step(code@, emitted@, Emission::of_program(program@));
    }
    match emit(code, emitted) {
        Ok(_) => {},
        Err(why) => {
            return Err(why);
        },
    }
    emit_program(code, program);
    Ok(())
}

/// Appends what was emitted and then, unless that stopped early, an instruction.
pub fn emit_then_insn(code: &mut CodeBuffer, emitted: &Emitted, insn: Insn) -> (result: Result<
    (),
    String,
>)
    requires
        fits(old(code)@, emitted@.then_emit(Emission::of_program(seq![insn]))),
    ensures
        final(code)@ == old(code)@.then_code(
            emitted@.then_emit(Emission::of_program(seq![insn])).code,
        ),
        tells(result, emitted@.then_emit(Emission::of_program(seq![insn]))),
{
    let program = vec![insn];
    assert(program@ =~= seq![insn]);
    emit_then_program(code, emitted, &program)
}

/// Appends code.
pub fn emit_code(code: &mut CodeBuffer, more: &CodeBuffer)
    requires
        fits(old(code)@, Emission::of(more@)),
    ensures
        final(code)@ == old(code)@.then_code(more@),
{
    proof {
        lemma_append_fits(code@, *more);
    }
    code.append(more);
}

/// Appends bytes that refer to nothing.
pub fn emit_bytes(code: &mut CodeBuffer, bytes: &Vec<u8>)
    ensures
        final(code)@ == old(code)@.then_code(Code { bytes: bytes@, refs: seq![] }),
{
    push_all(&mut code.code, bytes);
    assert(code@ =~= old(code)@.then_code(Code { bytes: bytes@, refs: seq![] }));
}

} // verus!
