//! The fields of a text between separators.

use crate::behavior::characters::{char_offset, law_offsets_count_characters, starts_clean};
use crate::behavior::joining::joined;
use crate::behavior::search::{chars_in, continues, matches_from, occurs_at};
use crate::behavior::strings::law_chars_add_up;
use vstd::prelude::*;

verus! {

/// The first byte from `pos` on where `sep` stands in `text`, or -1.
pub open spec fn next_match(text: Seq<u8>, sep: Seq<u8>, pos: int) -> int
    decreases text.len() - pos + 1,
{
    if pos < 0 || pos + sep.len() > text.len() {
        -1
    } else if occurs_at(text, sep, pos) {
        pos
    } else {
        next_match(text, sep, pos + 1)
    }
}

/// The parts of `text` from byte `pos` on that lie between occurrences of `sep`.
pub open spec fn fields_from(text: Seq<u8>, sep: Seq<u8>, pos: int) -> Seq<Seq<u8>>
    decreases text.len() - pos,
{
    let next = next_match(text, sep, pos);
    if sep.len() == 0 || pos < 0 || next < pos || next + sep.len() > text.len() {
        seq![text.skip(pos)]
    } else {
        seq![text.subrange(pos, next)] + fields_from(text, sep, next + sep.len())
    }
}

pub proof fn lemma_next_match(text: Seq<u8>, sep: Seq<u8>, pos: int)
    requires
        0 <= pos,
    ensures
        ({
            let next = next_match(text, sep, pos);
            &&& next == -1 || (pos <= next && occurs_at(text, sep, next))
            &&& forall|p: int| #[trigger]
                occurs_at(text, sep, p) && pos <= p ==> next != -1 && next <= p
        }),
    decreases text.len() - pos + 1,
{
    if pos + sep.len() <= text.len() && !occurs_at(text, sep, pos) {
        lemma_next_match(text, sep, pos + 1);
    }
}

/// There is one field more than there are occurrences that do not overlap.
pub proof fn law_fields_count_matches(text: Seq<u8>, sep: Seq<u8>, pos: int)
    requires
        0 <= pos <= text.len(),
        0 < sep.len(),
    ensures
        fields_from(text, sep, pos).len() == matches_from(text, sep, pos) + 1,
    decreases text.len() - pos,
{
    let next = next_match(text, sep, pos);
    lemma_next_match(text, sep, pos);
    lemma_matches_at_next(text, sep, pos);
    if next >= pos && pos + sep.len() <= text.len() {
        law_fields_count_matches(text, sep, next + sep.len());
    }
}

proof fn lemma_matches_at_next(text: Seq<u8>, sep: Seq<u8>, pos: int)
    requires
        0 <= pos <= text.len(),
        0 < sep.len(),
    ensures
        ({
            let next = next_match(text, sep, pos);
            &&& next == -1 ==> matches_from(text, sep, pos) == 0
            &&& next != -1 ==> matches_from(text, sep, pos) == 1 + matches_from(
                text,
                sep,
                next + sep.len(),
            )
        }),
    decreases text.len() - pos,
{
    if pos + sep.len() <= text.len() && !occurs_at(text, sep, pos) {
        lemma_matches_at_next(text, sep, pos + 1);
    }
}

/// Joining a text to the front.
proof fn lemma_joined_front(first: Seq<u8>, rest: Seq<Seq<u8>>, sep: Seq<u8>)
    requires
        0 < rest.len(),
    ensures
        joined(seq![first] + rest, sep) == first + sep + joined(rest, sep),
    decreases rest.len(),
{
    let all = seq![first] + rest;
    if rest.len() == 1 {
        assert(all.drop_last() =~= seq![first]);
        assert(joined(seq![first], sep) == first);
    } else {
        lemma_joined_front(first, rest.drop_last(), sep);
        assert(all.drop_last() =~= seq![first] + rest.drop_last());
        assert(all.last() == rest.last());
        assert(joined(all, sep) =~= first + sep + joined(rest, sep));
    }
}

/// Joining the fields of a text with the separator gives the text back.
pub proof fn law_joining_undoes_splitting(text: Seq<u8>, sep: Seq<u8>, pos: int)
    requires
        0 <= pos <= text.len(),
        0 < sep.len(),
    ensures
        joined(fields_from(text, sep, pos), sep) == text.skip(pos),
    decreases text.len() - pos,
{
    let next = next_match(text, sep, pos);
    lemma_next_match(text, sep, pos);
    if next >= pos && pos + sep.len() <= text.len() {
        let end = next + sep.len();
        let rest = fields_from(text, sep, end);
        law_joining_undoes_splitting(text, sep, end);
        law_fields_count_matches(text, sep, end);
        lemma_joined_front(text.subrange(pos, next), rest, sep);
        assert(text.skip(pos) =~= text.subrange(pos, next) + text.subrange(next, end) + text.skip(
            end,
        ));
    }
}

// Fields by their characters

/// Whether nothing is cut where `sep` ends in `text`: no byte there continues a character.
pub open spec fn cuts_clean(text: Seq<u8>, sep: Seq<u8>) -> bool {
    forall|p: int| #[trigger]
        occurs_at(text, sep, p) ==> p + sep.len() == text.len() || !continues(text[p + sep.len()])
}

/// Whether a character may start at a byte: it does not continue one, or it is the end.
pub open spec fn clean_at(text: Seq<u8>, b: int) -> bool {
    b == text.len() || !continues(text[b])
}

/// A byte where a character may start is found by how many characters start before it.
pub proof fn lemma_offset_of_count(text: Seq<u8>, b: int)
    requires
        starts_clean(text),
        0 <= b <= text.len(),
        clean_at(text, b),
    ensures
        chars_in(text.take(b)) <= chars_in(text),
        char_offset(text, chars_in(text.take(b)) as int) == b,
{
    let k = chars_in(text.take(b)) as int;
    assert(text =~= text.take(b) + text.skip(b));
    law_chars_add_up(text.take(b), text.skip(b));
    law_offsets_count_characters(text, k);
    let o = char_offset(text, k);
    if o < b {
        lemma_starts_between(text, o, b);
    } else if b < o {
        lemma_starts_between(text, b, o);
    }
}

/// From a byte that starts a character on there is at least one more.
proof fn lemma_starts_between(text: Seq<u8>, a: int, b: int)
    requires
        0 <= a < b <= text.len(),
        !continues(text[a]),
    ensures
        chars_in(text.take(a)) < chars_in(text.take(b)),
{
    let middle = text.subrange(a, b);
    assert(text.take(b) =~= text.take(a) + middle);
    law_chars_add_up(text.take(a), middle);
    let first = middle.take(1);
    assert(middle =~= first + middle.skip(1));
    law_chars_add_up(first, middle.skip(1));
    assert(first.drop_last() =~= Seq::empty());
    assert(chars_in(first.drop_last()) == 0);
    assert(first.last() == text[a]);
}

} // verus!
