//! Laying out a program's code: the entry stub, then every routine at the next
//! 16-byte boundary.

use crate::assembler::{
    law_sequencing_keeps_tidy, references, tidy, Code, CodeBuffer, CodeRelocation,
};
use vstd::prelude::*;

verus! {

/// A compiled function: its machine code, the symbols that code refers to, and its
/// source declaration line.
#[derive(Debug, PartialEq, Eq)]
pub struct LoweredNativeFunction {
    pub name: String,
    pub code: Vec<u8>,
    pub relocations: Vec<CodeRelocation>,
    pub line: u32,
}

/// A named piece of code.
pub struct Blob {
    pub name: Seq<char>,
    pub code: Code,
}

impl View for LoweredNativeFunction {
    type V = Blob;

    open spec fn view(&self) -> Blob {
        Blob {
            name: self.name@,
            code: Code { bytes: self.code@, refs: references(self.relocations@) },
        }
    }
}

/// The routines a function list stands for.
pub open spec fn function_blobs(functions: Seq<LoweredNativeFunction>) -> Seq<Blob> {
    functions.map_values(|f: LoweredNativeFunction| f@)
}

/// How many bytes bring `len` to a multiple of sixteen.
pub open spec fn pad16(len: int) -> int {
    (16 - len % 16) % 16
}

/// Code padded with `int3` to a 16-byte boundary.
pub open spec fn padded(text: Code) -> Code {
    Code {
        bytes: text.bytes + Seq::new(pad16(text.bytes.len() as int) as nat, |i: int| 0xCCu8),
        refs: text.refs,
    }
}

/// The code of `stub` followed by the first `n` routines, each at the next 16-byte
/// boundary.
pub open spec fn image(stub: Code, blobs: Seq<Blob>, n: int) -> Code
    decreases n,
{
    if n <= 0 {
        stub
    } else {
        padded(image(stub, blobs, n - 1)).then_code(blobs[n - 1].code)
    }
}

/// Where routine `i` starts.
pub open spec fn start_of(stub: Code, blobs: Seq<Blob>, i: int) -> int {
    padded(image(stub, blobs, i)).bytes.len() as int
}

/// The last of the first `n` routines called `name`, or -1.
pub open spec fn last_named(blobs: Seq<Blob>, name: Seq<char>, n: int) -> int
    decreases n,
{
    if n <= 0 {
        -1
    } else if blobs[n - 1].name == name {
        n - 1
    } else {
        last_named(blobs, name, n - 1)
    }
}

/// The offset that `name` stands for: where the last routine of that name starts.
pub open spec fn offset_of(stub: Code, blobs: Seq<Blob>, name: Seq<char>) -> int {
    start_of(stub, blobs, last_named(blobs, name, blobs.len() as int))
}

/// Whether every offset into the image fits in 32 bits.
pub open spec fn addressable(text: Code) -> bool {
    &&& text.bytes.len() <= u32::MAX
    &&& forall|j: int| 0 <= j < text.refs.len() ==> (#[trigger] text.refs[j]).offset <= u32::MAX
}

/// Routines start at multiples of sixteen and stand whole in the image.
pub proof fn law_routines_are_aligned(stub: Code, blobs: Seq<Blob>, i: int, n: int)
    requires
        0 <= i < n <= blobs.len(),
    ensures
        start_of(stub, blobs, i) % 16 == 0,
        stub.bytes.len() <= start_of(stub, blobs, i),
        start_of(stub, blobs, i) + blobs[i].code.bytes.len() <= image(stub, blobs, n).bytes.len(),
        image(stub, blobs, n).bytes.subrange(
            start_of(stub, blobs, i),
            start_of(stub, blobs, i) + blobs[i].code.bytes.len(),
        ) == blobs[i].code.bytes,
    decreases n,
{
    lemma_image_grows(stub, blobs, 0, i);
    let from = start_of(stub, blobs, i);
    let to = from + blobs[i].code.bytes.len();
    if i < n - 1 {
        law_routines_are_aligned(stub, blobs, i, n - 1);
        assert(image(stub, blobs, n).bytes.subrange(from, to) =~= image(
            stub,
            blobs,
            n - 1,
        ).bytes.subrange(from, to));
    } else {
        assert(image(stub, blobs, n).bytes.subrange(from, to) =~= blobs[i].code.bytes);
    }
}

/// The image only grows, at both ends of its lists.
pub proof fn lemma_image_grows(stub: Code, blobs: Seq<Blob>, i: int, n: int)
    requires
        0 <= i <= n <= blobs.len(),
    ensures
        image(stub, blobs, i).bytes.len() <= image(stub, blobs, n).bytes.len(),
        image(stub, blobs, i).refs.len() <= image(stub, blobs, n).refs.len(),
        forall|j: int|
            0 <= j < image(stub, blobs, i).refs.len() ==> image(stub, blobs, n).refs[j] == image(
                stub,
                blobs,
                i,
            ).refs[j],
    decreases n,
{
    if i < n {
        lemma_image_grows(stub, blobs, i, n - 1);
    }
}

/// A last-named search finds a routine of that name, or there is none.
pub proof fn lemma_last_named(blobs: Seq<Blob>, name: Seq<char>, n: int)
    requires
        0 <= n <= blobs.len(),
    ensures
        ({
            let i = last_named(blobs, name, n);
            if i < 0 {
                &&& i == -1
                &&& forall|k: int| 0 <= k < n ==> (#[trigger] blobs[k]).name != name
            } else {
                &&& i < n
                &&& blobs[i].name == name
                &&& forall|k: int| i < k < n ==> (#[trigger] blobs[k]).name != name
            }
        }),
    decreases n,
{
    if n > 0 && blobs[n - 1].name != name {
        lemma_last_named(blobs, name, n - 1);
    }
}

/// Laying out tidy routines behind a tidy stub gives a tidy image: the references of
/// the whole code are fields inside it, in ascending order.
pub proof fn law_image_is_tidy(stub: Code, blobs: Seq<Blob>, n: int)
    requires
        0 <= n <= blobs.len(),
        tidy(stub),
        forall|i: int| 0 <= i < blobs.len() ==> tidy((#[trigger] blobs[i]).code),
    ensures
        tidy(image(stub, blobs, n)),
    decreases n,
{
    if n > 0 {
        law_image_is_tidy(stub, blobs, n - 1);
        let before = image(stub, blobs, n - 1);
        assert(tidy(padded(before)));
        assert(tidy(blobs[n - 1].code));
        law_sequencing_keeps_tidy(padded(before), blobs[n - 1].code);
    }
}

/// Whether the references of `code` start inside it, in strictly ascending order.
pub open spec fn ordered(code: Code) -> bool {
    &&& forall|j: int|
        0 <= j < code.refs.len() ==> 0 <= (#[trigger] code.refs[j]).offset < code.bytes.len()
    &&& forall|i: int, j: int|
        0 <= i < j < code.refs.len() ==> (#[trigger] code.refs[i]).offset < (
        #[trigger] code.refs[j]).offset
}

/// Whether the four bytes of every reference of `code` lie inside it.
pub open spec fn fields_inside(code: Code) -> bool {
    forall|j: int|
        0 <= j < code.refs.len() ==> 0 <= (#[trigger] code.refs[j]).offset && code.refs[j].offset
            + 4 <= code.bytes.len()
}

/// Laying out ordered routines behind an ordered stub gives an ordered image.
pub proof fn law_image_is_ordered(stub: Code, blobs: Seq<Blob>, n: int)
    requires
        0 <= n <= blobs.len(),
        ordered(stub),
        forall|i: int| 0 <= i < blobs.len() ==> ordered((#[trigger] blobs[i]).code),
    ensures
        ordered(image(stub, blobs, n)),
    decreases n,
{
    if n > 0 {
        law_image_is_ordered(stub, blobs, n - 1);
        let before = padded(image(stub, blobs, n - 1));
        let last = blobs[n - 1].code;
        let whole = image(stub, blobs, n);
        let k = before.refs.len() as int;
        assert(ordered(before));
        assert(ordered(last));
        assert forall|j: int| 0 <= j < whole.refs.len() implies 0 <= (
        #[trigger] whole.refs[j]).offset < whole.bytes.len() by {
            if j < k {
                assert(whole.refs[j] == before.refs[j]);
            } else {
                assert(whole.refs[j].offset == last.refs[j - k].offset + before.bytes.len());
            }
        }
        assert forall|i: int, j: int| 0 <= i < j < whole.refs.len() implies (
        #[trigger] whole.refs[i]).offset < (#[trigger] whole.refs[j]).offset by {
            if i < k {
                assert(whole.refs[i] == before.refs[i]);
            } else {
                assert(whole.refs[i].offset == last.refs[i - k].offset + before.bytes.len());
            }
            if j < k {
                assert(whole.refs[j] == before.refs[j]);
            } else {
                assert(whole.refs[j].offset == last.refs[j - k].offset + before.bytes.len());
            }
        }
    }
}

/// Where every routine holds the fields of its references, the image holds all of them.
pub proof fn law_image_fields_inside(stub: Code, blobs: Seq<Blob>, n: int)
    requires
        0 <= n <= blobs.len(),
        fields_inside(stub),
        forall|i: int| 0 <= i < blobs.len() ==> fields_inside((#[trigger] blobs[i]).code),
    ensures
        fields_inside(image(stub, blobs, n)),
    decreases n,
{
    if n > 0 {
        law_image_fields_inside(stub, blobs, n - 1);
        let before = padded(image(stub, blobs, n - 1));
        let last = blobs[n - 1].code;
        let whole = image(stub, blobs, n);
        let k = before.refs.len() as int;
        assert(fields_inside(before));
        assert(fields_inside(last));
        assert forall|j: int| 0 <= j < whole.refs.len() implies 0 <= (
        #[trigger] whole.refs[j]).offset && whole.refs[j].offset + 4 <= whole.bytes.len() by {
            if j < k {
                assert(whole.refs[j] == before.refs[j]);
            } else {
                assert(whole.refs[j].offset == last.refs[j - k].offset + before.bytes.len());
            }
        }
    }
}

/// The code laid out so far, with the name and place of each routine.
pub struct TextImage {
    pub buffer: CodeBuffer,
    pub names: Vec<String>,
    pub starts: Vec<u32>,
}

impl TextImage {
    /// Whether this is the layout of `stub` and all of `blobs`.
    pub open spec fn lays_out(self, stub: Code, blobs: Seq<Blob>) -> bool {
        &&& self.buffer@ == image(stub, blobs, blobs.len() as int)
        &&& self.names@.len() == blobs.len()
        &&& self.starts@.len() == blobs.len()
        &&& forall|i: int|
            0 <= i < blobs.len() ==> (#[trigger] self.names@[i])@ == blobs[i].name
        &&& forall|i: int|
            0 <= i < blobs.len() ==> (#[trigger] self.starts@[i]) == start_of(stub, blobs, i)
    }

    /// Starts a layout with the code of a stub.
    pub fn new(stub: CodeBuffer) -> (text: TextImage)
        ensures
            text.lays_out(stub@, seq![]),
    {
        TextImage { buffer: stub, names: Vec::new(), starts: Vec::new() }
    }

    /// Places one more routine.
    pub(crate) fn append_routine(
        &mut self,
        name: &String,
        code: &Vec<u8>,
        relocations: &Vec<CodeRelocation>,
        Ghost(stub): Ghost<Code>,
        Ghost(blobs): Ghost<Seq<Blob>>,
    )
        requires
            old(self).lays_out(stub, blobs),
            ({
                let blob = Blob {
                    name: name@,
                    code: Code { bytes: code@, refs: references(relocations@) },
                };
                addressable(image(stub, blobs.push(blob), blobs.len() as int + 1))
            }),
        ensures
            final(self).lays_out(
                stub,
                blobs.push(
                    Blob {
                        name: name@,
                        code: Code { bytes: code@, refs: references(relocations@) },
                    },
                ),
            ),
    {
        let ghost blob = Blob {
            name: name@,
            code: Code { bytes: code@, refs: references(relocations@) },
        };
        let ghost all = blobs.push(blob);
        let ghost n = blobs.len() as int;
        proof {
            lemma_image_prefix(stub, blobs, all, n);
        }
        let ghost whole = image(stub, all, n + 1);
        let ghost before = self.buffer@;
        while self.buffer.code.len() % 16 != 0
            invariant
                before.bytes.len() <= self.buffer@.bytes.len() <= padded(before).bytes.len(),
                self.buffer@.bytes == padded(before).bytes.take(self.buffer@.bytes.len() as int),
                self.buffer@.refs == before.refs,
                self.buffer.code@.len() <= u32::MAX,
                padded(before).bytes.len() <= u32::MAX,
                self.names@ == old(self).names@,
                self.starts@ == old(self).starts@,
            decreases padded(before).bytes.len() - self.buffer.code@.len(),
        {
            let ghost length = self.buffer.code@.len() as int;
            assert(length < padded(before).bytes.len());
            self.buffer.code.push(0xCC);
            proof {
                assert(self.buffer@.bytes =~= padded(before).bytes.take(length + 1));
            }
        }
        proof {
            assert(self.buffer@.bytes.len() == padded(before).bytes.len());
            assert(self.buffer@.bytes =~= padded(before).bytes);
            assert(self.buffer@ =~= padded(before));
        }
        let start: u32 = self.buffer.code.len() as u32;
        proof {
            assert forall|j: int| 0 <= j < relocations@.len() implies self.buffer@.bytes.len()
                + #[trigger] relocations@[j].offset <= u32::MAX by {
                let k = before.refs.len() + j;
                assert(whole.refs[k].offset == relocations@[j].offset
                    + self.buffer@.bytes.len());
            }
        }
        self.names.push(name.clone());
        self.starts.push(start);
        self.buffer.append_code(code, relocations);
        proof {
            assert(self.buffer@ == image(stub, all, n + 1));
            assert forall|i: int| 0 <= i < all.len() implies (#[trigger] self.starts@[i])
                == start_of(stub, all, i) by {
                lemma_image_prefix(stub, blobs, all, if i < n {
                    i
                } else {
                    n
                });
            }
        }
    }

    /// The place of the last routine called `name`.
    pub(crate) fn offset_of(
        &self,
        name: &str,
        Ghost(stub): Ghost<Code>,
        Ghost(blobs): Ghost<Seq<Blob>>,
    ) -> (offset: u32)
        requires
            self.lays_out(stub, blobs),
            exists|i: int| 0 <= i < blobs.len() && (#[trigger] blobs[i]).name == name@,
        ensures
            offset == offset_of(stub, blobs, name@),
    {
        let wanted = name.to_owned();
        let mut i: usize = self.names.len();
        proof {
            lemma_last_named(blobs, name@, blobs.len() as int);
        }
        while i > 0
            invariant
                i <= blobs.len(),
                self.lays_out(stub, blobs),
                wanted@ == name@,
                last_named(blobs, name@, blobs.len() as int) == last_named(
                    blobs,
                    name@,
                    i as int,
                ),
            decreases i,
        {
            if self.names[i - 1] == wanted {
                return self.starts[i - 1];
            }
            i -= 1;
        }
        proof {
            assert(false);
        }
        0
    }
}

/// The layout of the first `n` routines does not depend on what follows them.
pub proof fn lemma_image_prefix(stub: Code, a: Seq<Blob>, b: Seq<Blob>, n: int)
    requires
        0 <= n <= a.len(),
        n <= b.len(),
        forall|i: int| 0 <= i < n ==> a[i] == b[i],
    ensures
        image(stub, a, n) == image(stub, b, n),
    decreases n,
{
    if n > 0 {
        lemma_image_prefix(stub, a, b, n - 1);
        assert(a[n - 1] == b[n - 1]);
    }
}

} // verus!
