//! The frame a function is lowered in.

use crate::layout::NativeType;
use crate::resolve::{message, IrStructDef};
use crate::x86::Reg;
use vstd::prelude::*;

verus! {

/// A local: its layout and the frame slot of its first word, in bytes below the frame
/// pointer.
#[derive(Debug, PartialEq, Eq)]
pub struct Local {
    pub ty: NativeType,
    pub slot: i32,
}

/// The planned frame of a function.
#[derive(Debug, PartialEq, Eq)]
pub struct NativeCtx {
    /// The bytes reserved below the frame pointer.
    pub frame_size: i32,
    /// The callee-saved registers in use, each with the slot its caller's value is kept
    /// in.
    pub saved_reg_slots: Vec<(Reg, i32)>,
    /// The slots whose local lives in a register instead.
    pub promoted: Vec<(i32, Reg)>,
    /// The locals by name.
    pub locals: Vec<(String, Local)>,
    /// The slot of the hidden result pointer of a function that returns an aggregate.
    pub sret_slot: Option<i32>,
    /// The layout the function returns.
    pub return_ty: NativeType,
    /// Whether the function allocates in an arena that it rewinds on return.
    pub is_arena: bool,
    /// Whether it returns a closure that the rewind must carry out of the arena.
    pub promotes_closure_return: bool,
    /// The slot that keeps the bump pointer the function was entered with.
    pub arena_mark_slot: i32,
    /// The slot that keeps the arena mode the function was entered with.
    pub arena_saved_mode_slot: i32,
    /// The slots that keep the bump pointer of each loop, by nesting depth.
    pub arena_loop_mark_slots: Vec<i32>,
    /// The declared structs.
    pub structs: Vec<IrStructDef>,
    /// The names of the compiled functions.
    pub callees: Vec<String>,
}

/// The slot `stride * index` bytes above the slot `base`.
#[verifier::allow_in_spec]
pub fn slot_above(base: i32, index: usize, stride: i32) -> i32
    returns
        (base.wrapping_sub((index as i32).wrapping_mul(stride))),
{
    base.wrapping_sub((index as i32).wrapping_mul(stride))
}

/// The first local from `i` on called `name`.
pub open spec fn find_local(locals: Seq<(String, Local)>, name: Seq<char>, i: int) -> Option<Local>
    decreases locals.len() - i,
{
    if i >= locals.len() {
        None
    } else if locals[i].0@ == name {
        Some(locals[i].1)
    } else {
        find_local(locals, name, i + 1)
    }
}

/// The register of the first promotion of `slot` from `i` on.
pub open spec fn find_promoted(promoted: Seq<(i32, Reg)>, slot: i32, i: int) -> Option<Reg>
    decreases promoted.len() - i,
{
    if i >= promoted.len() {
        None
    } else if promoted[i].0 == slot {
        Some(promoted[i].1)
    } else {
        find_promoted(promoted, slot, i + 1)
    }
}

/// Why a name is no local.
pub open spec fn unknown_local(name: Seq<char>) -> Seq<char> {
    "unknown local `"@ + name + "`"@
}

impl NativeCtx {
    /// The local called `name`.
    pub open spec fn local_of(self, name: Seq<char>) -> Option<Local> {
        find_local(self.locals@, name, 0)
    }

    /// The register that holds the local of `slot`.
    pub open spec fn register_of(self, slot: i32) -> Option<Reg> {
        find_promoted(self.promoted@, slot, 0)
    }

    /// Whether `name` is a compiled function.
    pub open spec fn compiled(self, name: Seq<char>) -> bool {
        exists|i: int| 0 <= i < self.callees@.len() && (#[trigger] self.callees@[i])@ == name
    }

    /// The local called `name`.
    pub fn find(&self, name: &String) -> (local: Option<&Local>)
        ensures
            match local {
                Some(local) => self.local_of(name@) == Some(*local),
                None => self.local_of(name@) is None,
            },
    {
        let mut i: usize = 0;
        while i < self.locals.len()
            invariant
                i <= self.locals@.len(),
                self.local_of(name@) == find_local(self.locals@, name@, i as int),
            decreases self.locals@.len() - i,
        {
            if self.locals[i].0 == *name {
                return Some(&self.locals[i].1);
            }
            i += 1;
        }
        None
    }

    /// The local called `name`, or why there is none.
    pub fn local(&self, name: &String) -> (result: Result<&Local, String>)
        ensures
            match result {
                Ok(local) => self.local_of(name@) == Some(*local),
                Err(why) => self.local_of(name@) is None && why@ == unknown_local(name@),
            },
    {
        match self.find(name) {
            Some(local) => Ok(local),
            None => Err(message("unknown local `", name.as_str(), "`")),
        }
    }

    /// The register that holds the local of `slot`.
    pub fn promoted_reg(&self, slot: i32) -> (reg: Option<Reg>)
        ensures
            reg == self.register_of(slot),
    {
        let mut i: usize = 0;
        while i < self.promoted.len()
            invariant
                i <= self.promoted@.len(),
                self.register_of(slot) == find_promoted(self.promoted@, slot, i as int),
            decreases self.promoted@.len() - i,
        {
            if self.promoted[i].0 == slot {
                return Some(self.promoted[i].1);
            }
            i += 1;
        }
        None
    }

    /// Whether `name` is a compiled function.
    pub fn is_compiled(&self, name: &String) -> (is: bool)
        ensures
            is == self.compiled(name@),
    {
        let mut i: usize = 0;
        while i < self.callees.len()
            invariant
                i <= self.callees@.len(),
                forall|k: int| 0 <= k < i ==> (#[trigger] self.callees@[k])@ != name@,
            decreases self.callees@.len() - i,
        {
            if self.callees[i] == *name {
                assert(self.callees@[i as int]@ == name@);
                return true;
            }
            i += 1;
        }
        false
    }
}

/// A search among locals finds the first of that name, and finds one wherever there is one.
pub proof fn law_first_local_is_found(locals: Seq<(String, Local)>, name: Seq<char>, i: int)
    requires
        0 <= i <= locals.len(),
    ensures
        match find_local(locals, name, i) {
            Some(local) => exists|k: int|
                i <= k < locals.len() && #[trigger] locals[k] == (locals[k].0, local)
                    && locals[k].0@ == name && forall|j: int|
                    i <= j < k ==> (#[trigger] locals[j]).0@ != name,
            None => forall|j: int| i <= j < locals.len() ==> (#[trigger] locals[j]).0@ != name,
        },
    decreases locals.len() - i,
{
    if i < locals.len() {
        if locals[i].0@ == name {
            assert(locals[i] == (locals[i].0, locals[i].1));
        } else {
            law_first_local_is_found(locals, name, i + 1);
        }
    }
}

/// A search among promotions finds the first of that slot, and finds one wherever there is
/// one.
pub proof fn law_first_promotion_is_found(promoted: Seq<(i32, Reg)>, slot: i32, i: int)
    requires
        0 <= i <= promoted.len(),
    ensures
        match find_promoted(promoted, slot, i) {
            Some(reg) => exists|k: int|
                i <= k < promoted.len() && #[trigger] promoted[k] == (slot, reg) && forall|j: int|
                    i <= j < k ==> (#[trigger] promoted[j]).0 != slot,
            None => forall|j: int| i <= j < promoted.len() ==> (#[trigger] promoted[j]).0 != slot,
        },
    decreases promoted.len() - i,
{
    if i < promoted.len() {
        if promoted[i].0 == slot {
            assert(promoted[i] == (slot, promoted[i].1));
        } else {
            law_first_promotion_is_found(promoted, slot, i + 1);
        }
    }
}

} // verus!
