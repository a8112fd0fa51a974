//! The instruction trees that functions are lowered from.
//!
//! An expression comes with the code that computes it in each way a statement may need
//! it. What statements make of that code is the business of the lowering modules.

use crate::emission::Emitted;
use crate::layout::NativeType;
use crate::spelling::TypeRef;
use crate::x86::FloatWidth;
use vstd::prelude::*;

verus! {

/// Binary operators.
#[derive(Clone, Copy, PartialEq, Eq, Structural, Debug)]
pub enum BinaryOp {
    Add,
    Subtract,
    Multiply,
    Divide,
    Remainder,
    BitAnd,
    BitOr,
    BitXor,
    ShiftLeft,
    ShiftRight,
    Equal,
    NotEqual,
    Less,
    LessEqual,
    Greater,
    GreaterEqual,
    And,
    Or,
}

/// Assignment operators: `=`, and the compound forms.
#[derive(Clone, Copy, PartialEq, Eq, Structural, Debug)]
pub enum AssignOp {
    Replace,
    Add,
    Subtract,
    Multiply,
    Divide,
    Remainder,
}

/// Where a scalar that is read or assigned lies.
#[derive(Debug, PartialEq, Eq)]
pub enum ScalarPlace {
    /// In a frame slot.
    Const { slot: i32 },
    /// An array element at a computed index: element 0 lies `const_bytes` above the base
    /// slot, and `address` leaves the element's address in `rcx`.
    Dynamic {
        base_slot: i32,
        const_bytes: i32,
        elem_bytes: i32,
        index_len: i64,
        address: Emitted,
    },
    /// An element of a fat-pointer array parameter, which is read-only.
    FatIndex,
}

/// A place with the layout of what lies there, or why there is none.
#[derive(Debug, PartialEq, Eq)]
pub struct TypedPlace {
    pub place: ScalarPlace,
    pub ty: NativeType,
}

/// The code of an expression.
#[derive(Debug, PartialEq, Eq)]
pub struct ExprCode {
    /// Leaves the value, a word, in `rax`.
    pub word: Emitted,
    /// Leaves the value, a float of the given width, in `xmm0`.
    pub float: (Emitted, FloatWidth),
    /// Leaves the value where the function returns it: through the hidden result pointer,
    /// in `xmm0` or in `rax`.
    pub returned: Emitted,
    /// Leaves a pointer to a fresh heap copy of the value in `rax`.
    pub heap_copy: Emitted,
    /// Writes the value, an aggregate, into the frame slots it is bound to.
    pub into_slots: Emitted,
    /// Where the value lies when it is an `i64` array element or the like.
    pub place: Result<ScalarPlace, String>,
    /// Where the value lies and its layout, floats and packed elements included.
    pub typed_place: Result<TypedPlace, String>,
    /// The frame slot and layout of a whole inline array that the expression names.
    pub source: Result<(i32, NativeType), String>,
    /// The size in bytes of the flat closure block the expression yields, if it does.
    pub survivor: Option<i32>,
}

/// The forms of expressions that lowering tells apart.
#[derive(Debug, PartialEq, Eq)]
pub enum BytecodeExprKind {
    Integer(i64),
    Variable(String),
    Binary { left: Box<BytecodeExpr>, op: BinaryOp, right: Box<BytecodeExpr> },
    Call { name: String, args: Vec<BytecodeExpr> },
    Array(Vec<BytecodeExpr>),
    Index { target: Box<BytecodeExpr>, index: Box<BytecodeExpr> },
    Field { target: Box<BytecodeExpr>, field: String },
    Other,
}

/// An expression: its form, its static type and its code.
#[derive(Debug, PartialEq, Eq)]
pub struct BytecodeExpr {
    pub kind: BytecodeExprKind,
    pub ty: TypeRef,
    pub code: ExprCode,
}

/// One step of an assignment's path.
#[derive(Debug, PartialEq, Eq)]
pub enum BytecodePlace {
    Index(BytecodeExpr),
    Field(String),
}

/// An assignment `name path op= value`.
#[derive(Debug, PartialEq, Eq)]
pub struct Assignment {
    pub name: String,
    pub path: Vec<BytecodePlace>,
    pub op: AssignOp,
    pub value: BytecodeExpr,
    /// Where the target lies, when it is an `i64` word.
    pub place: Result<ScalarPlace, String>,
    /// Where the target lies and its layout, floats and packed elements included.
    pub typed_place: Result<TypedPlace, String>,
    /// Pops the left operand and combines it with the right one in `rax`.
    pub combine: Emitted,
}

/// The statement forms that hold other statements and lower as a whole.
#[derive(Clone, Copy, PartialEq, Eq, Structural, Debug)]
pub enum CompoundForm {
    If,
    While,
    Loop,
    For,
    Match,
}

/// A lowered compound statement: its code, and the jumps in it that leave or continue the
/// loop around it, by the offset of their 4-byte fields.
#[derive(Debug, PartialEq, Eq)]
pub struct CompoundCode {
    pub emitted: Emitted,
    pub breaks: Vec<usize>,
    pub continues: Vec<usize>,
}

/// A compound statement.
#[derive(Debug, PartialEq, Eq)]
pub struct Compound {
    pub form: CompoundForm,
    /// Its code as a statement.
    pub statement: CompoundCode,
    /// Its code at the end of a function, where each branch leaves the function's value.
    pub value: Emitted,
    /// Whether every path through it yields a value.
    pub yields: bool,
}

/// One statement.
#[derive(Debug, PartialEq, Eq)]
pub enum BytecodeInstruction {
    Let { name: String, value: BytecodeExpr },
    Assign(Assignment),
    Return(Option<BytecodeExpr>),
    Expr(BytecodeExpr),
    Break,
    Continue,
    Compound(Compound),
    RegionBlock { body: Vec<BytecodeInstruction> },
    Asm { bytes: Vec<u8> },
    Throw,
    Try,
}

/// A parameter.
#[derive(Debug, PartialEq, Eq)]
pub struct BytecodeParam {
    pub name: String,
    pub ty: TypeRef,
}

/// A function.
#[derive(Debug, PartialEq, Eq)]
pub struct BytecodeFunction {
    pub name: String,
    pub params: Vec<BytecodeParam>,
    pub return_type: TypeRef,
    pub instructions: Vec<BytecodeInstruction>,
    /// The line it is declared on.
    pub line: u32,
}

/// A module.
#[derive(Debug, PartialEq, Eq)]
pub struct BytecodeModule {
    pub functions: Vec<BytecodeFunction>,
}

} // verus!
