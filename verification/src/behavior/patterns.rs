//! What is recognized as a loop to vectorize means what the loop says.

use crate::behavior::extremes::extreme_word;
use crate::behavior::maps::mapped_word;
use crate::bytecode::{
    AssignOp, Assignment, BinaryOp, BytecodeExpr, BytecodeExprKind, BytecodeInstruction,
    ScalarPlace,
};
use crate::context::NativeCtx;
use crate::lanes::reduce_words;
use crate::machine::{signed, wrap};
use crate::vector_patterns::{f64_reduction_in, map_in, minmax_in, reduction_in};
use crate::vectorize::MapKind;
use crate::x86::{FloatWidth, Insn, ScalarOp, Sse, Xmm};
use vstd::prelude::*;

verus! {

// What the source says

/// What an operator of the language computes on two words.
pub open spec fn word_value(op: BinaryOp, x: u64, y: u64) -> Option<u64> {
    match op {
        BinaryOp::Add => Some(wrap(x + y)),
        BinaryOp::Subtract => Some(wrap(x - y)),
        BinaryOp::BitAnd => Some(x & y),
        BinaryOp::BitOr => Some(x | y),
        BinaryOp::BitXor => Some(x ^ y),
        _ => None,
    }
}

/// The instructions that compute an operator of the language on doubles: on two lanes at a
/// time, and on one.
pub open spec fn double_instructions(op: BinaryOp) -> Option<(Sse, ScalarOp)> {
    match op {
        BinaryOp::Add => Some((Sse::Addpd, ScalarOp::Plus)),
        BinaryOp::Subtract => Some((Sse::Subpd, ScalarOp::Minus)),
        BinaryOp::Multiply => Some((Sse::Mulpd, ScalarOp::Times)),
        _ => None,
    }
}

/// Whether a loop advances by one.
pub open spec fn by_one(step: Option<&BytecodeExpr>) -> bool {
    step is None || step->0.kind == BytecodeExprKind::Integer(1)
}

/// Whether an expression is a variable.
pub open spec fn names(expr: BytecodeExpr, name: Seq<char>) -> bool {
    expr.kind is Variable && expr.kind->Variable_0@ == name
}

/// Whether an expression is the element of some array at the counter.
pub open spec fn element(expr: BytecodeExpr, counter: Seq<char>) -> bool {
    expr.kind is Index && names(*expr.kind->Index_index, counter)
}

/// Whether a place is an element of an array of `len` words whose element 0 is in slot `base`.
pub open spec fn in_array(place: ScalarPlace, base: i32, len: i64) -> bool {
    match place {
        ScalarPlace::Dynamic { base_slot, const_bytes, elem_bytes, index_len, .. } => {
            &&& elem_bytes == 8
            &&& len == index_len
            &&& base == (base_slot - const_bytes) || base == (base_slot - const_bytes)
                + 0x1_0000_0000 || base == (base_slot - const_bytes) - 0x1_0000_0000
        },
        _ => false,
    }
}

/// Whether an expression reads an array of `i64`s at the counter.
pub open spec fn reads_words(expr: BytecodeExpr, counter: Seq<char>, base: i32, len: i64) -> bool {
    &&& element(expr, counter)
    &&& expr.code.place matches Ok(place)
    &&& in_array(place, base, len)
}

/// Whether an expression reads an array of doubles at the counter.
pub open spec fn reads_doubles(
    expr: BytecodeExpr,
    counter: Seq<char>,
    base: i32,
    len: i64,
) -> bool {
    &&& element(expr, counter)
    &&& expr.code.typed_place matches Ok(typed)
    &&& typed.ty is F64
    &&& in_array(typed.place, base, len)
}

/// Whether a loop's body is one assignment.
pub open spec fn is_only(body: Seq<BytecodeInstruction>, a: Assignment) -> bool {
    body == seq![BytecodeInstruction::Assign(a)]
}

/// Whether an assignment is to an array's element at the counter.
pub open spec fn assigns_element(a: Assignment, counter: Seq<char>) -> bool {
    &&& a.path@.len() == 1
    &&& a.path@[0] is Index
    &&& names(a.path@[0]->Index_0, counter)
}

/// Whether an assignment is to a variable of its own.
pub open spec fn assigns_variable(a: Assignment, counter: Seq<char>) -> bool {
    &&& a.path@.len() == 0
    &&& a.name@ != counter
}

/// Whether the operands are the variable and an element, in either order.
pub open spec fn joins(
    left: BytecodeExpr,
    right: BytecodeExpr,
    name: Seq<char>,
    item: BytecodeExpr,
) -> bool {
    names(left, name) && right == item || names(right, name) && left == item
}

// Maps

/// A loop that is recognized as a map is `dest[i] = lhs[i] op rhs[i]`, and the map does to the
/// elements of these three arrays what the operator does. None of the arrays is shorter than
/// what the map guards.
pub proof fn law_recognized_maps_mean_their_loop(
    counter: Seq<char>,
    step: Option<&BytecodeExpr>,
    body: Seq<BytecodeInstruction>,
) -> (a: Assignment)
    requires
        map_in(counter, step, body) is Some,
    ensures
        by_one(step),
        is_only(body, a),
        a.op == AssignOp::Replace,
        assigns_element(a, counter),
        a.value.kind is Binary,
        ({
            let map = map_in(counter, step, body)->0;
            let op = a.value.kind->Binary_op;
            let left = *a.value.kind->left;
            let right = *a.value.kind->right;
            &&& a.typed_place is Ok
            &&& (a.typed_place->Ok_0.ty is F64) == (map.kind is Float)
            &&& exists|len: i64|
                map.min_len <= len && #[trigger] in_array(
                    a.typed_place->Ok_0.place,
                    map.dest_base,
                    len,
                )
            &&& match map.kind {
                MapKind::Int(kind) => {
                    &&& forall|x: u64, y: u64|
                        word_value(op, x, y) == Some(#[trigger] mapped_word(kind, x, y))
                    &&& exists|len: i64|
                        map.min_len <= len && #[trigger] reads_words(
                            left,
                            counter,
                            map.lhs_base,
                            len,
                        )
                    &&& exists|len: i64|
                        map.min_len <= len && #[trigger] reads_words(
                            right,
                            counter,
                            map.rhs_base,
                            len,
                        )
                },
                MapKind::Float(kind) => {
                    &&& match double_instructions(op) {
                        None => false,
                        Some((both, one)) => {
                            &&& kind.packed() == (Insn::SseRr {
                                op: both,
                                dst: Xmm::Xmm0,
                                src: Xmm::Xmm1,
                            })
                            &&& kind.scalar() == (Insn::SseRr {
                                op: Sse::Scalar(FloatWidth::F64, one),
                                dst: Xmm::Xmm0,
                                src: Xmm::Xmm1,
                            })
                        },
                    }
                    &&& exists|len: i64|
                        map.min_len <= len && #[trigger] reads_doubles(
                            left,
                            counter,
                            map.lhs_base,
                            len,
                        )
                    &&& exists|len: i64|
                        map.min_len <= len && #[trigger] reads_doubles(
                            right,
                            counter,
                            map.rhs_base,
                            len,
                        )
                },
            }
        }),
{
    let a = body[0]->Assign_0;
    assert(body =~= seq![BytecodeInstruction::Assign(a)]);
    let map = map_in(counter, step, body)->0;
    let left = *a.value.kind->left;
    let right = *a.value.kind->right;
    let dest = a.typed_place->Ok_0.place;
    assert(in_array(dest, map.dest_base, dest->index_len));
    match map.kind {
        MapKind::Int(_) => {
            assert(reads_words(left, counter, map.lhs_base, left.code.place->Ok_0->index_len));
            assert(reads_words(right, counter, map.rhs_base, right.code.place->Ok_0->index_len));
        },
        MapKind::Float(_) => {
            let (p, q) = (left.code.typed_place->Ok_0.place, right.code.typed_place->Ok_0.place);
            assert(reads_doubles(left, counter, map.lhs_base, p->index_len));
            assert(reads_doubles(right, counter, map.rhs_base, q->index_len));
        },
    }
    a
}

/// Every loop `dest[i] = lhs[i] op rhs[i]` over arrays of `i64`s is recognized, where the
/// operator is one that words are added, subtracted or combined bit by bit with.
pub proof fn law_word_maps_are_recognized(
    counter: Seq<char>,
    step: Option<&BytecodeExpr>,
    a: Assignment,
    lhs: (i32, i64),
    rhs: (i32, i64),
    dest: (i32, i64),
)
    requires
        by_one(step),
        a.op == AssignOp::Replace,
        assigns_element(a, counter),
        a.value.kind is Binary,
        word_value(a.value.kind->Binary_op, 0, 0) is Some,
        reads_words(*a.value.kind->left, counter, lhs.0, lhs.1),
        reads_words(*a.value.kind->right, counter, rhs.0, rhs.1),
        a.typed_place is Ok,
        !(a.typed_place->Ok_0.ty is F64),
        in_array(a.typed_place->Ok_0.place, dest.0, dest.1),
    ensures
        map_in(counter, step, seq![BytecodeInstruction::Assign(a)]) is Some,
{
    let body = seq![BytecodeInstruction::Assign(a)];
    assert(body.len() == 1 && body[0] == BytecodeInstruction::Assign(a));
}

/// Every loop `dest[i] = lhs[i] op rhs[i]` over arrays of doubles is recognized, where the
/// operator adds, subtracts or multiplies.
pub proof fn law_double_maps_are_recognized(
    counter: Seq<char>,
    step: Option<&BytecodeExpr>,
    a: Assignment,
    lhs: (i32, i64),
    rhs: (i32, i64),
    dest: (i32, i64),
)
    requires
        by_one(step),
        a.op == AssignOp::Replace,
        assigns_element(a, counter),
        a.value.kind is Binary,
        double_instructions(a.value.kind->Binary_op) is Some,
        a.value.kind->left.code.place is Err,
        reads_doubles(*a.value.kind->left, counter, lhs.0, lhs.1),
        reads_doubles(*a.value.kind->right, counter, rhs.0, rhs.1),
        a.typed_place is Ok,
        a.typed_place->Ok_0.ty is F64,
        in_array(a.typed_place->Ok_0.place, dest.0, dest.1),
    ensures
        map_in(counter, step, seq![BytecodeInstruction::Assign(a)]) is Some,
{
    let body = seq![BytecodeInstruction::Assign(a)];
    assert(body.len() == 1 && body[0] == BytecodeInstruction::Assign(a));
}

// Reductions

/// Whether an assignment combines its variable with `item` by an operator: `name += item` or
/// `name = name op item`, with the operands in either order.
pub open spec fn combines(a: Assignment, op: BinaryOp, item: BytecodeExpr) -> bool {
    ||| a.op == AssignOp::Add && op == BinaryOp::Add && a.value == item
    ||| {
        &&& a.op == AssignOp::Replace
        &&& a.value.kind is Binary
        &&& a.value.kind->Binary_op == op
        &&& joins(*a.value.kind->left, *a.value.kind->right, a.name@, item)
    }
}

/// A loop that is recognized as a reduction is `acc = acc op array[i]`, of an `i64` local and an
/// array of `i64`s, and the reduction combines words as the operator does.
pub proof fn law_recognized_reductions_mean_their_loop(
    ctx: NativeCtx,
    counter: Seq<char>,
    step: Option<&BytecodeExpr>,
    body: Seq<BytecodeInstruction>,
) -> (found: (Assignment, BinaryOp, BytecodeExpr))
    requires
        reduction_in(ctx, counter, step, body) is Some,
    ensures
        ({
            let red = reduction_in(ctx, counter, step, body)->0;
            let (a, op, item) = found;
            &&& by_one(step)
            &&& is_only(body, a)
            &&& assigns_variable(a, counter)
            &&& combines(a, op, item)
            &&& reads_words(item, counter, red.array_base_static, red.array_len)
            &&& ctx.local_of(a.name@) is Some
            &&& ctx.local_of(a.name@)->0.ty is I64
            &&& ctx.local_of(a.name@)->0.slot == red.acc_slot
            &&& forall|x: u64, y: u64|
                word_value(op, x, y) == Some(#[trigger] reduce_words(red.op, x, y))
        }),
{
    let a = body[0]->Assign_0;
    assert(body =~= seq![BytecodeInstruction::Assign(a)]);
    if a.op == AssignOp::Add {
        (a, BinaryOp::Add, a.value)
    } else {
        let op = a.value.kind->Binary_op;
        if names(*a.value.kind->left, a.name@) {
            (a, op, *a.value.kind->right)
        } else {
            (a, op, *a.value.kind->left)
        }
    }
}

/// Every loop `acc += array[i]`, and every loop `acc = acc op array[i]` or `array[i] op acc` with
/// a bitwise operator, is recognized over an `i64` local and an array of `i64`s.
pub proof fn law_reductions_are_recognized(
    ctx: NativeCtx,
    counter: Seq<char>,
    step: Option<&BytecodeExpr>,
    a: Assignment,
    op: BinaryOp,
    item: BytecodeExpr,
    array: (i32, i64),
)
    requires
        by_one(step),
        assigns_variable(a, counter),
        combines(a, op, item),
        a.op == AssignOp::Add || op == BinaryOp::BitAnd || op == BinaryOp::BitOr || op
            == BinaryOp::BitXor,
        reads_words(item, counter, array.0, array.1),
        ctx.local_of(a.name@) is Some,
        ctx.local_of(a.name@)->0.ty is I64,
    ensures
        reduction_in(ctx, counter, step, seq![BytecodeInstruction::Assign(a)]) is Some,
{
    let body = seq![BytecodeInstruction::Assign(a)];
    assert(body.len() == 1 && body[0] == BytecodeInstruction::Assign(a));
}

// Extremes

/// Whether an assignment is `name = function(name, item)`, with the arguments in either order.
pub open spec fn applies(a: Assignment, function: Seq<char>, item: BytecodeExpr) -> bool {
    &&& a.op == AssignOp::Replace
    &&& a.value.kind is Call
    &&& a.value.kind->Call_name@ == function
    &&& a.value.kind->args@.len() == 2
    &&& joins(a.value.kind->args@[0], a.value.kind->args@[1], a.name@, item)
}

/// A loop that is recognized as a search is `acc = max(acc, array[i])` or `min`, of an `i64`
/// local and an array of `i64`s; of two words it keeps the larger or the smaller as signed
/// numbers.
pub proof fn law_recognized_extremes_mean_their_loop(
    ctx: NativeCtx,
    counter: Seq<char>,
    step: Option<&BytecodeExpr>,
    body: Seq<BytecodeInstruction>,
) -> (found: (Assignment, BytecodeExpr))
    requires
        minmax_in(ctx, counter, step, body) is Some,
    ensures
        ({
            let red = minmax_in(ctx, counter, step, body)->0;
            let (a, item) = found;
            let largest = applies(a, "max"@, item);
            &&& by_one(step)
            &&& is_only(body, a)
            &&& assigns_variable(a, counter)
            &&& largest || applies(a, "min"@, item)
            &&& reads_words(item, counter, red.array_base_static, red.array_len)
            &&& ctx.local_of(a.name@) is Some
            &&& ctx.local_of(a.name@)->0.ty is I64
            &&& ctx.local_of(a.name@)->0.slot == red.acc_slot
            &&& forall|x: u64, y: u64|
                {
                    let kept = #[trigger] extreme_word(red.op, x, y);
                    &&& kept == x || kept == y
                    &&& largest ==> signed(kept) >= signed(x) && signed(kept) >= signed(y)
                    &&& !largest ==> signed(kept) <= signed(x) && signed(kept) <= signed(y)
                }
        }),
{
    reveal_strlit("max");
    reveal_strlit("min");
    assert("max"@[1] != "min"@[1]);
    let a = body[0]->Assign_0;
    assert(body =~= seq![BytecodeInstruction::Assign(a)]);
    let args = a.value.kind->args@;
    if names(args[0], a.name@) {
        (a, args[1])
    } else {
        (a, args[0])
    }
}

/// Every loop `acc = max(acc, array[i])`, with either order of the arguments, is recognized, and
/// so is every such loop with `min`.
pub proof fn law_extremes_are_recognized(
    ctx: NativeCtx,
    counter: Seq<char>,
    step: Option<&BytecodeExpr>,
    a: Assignment,
    item: BytecodeExpr,
    array: (i32, i64),
)
    requires
        by_one(step),
        assigns_variable(a, counter),
        applies(a, "max"@, item) || applies(a, "min"@, item),
        reads_words(item, counter, array.0, array.1),
        ctx.local_of(a.name@) is Some,
        ctx.local_of(a.name@)->0.ty is I64,
    ensures
        minmax_in(ctx, counter, step, seq![BytecodeInstruction::Assign(a)]) is Some,
{
    let body = seq![BytecodeInstruction::Assign(a)];
    assert(body.len() == 1 && body[0] == BytecodeInstruction::Assign(a));
}

// Sums of doubles

/// A loop that is recognized as a sum of doubles is `acc += array[i]` or, where there is a second
/// array, `acc += lhs[i] * rhs[i]`, of a double local and arrays of doubles that are no shorter
/// than what is guarded.
pub proof fn law_recognized_sums_mean_their_loop(
    ctx: NativeCtx,
    counter: Seq<char>,
    step: Option<&BytecodeExpr>,
    body: Seq<BytecodeInstruction>,
) -> (a: Assignment)
    requires
        f64_reduction_in(ctx, counter, step, body) is Some,
    ensures
        ({
            let red = f64_reduction_in(ctx, counter, step, body)->0;
            &&& by_one(step)
            &&& is_only(body, a)
            &&& a.op == AssignOp::Add
            &&& a.path@.len() == 0
            &&& ctx.local_of(a.name@) is Some
            &&& ctx.local_of(a.name@)->0.ty is F64
            &&& ctx.local_of(a.name@)->0.slot == red.acc_slot
            &&& match red.rhs_base {
                None => reads_doubles(a.value, counter, red.lhs_base, red.array_len),
                Some(rhs) => {
                    &&& a.value.kind is Binary
                    &&& a.value.kind->Binary_op == BinaryOp::Multiply
                    &&& exists|len: i64|
                        red.array_len <= len && #[trigger] reads_doubles(
                            *a.value.kind->left,
                            counter,
                            red.lhs_base,
                            len,
                        )
                    &&& exists|len: i64|
                        red.array_len <= len && #[trigger] reads_doubles(
                            *a.value.kind->right,
                            counter,
                            rhs,
                            len,
                        )
                },
            }
        }),
{
    let a = body[0]->Assign_0;
    assert(body =~= seq![BytecodeInstruction::Assign(a)]);
    let red = f64_reduction_in(ctx, counter, step, body)->0;
    if let Some(rhs) = red.rhs_base {
        let left = *a.value.kind->left;
        let right = *a.value.kind->right;
        let (p, q) = (left.code.typed_place->Ok_0.place, right.code.typed_place->Ok_0.place);
        assert(reads_doubles(left, counter, red.lhs_base, p->index_len));
        assert(reads_doubles(right, counter, rhs, q->index_len));
    }
    a
}

/// Every such loop is recognized.
pub proof fn law_sums_are_recognized(
    ctx: NativeCtx,
    counter: Seq<char>,
    step: Option<&BytecodeExpr>,
    a: Assignment,
    lhs: (i32, i64),
    rhs: (i32, i64),
)
    requires
        by_one(step),
        a.op == AssignOp::Add,
        a.path@.len() == 0,
        ctx.local_of(a.name@) is Some,
        ctx.local_of(a.name@)->0.ty is F64,
        reads_doubles(a.value, counter, lhs.0, lhs.1) || {
            &&& a.value.kind is Binary
            &&& a.value.kind->Binary_op == BinaryOp::Multiply
            &&& reads_doubles(*a.value.kind->left, counter, lhs.0, lhs.1)
            &&& reads_doubles(*a.value.kind->right, counter, rhs.0, rhs.1)
        },
    ensures
        f64_reduction_in(ctx, counter, step, seq![BytecodeInstruction::Assign(a)]) is Some,
{
    let body = seq![BytecodeInstruction::Assign(a)];
    assert(body.len() == 1 && body[0] == BytecodeInstruction::Assign(a));
}

} // verus!
