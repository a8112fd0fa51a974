//! Recognizing the loops that vectorize.
//!
//! Each recognizer takes the counter, the step and the body of a `for` loop. It answers
//! nothing for a loop of any other shape, which is then lowered as it stands.

use crate::bytecode::{
    AssignOp, Assignment, BinaryOp, BytecodeExpr, BytecodeExprKind, BytecodeInstruction,
    BytecodePlace, ScalarPlace, TypedPlace,
};
use crate::context::NativeCtx;
use crate::layout::NativeType;
use crate::text::same_text;
use crate::vector_loops::{ElementwiseMap, F64Reduction, MinMaxReduction, Reduction};
use crate::vectorize::{FloatMapOp, MapKind, MapOp, MinMaxOp, ReduceOp};
use vstd::prelude::*;

verus! {

/// Whether a loop counts up by one.
pub open spec fn unit_step(step: Option<&BytecodeExpr>) -> bool {
    match step {
        None => true,
        Some(expr) => expr.kind matches BytecodeExprKind::Integer(n) && n == 1,
    }
}

/// Whether `expr` is exactly the variable `name`.
pub open spec fn is_variable(expr: BytecodeExpr, name: Seq<char>) -> bool {
    expr.kind matches BytecodeExprKind::Variable(v) && v@ == name
}

/// The assignment that is a body's only statement.
pub open spec fn only_assignment(body: Seq<BytecodeInstruction>) -> Option<Assignment> {
    if body.len() == 1 {
        match body[0] {
            BytecodeInstruction::Assign(assignment) => Some(assignment),
            _ => None,
        }
    } else {
        None
    }
}

/// The slot of element 0 and the length of an array of 8-byte elements, given where its
/// indexed element lies.
pub open spec fn word_array(place: ScalarPlace) -> Option<(i32, i64)> {
    match place {
        ScalarPlace::Dynamic { base_slot, const_bytes, elem_bytes, index_len, .. } => if elem_bytes
            == 8 {
            Some((base_slot.wrapping_sub(const_bytes), index_len))
        } else {
            None
        },
        _ => None,
    }
}

/// Whether `expr` is an element indexed by exactly the counter.
pub open spec fn indexed_by(expr: BytecodeExpr, counter: Seq<char>) -> bool {
    expr.kind matches BytecodeExprKind::Index { index, .. } && is_variable(*index, counter)
}

/// The array of `i64`s that `expr` reads at the counter.
pub open spec fn i64_array(expr: BytecodeExpr, counter: Seq<char>) -> Option<(i32, i64)> {
    if indexed_by(expr, counter) {
        match expr.code.place {
            Ok(place) => word_array(place),
            Err(_) => None,
        }
    } else {
        None
    }
}

/// The array of doubles that a typed place is an element of.
pub open spec fn f64_array_at(place: Result<TypedPlace, String>) -> Option<(i32, i64)> {
    match place {
        Ok(typed) => if typed.ty is F64 {
            word_array(typed.place)
        } else {
            None
        },
        Err(_) => None,
    }
}

/// The array of doubles that `expr` reads at the counter.
pub open spec fn f64_array(expr: BytecodeExpr, counter: Seq<char>) -> Option<(i32, i64)> {
    if indexed_by(expr, counter) {
        f64_array_at(expr.code.typed_place)
    } else {
        None
    }
}

/// The slot of `name` if it is an `i64` local.
pub open spec fn i64_local(ctx: NativeCtx, name: Seq<char>) -> Option<i32> {
    match ctx.local_of(name) {
        Some(local) => if local.ty is I64 {
            Some(local.slot)
        } else {
            None
        },
        None => None,
    }
}

/// The operand beside the accumulator, whichever side that stands on.
pub open spec fn beside(
    left: BytecodeExpr,
    right: BytecodeExpr,
    acc: Seq<char>,
) -> Option<BytecodeExpr> {
    if is_variable(left, acc) {
        Some(right)
    } else if is_variable(right, acc) {
        Some(left)
    } else {
        None
    }
}

/// The operation and the element of `acc += element` or `acc = acc op element`.
pub open spec fn reduced(assignment: Assignment) -> Option<(ReduceOp, BytecodeExpr)> {
    match assignment.op {
        AssignOp::Add => Some((ReduceOp::Add, assignment.value)),
        AssignOp::Replace => match assignment.value.kind {
            BytecodeExprKind::Binary { left, op, right } => match (
                match op {
                    BinaryOp::BitAnd => Some(ReduceOp::And),
                    BinaryOp::BitOr => Some(ReduceOp::Or),
                    BinaryOp::BitXor => Some(ReduceOp::Xor),
                    _ => None,
                },
                beside(*left, *right, assignment.name@),
            ) {
                (Some(op), Some(element)) => Some((op, element)),
                _ => None,
            },
            _ => None,
        },
        _ => None,
    }
}

/// The reduction a loop is, if it is one.
pub open spec fn reduction_in(
    ctx: NativeCtx,
    counter: Seq<char>,
    step: Option<&BytecodeExpr>,
    body: Seq<BytecodeInstruction>,
) -> Option<Reduction> {
    match only_assignment(body) {
        None => None,
        Some(assignment) => if !unit_step(step) || assignment.path@.len() > 0
            || assignment.name@ == counter {
            None
        } else {
            match reduced(assignment) {
                None => None,
                Some((op, element)) => match (
                    i64_array(element, counter),
                    i64_local(ctx, assignment.name@),
                ) {
                    (Some((base, len)), Some(slot)) => Some(
                        Reduction { acc_slot: slot, array_base_static: base, array_len: len, op },
                    ),
                    _ => None,
                },
            }
        },
    }
}

fn is_unit_step(step: Option<&BytecodeExpr>) -> (is: bool)
    ensures
        is == unit_step(step),
{
    match step {
        None => true,
        Some(expr) => match &expr.kind {
            BytecodeExprKind::Integer(n) => *n == 1,
            _ => false,
        },
    }
}

/// Whether `expr` is exactly the loop counter.
pub fn index_is_counter(expr: &BytecodeExpr, counter: &str) -> (is: bool)
    ensures
        is == is_variable(*expr, counter@),
{
    match &expr.kind {
        BytecodeExprKind::Variable(v) => same_text(v.as_str(), counter),
        _ => false,
    }
}

fn single_assignment(body: &Vec<BytecodeInstruction>) -> (assignment: Option<&Assignment>)
    ensures
        match assignment {
            Some(a) => only_assignment(body@) == Some(*a),
            None => only_assignment(body@) is None,
        },
{
    if body.len() == 1 {
        match &body[0] {
            BytecodeInstruction::Assign(assignment) => Some(assignment),
            _ => None,
        }
    } else {
        None
    }
}

fn word_array_at(place: &ScalarPlace) -> (array: Option<(i32, i64)>)
    ensures
        array == word_array(*place),
{
    match place {
        ScalarPlace::Dynamic { base_slot, const_bytes, elem_bytes, index_len, .. } => {
            if *elem_bytes == 8 {
                Some((base_slot.wrapping_sub(*const_bytes), *index_len))
            } else {
                None
            }
        },
        _ => None,
    }
}

fn is_indexed_by(expr: &BytecodeExpr, counter: &str) -> (is: bool)
    ensures
        is == indexed_by(*expr, counter@),
{
    match &expr.kind {
        BytecodeExprKind::Index { index, .. } => index_is_counter(index, counter),
        _ => false,
    }
}

/// The slot of element 0 and the length of the `i64` array that `expr` reads at the
/// counter, if it is such a read.
pub fn indexed_i64_base(expr: &BytecodeExpr, counter: &str) -> (array: Option<(i32, i64)>)
    ensures
        array == i64_array(*expr, counter@),
{
    if is_indexed_by(expr, counter) {
        match &expr.code.place {
            Ok(place) => word_array_at(place),
            Err(_) => None,
        }
    } else {
        None
    }
}

fn double_array_at(place: &Result<TypedPlace, String>) -> (array: Option<(i32, i64)>)
    ensures
        array == f64_array_at(*place),
{
    match place {
        Ok(typed) => match typed.ty {
            NativeType::F64 => word_array_at(&typed.place),
            _ => None,
        },
        Err(_) => None,
    }
}

/// The same for an array of doubles.
pub fn indexed_f64_base(expr: &BytecodeExpr, counter: &str) -> (array: Option<(i32, i64)>)
    ensures
        array == f64_array(*expr, counter@),
{
    if is_indexed_by(expr, counter) {
        double_array_at(&expr.code.typed_place)
    } else {
        None
    }
}

fn i64_local_slot(ctx: &NativeCtx, name: &String) -> (slot: Option<i32>)
    ensures
        slot == i64_local(*ctx, name@),
{
    match ctx.find(name) {
        Some(local) => match local.ty {
            NativeType::I64 => Some(local.slot),
            _ => None,
        },
        None => None,
    }
}

fn operand_beside<'a>(left: &'a BytecodeExpr, right: &'a BytecodeExpr, acc: &str) -> (element:
    Option<&'a BytecodeExpr>)
    ensures
        match element {
            Some(e) => beside(*left, *right, acc@) == Some(*e),
            None => beside(*left, *right, acc@) is None,
        },
{
    if index_is_counter(left, acc) {
        Some(right)
    } else if index_is_counter(right, acc) {
        Some(left)
    } else {
        None
    }
}

fn reduced_element(assignment: &Assignment) -> (found: Option<(ReduceOp, &BytecodeExpr)>)
    ensures
        match found {
            Some((op, element)) => reduced(*assignment) == Some((op, *element)),
            None => reduced(*assignment) is None,
        },
{
    match assignment.op {
        AssignOp::Add => Some((ReduceOp::Add, &assignment.value)),
        AssignOp::Replace => match &assignment.value.kind {
            BytecodeExprKind::Binary { left, op, right } => {
                let reduce_op = match op {
                    BinaryOp::BitAnd => ReduceOp::And,
                    BinaryOp::BitOr => ReduceOp::Or,
                    BinaryOp::BitXor => ReduceOp::Xor,
                    _ => {
                        return None;
                    },
                };
                match operand_beside(left, right, assignment.name.as_str()) {
                    Some(element) => Some((reduce_op, element)),
                    None => None,
                }
            },
            _ => None,
        },
        _ => None,
    }
}

/// Recognizes `for counter: acc op= array[counter]` for `+` and the bitwise operations,
/// over an `i64` local and an `i64` array.
pub fn detect_reduction(
    ctx: &NativeCtx,
    counter: &str,
    step: Option<&BytecodeExpr>,
    body: &Vec<BytecodeInstruction>,
) -> (reduction: Option<Reduction>)
    ensures
        reduction == reduction_in(*ctx, counter@, step, body@),
{
    let assignment = match single_assignment(body) {
        Some(assignment) => assignment,
        None => {
            return None;
        },
    };
    if !is_unit_step(step) || assignment.path.len() > 0 || same_text(
        assignment.name.as_str(),
        counter,
    ) {
        return None;
    }
    let (op, element) = match reduced_element(assignment) {
        Some(found) => found,
        None => {
            return None;
        },
    };
    match (indexed_i64_base(element, counter), i64_local_slot(ctx, &assignment.name)) {
        (Some((base, len)), Some(slot)) => Some(
            Reduction { acc_slot: slot, array_base_static: base, array_len: len, op },
        ),
        _ => None,
    }
}

/// The minimum or maximum a loop is, if it is one.
pub open spec fn minmax_in(
    ctx: NativeCtx,
    counter: Seq<char>,
    step: Option<&BytecodeExpr>,
    body: Seq<BytecodeInstruction>,
) -> Option<MinMaxReduction> {
    match only_assignment(body) {
        None => None,
        Some(assignment) => if !unit_step(step) || assignment.op != AssignOp::Replace
            || assignment.path@.len() > 0 || assignment.name@ == counter {
            None
        } else {
            match extremum(assignment) {
                None => None,
                Some((op, element)) => match (
                    i64_array(element, counter),
                    i64_local(ctx, assignment.name@),
                ) {
                    (Some((base, len)), Some(slot)) => Some(
                        MinMaxReduction {
                            acc_slot: slot,
                            array_base_static: base,
                            array_len: len,
                            op,
                        },
                    ),
                    _ => None,
                },
            }
        },
    }
}

/// The operation and the element of a value `max(acc, element)` or `min(acc, element)`.
pub open spec fn extremum(assignment: Assignment) -> Option<(MinMaxOp, BytecodeExpr)> {
    match assignment.value.kind {
        BytecodeExprKind::Call { name, args } => if args@.len() != 2 {
            None
        } else {
            match (
                if name@ == "max"@ {
                    Some(MinMaxOp::Max)
                } else if name@ == "min"@ {
                    Some(MinMaxOp::Min)
                } else {
                    None
                },
                beside(args@[0], args@[1], assignment.name@),
            ) {
                (Some(op), Some(element)) => Some((op, element)),
                _ => None,
            }
        },
        _ => None,
    }
}

fn extremum_element(assignment: &Assignment) -> (found: Option<(MinMaxOp, &BytecodeExpr)>)
    ensures
        match found {
            Some((op, element)) => extremum(*assignment) == Some((op, *element)),
            None => extremum(*assignment) is None,
        },
{
    match &assignment.value.kind {
        BytecodeExprKind::Call { name, args } => {
            if args.len() != 2 {
                return None;
            }
            let op = if same_text(name.as_str(), "max") {
                MinMaxOp::Max
            } else if same_text(name.as_str(), "min") {
                MinMaxOp::Min
            } else {
                return None;
            };
            match operand_beside(&args[0], &args[1], assignment.name.as_str()) {
                Some(element) => Some((op, element)),
                None => None,
            }
        },
        _ => None,
    }
}

/// Recognizes `for counter: acc = max(acc, array[counter])`, or `min`, over an `i64` local
/// and an `i64` array.
pub fn detect_minmax_reduction(
    ctx: &NativeCtx,
    counter: &str,
    step: Option<&BytecodeExpr>,
    body: &Vec<BytecodeInstruction>,
) -> (reduction: Option<MinMaxReduction>)
    ensures
        reduction == minmax_in(*ctx, counter@, step, body@),
{
    let assignment = match single_assignment(body) {
        Some(assignment) => assignment,
        None => {
            return None;
        },
    };
    if !is_unit_step(step) || assignment.op != AssignOp::Replace || assignment.path.len() > 0
        || same_text(assignment.name.as_str(), counter) {
        return None;
    }
    let (op, element) = match extremum_element(assignment) {
        Some(found) => found,
        None => {
            return None;
        },
    };
    match (indexed_i64_base(element, counter), i64_local_slot(ctx, &assignment.name)) {
        (Some((base, len)), Some(slot)) => Some(
            MinMaxReduction { acc_slot: slot, array_base_static: base, array_len: len, op },
        ),
        _ => None,
    }
}

/// The integer operation a map may use.
pub open spec fn int_map_op(op: BinaryOp) -> Option<MapOp> {
    match op {
        BinaryOp::Add => Some(MapOp::Add),
        BinaryOp::Subtract => Some(MapOp::Sub),
        BinaryOp::BitAnd => Some(MapOp::And),
        BinaryOp::BitOr => Some(MapOp::Or),
        BinaryOp::BitXor => Some(MapOp::Xor),
        _ => None,
    }
}

/// The double operation a map may use.
pub open spec fn float_map_op(op: BinaryOp) -> Option<FloatMapOp> {
    match op {
        BinaryOp::Add => Some(FloatMapOp::Add),
        BinaryOp::Subtract => Some(FloatMapOp::Sub),
        BinaryOp::Multiply => Some(FloatMapOp::Mul),
        _ => None,
    }
}

/// The operand arrays and the operation of `lhs[counter] op rhs[counter]`: over `i64`s
/// where the left operand is an `i64` array and the operation has a packed integer form,
/// else over doubles.
pub open spec fn mapped(
    value: BytecodeExpr,
    counter: Seq<char>,
) -> Option<((i32, i64), (i32, i64), MapKind)> {
    match value.kind {
        BytecodeExprKind::Binary { left, op, right } => if int_map_op(op) is Some && i64_array(
            *left,
            counter,
        ) is Some {
            match i64_array(*right, counter) {
                Some(rhs) => Some(
                    (i64_array(*left, counter)->0, rhs, MapKind::Int(int_map_op(op)->0)),
                ),
                None => None,
            }
        } else {
            match (float_map_op(op), f64_array(*left, counter), f64_array(*right, counter)) {
                (Some(op), Some(lhs), Some(rhs)) => Some((lhs, rhs, MapKind::Float(op))),
                _ => None,
            }
        },
        _ => None,
    }
}

/// The smaller of two lengths.
pub open spec fn smaller(a: i64, b: i64) -> i64 {
    if a <= b {
        a
    } else {
        b
    }
}

/// Whether a path is exactly one index by the counter.
pub open spec fn path_is_counter(path: Seq<BytecodePlace>, counter: Seq<char>) -> bool {
    &&& path.len() == 1
    &&& path[0] matches BytecodePlace::Index(index)
    &&& is_variable(index, counter)
}

/// The array a map assigns into: its element layout must match the operands'.
pub open spec fn map_target(assignment: Assignment, float: bool) -> Option<(i32, i64)> {
    match assignment.typed_place {
        Ok(typed) => if float == (typed.ty is F64) {
            word_array(typed.place)
        } else {
            None
        },
        Err(_) => None,
    }
}

/// The element-wise map a loop is, if it is one.
pub open spec fn map_in(
    counter: Seq<char>,
    step: Option<&BytecodeExpr>,
    body: Seq<BytecodeInstruction>,
) -> Option<ElementwiseMap> {
    match only_assignment(body) {
        None => None,
        Some(assignment) => if !unit_step(step) || assignment.op != AssignOp::Replace
            || !path_is_counter(assignment.path@, counter) {
            None
        } else {
            match mapped(assignment.value, counter) {
                None => None,
                Some((lhs, rhs, kind)) => match map_target(assignment, kind is Float) {
                    None => None,
                    Some(dest) => Some(
                        ElementwiseMap {
                            dest_base: dest.0,
                            lhs_base: lhs.0,
                            rhs_base: rhs.0,
                            min_len: smaller(smaller(dest.1, lhs.1), rhs.1),
                            kind,
                        },
                    ),
                },
            }
        },
    }
}

fn mapped_arrays(value: &BytecodeExpr, counter: &str) -> (found: Option<
    ((i32, i64), (i32, i64), MapKind),
>)
    ensures
        found == mapped(*value, counter@),
{
    match &value.kind {
        BytecodeExprKind::Binary { left, op, right } => {
            let int_op = match op {
                BinaryOp::Add => Some(MapOp::Add),
                BinaryOp::Subtract => Some(MapOp::Sub),
                BinaryOp::BitAnd => Some(MapOp::And),
                BinaryOp::BitOr => Some(MapOp::Or),
                BinaryOp::BitXor => Some(MapOp::Xor),
                _ => None,
            };
            if let (Some(op), Some(lhs)) = (int_op, indexed_i64_base(left, counter)) {
                return match indexed_i64_base(right, counter) {
                    Some(rhs) => Some((lhs, rhs, MapKind::Int(op))),
                    None => None,
                };
            }
            let float_op = match op {
                BinaryOp::Add => FloatMapOp::Add,
                BinaryOp::Subtract => FloatMapOp::Sub,
                BinaryOp::Multiply => FloatMapOp::Mul,
                _ => {
                    return None;
                },
            };
            match (indexed_f64_base(left, counter), indexed_f64_base(right, counter)) {
                (Some(lhs), Some(rhs)) => Some((lhs, rhs, MapKind::Float(float_op))),
                _ => None,
            }
        },
        _ => None,
    }
}

fn min_of(a: i64, b: i64) -> (m: i64)
    ensures
        m == smaller(a, b),
{
    if a <= b {
        a
    } else {
        b
    }
}

/// Recognizes `for counter: dest[counter] = lhs[counter] op rhs[counter]` over arrays of
/// `i64`s or of doubles.
pub fn detect_elementwise_map(
    counter: &str,
    step: Option<&BytecodeExpr>,
    body: &Vec<BytecodeInstruction>,
) -> (map: Option<ElementwiseMap>)
    ensures
        map == map_in(counter@, step, body@),
{
    let assignment = match single_assignment(body) {
        Some(assignment) => assignment,
        None => {
            return None;
        },
    };
    if !is_unit_step(step) || assignment.op != AssignOp::Replace || assignment.path.len() != 1 {
        return None;
    }
    match &assignment.path[0] {
        BytecodePlace::Index(index) => {
            if !index_is_counter(index, counter) {
                return None;
            }
        },
        _ => {
            return None;
        },
    }
    let (lhs, rhs, kind) = match mapped_arrays(&assignment.value, counter) {
        Some(found) => found,
        None => {
            return None;
        },
    };
    let float = match kind {
        MapKind::Float(_) => true,
        MapKind::Int(_) => false,
    };
    let dest = match &assignment.typed_place {
        Ok(typed) => {
            let dest_float = match typed.ty {
                NativeType::F64 => true,
                _ => false,
            };
            if float != dest_float {
                return None;
            }
            match word_array_at(&typed.place) {
                Some(dest) => dest,
                None => {
                    return None;
                },
            }
        },
        Err(_) => {
            return None;
        },
    };
    Some(
        ElementwiseMap {
            dest_base: dest.0,
            lhs_base: lhs.0,
            rhs_base: rhs.0,
            min_len: min_of(min_of(dest.1, lhs.1), rhs.1),
            kind,
        },
    )
}

/// The double reduction a loop is, if it is one.
pub open spec fn f64_reduction_in(
    ctx: NativeCtx,
    counter: Seq<char>,
    step: Option<&BytecodeExpr>,
    body: Seq<BytecodeInstruction>,
) -> Option<F64Reduction> {
    match only_assignment(body) {
        None => None,
        Some(assignment) => if !unit_step(step) || assignment.op != AssignOp::Add
            || assignment.path@.len() > 0 {
            None
        } else {
            match ctx.local_of(assignment.name@) {
                None => None,
                Some(acc) => if !(acc.ty is F64) {
                    None
                } else {
                    match assignment.value.kind {
                        BytecodeExprKind::Index { .. } => match f64_array(
                            assignment.value,
                            counter,
                        ) {
                            Some((base, len)) => Some(
                                F64Reduction {
                                    acc_slot: acc.slot,
                                    lhs_base: base,
                                    rhs_base: None,
                                    array_len: len,
                                },
                            ),
                            None => None,
                        },
                        BytecodeExprKind::Binary { left, op, right } => if op
                            == BinaryOp::Multiply {
                            match (f64_array(*left, counter), f64_array(*right, counter)) {
                                (Some(lhs), Some(rhs)) => Some(
                                    F64Reduction {
                                        acc_slot: acc.slot,
                                        lhs_base: lhs.0,
                                        rhs_base: Some(rhs.0),
                                        array_len: smaller(lhs.1, rhs.1),
                                    },
                                ),
                                _ => None,
                            }
                        } else {
                            None
                        },
                        _ => None,
                    }
                },
            }
        },
    }
}

/// Recognizes `for counter: acc += a[counter]` and `acc += a[counter] * b[counter]` over a
/// double local and arrays of doubles.
pub fn detect_f64_reduction(
    ctx: &NativeCtx,
    counter: &str,
    step: Option<&BytecodeExpr>,
    body: &Vec<BytecodeInstruction>,
) -> (reduction: Option<F64Reduction>)
    ensures
        reduction == f64_reduction_in(*ctx, counter@, step, body@),
{
    let assignment = match single_assignment(body) {
        Some(assignment) => assignment,
        None => {
            return None;
        },
    };
    if !is_unit_step(step) || assignment.op != AssignOp::Add || assignment.path.len() > 0 {
        return None;
    }
    let acc_slot = match ctx.find(&assignment.name) {
        Some(local) => match local.ty {
            NativeType::F64 => local.slot,
            _ => {
                return None;
            },
        },
        None => {
            return None;
        },
    };
    match &assignment.value.kind {
        BytecodeExprKind::Index { .. } => match indexed_f64_base(&assignment.value, counter) {
            Some((base, len)) => Some(
                F64Reduction { acc_slot, lhs_base: base, rhs_base: None, array_len: len },
            ),
            None => None,
        },
        BytecodeExprKind::Binary { left, op, right } => {
            if *op != BinaryOp::Multiply {
                return None;
            }
            match (indexed_f64_base(left, counter), indexed_f64_base(right, counter)) {
                (Some(lhs), Some(rhs)) => Some(
                    F64Reduction {
                        acc_slot,
                        lhs_base: lhs.0,
                        rhs_base: Some(rhs.0),
                        array_len: min_of(lhs.1, rhs.1),
                    },
                ),
                _ => None,
            }
        },
        _ => None,
    }
}

// Laws

/// Only arrays of 8-byte elements vectorize: a packed narrow array never does.
pub proof fn law_only_word_arrays_vectorize(expr: BytecodeExpr, counter: Seq<char>)
    ensures
        i64_array(expr, counter) is Some ==> {
            &&& expr.code.place matches Ok(ScalarPlace::Dynamic { elem_bytes, .. })
            &&& elem_bytes == 8
        },
        f64_array(expr, counter) is Some ==> {
            &&& expr.code.typed_place matches Ok(typed)
            &&& typed.ty is F64
            &&& typed.place matches ScalarPlace::Dynamic { elem_bytes, .. }
            &&& elem_bytes == 8
        },
{
}

/// A loop is at most one of a reduction and a minimum or maximum.
pub proof fn law_patterns_exclude_each_other(
    ctx: NativeCtx,
    counter: Seq<char>,
    step: Option<&BytecodeExpr>,
    body: Seq<BytecodeInstruction>,
)
    ensures
        !(reduction_in(ctx, counter, step, body) is Some && minmax_in(
            ctx,
            counter,
            step,
            body,
        ) is Some),
        !(reduction_in(ctx, counter, step, body) is Some && map_in(counter, step, body) is Some),
        !(reduction_in(ctx, counter, step, body) is Some && f64_reduction_in(
            ctx,
            counter,
            step,
            body,
        ) is Some),
        !(minmax_in(ctx, counter, step, body) is Some && map_in(counter, step, body) is Some),
        !(minmax_in(ctx, counter, step, body) is Some && f64_reduction_in(
            ctx,
            counter,
            step,
            body,
        ) is Some),
        !(map_in(counter, step, body) is Some && f64_reduction_in(
            ctx,
            counter,
            step,
            body,
        ) is Some),
{
}

/// The guard of a map checks against the shortest of its three arrays.
pub proof fn law_map_guards_the_shortest_array(
    counter: Seq<char>,
    step: Option<&BytecodeExpr>,
    body: Seq<BytecodeInstruction>,
)
    requires
        map_in(counter, step, body) is Some,
    ensures
        ({
            let map = map_in(counter, step, body)->0;
            let assignment = only_assignment(body)->0;
            let (lhs, rhs, kind) = mapped(assignment.value, counter)->0;
            let dest = map_target(assignment, kind is Float)->0;
            &&& map.min_len <= dest.1
            &&& map.min_len <= lhs.1
            &&& map.min_len <= rhs.1
            &&& map.min_len == dest.1 || map.min_len == lhs.1 || map.min_len == rhs.1
        }),
{
}

} // verus!
