//! Why folding an array in two lanes gives what folding it in order gives.

use crate::vectorize::{MinMaxOp, ReduceOp};
use vstd::prelude::*;

verus! {

/// What a reduction computes on two 64-bit words.
pub open spec fn reduce_words(op: ReduceOp, a: u64, b: u64) -> u64 {
    match op {
        ReduceOp::Add => ((a + b) % 0x1_0000_0000_0000_0000) as u64,
        ReduceOp::And => a & b,
        ReduceOp::Or => a | b,
        ReduceOp::Xor => a ^ b,
    }
}

/// The word that a reduction leaves the other operand by.
pub open spec fn reduce_identity(op: ReduceOp) -> u64 {
    match op {
        ReduceOp::And => 0xFFFF_FFFF_FFFF_FFFF,
        _ => 0,
    }
}

/// `acc` reduced by the first `n` words in order.
pub open spec fn fold_in_order(op: ReduceOp, acc: u64, words: Seq<u64>, n: int) -> u64
    decreases n,
{
    if n <= 0 {
        acc
    } else {
        reduce_words(op, fold_in_order(op, acc, words, n - 1), words[n - 1])
    }
}

/// The two lanes after `k` pairs: one holds the words at even places, the other those at
/// odd ones.
pub open spec fn lanes(op: ReduceOp, words: Seq<u64>, k: int) -> (u64, u64)
    decreases k,
{
    if k <= 0 {
        (reduce_identity(op), reduce_identity(op))
    } else {
        let before = lanes(op, words, k - 1);
        (
            reduce_words(op, before.0, words[2 * k - 2]),
            reduce_words(op, before.1, words[2 * k - 1]),
        )
    }
}

/// `acc` reduced in two lanes: as many pairs as there are, the lanes folded into one and
/// into the accumulator, then a last word if there is one.
pub open spec fn fold_in_lanes(op: ReduceOp, acc: u64, words: Seq<u64>) -> u64 {
    let pairs = words.len() as int / 2;
    let (even, odd) = lanes(op, words, pairs);
    let folded = reduce_words(op, acc, reduce_words(op, even, odd));
    if words.len() % 2 == 1 {
        reduce_words(op, folded, words[words.len() - 1])
    } else {
        folded
    }
}

proof fn lemma_add_facts(a: u64, b: u64, c: u64)
    ensures
        reduce_words(ReduceOp::Add, a, b) == reduce_words(ReduceOp::Add, b, a),
        reduce_words(ReduceOp::Add, reduce_words(ReduceOp::Add, a, b), c) == reduce_words(
            ReduceOp::Add,
            a,
            reduce_words(ReduceOp::Add, b, c),
        ),
        reduce_words(ReduceOp::Add, a, 0) == a,
{
}

proof fn lemma_and_facts(a: u64, b: u64, c: u64)
    ensures
        a & b == b & a,
        (a & b) & c == a & (b & c),
        a & 0xFFFF_FFFF_FFFF_FFFF == a,
{
    assert(a & b == b & a) by (bit_vector);
    assert((a & b) & c == a & (b & c)) by (bit_vector);
    assert(a & 0xFFFF_FFFF_FFFF_FFFF == a) by (bit_vector);
}

proof fn lemma_or_facts(a: u64, b: u64, c: u64)
    ensures
        a | b == b | a,
        (a | b) | c == a | (b | c),
        a | 0 == a,
{
    assert(a | b == b | a) by (bit_vector);
    assert((a | b) | c == a | (b | c)) by (bit_vector);
    assert(a | 0 == a) by (bit_vector);
}

proof fn lemma_xor_facts(a: u64, b: u64, c: u64)
    ensures
        a ^ b == b ^ a,
        (a ^ b) ^ c == a ^ (b ^ c),
        a ^ 0 == a,
{
    assert(a ^ b == b ^ a) by (bit_vector);
    assert((a ^ b) ^ c == a ^ (b ^ c)) by (bit_vector);
    assert(a ^ 0 == a) by (bit_vector);
}

/// Every reduction is commutative and associative and has its identity.
pub proof fn law_reductions_reorder(op: ReduceOp, a: u64, b: u64, c: u64)
    ensures
        reduce_words(op, a, b) == reduce_words(op, b, a),
        reduce_words(op, reduce_words(op, a, b), c) == reduce_words(
            op,
            a,
            reduce_words(op, b, c),
        ),
        reduce_words(op, a, reduce_identity(op)) == a,
{
    match op {
        ReduceOp::Add => lemma_add_facts(a, b, c),
        ReduceOp::And => lemma_and_facts(a, b, c),
        ReduceOp::Or => lemma_or_facts(a, b, c),
        ReduceOp::Xor => lemma_xor_facts(a, b, c),
    }
}

/// Two more words may join a folded total one after the other or each in its lane.
proof fn lemma_join(op: ReduceOp, acc: u64, even: u64, odd: u64, x: u64, y: u64)
    ensures
        reduce_words(
            op,
            acc,
            reduce_words(op, reduce_words(op, even, x), reduce_words(op, odd, y)),
        ) == reduce_words(
            op,
            reduce_words(op, reduce_words(op, acc, reduce_words(op, even, odd)), x),
            y,
        ),
{
    let pair = reduce_words(op, even, odd);
    // (even x) (odd y) = ((even x) odd) y = (even (x odd)) y = (even (odd x)) y
    //                  = ((even odd) x) y
    law_reductions_reorder(op, reduce_words(op, even, x), odd, y);
    law_reductions_reorder(op, even, x, odd);
    law_reductions_reorder(op, x, odd, x);
    law_reductions_reorder(op, even, odd, x);
    // acc ((pair x) y) = (acc (pair x)) y = ((acc pair) x) y
    law_reductions_reorder(op, acc, reduce_words(op, pair, x), y);
    law_reductions_reorder(op, acc, pair, x);
}

proof fn lemma_pairs(op: ReduceOp, acc: u64, words: Seq<u64>, k: int)
    requires
        0 <= k,
        2 * k <= words.len(),
    ensures
        ({
            let (even, odd) = lanes(op, words, k);
            reduce_words(op, acc, reduce_words(op, even, odd)) == fold_in_order(
                op,
                acc,
                words,
                2 * k,
            )
        }),
    decreases k,
{
    let id = reduce_identity(op);
    if k == 0 {
        law_reductions_reorder(op, id, id, id);
        law_reductions_reorder(op, acc, id, id);
    } else {
        lemma_pairs(op, acc, words, k - 1);
        let (even, odd) = lanes(op, words, k - 1);
        lemma_join(op, acc, even, odd, words[2 * k - 2], words[2 * k - 1]);
        assert(fold_in_order(op, acc, words, 2 * k - 1) == reduce_words(
            op,
            fold_in_order(op, acc, words, 2 * k - 2),
            words[2 * k - 2],
        ));
    }
}

/// A reduction in two lanes is exactly the reduction in order, whatever the words.
pub proof fn law_two_lanes_reduce_as_one(op: ReduceOp, acc: u64, words: Seq<u64>)
    ensures
        fold_in_lanes(op, acc, words) == fold_in_order(op, acc, words, words.len() as int),
{
    let pairs = words.len() as int / 2;
    lemma_pairs(op, acc, words, pairs);
}

/// What a minimum or maximum computes on two integers.
pub open spec fn extreme(op: MinMaxOp, a: i64, b: i64) -> i64 {
    match op {
        MinMaxOp::Max => if a < b {
            b
        } else {
            a
        },
        MinMaxOp::Min => if a > b {
            b
        } else {
            a
        },
    }
}

/// `acc` and the first `n` integers in order.
pub open spec fn extreme_in_order(op: MinMaxOp, acc: i64, values: Seq<i64>, n: int) -> i64
    decreases n,
{
    if n <= 0 {
        acc
    } else {
        extreme(op, extreme_in_order(op, acc, values, n - 1), values[n - 1])
    }
}

/// The two lanes after `k` pairs.
pub open spec fn extreme_lanes(op: MinMaxOp, values: Seq<i64>, k: int) -> (i64, i64)
    decreases k,
{
    if k <= 0 {
        (op.identity(), op.identity())
    } else {
        let before = extreme_lanes(op, values, k - 1);
        (
            extreme(op, before.0, values[2 * k - 2]),
            extreme(op, before.1, values[2 * k - 1]),
        )
    }
}

/// `acc` and all integers, in two lanes.
pub open spec fn extreme_in_lanes(op: MinMaxOp, acc: i64, values: Seq<i64>) -> i64 {
    let pairs = values.len() as int / 2;
    let (even, odd) = extreme_lanes(op, values, pairs);
    let folded = extreme(op, acc, extreme(op, even, odd));
    if values.len() % 2 == 1 {
        extreme(op, folded, values[values.len() - 1])
    } else {
        folded
    }
}

proof fn lemma_extreme_pairs(op: MinMaxOp, acc: i64, values: Seq<i64>, k: int)
    requires
        0 <= k,
        2 * k <= values.len(),
    ensures
        ({
            let (even, odd) = extreme_lanes(op, values, k);
            extreme(op, acc, extreme(op, even, odd)) == extreme_in_order(op, acc, values, 2 * k)
        }),
    decreases k,
{
    if k > 0 {
        lemma_extreme_pairs(op, acc, values, k - 1);
        assert(extreme_in_order(op, acc, values, 2 * k - 1) == extreme(
            op,
            extreme_in_order(op, acc, values, 2 * k - 2),
            values[2 * k - 2],
        ));
    }
}

/// A minimum or maximum in two lanes is exactly the one in order.
pub proof fn law_two_lanes_find_the_same_extreme(op: MinMaxOp, acc: i64, values: Seq<i64>)
    ensures
        extreme_in_lanes(op, acc, values) == extreme_in_order(
            op,
            acc,
            values,
            values.len() as int,
        ),
{
    let pairs = values.len() as int / 2;
    lemma_extreme_pairs(op, acc, values, pairs);
}

} // verus!
