//! Choosing the fittest candidate from single-precision fitness scores
//! held as bit patterns, with the semantics of a `max_by` over
//! `partial_cmp` that treats incomparable (NaN) scores as equal.
use crate::brain::INFINITY_BITS;
use crate::ieee::{
    denotes_nan, lemma_magnitude_strictly_increasing, lemma_nan_test, lemma_sign_bit_only, lemma_zero_magnitude,
    scaled_magnitude, scaled_value,
};
use vstd::prelude::*;

verus! {

/// The bit pattern is a NaN.
pub open spec fn is_nan_bits(b: u32) -> bool {
    b % 0x8000_0000 > INFINITY_BITS
}

/// A key whose integer order is the numeric order of non-NaN values
/// (both zeros get the key 0).
pub open spec fn order_key(b: u32) -> int {
    let m = (b % 0x8000_0000) as int;
    if b >= 0x8000_0000 { -m } else { m }
}

/// `a > b` on single-precision values: false when either is NaN.
pub open spec fn float_gt(a: u32, b: u32) -> bool {
    !is_nan_bits(a) && !is_nan_bits(b) && order_key(a) > order_key(b)
}

/// `float_gt` is the order of the real values the patterns denote: `a > b`
/// exactly when neither is NaN and the value of `a` exceeds that of `b`
/// (so the two zeros compare equal and the infinities bound everything).
pub proof fn lemma_float_gt_is_value_order(a: u32, b: u32)
    ensures
        float_gt(a, b) == (!denotes_nan(a) && !denotes_nan(b) && scaled_value(a) > scaled_value(b)),
{
    lemma_nan_test(a);
    lemma_nan_test(b);
    lemma_sign_bit_only(a);
    lemma_sign_bit_only(b);
    let ma = a % 0x8000_0000;
    let mb = b % 0x8000_0000;
    lemma_zero_magnitude(ma);
    lemma_zero_magnitude(mb);
    if ma < mb {
        lemma_magnitude_strictly_increasing(ma, mb);
    } else if mb < ma {
        lemma_magnitude_strictly_increasing(mb, ma);
    }
    assert(scaled_magnitude(a) == scaled_magnitude(ma));
    assert(scaled_magnitude(b) == scaled_magnitude(mb));
}

/// Index of the candidate kept by a left-to-right `max_by` over the first
/// `len` scores: a later score replaces the current best unless the best
/// is strictly greater.
pub open spec fn champion_upto(scores: Seq<u32>, len: nat) -> int
    decreases len,
{
    if len <= 1 {
        0
    } else {
        let best = champion_upto(scores, (len - 1) as nat);
        if float_gt(scores[best], scores[len - 1]) { best } else { len - 1 }
    }
}

/// `a > b` on single-precision bit patterns.
pub fn bits_gt(a: u32, b: u32) -> (gt: bool)
    ensures
        gt == float_gt(a, b),
        gt == (!denotes_nan(a) && !denotes_nan(b) && scaled_value(a) > scaled_value(b)),
{
    proof {
        lemma_float_gt_is_value_order(a, b);
    }
    let ma = a % 0x8000_0000;
    let mb = b % 0x8000_0000;
    if ma > INFINITY_BITS || mb > INFINITY_BITS {
        return false;
    }
    let a_neg = a >= 0x8000_0000;
    let b_neg = b >= 0x8000_0000;
    if !a_neg && !b_neg {
        ma > mb
    } else if a_neg && b_neg {
        ma < mb
    } else if !a_neg {
        // a >= +0 >= b: greater unless both are zeros
        ma > 0 || mb > 0
    } else {
        false
    }
}

proof fn lemma_champion_bounds(scores: Seq<u32>, len: nat)
    requires
        1 <= len,
    ensures
        0 <= champion_upto(scores, len) < len,
    decreases len,
{
    if len > 1 {
        lemma_champion_bounds(scores, (len - 1) as nat);
    }
}

/// Without NaNs the kept candidate has a maximal score, and it is the last
/// one with that score.
proof fn lemma_champion_is_last_maximum(scores: Seq<u32>, len: nat)
    requires
        1 <= len <= scores.len(),
        forall|k: int| 0 <= k < scores.len() ==> !is_nan_bits(#[trigger] scores[k]),
    ensures
        forall|k: int| 0 <= k < len ==> order_key(#[trigger] scores[k]) <= order_key(scores[champion_upto(scores, len)]),
        forall|k: int| champion_upto(scores, len) < k < len ==>
            order_key(#[trigger] scores[k]) < order_key(scores[champion_upto(scores, len)]),
    decreases len,
{
    if len > 1 {
        lemma_champion_is_last_maximum(scores, (len - 1) as nat);
        lemma_champion_bounds(scores, (len - 1) as nat);
        let best = champion_upto(scores, (len - 1) as nat);
        assert(!is_nan_bits(scores[best]));
        assert(!is_nan_bits(scores[len - 1]));
    }
}

/// Picks the fittest candidate: `None` for no candidates, otherwise the
/// index kept by a left-to-right `max_by`. Without NaN scores that index
/// holds a maximal score and no later candidate ties with it.
pub fn select_champion(scores: &Vec<u32>) -> (best: Option<usize>)
    ensures
        scores.len() == 0 <==> best is None,
        best matches Some(i) ==> i == champion_upto(scores@, scores.len() as nat) && i < scores.len(),
        best matches Some(i) ==> ((forall|k: int| 0 <= k < scores.len() ==> !is_nan_bits(#[trigger] scores@[k])) ==> {
            &&& forall|k: int| 0 <= k < scores.len() ==> !float_gt(#[trigger] scores@[k], scores@[i as int])
            &&& forall|k: int| i < k < scores.len() ==> float_gt(scores@[i as int], #[trigger] scores@[k])
        }),
{
    let len = scores.len();
    if len == 0 {
        return None;
    }
    let mut best: usize = 0;
    let mut k: usize = 1;
    while k < len
        invariant
            1 <= k <= len,
            len == scores@.len(),
            best == champion_upto(scores@, k as nat),
            best < k,
        decreases len - k,
    {
        if !bits_gt(scores[best], scores[k]) {
            best = k;
        }
        k += 1;
    }
    proof {
        if forall|q: int| 0 <= q < scores.len() ==> !is_nan_bits(#[trigger] scores@[q]) {
            lemma_champion_is_last_maximum(scores@, len as nat);
        }
    }
    Some(best)
}

} // verus!
