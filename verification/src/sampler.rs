//! Drawing an index from a discrete distribution.
//!
//! The weights are probabilities in fixed point. A draw `d` stands for the number
//! `d / 2^64` of `[0, 1)`. The index drawn is the first one at which the running
//! sum of the weights reaches the draw; should the running sum stay short of the
//! draw to the end, which rounding allows, the last index is drawn.

use vstd::prelude::*;
use crate::error::RegisterError;
use crate::fixed::{sums_to_one, within_tolerance, DRAW_UNIT};

verus! {

/// A source of uniform random draws. Each draw is a 64-bit integer `d` that
/// stands for `d / 2^64`, a number of `[0, 1)`; every value is a draw.
pub trait RandomSource {
    /// The next draw.
    fn next_draw(&mut self) -> u64;
}

/// The sum of the first `count` weights.
pub open spec fn cumulative(weights: Seq<u128>, count: int) -> int
    decreases count,
{
    if count <= 0 {
        0
    } else {
        cumulative(weights, count - 1) + weights[count - 1]
    }
}

/// The sum of all the weights.
pub open spec fn total(weights: Seq<u128>) -> int {
    cumulative(weights, weights.len() as int)
}

/// Whether the weights sum to one within the tolerance.
pub open spec fn valid_distribution(weights: Seq<u128>) -> bool {
    within_tolerance(total(weights))
}

/// Whether the running sum up to and including `index` reaches the draw.
pub open spec fn reaches(weights: Seq<u128>, draw: u64, index: int) -> bool {
    cumulative(weights, index + 1) >= draw * DRAW_UNIT
}

/// The first index from `from` on at which the running sum reaches the draw, or
/// the last index if there is none.
pub open spec fn first_reaching(weights: Seq<u128>, draw: u64, from: int) -> int
    decreases weights.len() - from,
{
    if from >= weights.len() - 1 {
        weights.len() - 1
    } else if reaches(weights, draw, from) {
        from
    } else {
        first_reaching(weights, draw, from + 1)
    }
}

/// The index that `draw` selects from `weights`.
pub open spec fn sampled_index(weights: Seq<u128>, draw: u64) -> int {
    first_reaching(weights, draw, 0)
}

/// Running sums grow with the number of weights summed.
pub proof fn lemma_cumulative_grows(weights: Seq<u128>, fewer: int, more: int)
    requires
        fewer <= more,
    ensures
        0 <= cumulative(weights, fewer) <= cumulative(weights, more),
    decreases more - fewer, more,
{
    if more <= 0 {
    } else if fewer == more {
        lemma_cumulative_grows(weights, fewer - 1, more - 1);
    } else {
        lemma_cumulative_grows(weights, fewer, more - 1);
    }
}

/// No weight exceeds the sum of all the weights.
pub proof fn lemma_weight_within_total(weights: Seq<u128>, index: int)
    requires
        0 <= index < weights.len(),
    ensures
        weights[index] <= total(weights),
{
    lemma_cumulative_grows(weights, 0, index);
    lemma_cumulative_grows(weights, index + 1, weights.len() as int);
}

/// Weights of zero at the end add nothing to the running sum.
proof fn lemma_trailing_zeros(weights: Seq<u128>, last: int, count: int)
    requires
        0 <= last < count <= weights.len(),
        forall|j: int| last < j < weights.len() ==> weights[j] == 0,
    ensures
        cumulative(weights, count) == cumulative(weights, last + 1),
    decreases count,
{
    if count > last + 1 {
        lemma_trailing_zeros(weights, last, count - 1);
    }
}

/// What the scan from `from` finds: an index that no index between `from` and it
/// precedes in reaching the draw, and that reaches the draw itself unless it is
/// the last index.
proof fn lemma_first_reaching(weights: Seq<u128>, draw: u64, from: int)
    requires
        0 <= from < weights.len(),
    ensures
        from <= first_reaching(weights, draw, from) < weights.len(),
        forall|j: int|
            from <= j < first_reaching(weights, draw, from) ==> !reaches(weights, draw, j),
        reaches(weights, draw, first_reaching(weights, draw, from)) || first_reaching(
            weights,
            draw,
            from,
        ) == weights.len() - 1,
    decreases weights.len() - from,
{
    if from < weights.len() - 1 && !reaches(weights, draw, from) {
        lemma_first_reaching(weights, draw, from + 1);
    }
}

/// The sampler stays within bounds and takes the smallest index at which the
/// running sum reaches the draw; only if there is none does it take the last index.
pub proof fn lemma_sampled_index_is_smallest(weights: Seq<u128>, draw: u64)
    requires
        weights.len() > 0,
    ensures
        0 <= sampled_index(weights, draw) < weights.len(),
        forall|j: int| 0 <= j < sampled_index(weights, draw) ==> !reaches(weights, draw, j),
        reaches(weights, draw, sampled_index(weights, draw)) || sampled_index(weights, draw)
            == weights.len() - 1,
{
    lemma_first_reaching(weights, draw, 0);
}

/// The draw `0` selects the first index.
pub proof fn lemma_zero_draw_selects_first(weights: Seq<u128>)
    requires
        weights.len() > 0,
    ensures
        sampled_index(weights, 0) == 0,
{
    lemma_cumulative_grows(weights, 0, 1);
}

/// A positive draw that the weights reach selects an index of positive weight.
pub proof fn lemma_reached_draw_selects_positive_weight(weights: Seq<u128>, draw: u64)
    requires
        weights.len() > 0,
        draw > 0,
        total(weights) >= draw * DRAW_UNIT,
    ensures
        weights[sampled_index(weights, draw)] > 0,
{
    lemma_sampled_index_is_smallest(weights, draw);
    let index = sampled_index(weights, draw);
    if index > 0 {
        assert(!reaches(weights, draw, index - 1));
    } else {
        assert(cumulative(weights, 0) == 0);
    }
}

/// Where all the weights after `last` are zero and the weights before `last` stay
/// short of the draw, the draw selects `last`, provided that the weights reach the
/// draw at all or `last` is the last index. So the largest draw selects the last
/// index of positive weight, unless the weights before it reach that draw already.
pub proof fn lemma_draw_beyond_earlier_weights_selects_last(
    weights: Seq<u128>,
    draw: u64,
    last: int,
)
    requires
        0 <= last < weights.len(),
        forall|j: int| last < j < weights.len() ==> weights[j] == 0,
        cumulative(weights, last) < draw * DRAW_UNIT,
        total(weights) >= draw * DRAW_UNIT || last == weights.len() - 1,
    ensures
        sampled_index(weights, draw) == last,
{
    lemma_sampled_index_is_smallest(weights, draw);
    let index = sampled_index(weights, draw);
    if index < last {
        lemma_cumulative_grows(weights, index + 1, last);
    } else if index > last {
        assert(!reaches(weights, draw, last));
        lemma_trailing_zeros(weights, last, weights.len() as int);
    }
}

/// The sum of all the weights if it fits in 128 bits.
pub fn checked_total(weights: &Vec<u128>) -> (sum: Option<u128>)
    ensures
        match sum {
            Some(value) => value == total(weights@),
            None => total(weights@) > u128::MAX,
        },
{
    let mut sum: u128 = 0;
    let mut done: usize = 0;
    while done < weights.len()
        invariant
            done <= weights.len(),
            sum == cumulative(weights@, done as int),
        decreases weights.len() - done,
    {
        match sum.checked_add(weights[done]) {
            Some(next) => {
                sum = next;
            },
            None => {
                proof {
                    lemma_cumulative_grows(weights@, done + 1, weights@.len() as int);
                }
                return None;
            },
        }
        done = done + 1;
    }
    Some(sum)
}

/// Whether the weights sum to one within the tolerance.
pub fn is_distribution(weights: &Vec<u128>) -> (valid: bool)
    ensures
        valid == valid_distribution(weights@),
{
    match checked_total(weights) {
        Some(sum) => sums_to_one(sum),
        None => false,
    }
}

/// The index that `draw` selects from weights that sum to one: the first index at
/// which the running sum of the weights reaches the draw, or the last index if the
/// running sum stays short of it.
pub fn select_index(weights: &Vec<u128>, draw: u64) -> (index: usize)
    requires
        valid_distribution(weights@),
    ensures
        index == sampled_index(weights@, draw),
        index < weights@.len(),
        forall|j: int| 0 <= j < index ==> !reaches(weights@, draw, j),
        reaches(weights@, draw, index as int) || index == weights@.len() - 1,
{
    let target: u128 = draw as u128 * DRAW_UNIT;
    let last: usize = weights.len() - 1;
    let mut sum: u128 = 0;
    let mut index: usize = 0;
    while index < last
        invariant
            index <= last == weights.len() - 1,
            sum == cumulative(weights@, index as int),
            valid_distribution(weights@),
            target == draw * DRAW_UNIT,
            first_reaching(weights@, draw, index as int) == sampled_index(weights@, draw),
        decreases last - index,
    {
        proof {
            lemma_cumulative_grows(weights@, index + 1, weights@.len() as int);
            lemma_sampled_index_is_smallest(weights@, draw);
        }
        sum = sum + weights[index];
        if sum >= target {
            return index;
        }
        index = index + 1;
    }
    proof {
        lemma_sampled_index_is_smallest(weights@, draw);
    }
    last
}

/// The index that `draw` selects from `weights`. Weights that do not sum to one
/// within the tolerance are refused.
pub fn weighted_choice_at(
    weights: &Vec<u128>,
    draw: u64,
) -> (choice: Result<usize, RegisterError>)
    ensures
        match choice {
            Ok(index) => {
                &&& valid_distribution(weights@)
                &&& index == sampled_index(weights@, draw)
                &&& index < weights@.len()
                &&& forall|j: int| 0 <= j < index ==> !reaches(weights@, draw, j)
                &&& reaches(weights@, draw, index as int) || index == weights@.len() - 1
            },
            Err(error) => {
                &&& !valid_distribution(weights@)
                &&& error == RegisterError::InvalidDistribution
            },
        },
{
    if is_distribution(weights) {
        Ok(select_index(weights, draw))
    } else {
        Err(RegisterError::InvalidDistribution)
    }
}

/// An index drawn from `weights` with one draw of `rng`. Weights that do not sum to
/// one within the tolerance are refused before anything is drawn.
pub fn weighted_choice<R: RandomSource>(
    weights: &Vec<u128>,
    rng: &mut R,
) -> (choice: Result<usize, RegisterError>)
    ensures
        match choice {
            Ok(index) => {
                &&& valid_distribution(weights@)
                &&& index < weights@.len()
                &&& exists|draw: u64| index == #[trigger] sampled_index(weights@, draw)
            },
            Err(error) => {
                &&& !valid_distribution(weights@)
                &&& error == RegisterError::InvalidDistribution
                &&& *final(rng) == *old(rng)
            },
        },
{
    if is_distribution(weights) {
        let draw = rng.next_draw();
        Ok(select_index(weights, draw))
    } else {
        Err(RegisterError::InvalidDistribution)
    }
}

} // verus!
