//! How exact renormalization is.
//!
//! Dividing by the norm rounds twice: the norm is an integer square root, and every
//! quotient is cut off towards zero. This module bounds what the two roundings do
//! to the total probability, and so shows when renormalization succeeds.

use vstd::prelude::*;
use vstd::arithmetic::div_mod::{lemma_fundamental_div_mod, lemma_remainder};
use crate::fixed::{
    lemma_root_exists, root_of, within_tolerance, Amplitude, AMPLITUDE_ONE, PROBABILITY_ONE,
    TOLERANCE_INVERSE,
};
use crate::sampler::{cumulative, lemma_weight_within_total};
use crate::state::{
    can_renormalize, lemma_component_within_root, lemma_projection_splits_probability,
    lemma_squared_norm_fits, normalized, probabilities_of, projected, renormalized, rescaled,
    rescaled_component, total_probability,
};

verus! {

/// The least total probability from which renormalization is sure to succeed:
/// `2^-67`.
pub const MIN_RETAINED: u128 = 0x200_0000_0000_0000;

/// The largest number of amplitudes for which renormalization is sure to succeed:
/// those of 32 qubits.
pub const MAX_AMPLITUDES: u64 = 0x1_0000_0000;

/// What cutting a quotient off does to its square: with `product` for
/// `size * 2^62`, the square of `quotient * root` is at most the square of
/// `product`, and short of it by at most `2 * 2^62 * root^2`.
proof fn lemma_squares_of_cut_quotient(product: int, quotient: int, root: int)
    requires
        root >= 1,
        0 <= quotient * root <= product < quotient * root + root,
        product <= AMPLITUDE_ONE * root,
    ensures
        (quotient * root) * (quotient * root) <= product * product,
        (quotient * root) * (quotient * root) + 2 * AMPLITUDE_ONE * (root * root) >= product
            * product,
{
    let low = quotient * root;
    let scale = AMPLITUDE_ONE as int;
    assert(low * low <= product * product) by (nonlinear_arith)
        requires
            0 <= low <= product,
    ;
    assert(product * product - low * low == (product - low) * (product + low)) by (
        nonlinear_arith);
    assert((product - low) * (product + low) <= root * (product + low)) by (nonlinear_arith)
        requires
            0 <= product - low <= root,
            0 <= product + low,
    ;
    assert(root * (product + low) <= root * (2 * (scale * root))) by (nonlinear_arith)
        requires
            root >= 1,
            0 <= product + low <= 2 * (scale * root),
    ;
    assert(root * (2 * (scale * root)) == 2 * scale * (root * root)) by (nonlinear_arith);
}

/// What rescaling does to the square of one component: `root^2` times the new
/// square is at most `2^124` times the old square, and short of it by at most
/// `2 * 2^62 * root^2`. The new component lies between `-1` and `1`.
pub proof fn lemma_rescaled_component(component: i64, root: nat)
    requires
        root >= 1,
        -root <= component <= root,
    ensures
        -AMPLITUDE_ONE <= rescaled_component(component, root) <= AMPLITUDE_ONE,
        (root * root) * (rescaled_component(component, root) * rescaled_component(
            component,
            root,
        )) <= PROBABILITY_ONE * (component * component),
        (root * root) * (rescaled_component(component, root) * rescaled_component(
            component,
            root,
        )) + 2 * AMPLITUDE_ONE * (root * root) >= PROBABILITY_ONE * (component * component),
{
    let size: int = if component >= 0 {
        component as int
    } else {
        -component
    };
    let scale = AMPLITUDE_ONE as int;
    let divisor = root as int;
    let product = size * scale;
    let quotient = product / divisor;
    let scaled = rescaled_component(component, root);
    assert(0 <= product <= scale * divisor) by (nonlinear_arith)
        requires
            0 <= size <= divisor,
            scale >= 0,
            product == size * scale,
    ;
    lemma_fundamental_div_mod(product, divisor);
    lemma_remainder(product, divisor);
    assert(divisor * quotient == quotient * divisor) by (nonlinear_arith);
    assert(quotient >= 0) by (nonlinear_arith)
        requires
            quotient * divisor + divisor > product,
            product >= 0,
            divisor >= 1,
    ;
    assert(quotient <= scale) by (nonlinear_arith)
        requires
            quotient * divisor <= product,
            product <= scale * divisor,
            divisor >= 1,
    ;
    lemma_squares_of_cut_quotient(product, quotient, divisor);
    assert(scaled == quotient || scaled == -quotient);
    assert(scaled * scaled == quotient * quotient) by (nonlinear_arith)
        requires
            scaled == quotient || scaled == -quotient,
    ;
    assert(component * component == size * size) by (nonlinear_arith)
        requires
            size == component || size == -component,
    ;
    assert((quotient * divisor) * (quotient * divisor) == (divisor * divisor) * (quotient
        * quotient)) by (nonlinear_arith);
    assert(product * product == PROBABILITY_ONE * (size * size)) by (nonlinear_arith)
        requires
            product == size * scale,
            scale * scale == PROBABILITY_ONE,
    ;
}

/// Whether no component of the amplitudes exceeds `root` in size.
spec fn components_within(amplitudes: Seq<Amplitude>, root: nat) -> bool {
    forall|i: int|
        0 <= i < amplitudes.len() ==> {
            &&& -root <= (#[trigger] amplitudes[i]).re <= root
            &&& -root <= amplitudes[i].im <= root
        }
}

/// What rescaling does to the probability of one basis state: `root^2` times the
/// new probability is at most `2^124` times the old one, and short of it by at most
/// `4 * 2^62 * root^2`.
proof fn lemma_rescaled_probability(amplitudes: Seq<Amplitude>, root: nat, index: int)
    requires
        root >= 1,
        components_within(amplitudes, root),
        0 <= index < amplitudes.len(),
    ensures
        (root * root) * probabilities_of(rescaled(amplitudes, root))[index] <= PROBABILITY_ONE
            * probabilities_of(amplitudes)[index],
        (root * root) * probabilities_of(rescaled(amplitudes, root))[index] + 4 * AMPLITUDE_ONE
            * (root * root) >= PROBABILITY_ONE * probabilities_of(amplitudes)[index],
{
    let before = amplitudes[index];
    let after = rescaled(amplitudes, root)[index];
    lemma_rescaled_component(before.re, root);
    lemma_rescaled_component(before.im, root);
    lemma_squared_norm_fits(before);
    lemma_squared_norm_fits(after);
    let re = rescaled_component(before.re, root);
    let im = rescaled_component(before.im, root);
    assert(after.re == re && after.im == im);
    let square = (root * root) as int;
    let one = PROBABILITY_ONE as int;
    let old_re = before.re * before.re;
    let old_im = before.im * before.im;
    assert(old_re >= 0 && old_im >= 0) by (nonlinear_arith)
        requires
            old_re == before.re * before.re,
            old_im == before.im * before.im,
    ;
    assert(re * re >= 0 && im * im >= 0) by (nonlinear_arith);
    assert(square * (re * re + im * im) == square * (re * re) + square * (im * im)) by (
        nonlinear_arith);
    assert(one * (old_re + old_im) == one * old_re + one * old_im) by (nonlinear_arith);
    let slack = 2 * AMPLITUDE_ONE * (root * root);
    assert(slack + slack == 4 * AMPLITUDE_ONE * (root * root)) by (nonlinear_arith)
        requires
            slack == 2 * AMPLITUDE_ONE * (root * root),
    ;
}

/// What rescaling does to the running sum of the probabilities: `root^2` times the
/// new sum is at most `2^124` times the old one, and short of it by at most
/// `4 * 2^62 * root^2` for each amplitude.
proof fn lemma_rescaled_cumulative(amplitudes: Seq<Amplitude>, root: nat, count: int)
    requires
        root >= 1,
        components_within(amplitudes, root),
        0 <= count <= amplitudes.len(),
    ensures
        (root * root) * cumulative(probabilities_of(rescaled(amplitudes, root)), count)
            <= PROBABILITY_ONE * cumulative(probabilities_of(amplitudes), count),
        (root * root) * cumulative(probabilities_of(rescaled(amplitudes, root)), count) + (4
            * AMPLITUDE_ONE * (root * root)) * count >= PROBABILITY_ONE * cumulative(
            probabilities_of(amplitudes),
            count,
        ),
    decreases count,
{
    if count > 0 {
        lemma_rescaled_cumulative(amplitudes, root, count - 1);
        lemma_rescaled_probability(amplitudes, root, count - 1);
        let square = (root * root) as int;
        let one = PROBABILITY_ONE as int;
        let slack = 4 * AMPLITUDE_ONE * (root * root);
        let old_sum = cumulative(probabilities_of(amplitudes), count - 1);
        let old_last = probabilities_of(amplitudes)[count - 1] as int;
        let new_sum = cumulative(probabilities_of(rescaled(amplitudes, root)), count - 1);
        let new_last = probabilities_of(rescaled(amplitudes, root))[count - 1] as int;
        assert(square * (new_sum + new_last) == square * new_sum + square * new_last) by (
            nonlinear_arith);
        assert(one * (old_sum + old_last) == one * old_sum + one * old_last) by (nonlinear_arith);
        assert(slack * count == slack * (count - 1) + slack) by (nonlinear_arith);
    }
}

/// Renormalization succeeds for every vector of at most `2^32` amplitudes whose
/// total probability is at least `2^-67` and fits in 128 bits: the two roundings
/// move the total probability by less than the tolerance.
pub proof fn lemma_renormalization_succeeds(amplitudes: Seq<Amplitude>)
    requires
        amplitudes.len() <= MAX_AMPLITUDES,
        MIN_RETAINED <= total_probability(amplitudes) <= u128::MAX,
    ensures
        can_renormalize(amplitudes),
{
    let sum = total_probability(amplitudes) as nat;
    let root = root_of(sum);
    lemma_root_exists(sum);
    assert(root >= 300_000_000) by (nonlinear_arith)
        requires
            sum < (root + 1) * (root + 1),
            sum >= 0x200_0000_0000_0000,
    ;
    assert forall|i: int| 0 <= i < amplitudes.len() implies {
        &&& -root <= (#[trigger] amplitudes[i]).re <= root
        &&& -root <= amplitudes[i].im <= root
    } by {
        let re = amplitudes[i].re as int;
        let im = amplitudes[i].im as int;
        lemma_squared_norm_fits(amplitudes[i]);
        lemma_weight_within_total(probabilities_of(amplitudes), i);
        assert(re * re >= 0 && im * im >= 0) by (nonlinear_arith);
        lemma_component_within_root(re, sum, root);
        lemma_component_within_root(im, sum, root);
    }
    let count = amplitudes.len() as int;
    lemma_rescaled_cumulative(amplitudes, root, count);
    let after = total_probability(renormalized(amplitudes));
    let square = (root * root) as int;
    let one = PROBABILITY_ONE as int;
    let scale = AMPLITUDE_ONE as int;
    assert(after == cumulative(probabilities_of(rescaled(amplitudes, root)), count));
    // The total is not above one by the tolerance or more: the root is cut off by
    // less than one part in 300 million.
    assert((after - one) * TOLERANCE_INVERSE < one) by (nonlinear_arith)
        requires
            square * after <= one * sum,
            square == root * root,
            sum < (root + 1) * (root + 1),
            root >= 300_000_000,
            one > 0,
            TOLERANCE_INVERSE == 100_000_000,
    ;
    // Nor below one by the tolerance or more: each amplitude loses less than
    // `4 * 2^62` of `2^124`.
    assert((one - after) * TOLERANCE_INVERSE < one) by (nonlinear_arith)
        requires
            square * after + (4 * scale * square) * count >= one * sum,
            square == root * root,
            root * root <= sum,
            root >= 1,
            0 <= count <= 0x1_0000_0000,
            scale == 0x4000_0000_0000_0000,
            one == 0x1000_0000_0000_0000_0000_0000_0000_0000,
            TOLERANCE_INVERSE == 100_000_000,
    ;
    assert(within_tolerance(after));
}

/// A measurement that retains a probability of at least `2^-67` of a normalized
/// vector of at most `2^32` amplitudes can be brought back to norm one.
pub proof fn lemma_measurement_succeeds(amplitudes: Seq<Amplitude>, qubit: nat, value: bool)
    requires
        amplitudes.len() <= MAX_AMPLITUDES,
        normalized(amplitudes),
        total_probability(projected(amplitudes, qubit, value)) >= MIN_RETAINED,
    ensures
        can_renormalize(projected(amplitudes, qubit, value)),
{
    lemma_projection_splits_probability(amplitudes, qubit);
    lemma_renormalization_succeeds(projected(amplitudes, qubit, value));
}

} // verus!
