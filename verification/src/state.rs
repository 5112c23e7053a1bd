//! Amplitude vectors.
//!
//! The state of a register is a vector with one amplitude for each basis state.
//! This module holds what a measurement does to such a vector: reading the
//! probabilities off, collapsing to one basis state, keeping the basis states that
//! agree with the value found for one qubit, and bringing the vector back to
//! norm one.

use vstd::prelude::*;
use vstd::arithmetic::div_mod::{lemma_div_multiples_vanish, lemma_div_of0};
use crate::codec::{bit_at, to_single_state_binary_val};
use crate::error::RegisterError;
use crate::fixed::{
    is_root, isqrt, lemma_root_exists, lemma_root_of_one, root_of, sums_to_one, Amplitude,
    AMPLITUDE_ONE, DRAW_UNIT, PROBABILITY_ONE,
};
use crate::precision::{
    lemma_renormalization_succeeds, lemma_rescaled_component, MAX_AMPLITUDES, MIN_RETAINED,
};
use crate::sampler::{
    checked_total, cumulative, lemma_draw_beyond_earlier_weights_selects_last,
    lemma_reached_draw_selects_positive_weight, lemma_sampled_index_is_smallest,
    lemma_weight_within_total, lemma_zero_draw_selects_first, sampled_index, total,
    valid_distribution,
};

verus! {

/// The probability of each basis state: the squared norm of its amplitude.
pub open spec fn probabilities_of(amplitudes: Seq<Amplitude>) -> Seq<u128> {
    Seq::new(amplitudes.len(), |i: int| amplitudes[i].squared_norm() as u128)
}

/// The sum of the probabilities of all the basis states.
pub open spec fn total_probability(amplitudes: Seq<Amplitude>) -> int {
    total(probabilities_of(amplitudes))
}

/// Whether the probabilities sum to one within the tolerance.
pub open spec fn normalized(amplitudes: Seq<Amplitude>) -> bool {
    valid_distribution(probabilities_of(amplitudes))
}

/// The vector of `states` amplitudes that is `1` at `index` and `0` elsewhere.
pub open spec fn basis_state(states: nat, index: int) -> Seq<Amplitude> {
    Seq::new(
        states,
        |i: int|
            if i == index {
                Amplitude { re: AMPLITUDE_ONE, im: 0 }
            } else {
                Amplitude { re: 0, im: 0 }
            },
    )
}

/// The vector that keeps the amplitudes of the basis states in which `qubit` has
/// the value `value`, and is `0` at the others.
pub open spec fn projected(amplitudes: Seq<Amplitude>, qubit: nat, value: bool) -> Seq<Amplitude> {
    Seq::new(
        amplitudes.len(),
        |i: int|
            if bit_at(i as nat, qubit) == value {
                amplitudes[i]
            } else {
                Amplitude { re: 0, im: 0 }
            },
    )
}

/// A component divided by `root / 2^62`, rounded towards zero.
pub open spec fn rescaled_component(component: i64, root: nat) -> int {
    if component >= 0 {
        (component * AMPLITUDE_ONE) / (root as int)
    } else {
        -((-component * AMPLITUDE_ONE) / (root as int))
    }
}

/// The vector with every component divided by `root / 2^62`.
pub open spec fn rescaled(amplitudes: Seq<Amplitude>, root: nat) -> Seq<Amplitude> {
    Seq::new(
        amplitudes.len(),
        |i: int|
            Amplitude {
                re: rescaled_component(amplitudes[i].re, root) as i64,
                im: rescaled_component(amplitudes[i].im, root) as i64,
            },
    )
}

/// The vector divided by its norm: by the square root of its total probability.
pub open spec fn renormalized(amplitudes: Seq<Amplitude>) -> Seq<Amplitude> {
    rescaled(amplitudes, root_of(total_probability(amplitudes) as nat))
}

/// Whether the vector can be brought to norm one: its total probability is
/// positive and fits in 128 bits, and dividing by the norm leaves a total
/// probability of one within the tolerance.
pub open spec fn can_renormalize(amplitudes: Seq<Amplitude>) -> bool {
    &&& 0 < total_probability(amplitudes) <= u128::MAX
    &&& normalized(renormalized(amplitudes))
}

/// A squared norm fits in 128 bits.
pub proof fn lemma_squared_norm_fits(amplitude: Amplitude)
    ensures
        amplitude.squared_norm() <= 0x8000_0000_0000_0000_0000_0000_0000_0000,
{
    let re = amplitude.re as int;
    let im = amplitude.im as int;
    assert(0 <= re * re <= 0x4000_0000_0000_0000_0000_0000_0000_0000) by (nonlinear_arith)
        requires
            -0x8000_0000_0000_0000 <= re <= 0x8000_0000_0000_0000,
    ;
    assert(0 <= im * im <= 0x4000_0000_0000_0000_0000_0000_0000_0000) by (nonlinear_arith)
        requires
            -0x8000_0000_0000_0000 <= im <= 0x8000_0000_0000_0000,
    ;
}

/// A component is no larger than the root of a total probability that holds its
/// square.
pub proof fn lemma_component_within_root(component: int, sum: nat, root: nat)
    requires
        component * component <= sum,
        is_root(sum, root),
    ensures
        -root <= component <= root,
{
    assert(-root <= component <= root) by (nonlinear_arith)
        requires
            component * component <= sum,
            sum < (root + 1) * (root + 1),
            root >= 0,
    ;
}

/// The probabilities of a basis state sum to one up to `index` and beyond, and to
/// zero before.
proof fn lemma_basis_state_cumulative(states: nat, index: int, count: int)
    requires
        0 <= index < states,
        0 <= count <= states,
    ensures
        cumulative(probabilities_of(basis_state(states, index)), count) == if count > index {
            PROBABILITY_ONE as int
        } else {
            0
        },
    decreases count,
{
    if count > 0 {
        lemma_basis_state_cumulative(states, index, count - 1);
        assert(AMPLITUDE_ONE * AMPLITUDE_ONE == PROBABILITY_ONE) by (nonlinear_arith);
    }
}

/// In a basis state one amplitude is `1` and all the others are `0`.
pub proof fn lemma_basis_state_has_one_amplitude(states: nat, index: int, other: int)
    requires
        0 <= index < states,
        0 <= other < states,
    ensures
        basis_state(states, index).len() == states,
        basis_state(states, index)[index] == (Amplitude { re: AMPLITUDE_ONE, im: 0 }),
        other != index ==> basis_state(states, index)[other] == (Amplitude { re: 0, im: 0 }),
{
}

/// A basis state has norm one exactly.
pub proof fn lemma_basis_state_is_normalized(states: nat, index: int)
    requires
        0 <= index < states,
    ensures
        total_probability(basis_state(states, index)) == PROBABILITY_ONE,
        normalized(basis_state(states, index)),
{
    lemma_basis_state_cumulative(states, index, states as int);
}

/// A basis state is found again by every positive draw, and the basis state `0` by
/// every draw: the running sum of its probabilities is zero before its index and
/// one from there on.
pub proof fn lemma_basis_state_selects_itself(states: nat, index: int, draw: u64)
    requires
        0 <= index < states,
        draw > 0 || index == 0,
    ensures
        sampled_index(probabilities_of(basis_state(states, index)), draw) == index,
{
    let weights = probabilities_of(basis_state(states, index));
    if draw == 0 {
        lemma_zero_draw_selects_first(weights);
    } else {
        lemma_basis_state_cumulative(states, index, index);
        lemma_basis_state_cumulative(states, index, states as int);
        assert(0 < draw * DRAW_UNIT < PROBABILITY_ONE) by (nonlinear_arith)
            requires
                0 < draw <= 0xffff_ffff_ffff_ffff,
                DRAW_UNIT == 0x1000_0000_0000_0000,
                PROBABILITY_ONE == 0x1000_0000_0000_0000_0000_0000_0000_0000,
        ;
        lemma_draw_beyond_earlier_weights_selects_last(weights, draw, index);
    }
}

/// Measuring a qubit of a basis state finds the value that the qubit has in it and
/// leaves the basis state as it is: nothing of it disagrees with the value, and its
/// norm is one already.
pub proof fn lemma_basis_state_survives_measurement(states: nat, index: int, qubit: nat)
    requires
        0 <= index < states,
    ensures
        projected(basis_state(states, index), qubit, bit_at(index as nat, qubit)) == basis_state(
            states,
            index,
        ),
        renormalized(basis_state(states, index)) == basis_state(states, index),
        can_renormalize(basis_state(states, index)),
{
    let state = basis_state(states, index);
    assert(projected(state, qubit, bit_at(index as nat, qubit)) =~= state);
    lemma_basis_state_is_normalized(states, index);
    lemma_root_of_one();
    lemma_div_multiples_vanish(AMPLITUDE_ONE as int, AMPLITUDE_ONE as int);
    lemma_div_of0(AMPLITUDE_ONE as int);
    assert(renormalized(state) =~= state);
}

/// The running sums of what agrees with either value of a qubit add up to the
/// running sum of the whole.
proof fn lemma_projection_splits_cumulative(amplitudes: Seq<Amplitude>, qubit: nat, count: int)
    requires
        0 <= count <= amplitudes.len(),
    ensures
        cumulative(probabilities_of(projected(amplitudes, qubit, true)), count) + cumulative(
            probabilities_of(projected(amplitudes, qubit, false)),
            count,
        ) == cumulative(probabilities_of(amplitudes), count),
        cumulative(probabilities_of(projected(amplitudes, qubit, true)), count) >= 0,
        cumulative(probabilities_of(projected(amplitudes, qubit, false)), count) >= 0,
    decreases count,
{
    if count > 0 {
        lemma_projection_splits_cumulative(amplitudes, qubit, count - 1);
        lemma_squared_norm_fits(amplitudes[count - 1]);
    }
}

/// The two values that a qubit can be found in share the total probability between
/// them, so neither retains more than there was.
pub proof fn lemma_projection_splits_probability(amplitudes: Seq<Amplitude>, qubit: nat)
    ensures
        total_probability(projected(amplitudes, qubit, true)) + total_probability(
            projected(amplitudes, qubit, false),
        ) == total_probability(amplitudes),
        0 <= total_probability(projected(amplitudes, qubit, true)) <= total_probability(
            amplitudes,
        ),
        0 <= total_probability(projected(amplitudes, qubit, false)) <= total_probability(
            amplitudes,
        ),
{
    lemma_projection_splits_cumulative(amplitudes, qubit, amplitudes.len() as int);
}

/// After the measurement of one qubit, every basis state that disagrees with the
/// value found has the amplitude `0`, and only those that agree with it can have
/// another.
pub proof fn lemma_measurement_clears_other_states(
    amplitudes: Seq<Amplitude>,
    qubit: nat,
    value: bool,
    index: int,
)
    requires
        0 <= index < amplitudes.len(),
        bit_at(index as nat, qubit) != value,
        total_probability(projected(amplitudes, qubit, value)) > 0,
    ensures
        renormalized(projected(amplitudes, qubit, value)).len() == amplitudes.len(),
        renormalized(projected(amplitudes, qubit, value))[index] == (Amplitude { re: 0, im: 0 }),
{
    let sum = total_probability(projected(amplitudes, qubit, value)) as nat;
    lemma_root_exists(sum);
    lemma_div_of0(root_of(sum) as int);
}

/// What a measurement has found it finds again: where every basis state that
/// disagrees with `value` has the amplitude `0`, a positive draw that the
/// probabilities reach selects a basis state that agrees with it.
pub proof fn lemma_measured_value_is_found_again(
    amplitudes: Seq<Amplitude>,
    qubit: nat,
    value: bool,
    draw: u64,
)
    requires
        amplitudes.len() > 0,
        forall|i: int|
            0 <= i < amplitudes.len() && bit_at(i as nat, qubit) != value ==> amplitudes[i] == (
            Amplitude { re: 0, im: 0 }),
        draw > 0,
        total_probability(amplitudes) >= draw * DRAW_UNIT,
    ensures
        0 <= sampled_index(probabilities_of(amplitudes), draw) < amplitudes.len(),
        bit_at(sampled_index(probabilities_of(amplitudes), draw) as nat, qubit) == value,
{
    let weights = probabilities_of(amplitudes);
    lemma_sampled_index_is_smallest(weights, draw);
    lemma_reached_draw_selects_positive_weight(weights, draw);
    let found = sampled_index(weights, draw);
    lemma_squared_norm_fits(amplitudes[found]);
    if bit_at(found as nat, qubit) != value {
        let re = amplitudes[found].re;
        let im = amplitudes[found].im;
        assert(re * re + im * im == 0) by (nonlinear_arith)
            requires
                re == 0,
                im == 0,
        ;
    }
}

/// The probability of each basis state.
pub fn probabilities(amplitudes: &Vec<Amplitude>) -> (probs: Vec<u128>)
    ensures
        probs@ == probabilities_of(amplitudes@),
{
    let mut probs: Vec<u128> = Vec::with_capacity(amplitudes.len());
    let mut done: usize = 0;
    while done < amplitudes.len()
        invariant
            done <= amplitudes.len(),
            probs@.len() == done,
            forall|j: int| 0 <= j < done ==> probs@[j] == amplitudes@[j].squared_norm(),
        decreases amplitudes.len() - done,
    {
        probs.push(amplitudes[done].norm_sqr());
        done = done + 1;
    }
    assert(probs@ =~= probabilities_of(amplitudes@));
    probs
}

/// Whether the probabilities sum to one within the tolerance.
pub fn is_normalized(amplitudes: &Vec<Amplitude>) -> (ok: bool)
    ensures
        ok == normalized(amplitudes@),
{
    let probs = probabilities(amplitudes);
    match checked_total(&probs) {
        Some(sum) => sums_to_one(sum),
        None => false,
    }
}

/// The vector of `states` amplitudes that is `1` at `index` and `0` elsewhere: the
/// basis state `index` where `index` is below `states`.
pub fn pure_state(states: usize, index: usize) -> (amplitudes: Vec<Amplitude>)
    ensures
        amplitudes@ == basis_state(states as nat, index as int),
{
    let mut amplitudes: Vec<Amplitude> = Vec::with_capacity(states);
    let mut done: usize = 0;
    while done < states
        invariant
            done <= states,
            amplitudes@.len() == done,
            forall|j: int|
                0 <= j < done ==> amplitudes@[j] == basis_state(states as nat, index as int)[j],
        decreases states - done,
    {
        if done == index {
            amplitudes.push(Amplitude { re: AMPLITUDE_ONE, im: 0 });
        } else {
            amplitudes.push(Amplitude { re: 0, im: 0 });
        }
        done = done + 1;
    }
    assert(amplitudes@ =~= basis_state(states as nat, index as int));
    amplitudes
}

/// The vector that keeps the amplitudes of the basis states in which qubit
/// `qubit_index` has the value `value`, and is `0` at the others.
pub fn project(
    amplitudes: &Vec<Amplitude>,
    qubit_index: usize,
    value: bool,
) -> (kept: Vec<Amplitude>)
    ensures
        kept@ == projected(amplitudes@, qubit_index as nat, value),
{
    let mut kept: Vec<Amplitude> = Vec::with_capacity(amplitudes.len());
    let mut done: usize = 0;
    while done < amplitudes.len()
        invariant
            done <= amplitudes.len(),
            kept@.len() == done,
            forall|j: int|
                0 <= j < done ==> kept@[j] == projected(amplitudes@, qubit_index as nat, value)[j],
        decreases amplitudes.len() - done,
    {
        if to_single_state_binary_val(done, qubit_index) == value {
            kept.push(amplitudes[done]);
        } else {
            kept.push(Amplitude { re: 0, im: 0 });
        }
        done = done + 1;
    }
    assert(kept@ =~= projected(amplitudes@, qubit_index as nat, value));
    kept
}

/// A component divided by `root / 2^62`, rounded towards zero.
fn rescale_component(component: i64, root: u64) -> (scaled: i64)
    requires
        root > 0,
        -root <= component <= root,
    ensures
        scaled == rescaled_component(component, root as nat),
        -AMPLITUDE_ONE <= scaled <= AMPLITUDE_ONE,
{
    let size: u128 = if component >= 0 {
        component as u128
    } else {
        (-(component as i128)) as u128
    };
    proof {
        lemma_rescaled_component(component, root as nat);
        assert(size * AMPLITUDE_ONE <= 0xffff_ffff_ffff_ffff * 0x4000_0000_0000_0000) by (
            nonlinear_arith)
            requires
                0 <= size <= 0xffff_ffff_ffff_ffff,
                AMPLITUDE_ONE == 0x4000_0000_0000_0000,
        ;
    }
    let quotient: u128 = (size * (AMPLITUDE_ONE as u128)) / (root as u128);
    if component >= 0 {
        quotient as i64
    } else {
        -(quotient as i64)
    }
}

/// The vector divided by its norm, the square root of its total probability. It is
/// given up where the total probability is zero or does not fit in 128 bits, and
/// where the vector that comes out does not have norm one within the tolerance.
/// That does not happen to a vector of at most `2^32` amplitudes whose total
/// probability is at least `2^-67` and fits in 128 bits.
pub fn renormalize(
    amplitudes: &Vec<Amplitude>,
) -> (outcome: Result<Vec<Amplitude>, RegisterError>)
    ensures
        match outcome {
            Ok(scaled) => can_renormalize(amplitudes@) && scaled@ == renormalized(amplitudes@),
            Err(error) => {
                &&& !can_renormalize(amplitudes@)
                &&& error == RegisterError::InternalInconsistency
                &&& amplitudes@.len() > MAX_AMPLITUDES || total_probability(amplitudes@)
                    < MIN_RETAINED || total_probability(amplitudes@) > u128::MAX
            },
        },
{
    proof {
        if amplitudes@.len() <= MAX_AMPLITUDES && MIN_RETAINED <= total_probability(amplitudes@)
            <= u128::MAX {
            lemma_renormalization_succeeds(amplitudes@);
        }
    }
    let probs = probabilities(amplitudes);
    let sum: u128 = match checked_total(&probs) {
        Some(sum) => sum,
        None => {
            return Err(RegisterError::InternalInconsistency);
        },
    };
    if sum == 0 {
        return Err(RegisterError::InternalInconsistency);
    }
    let root: u64 = isqrt(sum);
    let mut scaled: Vec<Amplitude> = Vec::with_capacity(amplitudes.len());
    let mut done: usize = 0;
    while done < amplitudes.len()
        invariant
            done <= amplitudes.len(),
            sum == total_probability(amplitudes@),
            sum > 0,
            is_root(sum as nat, root as nat),
            scaled@.len() == done,
            forall|j: int| 0 <= j < done ==> scaled@[j] == rescaled(amplitudes@, root as nat)[j],
        decreases amplitudes.len() - done,
    {
        let amplitude = amplitudes[done];
        proof {
            let re = amplitude.re as int;
            let im = amplitude.im as int;
            lemma_squared_norm_fits(amplitude);
            lemma_weight_within_total(probabilities_of(amplitudes@), done as int);
            assert(re * re >= 0 && im * im >= 0) by (nonlinear_arith);
            lemma_component_within_root(re, sum as nat, root as nat);
            lemma_component_within_root(im, sum as nat, root as nat);
            assert(root > 0) by (nonlinear_arith)
                requires
                    sum > 0,
                    sum < (root + 1) * (root + 1),
                    root >= 0,
            ;
        }
        let re = rescale_component(amplitude.re, root);
        let im = rescale_component(amplitude.im, root);
        scaled.push(Amplitude { re, im });
        done = done + 1;
    }
    assert(scaled@ =~= renormalized(amplitudes@));
    if is_normalized(&scaled) {
        Ok(scaled)
    } else {
        Err(RegisterError::InternalInconsistency)
    }
}

} // verus!
