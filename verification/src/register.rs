//! The entangled register.
//!
//! A register owns the amplitudes of all the basis states of its qubits and the
//! source of the random draws that its measurements consume. It starts in the
//! basis state in which every qubit is `0`. At every moment its probabilities sum
//! to one within the tolerance.
//!
//! Every measurement takes one draw from the source. What a measurement does with
//! a given draw is exact, and is on offer under a name of its own: `observe_at`
//! beside `observe`, `observe_sub_at` beside `observe_sub`.

use vstd::prelude::*;
use vstd::arithmetic::power2::{
    lemma2_to64, lemma_pow2_pos, lemma_pow2_strictly_increases, lemma_pow2_unfold, pow2,
};
use crate::codec::{bit_at, bits_of, to_single_state_binary_val, to_state_nrs_binary};
use crate::error::RegisterError;
use crate::fixed::Amplitude;
use crate::precision::{lemma_measurement_succeeds, MAX_AMPLITUDES, MIN_RETAINED};
use crate::sampler::{sampled_index, select_index, valid_distribution, RandomSource};
use crate::state::{
    basis_state, can_renormalize, is_normalized, lemma_basis_state_is_normalized,
    lemma_basis_state_selects_itself, lemma_basis_state_survives_measurement,
    lemma_measurement_clears_other_states, normalized, probabilities, probabilities_of, project,
    projected, pure_state, renormalize, renormalized, total_probability,
};

verus! {

/// The largest number of qubits that a register emulates without delay.
pub const FEASIBLE_QUBITS: usize = 5;

/// Whether a register of `qubits` qubits is so large that emulating it may take
/// long: the number of basis states doubles with every qubit.
pub fn is_demanding(qubits: usize) -> (slow: bool)
    ensures
        slow == (qubits > FEASIBLE_QUBITS),
{
    qubits > FEASIBLE_QUBITS
}

/// What the observation of a whole register of `qubits` qubits with the draw `draw`
/// does to the amplitudes `before`: the draw selects a basis state, `after` is that
/// basis state, and `bits` are its qubits, the most significant first.
pub open spec fn full_observation(
    before: Seq<Amplitude>,
    qubits: nat,
    draw: u64,
    after: Seq<Amplitude>,
    bits: Seq<bool>,
) -> bool {
    let selected = sampled_index(probabilities_of(before), draw);
    &&& 0 <= selected < before.len()
    &&& after == basis_state(before.len(), selected)
    &&& bits == bits_of(selected as nat, qubits)
}

/// What the observation of the qubit `qubit` with the draw `draw` does to the
/// amplitudes `before`. The value found is that of the qubit in the basis state
/// that the draw selects. `after` keeps the amplitudes of the basis states that
/// agree with the value, divided by the norm of what is kept, and is `0` at the
/// others. Where what is kept cannot be brought to norm one the observation fails
/// and `after` is `before`; that takes more than `2^32` amplitudes or a probability
/// below `2^-67` of what is kept.
pub open spec fn partial_observation(
    before: Seq<Amplitude>,
    qubit: nat,
    draw: u64,
    after: Seq<Amplitude>,
    outcome: Result<bool, RegisterError>,
) -> bool {
    let value = bit_at(sampled_index(probabilities_of(before), draw) as nat, qubit);
    let kept = projected(before, qubit, value);
    match outcome {
        Ok(found) => {
            &&& found == value
            &&& can_renormalize(kept)
            &&& after == renormalized(kept)
        },
        Err(error) => {
            &&& error == RegisterError::InternalInconsistency
            &&& !can_renormalize(kept)
            &&& after == before
            &&& before.len() > MAX_AMPLITUDES || total_probability(kept) < MIN_RETAINED
        },
    }
}

/// A register in a basis state gives the same answers again. With a positive draw,
/// and the basis state `0` with every draw, the observation of the whole register
/// finds the basis state it is in, the observation of one qubit finds the value
/// that the qubit has in that state and succeeds, and both leave the register as it
/// was.
pub proof fn lemma_collapsed_register_repeats(
    states: nat,
    index: int,
    qubits: nat,
    qubit: nat,
    draw: u64,
    after: Seq<Amplitude>,
    bits: Seq<bool>,
    outcome: Result<bool, RegisterError>,
)
    requires
        0 <= index < states,
        draw > 0 || index == 0,
    ensures
        full_observation(basis_state(states, index), qubits, draw, after, bits) ==> after
            == basis_state(states, index) && bits == bits_of(index as nat, qubits),
        partial_observation(basis_state(states, index), qubit, draw, after, outcome) ==> after
            == basis_state(states, index) && outcome == Ok::<bool, RegisterError>(
            bit_at(index as nat, qubit),
        ),
{
    lemma_basis_state_selects_itself(states, index, draw);
    lemma_basis_state_survives_measurement(states, index, qubit);
}

/// A quantum system that can be measured.
pub trait QuantumState {
    /// The number of qubits of the system.
    spec fn qubit_count(&self) -> nat;

    /// Observes, and collapses, the whole system. The system is left in one basis
    /// state, and the value of each qubit in it is returned, the most significant
    /// qubit first.
    fn observe(&mut self) -> (bits: Vec<bool>)
        ensures
            bits@.len() == old(self).qubit_count(),
            final(self).qubit_count() == old(self).qubit_count(),
    ;

    /// Observes the qubit `index` alone, which collapses the system only as far as
    /// the value found requires. It fails, and leaves the system as it was, where
    /// the state that is left cannot be brought back to norm one.
    fn observe_sub(&mut self, index: usize) -> (outcome: Result<bool, RegisterError>)
        requires
            index < old(self).qubit_count(),
        ensures
            final(self).qubit_count() == old(self).qubit_count(),
    ;
}

/// The amplitudes of a register, which sum to one in probability at every moment.
struct StateVector {
    qubits: usize,
    states: usize,
    wf: Vec<Amplitude>,
}

impl StateVector {
    #[verifier::type_invariant]
    spec fn inv(self) -> bool {
        &&& self.qubits >= 1
        &&& self.states == pow2(self.qubits as nat)
        &&& self.wf@.len() == self.states
        &&& normalized(self.wf@)
    }

    /// Puts other amplitudes in place of the present ones.
    fn replace(&mut self, wf: Vec<Amplitude>)
        requires
            wf@.len() == old(self).states,
            normalized(wf@),
        ensures
            final(self).wf@ == wf@,
            final(self).qubits == old(self).qubits,
            final(self).states == old(self).states,
    {
        proof {
            use_type_invariant(&*self);
        }
        self.wf = wf;
    }
}

/// An entangled register of qubits.
pub struct Entangble<R: RandomSource> {
    vector: StateVector,
    rng: R,
}

impl<R: RandomSource> View for Entangble<R> {
    type V = Seq<Amplitude>;

    /// The amplitudes of the basis states, by index.
    closed spec fn view(&self) -> Seq<Amplitude> {
        self.vector.wf@
    }
}

impl<R: RandomSource> Entangble<R> {
    /// The source of the random draws.
    pub closed spec fn source(&self) -> R {
        self.rng
    }

    /// What holds of every register: it has at least one qubit, one amplitude for
    /// each basis state, and probabilities that sum to one within the tolerance.
    pub open spec fn well_formed(&self) -> bool {
        &&& self.qubit_count() >= 1
        &&& self@.len() == pow2(self.qubit_count())
        &&& normalized(self@)
    }

    /// A register of `qubits` qubits in the basis state `0`, which draws from `rng`.
    /// A register needs at least one qubit, and a machine word must be able to
    /// count its basis states.
    pub fn new(qubits: usize, rng: R) -> (made: Result<Self, RegisterError>)
        requires
            pow2(qubits as nat) <= usize::MAX,
        ensures
            match made {
                Ok(register) => {
                    &&& qubits >= 1
                    &&& register.well_formed()
                    &&& register.qubit_count() == qubits
                    &&& register@ == basis_state(pow2(qubits as nat), 0)
                    &&& register.source() == rng
                },
                Err(error) => qubits < 1 && error == RegisterError::InvalidArgument,
            },
    {
        if qubits < 1 {
            return Err(RegisterError::InvalidArgument);
        }
        let mut states: usize = 1;
        let mut doubled: usize = 0;
        proof {
            lemma2_to64();
        }
        while doubled < qubits
            invariant
                doubled <= qubits,
                states == pow2(doubled as nat),
                pow2(qubits as nat) <= usize::MAX,
            decreases qubits - doubled,
        {
            proof {
                lemma_pow2_unfold((doubled + 1) as nat);
                if doubled + 1 < qubits {
                    lemma_pow2_strictly_increases((doubled + 1) as nat, qubits as nat);
                }
            }
            states = states * 2;
            doubled = doubled + 1;
        }
        let wf = pure_state(states, 0);
        proof {
            lemma_pow2_pos(qubits as nat);
            lemma_basis_state_is_normalized(states as nat, 0);
        }
        Ok(Entangble { vector: StateVector { qubits, states, wf }, rng })
    }

    /// The number of qubits.
    pub fn qubits(&self) -> (qubits: usize)
        ensures
            qubits == self.qubit_count(),
            self.well_formed(),
    {
        proof {
            use_type_invariant(&self.vector);
        }
        self.vector.qubits
    }

    /// The number of basis states: two to the number of qubits.
    pub fn states(&self) -> (states: usize)
        ensures
            states == pow2(self.qubit_count()),
            states == self@.len(),
            self.well_formed(),
    {
        proof {
            use_type_invariant(&self.vector);
        }
        self.vector.states
    }

    /// The amplitudes of the basis states, by index.
    pub fn amplitudes(&self) -> (amplitudes: &Vec<Amplitude>)
        ensures
            amplitudes@ == self@,
            self.well_formed(),
    {
        proof {
            use_type_invariant(&self.vector);
        }
        &self.vector.wf
    }

    /// Collapses the register into the basis state `index`.
    pub fn set_pure(&mut self, index: usize)
        requires
            index < pow2(old(self).qubit_count()),
        ensures
            final(self)@ == basis_state(pow2(old(self).qubit_count()), index as int),
            final(self).qubit_count() == old(self).qubit_count(),
            final(self).source() == old(self).source(),
            final(self).well_formed(),
    {
        proof {
            use_type_invariant(&self.vector);
            lemma_basis_state_is_normalized(self.vector.states as nat, index as int);
        }
        let wf = pure_state(self.vector.states, index);
        self.vector.replace(wf);
    }

    /// The probability of each basis state: the squared norm of its amplitude. The
    /// probabilities sum to one within the tolerance.
    pub fn calc_probs(&self) -> (probs: Vec<u128>)
        ensures
            probs@ == probabilities_of(self@),
            valid_distribution(probs@),
            self.well_formed(),
    {
        proof {
            use_type_invariant(&self.vector);
        }
        probabilities(&self.vector.wf)
    }

    /// Checks that the probabilities sum to one within the tolerance. They do, in
    /// every register and at every moment.
    pub fn check_norm(&self) -> (ok: bool)
        ensures
            ok,
            self.well_formed(),
    {
        proof {
            use_type_invariant(&self.vector);
        }
        is_normalized(&self.vector.wf)
    }

    /// The basis state that `draw` selects from the probabilities of the register,
    /// which stays as it is.
    pub fn substate_at(&self, draw: u64) -> (index: usize)
        ensures
            index == sampled_index(probabilities_of(self@), draw),
            index < self@.len(),
            self.well_formed(),
    {
        proof {
            use_type_invariant(&self.vector);
        }
        let probs = probabilities(&self.vector.wf);
        select_index(&probs, draw)
    }

    /// A basis state drawn from the probabilities of the register with one draw of
    /// its source. The amplitudes stay as they are.
    pub fn weighted_random_substate(&mut self) -> (index: usize)
        ensures
            exists|draw: u64| index == #[trigger] sampled_index(probabilities_of(old(self)@), draw),
            index < old(self)@.len(),
            final(self)@ == old(self)@,
            final(self).qubit_count() == old(self).qubit_count(),
            final(self).well_formed(),
    {
        let draw = self.rng.next_draw();
        let index = self.substate_at(draw);
        assert(index == sampled_index(probabilities_of(old(self)@), draw));
        index
    }

    /// Observes the whole register with the draw `draw`: collapses it into the
    /// basis state that the draw selects and returns the value of each qubit in
    /// that state, the most significant qubit first.
    pub fn observe_at(&mut self, draw: u64) -> (bits: Vec<bool>)
        ensures
            full_observation(old(self)@, old(self).qubit_count(), draw, final(self)@, bits@),
            final(self).qubit_count() == old(self).qubit_count(),
            final(self).source() == old(self).source(),
            final(self).well_formed(),
    {
        let pick = self.substate_at(draw);
        self.set_pure(pick);
        to_state_nrs_binary(pick, self.vector.qubits)
    }

    /// Observes the qubit `qubit_index` with the draw `draw`. The value found is
    /// that of the qubit in the basis state that the draw selects. The amplitudes of
    /// the basis states that disagree with it become `0`, and the others are divided
    /// by the norm of what is left. Where that cannot be done the register stays as
    /// it was.
    pub fn observe_sub_at(
        &mut self,
        qubit_index: usize,
        draw: u64,
    ) -> (outcome: Result<bool, RegisterError>)
        requires
            qubit_index < old(self).qubit_count(),
        ensures
            partial_observation(old(self)@, qubit_index as nat, draw, final(self)@, outcome),
            outcome matches Ok(value) ==> forall|i: int|
                0 <= i < final(self)@.len() && bit_at(i as nat, qubit_index as nat) != value
                    ==> final(self)@[i] == (Amplitude { re: 0, im: 0 }),
            final(self).qubit_count() == old(self).qubit_count(),
            final(self).source() == old(self).source(),
            final(self).well_formed(),
    {
        proof {
            use_type_invariant(&self.vector);
        }
        let pick = self.substate_at(draw);
        let state_value = to_single_state_binary_val(pick, qubit_index);
        let kept = project(&self.vector.wf, qubit_index, state_value);
        match renormalize(&kept) {
            Ok(scaled) => {
                proof {
                    assert forall|i: int|
                        0 <= i < scaled@.len() && bit_at(i as nat, qubit_index as nat)
                            != state_value implies #[trigger] scaled@[i] == (Amplitude {
                        re: 0,
                        im: 0,
                    }) by {
                        lemma_measurement_clears_other_states(
                            self@,
                            qubit_index as nat,
                            state_value,
                            i,
                        );
                    }
                }
                self.vector.replace(scaled);
                Ok(state_value)
            },
            Err(error) => {
                proof {
                    if self@.len() <= MAX_AMPLITUDES && total_probability(kept@) >= MIN_RETAINED {
                        lemma_measurement_succeeds(self@, qubit_index as nat, state_value);
                    }
                }
                Err(error)
            },
        }
    }
}

impl<R: RandomSource> QuantumState for Entangble<R> {
    closed spec fn qubit_count(&self) -> nat {
        self.vector.qubits as nat
    }

    /// Observes the whole register with one draw of its source: collapses it into
    /// the basis state that the draw selects and returns the value of each qubit in
    /// that state, the most significant qubit first.
    fn observe(&mut self) -> (bits: Vec<bool>)
        ensures
            exists|draw: u64|
                full_observation(old(self)@, old(self).qubit_count(), draw, final(self)@, bits@),
            final(self).well_formed(),
    {
        let draw = self.rng.next_draw();
        let bits = self.observe_at(draw);
        assert(full_observation(old(self)@, old(self).qubit_count(), draw, final(self)@, bits@));
        bits
    }

    /// Observes the qubit `index` with one draw of the source. The value found is
    /// that of the qubit in the basis state that the draw selects. The amplitudes of
    /// the basis states that disagree with it become `0`, and the others are divided
    /// by the norm of what is left. Where that cannot be done the register stays as
    /// it was.
    fn observe_sub(&mut self, index: usize) -> (outcome: Result<bool, RegisterError>)
        ensures
            exists|draw: u64|
                partial_observation(old(self)@, index as nat, draw, final(self)@, outcome),
            outcome matches Ok(value) ==> forall|i: int|
                0 <= i < final(self)@.len() && bit_at(i as nat, index as nat) != value
                    ==> final(self)@[i] == (Amplitude { re: 0, im: 0 }),
            final(self).well_formed(),
    {
        let draw = self.rng.next_draw();
        let outcome = self.observe_sub_at(index, draw);
        assert(partial_observation(old(self)@, index as nat, draw, final(self)@, outcome));
        outcome
    }
}

} // verus!
