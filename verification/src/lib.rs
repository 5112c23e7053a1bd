//! Emulation of a register of qubits in exact fixed-point arithmetic.
//!
//! A register of `n` qubits is a vector of `2^n` complex amplitudes, one for
//! each basis state. Measuring the register draws a basis state with the
//! probability given by the squared norm of its amplitude and collapses the
//! vector: to that basis state where the whole register is measured, and to the
//! basis states that agree with the value found where one qubit is measured.
//!
//! All quantities are binary fixed-point numbers held in integers, so that every
//! operation has an exact meaning. Amplitudes count units of `2^-62`,
//! probabilities units of `2^-124` and random draws units of `2^-64`.
//! Probabilities that should sum to one may miss it by less than `10^-8`.
//!
//! The modules, from the leaves up:
//! - [`codec`]: basis indices and their qubits;
//! - [`fixed`]: the numbers, the tolerance and the integer square root;
//! - [`sampler`]: drawing an index from a distribution;
//! - [`state`]: what measurement does to a vector of amplitudes;
//! - [`precision`]: how far rounding moves the norm;
//! - [`register`]: the register itself;
//! - [`display`]: the text that shows a register;
//! - [`rng`]: the standard generator of `rand` as a source of draws.

pub mod codec;
pub mod display;
pub mod error;
pub mod fixed;
pub mod precision;
pub mod register;
pub mod rng;
pub mod sampler;
pub mod state;

pub use codec::{to_single_state_binary_val, to_state_nrs_binary, to_state_repr_binary};
pub use display::{norm_ascii_log_magnitude, render};
pub use error::RegisterError;
pub use fixed::{one, zero, Amplitude};
pub use register::{Entangble, QuantumState};
pub use sampler::{weighted_choice, RandomSource};
