//! Control plane of a polyphonic FM synthesis engine.
//!
//! The crate holds everything about the engine that is decided in whole
//! numbers: the compiler that turns a modulation matrix with feedback into
//! an acyclic evaluation plan, the order in which a plan is evaluated, the
//! life cycle of voices and the voice pool, the bookkeeping of operators and
//! their filter chains, and the delay lengths, channel permutations and
//! butterfly schedule of the reverb. Every function carries a contract, and
//! Verus proves each of them except the three small functions of the
//! diffuser that call the random number generator of the `rand` crate,
//! whose contracts are taken on trust. The arithmetic on samples is left to
//! the program around the crate.

pub mod algorithm;
pub mod audio;
pub mod delay;
pub mod diffuser;
pub mod filter;
pub mod hadamard;
pub mod input;
pub mod note;
pub mod operator;
pub mod plan;
pub mod plan_build;
pub mod plan_laws;
pub mod primes;
pub mod reverb;
pub mod schedule;
pub mod synth;
pub mod voice;
pub mod waveform;
