//! FRI prover: repeated folding of a polynomial, a revealed terminal
//! polynomial, and randomized consistency queries over every round, all
//! bound to one Fiat-Shamir transcript.

pub mod fri;
pub mod guest;
pub mod hal;
pub mod merkle;
pub mod params;
pub mod transcript;
