//! A minimal STARK for an arithmetic progression `a_{i+1} = a_i + step`,
//! with 64-bit hashes for commitments and the transcript.

pub mod hash;
pub mod transcript;
pub mod air;
pub mod fri;
pub mod prover;
pub mod stark_verifier;
pub mod composition;
