//! A small, fully specified STARK proving pipeline: finite fields,
//! polynomials, a toy CPU and its AIR, Merkle commitments, FRI and a
//! Fiat-Shamir transcript.

pub mod field;
pub mod toyfield;
pub mod goldilocks;
pub mod primality;
pub mod goldilocks_prime;
pub mod poly;
pub mod fft;
pub mod dft;
pub mod lde;
pub mod interpolate;
pub mod text;
pub mod opcode_id;
pub mod opcodes;
pub mod cpu;
pub mod trace;
pub mod air_for_isa;
pub mod constraints;
pub mod poseidon;
pub mod merkle;
pub mod transcript;
pub mod fold;
pub mod layers;
pub mod toystark;
pub mod program_encoding;
pub mod statement;
pub mod cpu_verifier;
pub mod cpu_prover;
pub mod cpu_exports;
pub mod toy_stark_export;
pub mod air_laws;
pub mod air_soundness;
pub mod poly_laws;
pub mod dft_laws;
pub mod fri_laws;
