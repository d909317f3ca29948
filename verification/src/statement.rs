//! What the CPU prover is asked for and what it sends back.

use vstd::prelude::*;
use crate::field::Field;
use crate::air_for_isa::NUM_COLUMNS;
use crate::opcodes::NUM_REGISTERS;
use crate::merkle::MerklePath;
use crate::layers::{FriRoundOpening, FriCommitPhaseProof};

verus! {

/// The prover's parameters.
#[derive(Debug, Clone, Copy)]
pub struct ProverParams {
    pub blowup_factor: usize,
    pub fri_final_poly_num_coeffs: usize,
    pub num_queries: usize,
}

/// The composition polynomial's degree is below this many times the trace
/// length; the blowup factor must exceed it so that FRI's last layer is
/// redundant.
pub const COMPOSITION_DEGREE_BOUND_FACTOR: usize = 8;

/// The blowup factor is a multiple of the degree bound factor and larger.
pub open spec fn blowup_ok(blowup_factor: usize) -> bool {
    &&& blowup_factor % COMPOSITION_DEGREE_BOUND_FACTOR == 0
    &&& blowup_factor > COMPOSITION_DEGREE_BOUND_FACTOR
}

impl ProverParams {
    /// The size of FRI's last layer: per final coefficient, the blowup
    /// beyond the composition's degree bound.
    pub fn fri_final_layer_size(&self) -> (r: usize)
        requires
            blowup_ok(self.blowup_factor),
            self.fri_final_poly_num_coeffs * (self.blowup_factor / COMPOSITION_DEGREE_BOUND_FACTOR) <= usize::MAX,
        ensures
            r == self.fri_final_poly_num_coeffs * (self.blowup_factor / COMPOSITION_DEGREE_BOUND_FACTOR),
    {
        self.fri_final_poly_num_coeffs * (self.blowup_factor / COMPOSITION_DEGREE_BOUND_FACTOR)
    }
}

impl Default for ProverParams {
    fn default() -> (r: Self)
        ensures
            r.blowup_factor == 32,
            r.fri_final_poly_num_coeffs == 1,
            r.num_queries == 32,
    {
        ProverParams { blowup_factor: 32, fri_final_poly_num_coeffs: 1, num_queries: 32 }
    }
}

/// The public statement: the registers the program ends with.
#[derive(Debug, Clone, Copy, PartialEq, Eq)]
pub struct PublicClaim<F: Field> {
    pub claimed_final_registers: [F; NUM_REGISTERS],
}

/// One opened row of the trace's low-degree extension.
#[derive(Debug, Clone)]
pub struct TraceRowOpening<F: Field> {
    pub values: Vec<F>,
    pub path: MerklePath<F>,
}

/// Everything opened for one query: the row at the index and the row one
/// trace step later, the same for the paired index, and the FRI rounds.
#[derive(Debug, Clone)]
pub struct QueryOpening<F: Field> {
    pub trace_here: TraceRowOpening<F>,
    pub trace_here_next: TraceRowOpening<F>,
    pub trace_paired: TraceRowOpening<F>,
    pub trace_paired_next: TraceRowOpening<F>,
    pub fri: Vec<FriRoundOpening<F>>,
}

/// A proof of execution.
#[derive(Debug, Clone)]
pub struct Proof<F: Field> {
    pub claim: PublicClaim<F>,
    pub params: ProverParams,
    pub trace_len: usize,
    pub trace_root: F,
    pub program_hash: F,
    pub fri_commit: FriCommitPhaseProof<F>,
    pub queries: Vec<QueryOpening<F>>,
}

/// An opened trace row carries one value per column; any other shape is a
/// malformed proof, which callers must rule out first.
pub fn assert_row_shape<F: Field>(values: &[F])
    requires
        values@.len() == NUM_COLUMNS,
{
}

} // verus!
