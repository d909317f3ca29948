use zkvm::air_for_isa::NUM_COLUMNS;
use zkvm::cpu_prover::prove;
use zkvm::cpu_verifier::verify;
use zkvm::field::Field;
use zkvm::goldilocks::Goldilocks;
use zkvm::opcodes::{Instruction as I, NUM_REGISTERS};
use zkvm::poseidon::Poseidon;
use zkvm::program_encoding::program_hash;
use zkvm::statement::{ProverParams, PublicClaim};
use zkvm::toyfield::ToyField;
use zkvm::trace::run_padded;

fn gf(x: u64) -> Goldilocks {
    Goldilocks::from_u64(x)
}

fn add_program() -> Vec<I<Goldilocks>> {
    vec![I::LoadImm { reg: 0, imm: gf(2) }, I::LoadImm { reg: 1, imm: gf(3) }, I::Add { dst: 2, a: 0, b: 1 }, I::Halt]
}

fn claim_for(values: &[(usize, u64)]) -> PublicClaim<Goldilocks> {
    let mut regs = [Goldilocks::zero(); NUM_REGISTERS];
    for &(i, v) in values {
        regs[i] = gf(v);
    }
    PublicClaim { claimed_final_registers: regs }
}

#[test]
fn produces_a_proof_with_the_expected_shape() {
    let hasher: Poseidon<Goldilocks> = Poseidon::new(7);
    let mut claimed = [Goldilocks::zero(); NUM_REGISTERS];
    claimed[0] = gf(2);
    claimed[1] = gf(3);
    claimed[2] = gf(5);
    let claim = PublicClaim { claimed_final_registers: claimed };
    let params = ProverParams { blowup_factor: 16, fri_final_poly_num_coeffs: 1, num_queries: 8 };
    let proof = prove(&hasher, &add_program(), vec![], 8, params, claim);
    assert_eq!(proof.queries.len(), 8);
    assert_eq!(proof.trace_len, 8);
    for q in &proof.queries {
        assert_eq!(q.trace_here.values.len(), NUM_COLUMNS);
    }
}

#[test]
fn fri_final_layer_size_scales_with_the_blowup() {
    let params = ProverParams { blowup_factor: 32, fri_final_poly_num_coeffs: 2, num_queries: 8 };
    assert_eq!(params.fri_final_layer_size(), 8);
    let default = ProverParams::default();
    assert_eq!(default.blowup_factor, 32);
    assert_eq!(default.fri_final_layer_size(), 4);
}

#[test]
fn identical_programs_hash_the_same() {
    let hasher = Poseidon::new(5);
    let program: Vec<I<ToyField>> = vec![I::LoadImm { reg: 0, imm: ToyField::from_u64(5) }, I::Halt];
    assert_eq!(program_hash(&hasher, &program), program_hash(&hasher, &program));
}

#[test]
fn different_programs_hash_differently() {
    let hasher = Poseidon::new(5);
    let a: Vec<I<ToyField>> = vec![I::LoadImm { reg: 0, imm: ToyField::from_u64(5) }, I::Halt];
    let b: Vec<I<ToyField>> = vec![I::LoadImm { reg: 0, imm: ToyField::from_u64(6) }, I::Halt];
    assert_ne!(program_hash(&hasher, &a), program_hash(&hasher, &b));
}

#[test]
fn program_hash_is_the_hash_of_the_encoding() {
    let hasher: Poseidon<ToyField> = Poseidon::new(5);
    let program: Vec<I<ToyField>> = vec![I::Add { dst: 1, a: 2, b: 3 }];
    let t = ToyField::from_u64;
    let flat = [t(3), t(1), t(2), t(3), t(0), t(0)];
    assert_eq!(program_hash(&hasher, &program), hasher.hash_many(&flat));
}

#[test]
fn honest_proof_verifies() {
    let hasher: Poseidon<Goldilocks> = Poseidon::new(7);
    let claim = claim_for(&[(0, 2), (1, 3), (2, 5)]);
    let params = ProverParams { blowup_factor: 16, fri_final_poly_num_coeffs: 1, num_queries: 12 };
    let proof = prove(&hasher, &add_program(), vec![], 8, params, claim);
    assert!(verify(&hasher, &add_program(), &proof));
}

#[test]
fn tampered_trace_opening_is_rejected() {
    let hasher: Poseidon<Goldilocks> = Poseidon::new(7);
    let claim = claim_for(&[(0, 2), (1, 3), (2, 5)]);
    let params = ProverParams { blowup_factor: 16, fri_final_poly_num_coeffs: 1, num_queries: 12 };
    let mut proof = prove(&hasher, &add_program(), vec![], 8, params, claim);
    proof.queries[0].trace_here.values[0] += Goldilocks::from_u64(1);
    assert!(!verify(&hasher, &add_program(), &proof));
}

#[test]
fn wrong_claimed_output_is_rejected() {
    let hasher: Poseidon<Goldilocks> = Poseidon::new(7);
    let honest_claim = claim_for(&[(0, 2), (1, 3), (2, 5)]);
    let params = ProverParams { blowup_factor: 16, fri_final_poly_num_coeffs: 1, num_queries: 12 };
    let proof = prove(&hasher, &add_program(), vec![], 8, params, honest_claim);
    let mut wrong_proof = proof;
    wrong_proof.claim = claim_for(&[(0, 2), (1, 3), (2, 6)]);
    assert!(!verify(&hasher, &add_program(), &wrong_proof));
}

#[test]
fn program_hash_mismatch_is_rejected() {
    let hasher: Poseidon<Goldilocks> = Poseidon::new(7);
    let claim = claim_for(&[(0, 2), (1, 3), (2, 5)]);
    let params = ProverParams { blowup_factor: 16, fri_final_poly_num_coeffs: 1, num_queries: 12 };
    let proof = prove(&hasher, &add_program(), vec![], 8, params, claim);
    let different_program: Vec<I<Goldilocks>> = vec![I::LoadImm { reg: 0, imm: gf(99) }, I::Halt];
    assert!(!verify(&hasher, &different_program, &proof));
}

#[test]
fn corrupted_fri_final_polynomial_is_rejected() {
    let hasher: Poseidon<Goldilocks> = Poseidon::new(7);
    let claim = claim_for(&[(0, 2), (1, 3), (2, 5)]);
    let params = ProverParams { blowup_factor: 16, fri_final_poly_num_coeffs: 1, num_queries: 12 };
    let mut proof = prove(&hasher, &add_program(), vec![], 8, params, claim);
    proof.fri_commit.final_poly_coeffs[0] += Goldilocks::from_u64(1);
    assert!(!verify(&hasher, &add_program(), &proof));
}

fn fibonacci_program(n: u64) -> Vec<I<Goldilocks>> {
    vec![
        I::LoadImm { reg: 0, imm: gf(0) },
        I::LoadImm { reg: 1, imm: gf(1) },
        I::LoadImm { reg: 2, imm: gf(n) },
        I::LoadImm { reg: 4, imm: -Goldilocks::from_u64(1) },
        I::LoadImm { reg: 5, imm: gf(0) },
        I::Jnz { reg: 2, target: 7 },
        I::Jmp { target: 12 },
        I::Add { dst: 3, a: 0, b: 1 },
        I::Add { dst: 0, a: 1, b: 5 },
        I::Add { dst: 1, a: 3, b: 5 },
        I::Add { dst: 2, a: 2, b: 4 },
        I::Jmp { target: 5 },
        I::Halt,
    ]
}

#[test]
fn fibonacci_ten_proves_and_verifies_end_to_end() {
    let hasher: Poseidon<Goldilocks> = Poseidon::new(7);
    let program = fibonacci_program(10);
    let trace_len = 128;
    let params = ProverParams { blowup_factor: 16, fri_final_poly_num_coeffs: 1, num_queries: 24 };
    let honest_trace = run_padded(&program, vec![], trace_len);
    let claim = PublicClaim { claimed_final_registers: honest_trace.final_registers };
    assert_eq!(claim.claimed_final_registers[0], gf(55), "fib(10) should be 55");
    let proof = prove(&hasher, &program, vec![], trace_len, params, claim);
    assert!(verify(&hasher, &program, &proof), "honest fib(10)=55 proof should verify");
    let mut wrong_registers = honest_trace.final_registers;
    wrong_registers[0] = gf(56);
    let wrong_claim = PublicClaim { claimed_final_registers: wrong_registers };
    let wrong_proof = prove(&hasher, &program, vec![], trace_len, params, wrong_claim);
    assert!(!verify(&hasher, &program, &wrong_proof), "fib(10)=56 is false and must not verify");
}
