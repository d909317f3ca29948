use zkvm::field::Field;
use zkvm::goldilocks::Goldilocks;
use zkvm::interpolate::{fft_interpolate, lagrange_interpolate};
use zkvm::lde::{coset_domain, low_degree_extend};
use zkvm::toyfield::ToyField;
use zkvm::toystark::air::{self, evaluate_composition, evaluate_composition_at_query_point, generate_trace, PublicInputs};
use zkvm::toystark::fri::{replay_commit_phase, verify_queries, FriProver};
use zkvm::toystark::hash::{hash_leaf, hash_pair, MerkleTree};
use zkvm::toystark::prover::{self, ProofParams};
use zkvm::toystark::stark_verifier;
use zkvm::toystark::transcript::Transcript;

fn tf(x: u64) -> ToyField {
    ToyField::from_u64(x)
}

#[test]
fn hash_build_and_verify_every_leaf() {
    let values: Vec<u64> = (0..16).collect();
    let tree = MerkleTree::from_values(&values);
    for (i, &v) in values.iter().enumerate() {
        let path = tree.open(i);
        assert!(path.verify(tree.root(), hash_leaf(v)), "leaf {i} failed to verify");
    }
}

#[test]
fn hash_tampered_leaf_fails_verification() {
    let values: Vec<u64> = (0..8).collect();
    let tree = MerkleTree::from_values(&values);
    let path = tree.open(3);
    assert!(!path.verify(tree.root(), hash_leaf(999)));
}

#[test]
fn hash_tampered_sibling_fails_verification() {
    let values: Vec<u64> = (0..8).collect();
    let tree = MerkleTree::from_values(&values);
    let mut path = tree.open(2);
    path.siblings[0] ^= 1;
    assert!(!path.verify(tree.root(), hash_leaf(2)));
}

#[test]
fn hash_single_leaf_tree_has_leaf_as_root() {
    let tree = MerkleTree::from_values(&[42]);
    assert_eq!(tree.root(), hash_leaf(42));
    let path = tree.open(0);
    assert!(path.siblings.is_empty());
    assert!(path.verify(tree.root(), hash_leaf(42)));
}

#[test]
fn hash_pair_of_two_leaves_is_the_root() {
    let tree = MerkleTree::from_values(&[1, 2]);
    assert_eq!(tree.root(), hash_pair(hash_leaf(1), hash_leaf(2)));
    assert_eq!(tree.num_leaves(), 2);
    assert_ne!(hash_pair(1, 2), hash_pair(2, 1));
}

#[test]
fn is_deterministic_given_the_same_transcript_of_calls() {
    let mut t1 = Transcript::new(&[1, 2, 3]);
    let mut t2 = Transcript::new(&[1, 2, 3]);
    t1.absorb(10);
    t2.absorb(10);
    assert_eq!(t1.squeeze_u64(), t2.squeeze_u64());
}

#[test]
fn different_domain_separators_diverge() {
    let mut t1 = Transcript::new(&[1]);
    let mut t2 = Transcript::new(&[2]);
    assert_ne!(t1.squeeze_u64(), t2.squeeze_u64());
}

#[test]
fn transcript_absorbing_different_data_changes_future_challenges() {
    let mut t1 = Transcript::new(&[]);
    let mut t2 = Transcript::new(&[]);
    t1.absorb(1);
    t2.absorb(2);
    assert_ne!(t1.squeeze_u64(), t2.squeeze_u64());
}

#[test]
fn transcript_repeated_squeezes_are_independent() {
    let mut t = Transcript::new(&[7]);
    let a = t.squeeze_u64();
    let b = t.squeeze_u64();
    assert_ne!(a, b);
}

#[test]
fn squeeze_field_stays_in_field() {
    let mut t = Transcript::new(&[42]);
    let f: ToyField = t.squeeze_field();
    assert!(f.to_canonical_u64() < ToyField::modulus());
}

#[test]
fn squeeze_field_and_index_reduce_the_same_challenge() {
    let mut t1 = Transcript::new(&[5]);
    let mut t2 = Transcript::new(&[5]);
    let mut t3 = Transcript::new(&[5]);
    let raw = t1.squeeze_u64();
    let f: ToyField = t2.squeeze_field();
    assert_eq!(f.to_canonical_u64(), raw % 97);
    assert_eq!(t3.squeeze_index(10) as u64, raw % 10);
    let mut t4 = Transcript::new(&[5]);
    t4.absorb_field(tf(3));
    let mut t5 = Transcript::new(&[5]);
    t5.absorb(3);
    assert_eq!(t4.squeeze_u64(), t5.squeeze_u64());
}

fn honest_setup() -> (PublicInputs<ToyField>, Vec<ToyField>) {
    let public = PublicInputs { trace_len: 8, start: tf(3), step: tf(2) };
    let trace = generate_trace(&public);
    (public, trace)
}

#[test]
fn generated_trace_matches_arithmetic_progression() {
    let (public, trace) = honest_setup();
    for (i, &v) in trace.iter().enumerate() {
        assert_eq!(v, public.start + public.step * tf(i as u64));
    }
    assert_eq!(*trace.last().unwrap(), public.end());
}

#[test]
fn honest_trace_gives_low_degree_composition() {
    let (public, trace) = honest_setup();
    let n = trace.len();
    let blowup = 4;
    let offset = tf(5);
    let trace_coeffs = fft_interpolate(&trace).coeffs().to_vec();
    let lde_evals = low_degree_extend(&trace_coeffs, blowup, offset);
    let lde_domain = coset_domain(n * blowup, offset);
    let alphas = (tf(11), tf(13), tf(17));
    let composition = evaluate_composition(&lde_evals, &lde_domain, blowup, &public, alphas);
    let interpolated = lagrange_interpolate(
        &lde_domain.iter().copied().zip(composition.iter().copied()).collect::<Vec<_>>(),
    );
    assert!(
        interpolated.degree() < n * 2,
        "composition degree {} unexpectedly high for an honest trace",
        interpolated.degree()
    );
}

#[test]
fn tampered_trace_gives_high_degree_composition() {
    let (public, mut trace) = honest_setup();
    trace[4] += tf(1);
    let n = trace.len();
    let blowup = 4;
    let offset = tf(5);
    let trace_coeffs = fft_interpolate(&trace).coeffs().to_vec();
    let lde_evals = low_degree_extend(&trace_coeffs, blowup, offset);
    let lde_domain = coset_domain(n * blowup, offset);
    let alphas = (tf(11), tf(13), tf(17));
    let composition = evaluate_composition(&lde_evals, &lde_domain, blowup, &public, alphas);
    let interpolated = lagrange_interpolate(
        &lde_domain.iter().copied().zip(composition.iter().copied()).collect::<Vec<_>>(),
    );
    assert!(
        interpolated.degree() >= n * blowup - 2,
        "expected a tampered trace to blow up the composition's degree, got {}",
        interpolated.degree()
    );
}

#[test]
fn composition_at_a_query_point_matches_the_whole_coset() {
    let (public, trace) = honest_setup();
    let blowup = 4;
    let offset = tf(5);
    let trace_coeffs = fft_interpolate(&trace).coeffs().to_vec();
    let lde_evals = low_degree_extend(&trace_coeffs, blowup, offset);
    let lde_domain = coset_domain(32, offset);
    let alphas = (tf(11), tf(13), tf(17));
    let composition = evaluate_composition(&lde_evals, &lde_domain, blowup, &public, alphas);
    for k in [0usize, 5, 31] {
        let v = evaluate_composition_at_query_point(lde_domain[k], lde_evals[k], lde_evals[(k + blowup) % 32], &public, alphas);
        assert_eq!(v, composition[k]);
    }
}

fn run_fri_roundtrip(
    coeffs: Vec<ToyField>,
    blowup: usize,
    final_layer_size: usize,
    final_poly_num_coeffs: usize,
    num_queries: usize,
) -> bool {
    let n = coeffs.len();
    let domain_size = n * blowup;
    let offset = tf(2);
    let evals = low_degree_extend(&coeffs, blowup, offset);
    let mut prover_transcript = Transcript::new(&[domain_size as u64]);
    let prover = FriProver::commit(evals, offset, final_layer_size, final_poly_num_coeffs, &mut prover_transcript);
    let bound = prover.index_bound();
    let indices: Vec<usize> = (0..num_queries).map(|_| prover_transcript.squeeze_index(bound)).collect();
    let openings = prover.open(&indices);
    let commit_proof = prover.proof.clone();
    let mut verifier_transcript = Transcript::new(&[domain_size as u64]);
    let betas = replay_commit_phase(&commit_proof, &mut verifier_transcript);
    let verifier_bound = domain_size / 2;
    let verifier_indices: Vec<usize> =
        (0..num_queries).map(|_| verifier_transcript.squeeze_index(verifier_bound)).collect();
    assert_eq!(indices, verifier_indices, "prover/verifier index derivation diverged");
    verify_queries(
        &commit_proof,
        &betas,
        offset,
        domain_size,
        final_layer_size,
        final_poly_num_coeffs,
        &verifier_indices,
        &openings,
    )
}

#[test]
fn fri_accepts_a_genuine_low_degree_polynomial() {
    let coeffs: Vec<ToyField> = vec![1, 2, 3, 4].into_iter().map(tf).collect();
    assert!(run_fri_roundtrip(coeffs, 4, 4, 1, 12));
}

#[test]
fn fri_accepts_a_constant_polynomial() {
    let coeffs = vec![tf(7)];
    assert!(run_fri_roundtrip(coeffs, 8, 2, 1, 8));
}

#[test]
fn fri_rejects_data_with_no_low_degree_structure() {
    let domain_size = 16usize;
    let final_layer_size = 4;
    let final_poly_num_coeffs = 1;
    let offset = tf(2);
    let evals: Vec<ToyField> = (0..domain_size as u64).map(|i| tf(hash_leaf(i))).collect();
    let mut prover_transcript = Transcript::new(&[domain_size as u64]);
    let prover = FriProver::commit(evals, offset, final_layer_size, final_poly_num_coeffs, &mut prover_transcript);
    let bound = prover.index_bound();
    let num_queries = 20;
    let indices: Vec<usize> = (0..num_queries).map(|_| prover_transcript.squeeze_index(bound)).collect();
    let openings = prover.open(&indices);
    let commit_proof = prover.proof.clone();
    let mut verifier_transcript = Transcript::new(&[domain_size as u64]);
    let betas = replay_commit_phase(&commit_proof, &mut verifier_transcript);
    let verifier_indices: Vec<usize> =
        (0..num_queries).map(|_| verifier_transcript.squeeze_index(domain_size / 2)).collect();
    let accepted = verify_queries(
        &commit_proof,
        &betas,
        offset,
        domain_size,
        final_layer_size,
        final_poly_num_coeffs,
        &verifier_indices,
        &openings,
    );
    assert!(!accepted, "data with no low-degree structure should be caught with high probability");
}

#[test]
fn rejects_wrong_final_polynomial() {
    let coeffs: Vec<ToyField> = vec![1, 2, 3, 4].into_iter().map(tf).collect();
    let domain_size = coeffs.len() * 4;
    let final_layer_size = 4;
    let final_poly_num_coeffs = 1;
    let offset = tf(2);
    let evals = low_degree_extend(&coeffs, 4, offset);
    let mut prover_transcript = Transcript::new(&[domain_size as u64]);
    let prover = FriProver::commit(evals, offset, final_layer_size, final_poly_num_coeffs, &mut prover_transcript);
    let bound = prover.index_bound();
    let indices: Vec<usize> = (0..10).map(|_| prover_transcript.squeeze_index(bound)).collect();
    let openings = prover.open(&indices);
    let mut tampered_proof = prover.proof.clone();
    tampered_proof.final_poly_coeffs[0] += tf(1);
    let mut verifier_transcript = Transcript::new(&[domain_size as u64]);
    let betas = replay_commit_phase(&tampered_proof, &mut verifier_transcript);
    let accepted = verify_queries(
        &tampered_proof,
        &betas,
        offset,
        domain_size,
        final_layer_size,
        final_poly_num_coeffs,
        &indices,
        &openings,
    );
    assert!(!accepted);
}

#[test]
fn fri_rejects_final_polynomial_with_wrong_coefficient_count() {
    let coeffs: Vec<ToyField> = vec![1, 2, 3, 4].into_iter().map(tf).collect();
    let domain_size = coeffs.len() * 4;
    let final_layer_size = 4;
    let offset = tf(2);
    let evals = low_degree_extend(&coeffs, 4, offset);
    let mut prover_transcript = Transcript::new(&[domain_size as u64]);
    let prover = FriProver::commit(evals, offset, final_layer_size, 1, &mut prover_transcript);
    let bound = prover.index_bound();
    let indices: Vec<usize> = (0..10).map(|_| prover_transcript.squeeze_index(bound)).collect();
    let openings = prover.open(&indices);
    let mut oversized_proof = prover.proof.clone();
    oversized_proof.final_poly_coeffs.resize(final_layer_size, ToyField::from_u64(0));
    let mut verifier_transcript = Transcript::new(&[domain_size as u64]);
    let betas = replay_commit_phase(&oversized_proof, &mut verifier_transcript);
    let accepted = verify_queries(&oversized_proof, &betas, offset, domain_size, final_layer_size, 1, &indices, &openings);
    assert!(!accepted);
}

#[test]
fn honest_proof_verifies_toyfield() {
    let public = PublicInputs { trace_len: 8, start: ToyField::from_u64(3), step: ToyField::from_u64(2) };
    let proof = prover::prove(public, ProofParams::default());
    assert!(stark_verifier::verify(&proof));
}

#[test]
fn honest_proof_verifies_goldilocks() {
    let public = PublicInputs { trace_len: 16, start: Goldilocks::from_u64(100), step: Goldilocks::from_u64(7) };
    let proof = prover::prove(public, ProofParams::default());
    assert!(stark_verifier::verify(&proof));
}

#[test]
fn honest_proof_verifies_across_trace_lengths_and_params() {
    for &trace_len in &[2usize, 4, 8, 32] {
        for &blowup in &[2usize, 4, 8] {
            let public = PublicInputs { trace_len, start: Goldilocks::from_u64(1), step: Goldilocks::from_u64(1) };
            let params = ProofParams { blowup_factor: blowup, fri_final_poly_num_coeffs: 1, num_queries: 8 };
            let proof = prover::prove(public, params);
            assert!(stark_verifier::verify(&proof), "trace_len={trace_len} blowup={blowup}");
        }
    }
}

#[test]
fn lib_tampered_trace_opening_is_rejected() {
    let public = PublicInputs { trace_len: 8, start: ToyField::from_u64(3), step: ToyField::from_u64(2) };
    let mut proof = prover::prove(public, ProofParams::default());
    proof.queries[0].trace_a.value_here += ToyField::from_u64(1);
    assert!(!stark_verifier::verify(&proof));
}

#[test]
fn tampered_public_end_value_is_rejected() {
    let public = PublicInputs { trace_len: 8, start: ToyField::from_u64(3), step: ToyField::from_u64(2) };
    let proof = prover::prove(public, ProofParams::default());
    let mut tampered = proof;
    tampered.public.step = ToyField::from_u64(3);
    assert!(!stark_verifier::verify(&tampered));
}

#[test]
fn proof_for_wrong_start_value_is_rejected() {
    let honest_public = PublicInputs { trace_len: 8, start: ToyField::from_u64(3), step: ToyField::from_u64(2) };
    let proof = prover::prove(honest_public, ProofParams::default());
    let mut tampered = proof;
    tampered.public.start = ToyField::from_u64(4);
    assert!(!stark_verifier::verify(&tampered));
}

#[test]
fn dishonest_witness_is_rejected() {
    let public = PublicInputs { trace_len: 8, start: ToyField::from_u64(3), step: ToyField::from_u64(2) };
    let mut broken_trace = air::generate_trace(&public);
    broken_trace[5] = broken_trace[5] + ToyField::from_u64(1);
    let proof = prover::prove_with_trace(public, ProofParams::default(), broken_trace);
    assert!(!stark_verifier::verify(&proof));
}

#[test]
fn lib_corrupted_fri_final_polynomial_is_rejected() {
    let public = PublicInputs { trace_len: 8, start: ToyField::from_u64(3), step: ToyField::from_u64(2) };
    let mut proof = prover::prove(public, ProofParams::default());
    proof.fri_commit.final_poly_coeffs[0] += ToyField::from_u64(1);
    assert!(!stark_verifier::verify(&proof));
}

#[test]
fn corrupted_fri_layer_root_is_rejected() {
    let public = PublicInputs { trace_len: 8, start: ToyField::from_u64(3), step: ToyField::from_u64(2) };
    let mut proof = prover::prove(public, ProofParams::default());
    proof.fri_commit.layer_roots[0] ^= 1;
    assert!(!stark_verifier::verify(&proof));
}

#[test]
fn proof_has_the_requested_shape() {
    let public = PublicInputs { trace_len: 8, start: ToyField::from_u64(3), step: ToyField::from_u64(2) };
    let proof = prover::prove(public, ProofParams::default());
    assert_eq!(proof.queries.len(), 24);
    assert_eq!(proof.query_indices.len(), 24);
    assert!(proof.query_indices.iter().all(|&i| i < 16));
    assert_eq!(public.end(), ToyField::from_u64(17));
}
