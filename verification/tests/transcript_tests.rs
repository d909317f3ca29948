use zkvm::field::Field;
use zkvm::goldilocks::Goldilocks;
use zkvm::layers::{replay_commit_phase, verify_queries, FriProver};
use zkvm::lde::low_degree_extend;
use zkvm::poseidon::Poseidon;
use zkvm::toyfield::ToyField;
use zkvm::transcript::Transcript;

fn hasher() -> Poseidon<ToyField> {
    Poseidon::new(5)
}

fn tf(x: u64) -> ToyField {
    ToyField::from_u64(x)
}

#[test]
fn is_deterministic_given_the_same_sequence_of_calls() {
    let h = hasher();
    let mut t1 = Transcript::new(&h, "test");
    let mut t2 = Transcript::new(&h, "test");
    t1.absorb(tf(10));
    t2.absorb(tf(10));
    assert_eq!(t1.squeeze_field(), t2.squeeze_field());
}

#[test]
fn different_labels_diverge_immediately() {
    let h = hasher();
    let mut t1 = Transcript::new(&h, "protocol-a");
    let mut t2 = Transcript::new(&h, "protocol-b");
    assert_ne!(t1.squeeze_field(), t2.squeeze_field());
}

#[test]
fn lib_absorbing_different_data_changes_future_challenges() {
    let h = hasher();
    let mut t1 = Transcript::new(&h, "test");
    let mut t2 = Transcript::new(&h, "test");
    t1.absorb(tf(1));
    t2.absorb(tf(2));
    assert_ne!(t1.squeeze_field(), t2.squeeze_field());
}

#[test]
fn lib_repeated_squeezes_are_independent() {
    let h = hasher();
    let mut t = Transcript::new(&h, "test");
    t.absorb(tf(7));
    let a = t.squeeze_field();
    let b = t.squeeze_field();
    let c = t.squeeze_field();
    assert_ne!(a, b);
    assert_ne!(b, c);
    assert_ne!(a, c);
}

#[test]
fn squeeze_field_stays_in_field_range() {
    let h = hasher();
    let mut t = Transcript::new(&h, "test");
    for _ in 0..20 {
        let f = t.squeeze_field();
        assert!(f.to_canonical_u64() < ToyField::modulus());
    }
}

#[test]
fn absorbing_across_a_rate_boundary_still_matches_independently_built_transcript() {
    let h = hasher();
    let values: Vec<ToyField> = (1..=5).map(tf).collect();
    let mut t1 = Transcript::new(&h, "boundary-test");
    for &v in &values {
        t1.absorb(v);
    }
    let mut t2 = Transcript::new(&h, "boundary-test");
    t2.absorb_many(&values);
    assert_eq!(t1.squeeze_field(), t2.squeeze_field());
}

#[test]
fn interleaved_absorb_and_squeeze_is_deterministic() {
    let h = hasher();
    let run = || {
        let mut t = Transcript::new(&h, "interleaved");
        t.absorb(tf(1));
        let a = t.squeeze_field();
        t.absorb(tf(2));
        t.absorb(tf(3));
        let b = t.squeeze_field();
        let c = t.squeeze_field();
        t.absorb(tf(4));
        let d = t.squeeze_field();
        (a, b, c, d)
    };
    assert_eq!(run(), run());
}

#[test]
fn squeeze_index_is_within_bound() {
    let h = hasher();
    let mut t = Transcript::new(&h, "index-test");
    for _ in 0..50 {
        let idx = t.squeeze_index(16);
        assert!(idx < 16);
    }
}

#[test]
fn lib_works_over_goldilocks_too() {
    let h: Poseidon<Goldilocks> = Poseidon::new(7);
    let mut t1 = Transcript::new(&h, "goldilocks-test");
    let mut t2 = Transcript::new(&h, "goldilocks-test");
    t1.absorb(Goldilocks::from_u64(123456789));
    t2.absorb(Goldilocks::from_u64(123456789));
    assert_eq!(t1.squeeze_field(), t2.squeeze_field());
}

#[test]
fn absorb_u64_matches_absorbing_the_equivalent_field_element() {
    let h = hasher();
    let mut t1 = Transcript::new(&h, "test");
    let mut t2 = Transcript::new(&h, "test");
    t1.absorb_u64(42);
    t2.absorb(tf(42));
    assert_eq!(t1.squeeze_field(), t2.squeeze_field());
}

fn prove_and_verify(
    coeffs: Vec<ToyField>,
    blowup: usize,
    final_layer_size: usize,
    final_poly_num_coeffs: usize,
    num_queries: usize,
) -> bool {
    let hasher: Poseidon<ToyField> = Poseidon::new(5);
    let domain_size = coeffs.len() * blowup;
    let offset = tf(3);
    let evals = low_degree_extend(&coeffs, blowup, offset);
    let mut prover_transcript = Transcript::new(&hasher, "fri-integration-test-v1");
    prover_transcript.absorb_u64(domain_size as u64);
    let prover = FriProver::commit(&hasher, evals, offset, final_layer_size, final_poly_num_coeffs, &mut prover_transcript);
    let bound = prover.index_bound();
    let query_indices: Vec<usize> = (0..num_queries).map(|_| prover_transcript.squeeze_index(bound)).collect();
    let openings = prover.open(&query_indices);
    let proof = prover.proof.clone();
    let mut verifier_transcript = Transcript::new(&hasher, "fri-integration-test-v1");
    verifier_transcript.absorb_u64(domain_size as u64);
    let betas = replay_commit_phase(&proof, &mut verifier_transcript);
    let verifier_indices: Vec<usize> =
        (0..num_queries).map(|_| verifier_transcript.squeeze_index(domain_size / 2)).collect();
    assert_eq!(
        query_indices, verifier_indices,
        "the whole point of Fiat-Shamir: two independently-run transcripts over the same data must derive identical challenges without any direct communication"
    );
    verify_queries(
        &hasher,
        &proof,
        &betas,
        offset,
        domain_size,
        final_layer_size,
        final_poly_num_coeffs,
        &verifier_indices,
        &openings,
    )
}

#[test]
fn honest_fri_proof_is_accepted_end_to_end() {
    let coeffs: Vec<ToyField> = vec![1, 2, 3, 4].into_iter().map(tf).collect();
    assert!(prove_and_verify(coeffs, 4, 4, 1, 16));
}

#[test]
fn different_domain_separator_label_would_desync_prover_and_verifier() {
    let hasher: Poseidon<ToyField> = Poseidon::new(5);
    let mut a = Transcript::new(&hasher, "protocol-v1");
    let mut b = Transcript::new(&hasher, "protocol-v2");
    a.absorb(tf(42));
    b.absorb(tf(42));
    assert_ne!(a.squeeze_field(), b.squeeze_field());
}

#[test]
fn tampered_proof_is_rejected_end_to_end() {
    let hasher: Poseidon<ToyField> = Poseidon::new(5);
    let coeffs: Vec<ToyField> = vec![1, 2, 3, 4].into_iter().map(tf).collect();
    let domain_size = coeffs.len() * 4;
    let offset = tf(3);
    let evals = low_degree_extend(&coeffs, 4, offset);
    let mut prover_transcript = Transcript::new(&hasher, "fri-integration-test-v1");
    prover_transcript.absorb_u64(domain_size as u64);
    let prover = FriProver::commit(&hasher, evals, offset, 4, 1, &mut prover_transcript);
    let bound = prover.index_bound();
    let indices: Vec<usize> = (0..16).map(|_| prover_transcript.squeeze_index(bound)).collect();
    let openings = prover.open(&indices);
    let mut tampered_proof = prover.proof.clone();
    tampered_proof.final_poly_coeffs[0] += tf(1);
    let mut verifier_transcript = Transcript::new(&hasher, "fri-integration-test-v1");
    verifier_transcript.absorb_u64(domain_size as u64);
    let betas = replay_commit_phase(&tampered_proof, &mut verifier_transcript);
    assert!(!verify_queries(&hasher, &tampered_proof, &betas, offset, domain_size, 4, 1, &indices, &openings));
}
