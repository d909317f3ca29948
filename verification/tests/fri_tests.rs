use zkvm::field::Field;
use zkvm::fold::{domain_point, fold_layer, fold_value};
use zkvm::goldilocks::Goldilocks;
use zkvm::layers::{replay_commit_phase, verify_queries, FriCommitPhaseProof, FriProver};
use zkvm::lde::{coset_domain, low_degree_extend};
use zkvm::poly::Polynomial;
use zkvm::poseidon::Poseidon;
use zkvm::toyfield::ToyField;
use zkvm::transcript::ChallengeSource;

fn tf(x: u64) -> ToyField {
    ToyField::from_u64(x)
}

struct TestTranscript<'h, F: Field> {
    hasher: &'h Poseidon<F>,
    state: [F; 3],
}

impl<'h, F: Field> TestTranscript<'h, F> {
    fn new(hasher: &'h Poseidon<F>) -> Self {
        TestTranscript { hasher, state: [F::zero(); 3] }
    }
}

impl<'h, F: Field> ChallengeSource<F> for TestTranscript<'h, F> {
    fn absorb(&mut self, value: F) {
        self.state[0] = self.state[0].fadd(value);
        self.state = self.hasher.permute(self.state);
    }

    fn squeeze_field(&mut self) -> F {
        let out = self.state[0];
        self.state = self.hasher.permute(self.state);
        out
    }

    fn squeeze_index(&mut self, bound: usize) -> usize {
        (self.squeeze_field().to_canonical_u64() % bound as u64) as usize
    }
}

#[test]
fn folding_a_genuine_low_degree_polynomial_matches_direct_evaluation() {
    let coeffs = vec![tf(1), tf(2), tf(3), tf(4)];
    let n = coeffs.len();
    let blowup = 4;
    let offset = tf(2);
    let evals = low_degree_extend(&coeffs, blowup, offset);
    let domain = coset_domain(n * blowup, offset);
    let beta = tf(7);
    let (folded_evals, folded_domain) = fold_layer(&evals, &domain, beta);
    let p_even = Polynomial::new(vec![tf(1), tf(3)]);
    let p_odd = Polynomial::new(vec![tf(2), tf(4)]);
    for (k, &y) in folded_domain.iter().enumerate() {
        let expected = p_even.eval(y) + beta * p_odd.eval(y);
        assert_eq!(folded_evals[k], expected, "mismatch at folded index {k}");
    }
}

#[test]
fn fold_value_matches_fold_layer_pointwise() {
    let coeffs = vec![tf(5), tf(1), tf(9), tf(2)];
    let n = coeffs.len();
    let blowup = 2;
    let offset = tf(3);
    let evals = low_degree_extend(&coeffs, blowup, offset);
    let domain = coset_domain(n * blowup, offset);
    let beta = tf(6);
    let (folded_evals, _) = fold_layer(&evals, &domain, beta);
    let half = evals.len() / 2;
    for i in 0..half {
        let v = fold_value(evals[i], evals[i + half], domain[i], beta);
        assert_eq!(v, folded_evals[i]);
    }
}

#[test]
fn domain_point_matches_repeated_folding_of_the_domain() {
    let offset = tf(3);
    let size: usize = 16;
    let domain0 = coset_domain(size, offset);
    let generator = ToyField::root_of_unity(size.trailing_zeros());
    let mut domain = domain0.clone();
    for r in 0..3u32 {
        for (i, &x) in domain.iter().enumerate() {
            assert_eq!(domain_point(offset, generator, i, r), x, "mismatch at round {r}, index {i}");
        }
        let half = domain.len() / 2;
        let mut next = Vec::with_capacity(half);
        for i in 0..half {
            next.push(domain[i] * domain[i]);
        }
        domain = next;
    }
}

#[test]
fn fold_value_of_a_constant_is_the_constant() {
    assert_eq!(fold_value(tf(9), tf(9), tf(5), tf(4)), tf(9));
}

fn run_fri_roundtrip(
    coeffs: Vec<ToyField>,
    blowup: usize,
    final_layer_size: usize,
    final_poly_num_coeffs: usize,
    num_queries: usize,
) -> bool {
    let hasher: Poseidon<ToyField> = Poseidon::new(5);
    let n = coeffs.len();
    let domain_size = n * blowup;
    let offset = tf(2);
    let evals = low_degree_extend(&coeffs, blowup, offset);
    let mut prover_transcript = TestTranscript::new(&hasher);
    let prover = FriProver::commit(&hasher, evals, offset, final_layer_size, final_poly_num_coeffs, &mut prover_transcript);
    let bound = prover.index_bound();
    let indices: Vec<usize> = (0..num_queries).map(|_| prover_transcript.squeeze_index(bound)).collect();
    let openings = prover.open(&indices);
    let commit_proof = prover.proof.clone();
    let mut verifier_transcript = TestTranscript::new(&hasher);
    let betas = replay_commit_phase(&commit_proof, &mut verifier_transcript);
    let verifier_indices: Vec<usize> =
        (0..num_queries).map(|_| verifier_transcript.squeeze_index(domain_size / 2)).collect();
    assert_eq!(indices, verifier_indices, "prover/verifier index derivation diverged");
    verify_queries(
        &hasher,
        &commit_proof,
        &betas,
        offset,
        domain_size,
        final_layer_size,
        final_poly_num_coeffs,
        &verifier_indices,
        &openings,
    )
}

#[test]
fn lib_accepts_a_genuine_low_degree_polynomial() {
    let coeffs: Vec<ToyField> = vec![1, 2, 3, 4].into_iter().map(tf).collect();
    assert!(run_fri_roundtrip(coeffs, 4, 4, 1, 12));
}

#[test]
fn lib_accepts_a_constant_polynomial() {
    let coeffs = vec![tf(7)];
    assert!(run_fri_roundtrip(coeffs, 8, 2, 1, 8));
}

#[test]
fn accepts_over_goldilocks_too() {
    let hasher: Poseidon<Goldilocks> = Poseidon::new(7);
    let coeffs: Vec<Goldilocks> = vec![1u64, 2, 3, 4].into_iter().map(Goldilocks::from_u64).collect();
    let blowup = 4;
    let domain_size = coeffs.len() * blowup;
    let offset = Goldilocks::from_u64(2);
    let evals = low_degree_extend(&coeffs, blowup, offset);
    let mut prover_transcript = TestTranscript::new(&hasher);
    let prover = FriProver::commit(&hasher, evals, offset, 4, 1, &mut prover_transcript);
    let bound = prover.index_bound();
    let indices: Vec<usize> = (0..10).map(|_| prover_transcript.squeeze_index(bound)).collect();
    let openings = prover.open(&indices);
    let proof = prover.proof.clone();
    let mut verifier_transcript = TestTranscript::new(&hasher);
    let betas = replay_commit_phase(&proof, &mut verifier_transcript);
    let verifier_indices: Vec<usize> = (0..10).map(|_| verifier_transcript.squeeze_index(domain_size / 2)).collect();
    assert!(verify_queries(&hasher, &proof, &betas, offset, domain_size, 4, 1, &verifier_indices, &openings));
}

#[test]
fn lib_rejects_data_with_no_low_degree_structure() {
    let hasher: Poseidon<ToyField> = Poseidon::new(5);
    let domain_size = 16usize;
    let final_layer_size = 4;
    let final_poly_num_coeffs = 1;
    let offset = tf(2);
    let evals: Vec<ToyField> = (0..domain_size as u64).map(tf).collect();
    let mut prover_transcript = TestTranscript::new(&hasher);
    let prover = FriProver::commit(&hasher, evals, offset, final_layer_size, final_poly_num_coeffs, &mut prover_transcript);
    let bound = prover.index_bound();
    let num_queries = 20;
    let indices: Vec<usize> = (0..num_queries).map(|_| prover_transcript.squeeze_index(bound)).collect();
    let openings = prover.open(&indices);
    let proof = prover.proof.clone();
    let mut verifier_transcript = TestTranscript::new(&hasher);
    let betas = replay_commit_phase(&proof, &mut verifier_transcript);
    let verifier_indices: Vec<usize> =
        (0..num_queries).map(|_| verifier_transcript.squeeze_index(domain_size / 2)).collect();
    let accepted = verify_queries(
        &hasher,
        &proof,
        &betas,
        offset,
        domain_size,
        final_layer_size,
        final_poly_num_coeffs,
        &verifier_indices,
        &openings,
    );
    assert!(!accepted);
}

#[test]
fn rejects_tampered_final_polynomial() {
    let hasher: Poseidon<ToyField> = Poseidon::new(5);
    let coeffs: Vec<ToyField> = vec![1, 2, 3, 4].into_iter().map(tf).collect();
    let domain_size = coeffs.len() * 4;
    let offset = tf(2);
    let evals = low_degree_extend(&coeffs, 4, offset);
    let mut prover_transcript = TestTranscript::new(&hasher);
    let prover = FriProver::commit(&hasher, evals, offset, 4, 1, &mut prover_transcript);
    let bound = prover.index_bound();
    let indices: Vec<usize> = (0..10).map(|_| prover_transcript.squeeze_index(bound)).collect();
    let openings = prover.open(&indices);
    let mut tampered = prover.proof.clone();
    tampered.final_poly_coeffs[0] += tf(1);
    let mut verifier_transcript = TestTranscript::new(&hasher);
    let betas = replay_commit_phase(&tampered, &mut verifier_transcript);
    assert!(!verify_queries(&hasher, &tampered, &betas, offset, domain_size, 4, 1, &indices, &openings));
}

#[test]
fn lib_rejects_final_polynomial_with_wrong_coefficient_count() {
    let hasher: Poseidon<ToyField> = Poseidon::new(5);
    let coeffs: Vec<ToyField> = vec![1, 2, 3, 4].into_iter().map(tf).collect();
    let domain_size = coeffs.len() * 4;
    let offset = tf(2);
    let evals = low_degree_extend(&coeffs, 4, offset);
    let mut prover_transcript = TestTranscript::new(&hasher);
    let prover = FriProver::commit(&hasher, evals, offset, 4, 1, &mut prover_transcript);
    let bound = prover.index_bound();
    let indices: Vec<usize> = (0..10).map(|_| prover_transcript.squeeze_index(bound)).collect();
    let openings = prover.open(&indices);
    let mut oversized = prover.proof.clone();
    oversized.final_poly_coeffs.resize(4, ToyField::from_u64(0));
    let mut verifier_transcript = TestTranscript::new(&hasher);
    let betas = replay_commit_phase(&oversized, &mut verifier_transcript);
    assert!(!verify_queries(&hasher, &oversized, &betas, offset, domain_size, 4, 1, &indices, &openings));
}

#[test]
fn prover_reports_rounds_bound_and_offset() {
    let hasher: Poseidon<ToyField> = Poseidon::new(5);
    let coeffs: Vec<ToyField> = vec![1, 2, 3, 4].into_iter().map(tf).collect();
    let offset = tf(2);
    let evals = low_degree_extend(&coeffs, 4, offset);
    let mut t = TestTranscript::new(&hasher);
    let prover = FriProver::commit(&hasher, evals, offset, 4, 1, &mut t);
    assert_eq!(prover.num_rounds(), 2);
    assert_eq!(prover.index_bound(), 8);
    assert_eq!(prover.domain_offset(), offset);
    assert_eq!(prover.proof.layer_roots.len(), 2);
    assert_eq!(prover.proof.final_poly_coeffs.len(), 1);
}

#[test]
fn malformed_query_phase_is_rejected_before_the_domain_is_used() {
    let hasher: Poseidon<ToyField> = Poseidon::new(5);
    let proof = FriCommitPhaseProof { layer_roots: vec![ToyField::from_u64(1)], final_poly_coeffs: vec![] };
    let zero = ToyField::from_u64(0);
    // one committed root but no challenge
    assert!(!verify_queries(&hasher, &proof, &[], zero, 3, 0, 0, &[], &[]));
    // the committed rounds do not halve the domain down to the final layer
    let beta = [ToyField::from_u64(2)];
    assert!(!verify_queries(&hasher, &proof, &beta, zero, 3, 7, 0, &[], &[]));
    // the wrong number of final coefficients
    assert!(!verify_queries(&hasher, &proof, &beta, zero, 3, 1, 2, &[], &[]));
}
