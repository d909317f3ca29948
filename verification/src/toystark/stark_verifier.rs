//! The toy STARK verifier: replays the transcript, checks each query's
//! trace openings and composition value, then runs the FRI query checks.

use vstd::prelude::*;
use vstd::arithmetic::power2::pow2;
use crate::field::{Field, vals};
use crate::fft::{is_pow2_len, log2_of, no_zero_divisors, log2_exact, lemma_log2_of, lemma_pow2_mul};
use crate::fold::{domain_point, domain_point_spec};
use crate::layers::{fri_generator, lemma_coset_point_is_domain_point};
use crate::toystark::air::{evaluate_composition_at_query_point, composition_defined, last_trace_point};
use crate::toystark::fri::{
    FriRoundOpening, replay_commit_phase, verify_queries, fri_accepts, copy_rounds, same_rounds,
    lemma_fri_accepts_same, round_beta,
};
use crate::toystark::hash::{hash_leaf, leaf_hash, path_root};
use crate::toystark::prover::{
    Proof, TracePointOpening, QueryOpening, trace_point_ok, expected_composition, derived_index, proof_betas,
    proof_alphas, lde_point, squeeze_chain, committed_state, query_state, domain_separator,
};
use crate::toystark::transcript::Transcript;

verus! {

/// The FRI openings of each query.
pub open spec fn fri_of_queries<F: Field>(qs: Seq<QueryOpening<F>>) -> Seq<Vec<FriRoundOpening<F>>> {
    qs.map_values(|q: QueryOpening<F>| q.fri)
}

/// The query indices the verifier derives from the proof.
pub open spec fn verifier_indices<F: Field>(proof: Proof<F>) -> Seq<usize> {
    let big_n = proof.public.trace_len * proof.params.blowup_factor;
    Seq::new(proof.params.num_queries as nat, |q: int| derived_index(proof, q as nat, (big_n / 2) as nat) as usize)
}

/// The checks of one query before FRI: both trace openings verify, and
/// the first FRI round opens the composition computed from them.
pub open spec fn query_checks_ok<F: Field>(proof: Proof<F>, idx: nat, query: QueryOpening<F>) -> bool {
    let b = proof.params.blowup_factor as nat;
    let big_n = proof.public.trace_len as nat * b;
    let half = big_n / 2;
    &&& trace_point_ok(proof.trace_root, query.trace_a, idx, (idx + b) % big_n)
    &&& trace_point_ok(proof.trace_root, query.trace_b, idx + half, (idx + half + b) % big_n)
    &&& query.fri@.len() >= 1
    &&& query.fri@[0].value_a.val() == expected_composition(proof, idx, query.trace_a)
    &&& query.fri@[0].value_b.val() == expected_composition(proof, idx + half, query.trace_b)
}

/// The FRI checks of the verdict, at the verifier's query indices.
pub open spec fn fri_accepts_of<F: Field>(proof: Proof<F>) -> bool {
    let n = proof.public.trace_len as nat;
    let b = proof.params.blowup_factor as nat;
    let k = proof.params.fri_final_poly_num_coeffs as nat;
    fri_accepts::<F>(
        proof.fri_commit,
        proof_betas(proof),
        3int % F::p(),
        n * b,
        b * k,
        k,
        verifier_indices(proof),
        fri_of_queries(proof.queries@),
    )
}

/// The verifier's verdict.
pub open spec fn stark_accepts<F: Field>(proof: Proof<F>) -> bool {
    let n = proof.public.trace_len as nat;
    let b = proof.params.blowup_factor as nat;
    let k = proof.params.fri_final_poly_num_coeffs as nat;
    let big_n = n * b;
    let indices = verifier_indices(proof);
    if !is_pow2_len(n) {
        false
    } else if big_n / 2 == 0 || proof.params.num_queries != proof.queries@.len() {
        false
    } else {
        &&& forall|q: int| 0 <= q < proof.queries@.len() ==> #[trigger] query_checks_ok(
            proof,
            indices[q] as nat,
            proof.queries@[q],
        )
        &&& fri_accepts_of::<F>(proof)
    }
}

/// An accepted proof authenticates every opened trace value: for each
/// query, both openings (at the query index and half the domain further)
/// carry the value at their point and the value one trace step later, and
/// each of the four values hashes, along its Merkle path at its index, to
/// the committed trace root.
pub proof fn lemma_accepted_trace_openings_authenticated<F: Field>(proof: Proof<F>)
    requires
        stark_accepts(proof),
    ensures
        forall|q: int|
            0 <= q < proof.queries@.len() ==> {
                let b = proof.params.blowup_factor as nat;
                let big_n = proof.public.trace_len as nat * b;
                let idx = verifier_indices(proof)[q] as nat;
                let a = (#[trigger] proof.queries@[q]).trace_a;
                let c = proof.queries@[q].trace_b;
                let ic = idx + big_n / 2;
                &&& a.path_here.leaf_index == idx
                &&& path_root(leaf_hash(a.value_here.val() as u64), idx, a.path_here.siblings@) == proof.trace_root
                &&& a.path_next.leaf_index == (idx + b) % big_n
                &&& path_root(leaf_hash(a.value_next.val() as u64), (idx + b) % big_n, a.path_next.siblings@)
                    == proof.trace_root
                &&& c.path_here.leaf_index == ic
                &&& path_root(leaf_hash(c.value_here.val() as u64), ic, c.path_here.siblings@) == proof.trace_root
                &&& c.path_next.leaf_index == (ic + b) % big_n
                &&& path_root(leaf_hash(c.value_next.val() as u64), (ic + b) % big_n, c.path_next.siblings@)
                    == proof.trace_root
            },
{
    assert forall|q: int| 0 <= q < proof.queries@.len() implies {
        let b = proof.params.blowup_factor as nat;
        let big_n = proof.public.trace_len as nat * b;
        let idx = verifier_indices(proof)[q] as nat;
        let a = (#[trigger] proof.queries@[q]).trace_a;
        let c = proof.queries@[q].trace_b;
        let ic = idx + big_n / 2;
        &&& a.path_here.leaf_index == idx
        &&& path_root(leaf_hash(a.value_here.val() as u64), idx, a.path_here.siblings@) == proof.trace_root
        &&& a.path_next.leaf_index == (idx + b) % big_n
        &&& path_root(leaf_hash(a.value_next.val() as u64), (idx + b) % big_n, a.path_next.siblings@)
            == proof.trace_root
        &&& c.path_here.leaf_index == ic
        &&& path_root(leaf_hash(c.value_here.val() as u64), ic, c.path_here.siblings@) == proof.trace_root
        &&& c.path_next.leaf_index == (ic + b) % big_n
        &&& path_root(leaf_hash(c.value_next.val() as u64), (ic + b) % big_n, c.path_next.siblings@)
            == proof.trace_root
    } by {
        assert(query_checks_ok(proof, verifier_indices(proof)[q] as nat, proof.queries@[q]));
    }
}

/// What the verifier needs of the claimed parameters so that every check
/// it makes is defined.
pub open spec fn verifier_params_ok<F: Field>(proof: Proof<F>) -> bool {
    let n = proof.public.trace_len as nat;
    let b = proof.params.blowup_factor as nat;
    let k = proof.params.fri_final_poly_num_coeffs as nat;
    let big_n = n * b;
    is_pow2_len(n) ==> {
        &&& is_pow2_len(b)
        &&& k >= 1
        &&& b * k <= usize::MAX
        &&& big_n <= pow2(F::two_adicity_spec())
        &&& 2 * big_n <= usize::MAX
        &&& forall|j: nat| j < big_n ==> #[trigger] composition_defined::<F>(
            lde_point::<F>(big_n, j),
            n,
            last_trace_point::<F>(n),
        )
    }
}

/// The Merkle checks of one trace-point opening.
fn verify_trace_point<F: Field>(opening: &TracePointOpening<F>, trace_root: u64, index_here: usize, index_next: usize) -> (r: bool)
    ensures
        r == trace_point_ok(trace_root, *opening, index_here as nat, index_next as nat),
{
    opening.path_here.leaf_index == index_here && opening.path_next.leaf_index == index_next
        && opening.path_here.verify(trace_root, hash_leaf(opening.value_here.to_canonical_u64()))
        && opening.path_next.verify(trace_root, hash_leaf(opening.value_next.to_canonical_u64()))
}

/// Verifies a proof.
pub fn verify<F: Field>(proof: &Proof<F>) -> (r: bool)
    requires
        verifier_params_ok(*proof),
    ensures
        r == stark_accepts(*proof),
{
    let n = proof.public.trace_len;
    if log2_exact(n).is_none() {
        return false;
    }
    let blowup = proof.params.blowup_factor;
    let k = proof.params.fri_final_poly_num_coeffs;
    proof {
        F::lemma_modulus();
        lemma_pow2_mul(n as nat, blowup as nat);
        let kb = choose|kb: nat| pow2(kb) == blowup;
        vstd::arithmetic::power2::lemma_pow2_pos(kb);
        let kn = choose|kk: nat| pow2(kk) == n;
        vstd::arithmetic::power2::lemma_pow2_pos(kn);
        assert(n * blowup >= blowup) by (nonlinear_arith)
            requires n >= 1;
        assert(n * blowup >= n) by (nonlinear_arith)
            requires blowup >= 1;
        assert(blowup * k >= 1) by (nonlinear_arith)
            requires blowup >= 1, k >= 1;
        vstd::arithmetic::div_mod::lemma_small_mod(3, F::p() as nat);
    }
    let big_n = n * blowup;
    let half = big_n / 2;
    let offset = F::from_u64(3);
    let log_big_n = match log2_exact(big_n) {
        Some(l) => l,
        None => {
            assert(false);
            0
        },
    };
    proof {
        lemma_log2_of(log_big_n as nat);
        if log_big_n > F::two_adicity_spec() {
            vstd::arithmetic::power2::lemma_pow2_strictly_increases(F::two_adicity_spec(), log_big_n as nat);
        }
    }
    let big_generator = F::root_of_unity(log_big_n);
    let ds = domain_separator(&proof.public, &proof.params);
    let mut transcript = Transcript::new(ds.as_slice());
    transcript.absorb(proof.trace_root);
    let alpha_transition = transcript.squeeze_field::<F>();
    let alpha_start = transcript.squeeze_field::<F>();
    let alpha_end = transcript.squeeze_field::<F>();
    let alphas = (alpha_transition, alpha_start, alpha_end);
    let ghost s3 = transcript@;
    proof {
        reveal_with_fuel(squeeze_chain, 4);
        assert(s3 == squeeze_chain(committed_state(*proof), 3));
        assert((alphas.0.val(), alphas.1.val(), alphas.2.val()) == proof_alphas(*proof));
    }
    let betas = replay_commit_phase(&proof.fri_commit, &mut transcript);
    proof {
        assert(vals(betas@) =~= proof_betas(*proof));
        assert(transcript@ == query_state(*proof));
    }
    let bound = half;
    if bound == 0 || proof.params.num_queries != proof.queries.len() {
        return false;
    }
    let nq = proof.params.num_queries;
    let ghost sq = transcript@;
    let mut indices: Vec<usize> = Vec::with_capacity(nq);
    let mut q: usize = 0;
    while q < nq
        invariant
            q <= nq,
            bound >= 1,
            indices@.len() == q,
            transcript@ == squeeze_chain(sq, q as nat),
            forall|j: int| 0 <= j < q ==> #[trigger] indices@[j] == squeeze_chain(sq, (j + 1) as nat) as nat
                % (bound as nat),
        decreases nq - q,
    {
        let idx = transcript.squeeze_index(bound);
        indices.push(idx);
        q = q + 1;
    }
    proof {
        assert(indices@ =~= verifier_indices(*proof));
    }
    let ghost p = *proof;
    let mut q: usize = 0;
    while q < nq
        invariant
            q <= nq,
            p == *proof,
            nq == proof.queries@.len(),
            nq == indices@.len(),
            indices@ == verifier_indices(p),
            n == proof.public.trace_len,
            blowup == proof.params.blowup_factor,
            big_n == n * blowup,
            blowup <= big_n,
            n <= big_n,
            half == big_n / 2,
            half >= 1,
            big_n <= pow2(F::two_adicity_spec()),
            2 * big_n <= usize::MAX,
            is_pow2_len(n as nat),
            is_pow2_len(big_n as nat),
            pow2(log_big_n as nat) == big_n,
            big_generator.val() == fri_generator::<F>(big_n as nat),
            offset.val() == 3int % F::p(),
            (alphas.0.val(), alphas.1.val(), alphas.2.val()) == proof_alphas(p),
            forall|j: nat| j < big_n ==> #[trigger] composition_defined::<F>(
                lde_point::<F>(big_n as nat, j),
                n as nat,
                last_trace_point::<F>(n as nat),
            ),
            forall|j: int| 0 <= j < nq ==> #[trigger] indices@[j] < half,
            forall|j: int| 0 <= j < q ==> #[trigger] query_checks_ok(p, indices@[j] as nat, proof.queries@[j]),
        decreases nq - q,
    {
        let idx0 = indices[q];
        let idx1 = idx0 + half;
        let next0 = (idx0 + blowup) % big_n;
        let next1 = (idx1 + blowup) % big_n;
        let query = &proof.queries[q];
        if !verify_trace_point(&query.trace_a, proof.trace_root, idx0, next0)
            || !verify_trace_point(&query.trace_b, proof.trace_root, idx1, next1) {
            proof {
                assert(!query_checks_ok(p, indices@[q as int] as nat, proof.queries@[q as int]));
            }
            return false;
        }
        if query.fri.len() == 0 {
            proof {
                assert(!query_checks_ok(p, indices@[q as int] as nat, proof.queries@[q as int]));
            }
            return false;
        }
        let round0 = &query.fri[0];
        let x_a = domain_point(offset, big_generator, idx0, 0);
        let x_b = domain_point(offset, big_generator, idx1, 0);
        proof {
            lemma_coset_point_is_domain_point::<F>(offset.val(), fri_generator::<F>(big_n as nat), idx0 as nat);
            lemma_coset_point_is_domain_point::<F>(offset.val(), fri_generator::<F>(big_n as nat), idx1 as nat);
            assert(composition_defined::<F>(lde_point::<F>(big_n as nat, idx0 as nat), n as nat, last_trace_point::<F>(n as nat)));
            assert(composition_defined::<F>(lde_point::<F>(big_n as nat, idx1 as nat), n as nat, last_trace_point::<F>(n as nat)));
        }
        let composition_a = evaluate_composition_at_query_point(
            x_a,
            query.trace_a.value_here,
            query.trace_a.value_next,
            &proof.public,
            alphas,
        );
        let composition_b = evaluate_composition_at_query_point(
            x_b,
            query.trace_b.value_here,
            query.trace_b.value_next,
            &proof.public,
            alphas,
        );
        if !composition_a.feq(&round0.value_a) || !composition_b.feq(&round0.value_b) {
            proof {
                assert(!query_checks_ok(p, indices@[q as int] as nat, proof.queries@[q as int]));
            }
            return false;
        }
        q = q + 1;
    }
    let mut fri_openings: Vec<Vec<FriRoundOpening<F>>> = Vec::with_capacity(nq);
    let mut q: usize = 0;
    while q < nq
        invariant
            q <= nq,
            nq == proof.queries@.len(),
            fri_openings@.len() == q,
            forall|j: int| 0 <= j < q ==> #[trigger] same_rounds(fri_openings@[j]@, proof.queries@[j].fri@),
        decreases nq - q,
    {
        fri_openings.push(copy_rounds(&proof.queries[q].fri));
        q = q + 1;
    }
    let final_size = proof.params.fri_final_layer_size();
    let ok = verify_queries(
        &proof.fri_commit,
        betas.as_slice(),
        offset,
        big_n,
        final_size,
        k,
        indices.as_slice(),
        fri_openings.as_slice(),
    );
    proof {
        let fq = fri_of_queries(proof.queries@);
        assert forall|j: int| 0 <= j < fri_openings@.len() implies #[trigger] same_rounds(fri_openings@[j]@, fq[j]@) by {
            assert(fq[j] == proof.queries@[j].fri);
        }
        lemma_fri_accepts_same::<F>(
            proof.fri_commit,
            vals(betas@),
            offset.val(),
            big_n as nat,
            final_size as nat,
            k as nat,
            indices@,
            fri_openings@,
            fq,
        );
    }
    ok
}

} // verus!
