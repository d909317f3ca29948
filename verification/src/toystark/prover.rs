//! The toy STARK prover: commits to the low-degree extension of the trace,
//! folds the composition polynomial with FRI, and opens the queried points.

use vstd::prelude::*;
use vstd::arithmetic::power2::pow2;
use crate::field::{Field, vals};
use crate::fft::{is_pow2_len, log2_of, no_zero_divisors, lemma_pow2_mul};
use crate::fold::domain_point_spec;
use crate::layers::{fold_rounds, fri_generator, halvings, layer_vals, layers_fold};
use crate::lde::{coset_domain, low_degree_extend, coset_point, subgroup_generator};
use crate::interpolate::fft_interpolate;
use crate::poly::{copy_vec, lemma_vals_push, pad_to, is_normalized};
use crate::toystark::air::{
    PublicInputs, generate_trace, evaluate_composition, composition_spec, composition_defined, last_trace_point,
    progression_value,
};
use crate::toystark::fri::{
    FriCommitPhaseProof, FriProver, FriRoundOpening, round_beta, rounds_state, field_words, tree_commits,
    tree_of_values, honest_opening, commit_transcript_state,
};
use crate::toystark::hash::{MerklePath, MerkleTree, path_root, leaf_hash, pair_hash, lemma_open_verifies};
use crate::toystark::transcript::{Transcript, absorb_seq, initial_state, squeeze_tag};
use crate::toystark::stark_verifier::fri_accepts_of;

verus! {

/// The prover's parameters.
#[derive(Debug, Clone, Copy)]
pub struct ProofParams {
    pub blowup_factor: usize,
    pub fri_final_poly_num_coeffs: usize,
    pub num_queries: usize,
}

impl ProofParams {
    /// The size of FRI's last layer: one blowup's worth of points per
    /// coefficient of the final polynomial.
    pub(crate) fn fri_final_layer_size(&self) -> (r: usize)
        requires
            self.blowup_factor * self.fri_final_poly_num_coeffs <= usize::MAX,
        ensures
            r == self.blowup_factor * self.fri_final_poly_num_coeffs,
    {
        self.blowup_factor * self.fri_final_poly_num_coeffs
    }
}

impl Default for ProofParams {
    fn default() -> (r: Self)
        ensures
            r.blowup_factor == 4,
            r.fri_final_poly_num_coeffs == 1,
            r.num_queries == 24,
    {
        ProofParams { blowup_factor: 4, fri_final_poly_num_coeffs: 1, num_queries: 24 }
    }
}

/// The opening of one LDE point and of the point one trace step later.
#[derive(Debug, Clone)]
pub struct TracePointOpening<F: Field> {
    pub value_here: F,
    pub path_here: MerklePath,
    pub value_next: F,
    pub path_next: MerklePath,
}

/// Everything opened for one query.
#[derive(Debug, Clone)]
pub struct QueryOpening<F: Field> {
    pub trace_a: TracePointOpening<F>,
    pub trace_b: TracePointOpening<F>,
    pub fri: Vec<FriRoundOpening<F>>,
}

/// A proof.
#[derive(Debug, Clone)]
pub struct Proof<F: Field> {
    pub public: PublicInputs<F>,
    pub params: ProofParams,
    pub trace_root: u64,
    pub fri_commit: FriCommitPhaseProof<F>,
    pub query_indices: Vec<usize>,
    pub queries: Vec<QueryOpening<F>>,
}

/// The domain separator: the statement and the blowup factor.
pub open spec fn separator_words<F: Field>(public: PublicInputs<F>, params: ProofParams) -> Seq<u64> {
    seq![
        public.trace_len as u64,
        public.start.val() as u64,
        public.step.val() as u64,
        params.blowup_factor as u64,
    ]
}

/// The transcript state after `k` squeezes from `s`.
pub open spec fn squeeze_chain(s: u64, k: nat) -> u64
    decreases k,
{
    if k == 0 {
        s
    } else {
        pair_hash(squeeze_chain(s, (k - 1) as nat), squeeze_tag())
    }
}

/// The transcript state once the trace root is absorbed.
pub open spec fn committed_state<F: Field>(proof: Proof<F>) -> u64 {
    pair_hash(absorb_seq(initial_state(), separator_words(proof.public, proof.params)), proof.trace_root)
}

/// The constraint-combining challenges.
pub open spec fn proof_alphas<F: Field>(proof: Proof<F>) -> (int, int, int) {
    let s = committed_state(proof);
    (
        squeeze_chain(s, 1) as int % F::p(),
        squeeze_chain(s, 2) as int % F::p(),
        squeeze_chain(s, 3) as int % F::p(),
    )
}

/// The folding challenges of FRI.
pub open spec fn proof_betas<F: Field>(proof: Proof<F>) -> Seq<int> {
    let roots = proof.fri_commit.layer_roots@;
    Seq::new(roots.len(), |t: int| round_beta::<F>(squeeze_chain(committed_state(proof), 3), roots, t))
}

/// The transcript state once the FRI commitment is replayed.
pub open spec fn query_state<F: Field>(proof: Proof<F>) -> u64 {
    absorb_seq(
        rounds_state(squeeze_chain(committed_state(proof), 3), proof.fri_commit.layer_roots@),
        field_words(proof.fri_commit.final_poly_coeffs@),
    )
}

/// The `q`-th query index below `bound`.
pub open spec fn derived_index<F: Field>(proof: Proof<F>, q: nat, bound: nat) -> nat {
    squeeze_chain(query_state(proof), q + 1) as nat % bound
}

/// The Merkle checks of one trace-point opening.
pub open spec fn trace_point_ok<F: Field>(root: u64, o: TracePointOpening<F>, here: nat, next: nat) -> bool {
    &&& o.path_here.leaf_index == here
    &&& o.path_next.leaf_index == next
    &&& path_root(leaf_hash(o.value_here.val() as u64), here, o.path_here.siblings@) == root
    &&& path_root(leaf_hash(o.value_next.val() as u64), next, o.path_next.siblings@) == root
}

/// The `k`-th point of the LDE domain.
pub open spec fn lde_point<F: Field>(big_n: nat, k: nat) -> int {
    coset_point(3int % F::p(), subgroup_generator::<F>(log2_of(big_n)), k, F::p())
}

/// The composition that the verifier expects at LDE point `k`, from the
/// two opened trace values.
pub open spec fn expected_composition<F: Field>(proof: Proof<F>, k: nat, o: TracePointOpening<F>) -> int {
    let n = proof.public.trace_len as nat;
    let big_n = n * (proof.params.blowup_factor as nat);
    composition_spec::<F>(
        lde_point::<F>(big_n, k),
        o.value_here.val(),
        o.value_next.val(),
        n,
        last_trace_point::<F>(n),
        progression_value::<F>(proof.public.start.val(), proof.public.step.val(), n - 1),
        proof.public.start.val(),
        proof.public.step.val(),
        proof_alphas(proof),
    )
}

/// What the prover can be asked for: a power-of-two trace in a domain the
/// field holds, FRI parameters it accepts, and an LDE coset on which every
/// quotient of the composition is defined.
pub open spec fn prover_params_ok<F: Field>(public: PublicInputs<F>, params: ProofParams) -> bool {
    let n = public.trace_len as nat;
    let b = params.blowup_factor as nat;
    let k = params.fri_final_poly_num_coeffs as nat;
    let big_n = n * b;
    &&& is_pow2_len(n)
    &&& is_pow2_len(b)
    &&& is_pow2_len(k)
    &&& b >= 2
    &&& k <= n
    &&& big_n <= pow2(F::two_adicity_spec())
    &&& 2 * big_n <= usize::MAX
    &&& forall|j: nat| j < big_n ==> #[trigger] composition_defined::<F>(
        lde_point::<F>(big_n, j),
        n,
        last_trace_point::<F>(n),
    )
}

/// Opens LDE point `j` and the point one trace step later.
fn open_trace_point<F: Field>(tree: &MerkleTree, lde: &Vec<F>, j: usize, blowup: usize) -> (r: TracePointOpening<F>)
    requires
        tree_commits(tree@, vals(lde@)),
        j < lde@.len(),
        blowup <= lde@.len(),
        lde@.len() + blowup <= usize::MAX,
    ensures
        trace_point_ok(tree@.last()[0], r, j as nat, ((j + blowup) % (lde@.len() as int)) as nat),
        r.value_here == lde@[j as int],
        r.value_next == lde@[(j + blowup) % (lde@.len() as int)],
{
    let big_n = lde.len();
    let next = (j + blowup) % big_n;
    let path_here;
    let path_next;
    proof {
        reveal(tree_commits);
    }
    path_here = tree.open(j);
    path_next = tree.open(next);
    proof {
        assert(vals(lde@)[j as int] == lde@[j as int].val());
        assert(vals(lde@)[next as int] == lde@[next as int].val());
        lemma_open_verifies(tree@, j as nat, path_here.siblings@);
        lemma_open_verifies(tree@, next as nat, path_next.siblings@);
    }
    TracePointOpening { value_here: lde[j], path_here, value_next: lde[next], path_next }
}


/// A copy of the commit-phase message.
pub(crate) fn copy_commit<F: Field>(c: &FriCommitPhaseProof<F>) -> (r: FriCommitPhaseProof<F>)
    ensures
        r.layer_roots@ == c.layer_roots@,
        r.final_poly_coeffs@ == c.final_poly_coeffs@,
{
    let mut roots: Vec<u64> = Vec::with_capacity(c.layer_roots.len());
    let mut i: usize = 0;
    while i < c.layer_roots.len()
        invariant
            i <= c.layer_roots@.len(),
            roots@ == c.layer_roots@.subrange(0, i as int),
        decreases c.layer_roots@.len() - i,
    {
        roots.push(c.layer_roots[i]);
        proof {
            assert(roots@ =~= c.layer_roots@.subrange(0, i + 1));
        }
        i = i + 1;
    }
    proof {
        assert(roots@ =~= c.layer_roots@);
    }
    FriCommitPhaseProof { layer_roots: roots, final_poly_coeffs: copy_vec(c.final_poly_coeffs.as_slice()) }
}

/// The domain separator of a statement.
pub(crate) fn domain_separator<F: Field>(public: &PublicInputs<F>, params: &ProofParams) -> (r: Vec<u64>)
    ensures
        r@ == separator_words(*public, *params),
{
    let r = vec![
        public.trace_len as u64,
        public.start.to_canonical_u64(),
        public.step.to_canonical_u64(),
        params.blowup_factor as u64,
    ];
    proof {
        assert(r@ =~= separator_words(*public, *params));
    }
    r
}

/// Of two powers of two, the larger has the larger logarithm.
pub(crate) proof fn lemma_log2_strict(a: nat, b: nat)
    requires
        is_pow2_len(a),
        is_pow2_len(b),
        a > b,
    ensures
        log2_of(a) > log2_of(b),
{
    let ka = choose|k: nat| pow2(k) == a;
    let kb = choose|k: nat| pow2(k) == b;
    crate::fft::lemma_log2_of(ka);
    crate::fft::lemma_log2_of(kb);
    if ka <= kb {
        crate::fft::lemma_pow2_le(ka, kb);
    }
}

/// The coefficients of the polynomial through `trace` on the trace domain:
/// the inverse transform of the trace values.
pub open spec fn trace_coeffs_spec<F: Field>(trace: Seq<int>) -> Seq<int> {
    let n = trace.len();
    Seq::new(
        n,
        |k: int|
            crate::field::fm(
                crate::dft::dft_at(trace, crate::fft::pass_root::<F>(true, log2_of(n)), k, F::p()),
                F::inv_val(n as int),
                F::p(),
            ),
    )
}

/// The low-degree extension of `trace` at LDE point `j`: its polynomial
/// evaluated at the `j`-th point of the coset `3 H` of `big_n` points.
pub open spec fn trace_lde_value<F: Field>(trace: Seq<int>, big_n: nat, j: nat) -> int {
    crate::poly::poly_eval(trace_coeffs_spec::<F>(trace), lde_point::<F>(big_n, j), F::p())
}

/// The low-degree extension of `trace` on all `big_n` LDE points.
pub open spec fn trace_lde_values<F: Field>(trace: Seq<int>, big_n: nat) -> Seq<int> {
    Seq::new(big_n, |j: int| trace_lde_value::<F>(trace, big_n, j as nat))
}

/// Proves the statement `public` with the given trace as witness: commits
/// to the trace's low-degree extension on the coset `3 H`, draws the
/// constraint challenges, folds the composition with FRI and opens each
/// query index at the trace and in every FRI round.
pub fn prove_with_trace<F: Field>(public: PublicInputs<F>, params: ProofParams, trace: Vec<F>) -> (r: Proof<F>)
    requires
        trace@.len() == public.trace_len,
        prover_params_ok(public, params),
    ensures
        r.public == public,
        r.params == params,
        r.query_indices@.len() == params.num_queries,
        r.queries@.len() == params.num_queries,
        params.fri_final_poly_num_coeffs < public.trace_len ==> forall|q: int|
            0 <= q < r.query_indices@.len() ==> #[trigger] r.query_indices@[q] == derived_index(
                r,
                q as nat,
                (public.trace_len * params.blowup_factor / 2) as nat,
            ),
        forall|q: int| 0 <= q < r.queries@.len() ==> {
            let idx = #[trigger] r.query_indices@[q];
            let big_n = public.trace_len * params.blowup_factor;
            let half = big_n / 2;
            let o = r.queries@[q];
            &&& idx < half
            &&& trace_point_ok(r.trace_root, o.trace_a, idx as nat, ((idx + params.blowup_factor) % big_n) as nat)
            &&& trace_point_ok(
                r.trace_root,
                o.trace_b,
                (idx + half) as nat,
                ((idx + half + params.blowup_factor) % big_n) as nat,
            )
            &&& o.fri@.len() >= 1
            &&& o.fri@[0].value_a.val() == expected_composition(r, idx as nat, o.trace_a)
            &&& o.fri@[0].value_b.val() == expected_composition(r, (idx + half) as nat, o.trace_b)
        },
        exists|t: Seq<Seq<u64>>| {
            &&& tree_commits(
                t,
                trace_lde_values::<F>(vals(trace@), (public.trace_len * params.blowup_factor) as nat),
            )
            &&& r.trace_root == t.last()[0]
        },
        forall|q: int| 0 <= q < r.queries@.len() ==> {
            let idx = #[trigger] r.query_indices@[q];
            let big_n = public.trace_len * params.blowup_factor;
            let half = big_n / 2;
            let b = params.blowup_factor;
            let o = r.queries@[q];
            let tv = vals(trace@);
            &&& o.trace_a.value_here.val() == trace_lde_value::<F>(tv, big_n as nat, idx as nat)
            &&& o.trace_a.value_next.val() == trace_lde_value::<F>(tv, big_n as nat, ((idx + b) % big_n) as nat)
            &&& o.trace_b.value_here.val() == trace_lde_value::<F>(tv, big_n as nat, (idx + half) as nat)
            &&& o.trace_b.value_next.val() == trace_lde_value::<F>(
                tv,
                big_n as nat,
                ((idx + half + b) % big_n) as nat,
            )
        },
        params.fri_final_poly_num_coeffs == 1 && 1 < public.trace_len && (
        forall|i: int| 0 <= i < public.trace_len ==> #[trigger] vals(trace@)[i] == progression_value::<F>(
            public.start.val(),
            public.step.val(),
            i,
        )) ==> fri_accepts_of::<F>(r),
{
    proof {
        F::lemma_prime_field();
    }
    let n = public.trace_len;
    let blowup = params.blowup_factor;
    let k = params.fri_final_poly_num_coeffs;
    proof {
        F::lemma_modulus();
        lemma_pow2_mul(n as nat, blowup as nat);
        lemma_pow2_mul(blowup as nat, k as nat);
        let kk = choose|kk: nat| pow2(kk) == k;
        vstd::arithmetic::power2::lemma_pow2_pos(kk);
        let kn = choose|kk: nat| pow2(kk) == n;
        vstd::arithmetic::power2::lemma_pow2_pos(kn);
        assert(n * blowup >= blowup) by (nonlinear_arith)
            requires n >= 1;
        assert(n * blowup >= 2 * n) by (nonlinear_arith)
            requires blowup >= 2;
        assert(blowup * k >= 2 * k) by (nonlinear_arith)
            requires blowup >= 2;
        assert(n * blowup >= blowup * k) by (nonlinear_arith)
            requires n >= k;
        assert((n * blowup) % (blowup as int) == 0) by {
            vstd::arithmetic::div_mod::lemma_mod_multiples_basic(n as int, blowup as int);
        }
        vstd::arithmetic::div_mod::lemma_small_mod(3, F::p() as nat);
    }
    let big_n = n * blowup;
    let trace_poly = fft_interpolate(trace.as_slice());
    let trace_coeffs = pad_to(trace_poly.coeffs(), n);
    let offset = F::from_u64(3);
    let trace_lde_evals = low_degree_extend(trace_coeffs.as_slice(), blowup, offset);
    let trace_lde_domain = coset_domain(big_n, offset);
    let trace_tree = tree_of_values(trace_lde_evals.as_slice());
    let trace_root = trace_tree.root();
    let ds = domain_separator(&public, &params);
    let mut transcript = Transcript::new(ds.as_slice());
    transcript.absorb(trace_root);
    let ghost s_committed = transcript@;
    let alpha_transition = transcript.squeeze_field::<F>();
    let alpha_start = transcript.squeeze_field::<F>();
    let alpha_end = transcript.squeeze_field::<F>();
    let ghost s_alphas = transcript@;
    proof {
        reveal_with_fuel(squeeze_chain, 4);
        assert forall|j: int| 0 <= j < trace_lde_domain@.len() implies #[trigger] composition_defined::<F>(
            trace_lde_domain@[j].val(),
            n as nat,
            last_trace_point::<F>(n as nat),
        ) by {
            assert(vals(trace_lde_domain@)[j] == trace_lde_domain@[j].val());
            assert(composition_defined::<F>(lde_point::<F>(big_n as nat, j as nat), n as nat, last_trace_point::<F>(n as nat)));
        }
    }
    let composition_evals = evaluate_composition(
        trace_lde_evals.as_slice(),
        trace_lde_domain.as_slice(),
        blowup,
        &public,
        (alpha_transition, alpha_start, alpha_end),
    );
    let ghost composition = vals(composition_evals@);
    let final_size = params.fri_final_layer_size();
    let fri_prover = FriProver::commit(composition_evals, offset, final_size, k, &mut transcript);
    let ghost s_query = transcript@;
    let bound = fri_prover.index_bound();
    let nq = params.num_queries;
    let mut query_indices: Vec<usize> = Vec::with_capacity(nq);
    let mut q: usize = 0;
    while q < nq
        invariant
            q <= nq,
            bound == big_n / 2,
            bound >= 1,
            query_indices@.len() == q,
            transcript@ == squeeze_chain(s_query, q as nat),
            forall|j: int| 0 <= j < q ==> #[trigger] query_indices@[j] == squeeze_chain(s_query, (j + 1) as nat) as nat
                % (bound as nat),
        decreases nq - q,
    {
        let idx = transcript.squeeze_index(bound);
        query_indices.push(idx);
        q = q + 1;
    }
    let mut fri_openings = fri_prover.open(query_indices.as_slice());
    let ghost all_openings = fri_openings@;
    let half = big_n / 2;
    let mut queries: Vec<QueryOpening<F>> = Vec::with_capacity(nq);
    let ghost tree_root_spec = trace_tree@.last()[0];
    let mut q: usize = 0;
    while q < nq
        invariant
            q <= nq,
            nq == query_indices@.len(),
            all_openings.len() == nq,
            fri_openings@ == all_openings.subrange(q as int, nq as int),
            queries@.len() == q,
            half == big_n / 2,
            big_n == trace_lde_evals@.len(),
            2 * big_n <= usize::MAX,
            blowup <= big_n,
            tree_commits(trace_tree@, vals(trace_lde_evals@)),
            trace_root == tree_root_spec,
            tree_root_spec == trace_tree@.last()[0],
            forall|j: int| 0 <= j < nq ==> #[trigger] query_indices@[j] < half,
            forall|j: int| 0 <= j < q ==> {
                let idx = #[trigger] query_indices@[j];
                let o = queries@[j];
                &&& trace_point_ok(trace_root, o.trace_a, idx as nat, ((idx + blowup) % (big_n as int)) as nat)
                &&& trace_point_ok(trace_root, o.trace_b, (idx + half) as nat, ((idx + half + blowup) % (big_n as int)) as nat)
                &&& o.trace_a.value_here == trace_lde_evals@[idx as int]
                &&& o.trace_a.value_next == trace_lde_evals@[(idx + blowup) % (big_n as int)]
                &&& o.trace_b.value_here == trace_lde_evals@[idx + half]
                &&& o.trace_b.value_next == trace_lde_evals@[(idx + half + blowup) % (big_n as int)]
                &&& o.fri == all_openings[j]
            },
        decreases nq - q,
    {
        let idx0 = query_indices[q];
        let trace_a = open_trace_point(&trace_tree, &trace_lde_evals, idx0, blowup);
        let trace_b = open_trace_point(&trace_tree, &trace_lde_evals, idx0 + half, blowup);
        let fri = fri_openings.remove(0);
        proof {
            assert(fri_openings@ =~= all_openings.subrange(q + 1, nq as int));
        }
        queries.push(QueryOpening { trace_a, trace_b, fri });
        q = q + 1;
    }
    let fri_commit = copy_commit(fri_prover.commit_proof());
    let r = Proof { public, params, trace_root, fri_commit, query_indices, queries };
    proof {
        if crate::field::inverses_correct::<F>() {
            lemma_lde_is_trace_lde::<F>(
                vals(trace@),
                trace_poly@,
                vals(trace_coeffs@),
                vals(trace_lde_evals@),
                n as nat,
                blowup as nat,
            );
            assert(tree_commits(trace_tree@, trace_lde_values::<F>(vals(trace@), big_n as nat)));
            assert forall|q2: int| 0 <= q2 < r.queries@.len() implies {
                let idx = #[trigger] r.query_indices@[q2];
                let o = r.queries@[q2];
                let tv = vals(trace@);
                &&& o.trace_a.value_here.val() == trace_lde_value::<F>(tv, big_n as nat, idx as nat)
                &&& o.trace_a.value_next.val() == trace_lde_value::<F>(tv, big_n as nat, ((idx + blowup) % (big_n as int)) as nat)
                &&& o.trace_b.value_here.val() == trace_lde_value::<F>(tv, big_n as nat, (idx + half) as nat)
                &&& o.trace_b.value_next.val() == trace_lde_value::<F>(
                    tv,
                    big_n as nat,
                    ((idx + half + blowup) % (big_n as int)) as nat,
                )
            } by {
                let idx = r.query_indices@[q2];
                let lde = vals(trace_lde_evals@);
                vstd::arithmetic::div_mod::lemma_mod_bound(idx + blowup, big_n as int);
                vstd::arithmetic::div_mod::lemma_mod_bound(idx + half + blowup, big_n as int);
                assert(lde[idx as int] == trace_lde_evals@[idx as int].val());
                assert(lde[idx + half] == trace_lde_evals@[idx + half].val());
                assert(lde[(idx + blowup) % (big_n as int)] == trace_lde_evals@[(idx + blowup) % (big_n as int)].val());
                assert(lde[(idx + half + blowup) % (big_n as int)] == trace_lde_evals@[(idx + half + blowup) % (big_n as int)].val());
            }
        }
    }
    proof {
        assert(committed_state(r) == s_committed);
        assert(squeeze_chain(s_committed, 3) == s_alphas);
        let rounds = fold_rounds(big_n as nat, final_size as nat);
        if k < n {
            assert(big_n > final_size) by (nonlinear_arith)
                requires big_n == n * blowup, final_size == blowup * k, k < n, blowup >= 2;
            lemma_log2_strict(big_n as nat, final_size as nat);
            assert(rounds >= 1);
            assert(query_state(r) == s_query);
        }
        assert forall|j: int| 0 <= j < r.queries@.len() implies {
            let idx = #[trigger] r.query_indices@[j];
            let o = r.queries@[j];
            &&& o.fri@.len() >= 1
            &&& o.fri@[0].value_a.val() == expected_composition(r, idx as nat, o.trace_a)
            &&& o.fri@[0].value_b.val() == expected_composition(r, (idx + half) as nat, o.trace_b)
        } by {
            let idx = r.query_indices@[j];
            let o = r.queries@[j];
            assert(honest_opening::<F>(fri_prover.layers(), fri_prover.tree_views(), big_n as nat, idx as nat, 0, all_openings[j]@[0]));
            vstd::arithmetic::div_mod::lemma_small_mod(idx as nat, half as nat);
            assert(vals(composition_evals@)[idx as int] == composition_spec::<F>(
                trace_lde_domain@[idx as int].val(),
                trace_lde_evals@[idx as int].val(),
                trace_lde_evals@[(idx + blowup) % (big_n as int)].val(),
                n as nat,
                last_trace_point::<F>(n as nat),
                progression_value::<F>(public.start.val(), public.step.val(), n - 1),
                public.start.val(),
                public.step.val(),
                (alpha_transition.val(), alpha_start.val(), alpha_end.val()),
            ));
            assert(vals(trace_lde_domain@)[idx as int] == trace_lde_domain@[idx as int].val());
            assert(vals(trace_lde_domain@)[idx + half] == trace_lde_domain@[idx + half].val());
        }
    }
    proof {
        let honest = forall|i: int| 0 <= i < public.trace_len ==> #[trigger] vals(trace@)[i] == progression_value::<F>(
            public.start.val(),
            public.step.val(),
            i,
        );
        if crate::field::inverses_correct::<F>() && k == 1 && 1 < n && honest {
            let kn = choose|kk: nat| pow2(kk) == n as nat;
            let kb = choose|kk: nat| pow2(kk) == blowup as nat;
            lemma_pow2_mul(n as nat, blowup as nat);
            crate::fft::lemma_log2_of(kn);
            crate::fft::lemma_log2_of(kb);
            crate::fft::lemma_log2_of(kn + kb);
            vstd::arithmetic::power2::lemma_pow2_adds(kn, kb);
            assert(pow2(kn + kb) == big_n);
            assert(((kn + kb) - kn) as nat == kb);
            if kn + kb > F::two_adicity_spec() {
                vstd::arithmetic::power2::lemma_pow2_strictly_increases(F::two_adicity_spec(), kn + kb);
            }
            vstd::arithmetic::div_mod::lemma_small_mod(3, F::p() as nat);
            // the trace polynomial, padded, follows the progression on the trace domain
            let t = vals(trace_coeffs@);
            assert forall|i: int| #[trigger] crate::poly::coeff(t, i) == crate::poly::coeff(trace_poly@, i) by {
                if 0 <= i < n {
                    if i >= trace_poly@.len() {
                        assert(trace_coeffs@[i].val() == 0);
                    } else {
                        trace_poly.lemma_view();
                        assert(trace_coeffs@[i] == trace_poly.coeff_seq()[i]);
                    }
                }
            }
            assert forall|j: int| 0 <= j < pow2(kn) implies #[trigger] crate::dft::dft_at(
                t,
                crate::fft::stage_root::<F>(kn),
                j,
                F::p(),
            ) == progression_value::<F>(public.start.val(), public.step.val(), j) by {
                crate::poly_laws::lemma_poly_eval_same_coeffs(
                    t,
                    trace_poly@,
                    crate::field::pow_mod(crate::fft::stage_root::<F>(kn), j as nat, F::p()),
                    F::p(),
                );
                assert(vals(trace@)[j] == trace@[j].val());
                assert(log2_of(trace@.len()) == kn);
                assert(crate::dft::dft_at(trace_poly@, crate::fft::stage_root::<F>(log2_of(trace@.len())), j, F::p())
                    == trace@[j].val());
            }
            let lde = vals(trace_lde_evals@);
            let comp = composition;
            let g = crate::fft::stage_root::<F>(kn + kb);
            assert(subgroup_generator::<F>(log2_of(big_n as nat)) == g);
            assert forall|j: int| 0 <= j < pow2(kn + kb) implies #[trigger] lde[j] == crate::poly::poly_eval(
                t,
                coset_point(3int % F::p(), g, j as nat, F::p()),
                F::p(),
            ) by {
                assert(lde[j] == trace_lde_evals@[j].val());
            }
            let al = (alpha_transition.val(), alpha_start.val(), alpha_end.val());
            assert forall|j: int| 0 <= j < pow2(kn + kb) implies #[trigger] comp[j] == composition_spec::<F>(
                coset_point(3int % F::p(), g, j as nat, F::p()),
                lde[j],
                lde[(j + pow2(((kn + kb) - kn) as nat)) % (pow2(kn + kb) as int)],
                pow2(kn),
                last_trace_point::<F>(pow2(kn)),
                progression_value::<F>(public.start.val(), public.step.val(), pow2(kn) - 1),
                public.start.val(),
                public.step.val(),
                al,
            ) by {
                assert(vals(trace_lde_domain@)[j] == trace_lde_domain@[j].val());
                let jn = (j + blowup) % (big_n as int);
                vstd::arithmetic::div_mod::lemma_mod_bound(j + blowup, big_n as int);
                assert(lde[jn] == trace_lde_evals@[jn].val());
                assert(lde[j] == trace_lde_evals@[j].val());
            }
            assert forall|j: int| 0 <= j < pow2(kn + kb) implies #[trigger] composition_defined::<F>(
                coset_point(3int % F::p(), g, j as nat, F::p()),
                pow2(kn),
                last_trace_point::<F>(pow2(kn)),
            ) by {
                assert(lde_point::<F>(big_n as nat, j as nat) == coset_point(3int % F::p(), g, j as nat, F::p()));
            }
            crate::toystark::composition::lemma_composition_layer::<F>(
                t,
                lde,
                comp,
                kn,
                kn + kb,
                3int % F::p(),
                public.start.val(),
                public.step.val(),
                al,
            );
            let c = crate::toystark::composition::composition_poly::<F>(t, kn, public.start.val(), public.step.val(), al);
            // the FRI prover's views
            let rounds = fold_rounds(big_n as nat, final_size as nat);
            assert(blowup * 1 == blowup);
            assert(final_size == blowup);
            assert(rounds >= 1);
            assert(query_state(r) == s_query);
            assert forall|q2: int| 0 <= q2 < r.query_indices@.len() implies #[trigger] r.query_indices@[q2] == derived_index(
                r,
                q2 as nat,
                (big_n / 2) as nat,
            ) by {}
            assert(is_normalized(vals(r.fri_commit.final_poly_coeffs@)));
            let layers = fri_prover.layers();
            let trees = fri_prover.tree_views();
            let betas = fri_prover.betas();
            let bn = big_n as nat;
            assert(crate::toystark::fri::prover_layers_ok(layers, trees, bn));
            assert(layers.len() == rounds + 1);
            assert(betas.len() == rounds);
            assert(trees.len() == rounds);
            assert(layers_fold::<F>(layers, betas, 3int % F::p(), bn));
            assert(r.fri_commit.layer_roots@.len() == trees.len());
            assert(forall|t2: int| 0 <= t2 < trees.len() ==> #[trigger] r.fri_commit.layer_roots@[t2] == trees[t2].last()[0]);
            assert(forall|t2: int| 0 <= t2 < betas.len() ==> #[trigger] betas[t2] == round_beta::<F>(
                squeeze_chain(committed_state(r), 3),
                r.fri_commit.layer_roots@,
                t2,
            ));
            assert(r.fri_commit.final_poly_coeffs@.len() <= 1);
            assert(crate::poly::poly_eval(
                vals(r.fri_commit.final_poly_coeffs@),
                domain_point_spec::<F>(3int % F::p(), fri_generator::<F>(bn), 0, rounds),
                F::p(),
            ) == layers[rounds as int][0]);
            assert(all_openings.len() == r.params.num_queries);
            assert(forall|q2: int| 0 <= q2 < all_openings.len() ==> (#[trigger] all_openings[q2])@.len() == trees.len());
            assert forall|q2: int| 0 <= q2 < all_openings.len() implies #[trigger] r.queries@[q2].fri == all_openings[q2] by {
                let idx2 = query_indices@[q2];
            }
            assert(crate::fri_laws::layer_is_poly::<F>(layers[0], c, 3int % F::p(), bn, 0));
            assert(c.len() <= n);
            lemma_prover_fri_accepted::<F>(
                r,
                fri_prover.layers(),
                fri_prover.tree_views(),
                fri_prover.betas(),
                all_openings,
                c,
            );
        }
    }
    r
}

/// The FRI part of the verdict on an honest proof: when the first FRI layer
/// holds the values of a polynomial with at most `n` coefficients and the
/// final polynomial has one coefficient, the committed layers, the final
/// polynomial and the openings pass every FRI check at the verifier's
/// query indices.
proof fn lemma_prover_fri_accepted<F: Field>(
    r: Proof<F>,
    layers: Seq<Seq<int>>,
    trees: Seq<Seq<Seq<u64>>>,
    betas: Seq<int>,
    openings: Seq<Vec<FriRoundOpening<F>>>,
    c: Seq<int>,
)
    requires
        prover_params_ok(r.public, r.params),
        r.params.fri_final_poly_num_coeffs == 1,
        1 < r.public.trace_len,
        ({
            let n = r.public.trace_len as nat;
            let b = r.params.blowup_factor as nat;
            let big_n = n * b;
            let rounds = fold_rounds(big_n, b);
            &&& crate::toystark::fri::prover_layers_ok(layers, trees, big_n)
            &&& layers.len() == rounds + 1
            &&& betas.len() == rounds
            &&& trees.len() == rounds
            &&& layers_fold::<F>(layers, betas, 3int % F::p(), big_n)
            &&& r.fri_commit.layer_roots@.len() == trees.len()
            &&& forall|t: int| 0 <= t < trees.len() ==> #[trigger] r.fri_commit.layer_roots@[t] == trees[t].last()[0]
            &&& forall|t: int| 0 <= t < betas.len() ==> #[trigger] betas[t] == round_beta::<F>(
                squeeze_chain(committed_state(r), 3),
                r.fri_commit.layer_roots@,
                t,
            )
            &&& crate::poly::is_normalized(vals(r.fri_commit.final_poly_coeffs@))
            &&& r.fri_commit.final_poly_coeffs@.len() <= 1
            &&& crate::poly::poly_eval(
                vals(r.fri_commit.final_poly_coeffs@),
                domain_point_spec::<F>(3int % F::p(), fri_generator::<F>(big_n), 0, rounds),
                F::p(),
            ) == layers[rounds as int][0]
            &&& openings.len() == r.params.num_queries
            &&& r.queries@.len() == r.params.num_queries
            &&& r.query_indices@.len() == r.params.num_queries
            &&& forall|q: int| 0 <= q < openings.len() ==> (#[trigger] openings[q])@.len() == trees.len()
            &&& forall|q: int, j: int|
                0 <= q < openings.len() && 0 <= j < trees.len() ==> #[trigger] honest_opening::<F>(
                    layers,
                    trees,
                    big_n,
                    r.query_indices@[q] as nat,
                    j,
                    openings[q]@[j],
                )
            &&& forall|q: int| 0 <= q < openings.len() ==> #[trigger] r.queries@[q].fri == openings[q]
            &&& forall|q: int| 0 <= q < r.query_indices@.len() ==> #[trigger] r.query_indices@[q] == derived_index(
                r,
                q as nat,
                (big_n / 2) as nat,
            )
            &&& crate::fri_laws::layer_is_poly::<F>(layers[0], c, 3int % F::p(), big_n, 0)
            &&& c.len() <= n
        }),
    ensures
        fri_accepts_of::<F>(r),
{
    F::lemma_prime_field();
    F::lemma_modulus();
    let n = r.public.trace_len as nat;
    let b = r.params.blowup_factor as nat;
    let big_n = n * b;
    let rounds = fold_rounds(big_n, b);
    let kn = choose|kk: nat| pow2(kk) == n;
    let kb = choose|kk: nat| pow2(kk) == b;
    lemma_pow2_mul(n, b);
    crate::fft::lemma_log2_of(kn);
    crate::fft::lemma_log2_of(kb);
    assert(log2_of(big_n) == kn + kb);
    assert(rounds == kn);
    crate::layers::lemma_halvings_pow2(kn + kb, kn);
    vstd::arithmetic::power2::lemma_pow2_adds(kn, kb);
    assert(halvings(big_n, rounds) == b);
    let pb = proof_betas(r);
    assert(pb =~= betas);
    let indices = crate::toystark::stark_verifier::verifier_indices(r);
    assert(indices =~= r.query_indices@);
    let fq = crate::toystark::stark_verifier::fri_of_queries(r.queries@);
    assert(fq =~= openings);
    assert(b * 1 == b);
    assert(1 * pow2(trees.len() as nat) == n);
    vstd::arithmetic::power2::lemma_pow2_pos(kb);
    vstd::arithmetic::div_mod::lemma_small_mod(3, F::p() as nat);
    crate::toystark::fri::lemma_honest_fri_accepted::<F>(
        layers,
        trees,
        betas,
        r.fri_commit,
        3int % F::p(),
        big_n,
        b,
        1,
        r.query_indices@,
        openings,
        c,
    );
}

/// Proves the statement `public` with its honest trace.
pub fn prove<F: Field>(public: PublicInputs<F>, params: ProofParams) -> (r: Proof<F>)
    requires
        prover_params_ok(public, params),
    ensures
        r.public == public,
        r.params == params,
        r.query_indices@.len() == params.num_queries,
        r.queries@.len() == params.num_queries,
        params.fri_final_poly_num_coeffs == 1 && 1 < public.trace_len
            ==> crate::toystark::stark_verifier::stark_accepts::<F>(r),
{
    proof {
        F::lemma_prime_field();
    }
    let trace = generate_trace(&public);
    let r = prove_with_trace(public, params, trace);
    proof {
        let n = public.trace_len;
        let big_n = n * params.blowup_factor;
        if crate::field::inverses_correct::<F>() && params.fri_final_poly_num_coeffs == 1 && 1 < n {
            let indices = crate::toystark::stark_verifier::verifier_indices(r);
            assert forall|q: int| 0 <= q < r.queries@.len() implies #[trigger] crate::toystark::stark_verifier::query_checks_ok(
                r,
                indices[q] as nat,
                r.queries@[q],
            ) by {
                let idx = r.query_indices@[q];
                assert(indices[q] == idx);
            }
            let kb = choose|kk: nat| pow2(kk) == params.blowup_factor as nat;
            vstd::arithmetic::power2::lemma_pow2_pos(kb);
            assert(big_n >= 2) by (nonlinear_arith)
                requires n > 1, params.blowup_factor >= 1, big_n == n * params.blowup_factor;
        }
    }
    r
}

/// The LDE of the interpolant of `trace` (padded to
/// the trace length) is the trace's low-degree extension.
pub(crate) proof fn lemma_lde_is_trace_lde<F: Field>(
    trace: Seq<int>,
    poly: Seq<int>,
    coeffs: Seq<int>,
    lde: Seq<int>,
    n: nat,
    blowup: nat,
)
    requires
        trace.len() == n,
        coeffs.len() == n,
        lde.len() == n * blowup,
        F::p() > 1,
        forall|k: int| n <= k ==> #[trigger] crate::poly::coeff(poly, k) == 0,
        forall|k: int| 0 <= k < n ==> #[trigger] crate::poly::coeff(poly, k) == crate::field::fm(
            crate::dft::dft_at(trace, crate::fft::pass_root::<F>(true, log2_of(n)), k, F::p()),
            F::inv_val(n as int),
            F::p(),
        ),
        forall|k: int| 0 <= k < n ==> #[trigger] coeffs[k] == crate::poly::coeff(poly, k),
        forall|i: int| 0 <= i < lde.len() ==> #[trigger] lde[i] == crate::poly::poly_eval(
            coeffs,
            coset_point(3int % F::p(), subgroup_generator::<F>(log2_of(n * blowup)), i as nat, F::p()),
            F::p(),
        ),
    ensures
        lde == trace_lde_values::<F>(trace, n * blowup),
{
    F::lemma_prime_field();
    let cs = trace_coeffs_spec::<F>(trace);
    assert forall|k: int| #[trigger] crate::poly::coeff(coeffs, k) == crate::poly::coeff(cs, k) by {
        if 0 <= k < n {
            assert(coeffs[k] == crate::poly::coeff(poly, k));
        }
    }
    assert forall|i: int| 0 <= i < lde.len() implies #[trigger] lde[i] == trace_lde_value::<F>(trace, n * blowup, i as nat) by {
        crate::poly_laws::lemma_poly_eval_same_coeffs(
            coeffs,
            cs,
            coset_point(3int % F::p(), subgroup_generator::<F>(log2_of(n * blowup)), i as nat, F::p()),
            F::p(),
        );
    }
    assert(lde =~= trace_lde_values::<F>(trace, n * blowup));
}

} // verus!
