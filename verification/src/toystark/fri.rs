//! FRI over 64-bit hash commitments, with challenges drawn from the
//! hash-chain transcript.

use vstd::prelude::*;
use vstd::arithmetic::power2::pow2;
use crate::field::{Field, vals};
use crate::fft::{is_pow2_len, log2_of, no_zero_divisors, log2_exact, lemma_log2_of};
use crate::fold::{fold_spec, domain_point_spec, fold_value, fold_layer, domain_point};
use crate::lde::coset_domain;
use crate::layers::{fri_domain_ok, 
    halvings, fold_rounds, fri_generator, layers_fold, layer_vals, lemma_halvings_pow2,
    lemma_halvings_monotone, lemma_rounds_bound, lemma_domain_point_nonzero, lemma_coset_point_is_domain_point,
    lemma_layer_vals_push, lemma_fold_extends, final_agrees, lemma_mod_of_double,
};
use crate::merkle::{sibling_index, ancestor};
use crate::poly::{Polynomial, poly_eval, trim, is_normalized, copy_vec};
use crate::toystark::hash::{MerklePath, MerkleTree, hash_leaf, leaf_hash, path_root, hash_layers_wf, lemma_open_verifies};
use crate::toystark::transcript::{Transcript, absorb_seq, squeeze_tag};
use crate::toystark::hash::pair_hash;

verus! {

/// The two openings of one FRI round for one query.
#[derive(Debug, Clone)]
pub struct FriRoundOpening<F: Field> {
    pub value_a: F,
    pub path_a: MerklePath,
    pub value_b: F,
    pub path_b: MerklePath,
}

/// What the prover sends in the commit phase.
#[derive(Debug, Clone)]
pub struct FriCommitPhaseProof<F: Field> {
    pub layer_roots: Vec<u64>,
    pub final_poly_coeffs: Vec<F>,
}

/// The canonical values of field elements as 64-bit words.
pub open spec fn field_words<F: Field>(s: Seq<F>) -> Seq<u64> {
    s.map_values(|x: F| x.val() as u64)
}

/// The transcript state after absorbing `root` and squeezing once.
pub open spec fn after_round(state: u64, root: u64) -> u64 {
    pair_hash(pair_hash(state, root), squeeze_tag())
}

/// The transcript state after one round per root.
pub open spec fn rounds_state(state: u64, roots: Seq<u64>) -> u64
    decreases roots.len(),
{
    if roots.len() == 0 {
        state
    } else {
        after_round(rounds_state(state, roots.drop_last()), roots.last())
    }
}

/// The challenge squeezed in round `j`.
pub open spec fn round_beta<F: Field>(state: u64, roots: Seq<u64>, j: int) -> int {
    rounds_state(state, roots.subrange(0, j + 1)) as int % F::p()
}

/// A Merkle opening of `value` at `index` against `root`.
pub open spec fn opening_ok(root: u64, path: MerklePath, index: nat, value: int) -> bool {
    &&& path.leaf_index == index
    &&& path_root(leaf_hash(value as u64), index, path.siblings@) == root
}

/// The checks of round `r` of one query.
pub open spec fn round_ok<F: Field>(
    roots: Seq<u64>,
    betas: Seq<int>,
    final_coeffs: Seq<int>,
    offset: int,
    n: nat,
    idx: nat,
    rounds: Seq<FriRoundOpening<F>>,
    r: int,
) -> bool {
    let p = F::p();
    let half = halvings(n, r as nat) / 2;
    let i = idx % half;
    let o = rounds[r];
    let g = fri_generator::<F>(n);
    let x = domain_point_spec::<F>(offset, g, i, r as nat);
    let folded = fold_spec::<F>(o.value_a.val(), o.value_b.val(), x, betas[r]);
    let next_size = halvings(n, (r + 1) as nat);
    let ni = idx % next_size;
    &&& opening_ok(roots[r], o.path_a, i, o.value_a.val())
    &&& opening_ok(roots[r], o.path_b, i + half, o.value_b.val())
    &&& if r + 1 < roots.len() {
        folded == (if ni < next_size / 2 {
            rounds[r + 1].value_a.val()
        } else {
            rounds[r + 1].value_b.val()
        })
    } else {
        poly_eval(trim(final_coeffs), domain_point_spec::<F>(offset, g, ni, (r + 1) as nat), p) == folded
    }
}


/// The shape of a query phase that the verifier looks into: one challenge
/// per committed root, one opening per query index, the expected number of
/// final coefficients, and the committed rounds halving the domain down to
/// the final layer.
pub open spec fn fri_shape_ok<F: Field>(
    proof: FriCommitPhaseProof<F>,
    num_betas: nat,
    n: nat,
    final_size: nat,
    num_coeffs: nat,
    num_indices: nat,
    num_openings: nat,
) -> bool {
    let num_rounds = proof.layer_roots@.len();
    &&& num_betas == num_rounds
    &&& num_indices == num_openings
    &&& proof.final_poly_coeffs@.len() == num_coeffs
    &&& halvings(n, num_rounds) == final_size
}
/// The verifier's verdict on a set of query openings.
pub open spec fn fri_accepts<F: Field>(
    proof: FriCommitPhaseProof<F>,
    betas: Seq<int>,
    offset: int,
    n: nat,
    final_size: nat,
    num_coeffs: nat,
    indices: Seq<usize>,
    openings: Seq<Vec<FriRoundOpening<F>>>,
) -> bool {
    let roots = proof.layer_roots@;
    let num_rounds = roots.len();
    &&& betas.len() == num_rounds
    &&& indices.len() == openings.len()
    &&& proof.final_poly_coeffs@.len() == num_coeffs
    &&& halvings(n, num_rounds) == final_size
    &&& forall|q: int| 0 <= q < openings.len() ==> (#[trigger] openings[q])@.len() == num_rounds
    &&& forall|q: int, r: int|
        0 <= q < openings.len() && 0 <= r < num_rounds ==> #[trigger] round_ok::<F>(
            roots,
            betas,
            vals(proof.final_poly_coeffs@),
            offset,
            n,
            indices[q] as nat,
            openings[q]@,
            r,
        )
}

/// Every value an accepted query phase opens is authenticated: for each
/// query and each round, the value at `i` and the value at `i + half` (with
/// `i` the query index reduced into the round's first half) hash, along
/// their Merkle paths, to the root committed for that round.
pub proof fn lemma_accepted_openings_authenticated<F: Field>(
    proof: FriCommitPhaseProof<F>,
    betas: Seq<int>,
    offset: int,
    n: nat,
    final_size: nat,
    num_coeffs: nat,
    indices: Seq<usize>,
    openings: Seq<Vec<FriRoundOpening<F>>>,
)
    requires
        fri_accepts::<F>(proof, betas, offset, n, final_size, num_coeffs, indices, openings),
    ensures
        forall|q: int, r: int|
            0 <= q < openings.len() && 0 <= r < proof.layer_roots@.len() ==> {
                let half = halvings(n, r as nat) / 2;
                let i = indices[q] as nat % half;
                let o = #[trigger] openings[q]@[r];
                let root = proof.layer_roots@[r];
                &&& o.path_a.leaf_index == i
                &&& path_root(leaf_hash(o.value_a.val() as u64), i, o.path_a.siblings@) == root
                &&& o.path_b.leaf_index == i + half
                &&& path_root(leaf_hash(o.value_b.val() as u64), i + half, o.path_b.siblings@) == root
            },
{
    assert forall|q: int, r: int| 0 <= q < openings.len() && 0 <= r < proof.layer_roots@.len() implies {
        let half = halvings(n, r as nat) / 2;
        let i = indices[q] as nat % half;
        let o = #[trigger] openings[q]@[r];
        let root = proof.layer_roots@[r];
        &&& o.path_a.leaf_index == i
        &&& path_root(leaf_hash(o.value_a.val() as u64), i, o.path_a.siblings@) == root
        &&& o.path_b.leaf_index == i + half
        &&& path_root(leaf_hash(o.value_b.val() as u64), i + half, o.path_b.siblings@) == root
    } by {
        assert(round_ok::<F>(proof.layer_roots@, betas, vals(proof.final_poly_coeffs@), offset, n, indices[q] as nat, openings[q]@, r));
    }
}

/// `t` is a Merkle tree whose leaves are the hashes of `values`.
#[verifier::opaque]
pub open spec fn tree_commits(t: Seq<Seq<u64>>, values: Seq<int>) -> bool {
    &&& hash_layers_wf(t)
    &&& t[0].len() == values.len()
    &&& forall|i: int| 0 <= i < values.len() ==> #[trigger] t[0][i] == leaf_hash(values[i] as u64)
}

/// The layers of the prover halve from `n` points, and each committed
/// layer, at least two points wide, has its Merkle tree.
pub open spec fn prover_layers_ok(layers: Seq<Seq<int>>, trees: Seq<Seq<Seq<u64>>>, n: nat) -> bool {
    &&& layers.len() >= 1
    &&& 1 <= trees.len() <= layers.len()
    &&& forall|j: int| 0 <= j < layers.len() ==> #[trigger] layers[j].len() == halvings(n, j as nat)
    &&& forall|j: int| 0 <= j < trees.len() ==> #[trigger] halvings(n, j as nat) >= 2
    &&& forall|j: int| 0 <= j < trees.len() ==> #[trigger] tree_commits(trees[j], layers[j])
}

/// `path` is what the tree's `open` gives for leaf `i`.
pub open spec fn is_tree_path(t: Seq<Seq<u64>>, i: nat, path: MerklePath) -> bool {
    &&& path.leaf_index == i
    &&& path.siblings@.len() == t.len() - 1
    &&& forall|k: int| 0 <= k < path.siblings@.len() ==> #[trigger] path.siblings@[k] == t[k][sibling_index(
        ancestor(i, k as nat),
    ) as int]
}

/// `o` is what the honest prover opens in round `j` for query index `idx`.
pub open spec fn honest_opening<F: Field>(
    layers: Seq<Seq<int>>,
    trees: Seq<Seq<Seq<u64>>>,
    n: nat,
    idx: nat,
    j: int,
    o: FriRoundOpening<F>,
) -> bool {
    let half = halvings(n, j as nat) / 2;
    let i = idx % half;
    &&& o.value_a.val() == layers[j][i as int]
    &&& o.value_b.val() == layers[j][(i + half) as int]
    &&& is_tree_path(trees[j], i, o.path_a)
    &&& is_tree_path(trees[j], i + half, o.path_b)
}

/// The view of each tree.
pub open spec fn tree_views(trees: Seq<MerkleTree>) -> Seq<Seq<Seq<u64>>> {
    trees.map_values(|t: MerkleTree| t@)
}

/// The FRI prover's state after the commit phase.
pub struct FriProver<F: Field> {
    eval_layers: Vec<Vec<F>>,
    trees: Vec<MerkleTree>,
    pub proof: FriCommitPhaseProof<F>,
    initial_domain_size: usize,
    domain_offset: F,
    betas: Ghost<Seq<int>>,
}

/// The tree over the leaf hashes of field values.
pub(crate) fn tree_of_values<F: Field>(values: &[F]) -> (r: MerkleTree)
    requires
        is_pow2_len(values@.len()),
        values@.len() > 0,
    ensures
        tree_commits(r@, vals(values@)),
{
    let n = values.len();
    let mut leaves: Vec<u64> = Vec::with_capacity(n);
    let mut i: usize = 0;
    while i < n
        invariant
            i <= n,
            n == values@.len(),
            leaves@.len() == i,
            forall|j: int| 0 <= j < i ==> #[trigger] leaves@[j] == leaf_hash(values@[j].val() as u64),
        decreases n - i,
    {
        leaves.push(hash_leaf(values[i].to_canonical_u64()));
        i = i + 1;
    }
    let t = MerkleTree::build(leaves.as_slice());
    proof {
        reveal(tree_commits);
        assert forall|j: int| 0 <= j < n implies #[trigger] t@[0][j] == leaf_hash(vals(values@)[j] as u64) by {
            assert(vals(values@)[j] == values@[j].val());
        }
    }
    t
}

/// Absorbs each field element in turn.
fn absorb_all_fields<F: Field>(values: &[F], transcript: &mut Transcript)
    ensures
        final(transcript)@ == absorb_seq(old(transcript)@, field_words(values@)),
{
    let m = values.len();
    let mut c: usize = 0;
    while c < m
        invariant
            c <= m,
            m == values@.len(),
            transcript@ == absorb_seq(old(transcript)@, field_words(values@).subrange(0, c as int)),
        decreases m - c,
    {
        let v = values[c];
        proof {
            assert(field_words(values@).subrange(0, c + 1).drop_last() =~= field_words(values@).subrange(0, c as int));
        }
        transcript.absorb_field(v);
        c = c + 1;
    }
    proof {
        assert(field_words(values@).subrange(0, m as int) =~= field_words(values@));
    }
}

/// The state of the commit phase after `j` folds.
pub open spec fn commit_state_ok<F: Field>(
    lv: Seq<Seq<int>>,
    tv: Seq<Seq<Seq<u64>>>,
    rv: Seq<u64>,
    betas: Seq<int>,
    s0: u64,
    off: int,
    n: nat,
    j: nat,
) -> bool {
    &&& lv.len() == j + 1
    &&& betas.len() == j
    &&& forall|t: int| 0 <= t <= j ==> #[trigger] lv[t].len() == halvings(n, t as nat)
    &&& layers_fold::<F>(lv, betas, off, n)
    &&& 1 <= tv.len() <= j + 1
    &&& j <= tv.len()
    &&& rv.len() == tv.len()
    &&& forall|t: int| 0 <= t < tv.len() ==> #[trigger] rv[t] == tv[t].last()[0]
    &&& forall|t: int| 0 <= t < tv.len() ==> #[trigger] tree_commits(tv[t], lv[t])
    &&& forall|t: int| 0 <= t < j ==> #[trigger] betas[t] == round_beta::<F>(s0, rv, t)
}

/// The transcript state during the commit phase: a root absorbed and not
/// yet followed by its challenge, or every root followed by one.
pub open spec fn commit_transcript_state(s0: u64, rv: Seq<u64>, j: nat) -> u64 {
    if rv.len() == j + 1 {
        pair_hash(rounds_state(s0, rv.subrange(0, j as int)), rv[j as int])
    } else {
        rounds_state(s0, rv)
    }
}

/// The folding loop of the commit phase.
fn commit_layers<F: Field>(
    initial_evals: Vec<F>,
    domain_offset: F,
    final_layer_size: usize,
    transcript: &mut Transcript,
) -> (r: (Vec<Vec<F>>, Vec<MerkleTree>, Vec<u64>, Vec<F>, Vec<F>, Ghost<Seq<int>>))
    requires
        is_pow2_len(initial_evals@.len()),
        initial_evals@.len() <= pow2(F::two_adicity_spec()),
        is_pow2_len(final_layer_size as nat),
        initial_evals@.len() >= final_layer_size,
        final_layer_size >= 2,
        domain_offset.val() != 0,
    ensures
        ({
            let (eval_layers, trees, roots, evals, domain, betas) = r;
            let n = initial_evals@.len();
            let rounds = fold_rounds(n, final_layer_size as nat);
            &&& commit_state_ok::<F>(
                layer_vals(eval_layers@),
                tree_views(trees@),
                roots@,
                betas@,
                old(transcript)@,
                domain_offset.val(),
                n,
                rounds,
            )
            &&& prover_layers_ok(layer_vals(eval_layers@), tree_views(trees@), n)
            &&& layer_vals(eval_layers@)[0] == vals(initial_evals@)
            &&& tree_views(trees@).len() == if rounds == 0 { 1 } else { rounds }
            &&& evals@.len() == final_layer_size
            &&& layer_vals(eval_layers@)[rounds as int] == vals(evals@)
            &&& domain@.len() == final_layer_size
            &&& forall|i: int| 0 <= i < domain@.len() ==> #[trigger] vals(domain@)[i] == domain_point_spec::<F>(
                domain_offset.val(),
                fri_generator::<F>(n),
                i as nat,
                rounds,
            )
            &&& final(transcript)@ == commit_transcript_state(old(transcript)@, roots@, rounds)
        }),
{
    proof {
        F::lemma_prime_field();
    }
    let n = initial_evals.len();
    let ghost nn = n as nat;
    let ghost off = domain_offset.val();
    let ghost s0 = transcript@;
    let ghost g = fri_generator::<F>(nn);
    let log_n = match log2_exact(n) {
        Some(k) => k,
        None => {
            assert(false);
            0
        },
    };
    let ghost log_f = log2_of(final_layer_size as nat);
    let ghost rounds = fold_rounds(nn, final_layer_size as nat);
    proof {
        F::lemma_modulus();
        F::lemma_val_range(domain_offset);
        lemma_log2_of(log_n as nat);
        let kf = choose|kf: nat| pow2(kf) == final_layer_size;
        lemma_log2_of(kf);
        if log_f > log_n {
            vstd::arithmetic::power2::lemma_pow2_strictly_increases(log_n as nat, log_f);
        }
        if log_n > F::two_adicity_spec() {
            vstd::arithmetic::power2::lemma_pow2_strictly_increases(F::two_adicity_spec(), log_n as nat);
        }
    }
    let mut domain = coset_domain(n, domain_offset);
    proof {
        assert forall|i: int| 0 <= i < n implies #[trigger] vals(domain@)[i] == domain_point_spec::<F>(off, g, i as nat, 0) by {
            lemma_coset_point_is_domain_point::<F>(off, g, i as nat);
        }
    }
    let mut evals = initial_evals;
    let mut eval_layers: Vec<Vec<F>> = Vec::new();
    eval_layers.push(copy_vec(evals.as_slice()));
    let mut trees: Vec<MerkleTree> = Vec::new();
    let mut layer_roots: Vec<u64> = Vec::new();
    let first_tree = tree_of_values(evals.as_slice());
    let root0 = first_tree.root();
    layer_roots.push(root0);
    transcript.absorb(root0);
    trees.push(first_tree);
    let ghost mut betas: Seq<int> = Seq::empty();
    let ghost mut j: nat = 0;
    proof {
        lemma_halvings_pow2(log_n as nat, 0);
        assert(layer_roots@ =~= seq![root0]);
        assert(layer_roots@.subrange(0, 0) =~= Seq::<u64>::empty());
        assert(layer_vals(eval_layers@) =~= seq![vals(evals@)]);
        assert(tree_views(trees@) =~= seq![first_tree@]);
        let lv = layer_vals(eval_layers@);
        assert(layers_fold::<F>(lv, betas, off, nn));
    }
    while evals.len() > final_layer_size
        invariant
            n == nn,
            nn == pow2(log_n as nat),
            is_pow2_len(nn),
            nn <= pow2(F::two_adicity_spec()),
            log_n < 64,
            log_f <= log_n,
            pow2(log_f) == final_layer_size,
            rounds == log_n - log_f,
            final_layer_size >= 2,
            0 < off < F::p(),
            off == domain_offset.val(),
            g == fri_generator::<F>(nn),
            no_zero_divisors::<F>(),
            j <= rounds,
            evals@.len() == pow2((log_n - j) as nat),
            evals@.len() == halvings(nn, j),
            domain@.len() == evals@.len(),
            forall|i: int| 0 <= i < domain@.len() ==> #[trigger] vals(domain@)[i] == domain_point_spec::<F>(off, g, i as nat, j),
            layer_vals(eval_layers@)[0] == vals(initial_evals@),
            layer_vals(eval_layers@)[j as int] == vals(evals@),
            commit_state_ok::<F>(layer_vals(eval_layers@), tree_views(trees@), layer_roots@, betas, s0, off, nn, j),
            tree_views(trees@).len() == if j == 0 || evals@.len() > final_layer_size { j + 1 } else { j },
            transcript@ == commit_transcript_state(s0, layer_roots@, j),
        decreases evals@.len(),
    {
        proof {
            if j == rounds {
                assert(evals@.len() == final_layer_size);
            }
            vstd::arithmetic::power2::lemma_pow2_unfold((log_n - j) as nat);
            assert forall|i: int| 0 <= i < evals@.len() / 2 implies #[trigger] domain@[i].val() != 0 by {
                lemma_domain_point_nonzero::<F>(off, nn, i as nat, j);
                assert(vals(domain@)[i] == domain@[i].val());
            }
        }
        let ghost rv = layer_roots@;
        let beta = transcript.squeeze_field::<F>();
        proof {
            assert(rv.len() == j + 1);
            assert(rv.subrange(0, j as int + 1) =~= rv);
            assert(rv.subrange(0, j as int + 1).drop_last() =~= rv.subrange(0, j as int));
            assert(transcript@ == rounds_state(s0, rv));
            assert(beta.val() == round_beta::<F>(s0, rv, j as int));
        }
        let ghost prev_lv = layer_vals(eval_layers@);
        let ghost prev_domain = vals(domain@);
        let (next_evals, next_domain) = fold_layer(evals.as_slice(), domain.as_slice(), beta);
        evals = next_evals;
        domain = next_domain;
        let layer = copy_vec(evals.as_slice());
        proof {
            lemma_layer_vals_push(eval_layers@, layer);
        }
        eval_layers.push(layer);
        proof {
            lemma_fold_extends::<F>(prev_lv, betas, vals(evals@), prev_domain, vals(domain@), beta.val(), off, nn, j);
            lemma_hash_trees_still_commit(tree_views(trees@), prev_lv, vals(evals@));
            betas = betas.push(beta.val());
            j = j + 1;
            assert forall|t: int| 0 <= t < j implies #[trigger] betas[t] == round_beta::<F>(s0, rv, t) by {
                if t < j - 1 {
                    assert(betas[t] == betas.drop_last()[t]);
                }
            }
        }
        if evals.len() > final_layer_size {
            let tree = tree_of_values(evals.as_slice());
            let root = tree.root();
            proof {
                lemma_tree_views_push(trees@, tree);
                lemma_hash_tree_pushed::<F>(layer_vals(eval_layers@), tree_views(trees@), layer_roots@, betas, tree@, root, s0, off, nn, j);
                let rv2 = rv.push(root);
                assert(rv2.subrange(0, j as int) =~= rv);
                assert(rv2[j as int] == root);
            }
            layer_roots.push(root);
            transcript.absorb(root);
            trees.push(tree);
        }
    }
    proof {
        if j < rounds {
            vstd::arithmetic::power2::lemma_pow2_strictly_increases(log_f, (log_n - j) as nat);
        }
        let lv = layer_vals(eval_layers@);
        let tv = tree_views(trees@);
        assert forall|t: int| 0 <= t < tv.len() implies #[trigger] halvings(nn, t as nat) >= 2 by {
            lemma_halvings_monotone(nn, t as nat, j);
            if t < j {
                lemma_halvings_monotone(nn, (t + 1) as nat, j);
            }
        }
        assert forall|t: int| 0 <= t < lv.len() implies #[trigger] lv[t].len() == halvings(nn, t as nat) by {
        }
    }
    (eval_layers, trees, layer_roots, evals, domain, Ghost(betas))
}

/// Appending a tree to the views of the trees.
proof fn lemma_tree_views_push(s: Seq<MerkleTree>, x: MerkleTree)
    ensures
        tree_views(s.push(x)) == tree_views(s).push(x@),
{
    assert(tree_views(s.push(x)) =~= tree_views(s).push(x@));
}

/// Adding a layer leaves the committed trees committed.
proof fn lemma_hash_trees_still_commit(tv: Seq<Seq<Seq<u64>>>, lv: Seq<Seq<int>>, layer: Seq<int>)
    requires
        tv.len() <= lv.len(),
        forall|t: int| 0 <= t < tv.len() ==> #[trigger] tree_commits(tv[t], lv[t]),
    ensures
        forall|t: int| 0 <= t < tv.len() ==> #[trigger] tree_commits(tv[t], lv.push(layer)[t]),
{
    assert forall|t: int| 0 <= t < tv.len() implies #[trigger] tree_commits(tv[t], lv.push(layer)[t]) by {
        assert(lv.push(layer)[t] == lv[t]);
    }
}

/// Committing one more tree, over the newest layer.
proof fn lemma_hash_tree_pushed<F: Field>(
    lv: Seq<Seq<int>>,
    tv: Seq<Seq<Seq<u64>>>,
    rv: Seq<u64>,
    betas: Seq<int>,
    t: Seq<Seq<u64>>,
    root: u64,
    s0: u64,
    off: int,
    n: nat,
    j: nat,
)
    requires
        lv.len() == j + 1,
        betas.len() == j,
        forall|k: int| 0 <= k <= j ==> #[trigger] lv[k].len() == halvings(n, k as nat),
        layers_fold::<F>(lv, betas, off, n),
        tv.len() == j,
        j >= 1,
        rv.len() == tv.len(),
        forall|k: int| 0 <= k < tv.len() ==> #[trigger] rv[k] == tv[k].last()[0],
        forall|k: int| 0 <= k < tv.len() ==> #[trigger] tree_commits(tv[k], lv[k]),
        forall|k: int| 0 <= k < j ==> #[trigger] betas[k] == round_beta::<F>(s0, rv, k),
        tree_commits(t, lv[j as int]),
        root == t.last()[0],
    ensures
        commit_state_ok::<F>(lv, tv.push(t), rv.push(root), betas, s0, off, n, j),
{
    let tv2 = tv.push(t);
    let rv2 = rv.push(root);
    assert forall|k: int| 0 <= k < tv2.len() implies #[trigger] rv2[k] == tv2[k].last()[0] by {
        if k < tv.len() {
            assert(tv2[k] == tv[k]);
        }
    }
    assert forall|k: int| 0 <= k < tv2.len() implies #[trigger] tree_commits(tv2[k], lv[k]) by {
        if k < tv.len() {
            assert(tv2[k] == tv[k]);
        }
    }
    assert forall|k: int| 0 <= k < j implies #[trigger] betas[k] == round_beta::<F>(s0, rv2, k) by {
        assert(rv2.subrange(0, k + 1) =~= rv.subrange(0, k + 1));
    }
}

impl<F: Field> FriProver<F> {
    #[verifier::type_invariant]
    spec fn inv(self) -> bool {
        prover_layers_ok(self.layers(), self.tree_views(), self.initial_domain_size as nat)
    }

    /// The evaluation layers, from the initial one to the final one.
    pub closed spec fn layers(&self) -> Seq<Seq<int>> {
        layer_vals(self.eval_layers@)
    }

    /// The Merkle trees of the committed layers.
    pub closed spec fn tree_views(&self) -> Seq<Seq<Seq<u64>>> {
        tree_views(self.trees@)
    }

    /// The size of the initial domain.
    pub closed spec fn initial_size(&self) -> nat {
        self.initial_domain_size as nat
    }

    /// The coset offset of the initial domain.
    pub closed spec fn offset_val(&self) -> int {
        self.domain_offset.val()
    }

    /// What the commit phase sends to the verifier.
    pub closed spec fn proof_view(&self) -> FriCommitPhaseProof<F> {
        self.proof
    }

    /// The folding challenges drawn during the commit phase.
    pub closed spec fn betas(&self) -> Seq<int> {
        self.betas@
    }

    /// The number of committed layers, one per query round.
    pub fn num_rounds(&self) -> (r: usize)
        ensures
            r == self.tree_views().len(),
    {
        self.trees.len()
    }

    /// The bound below which query indices are drawn: half the initial domain.
    pub fn index_bound(&self) -> (r: usize)
        ensures
            r == self.initial_size() / 2,
    {
        self.initial_domain_size / 2
    }

    /// The coset offset of the initial domain.
    pub fn domain_offset(&self) -> (r: F)
        ensures
            r.val() == self.offset_val(),
    {
        self.domain_offset
    }

    /// What the commit phase sends to the verifier.
    pub fn commit_proof(&self) -> (r: &FriCommitPhaseProof<F>)
        ensures
            *r == self.proof_view(),
    {
        &self.proof
    }

    /// Commits to `initial_evals` on the coset `domain_offset * H`: folds
    /// with challenges drawn after each committed root until
    /// `final_layer_size` points are left, then interpolates the final
    /// polynomial through the first `final_poly_num_coeffs` of them and
    /// absorbs its coefficients.
    pub fn commit(
        initial_evals: Vec<F>,
        domain_offset: F,
        final_layer_size: usize,
        final_poly_num_coeffs: usize,
        transcript: &mut Transcript,
    ) -> (r: Self)
        requires
            is_pow2_len(initial_evals@.len()),
            initial_evals@.len() <= pow2(F::two_adicity_spec()),
            is_pow2_len(final_layer_size as nat),
            initial_evals@.len() >= final_layer_size,
            is_pow2_len(final_poly_num_coeffs as nat),
            final_poly_num_coeffs < final_layer_size,
            domain_offset.val() != 0,
        ensures
            r.initial_size() == initial_evals@.len(),
            r.offset_val() == domain_offset.val(),
            prover_layers_ok(r.layers(), r.tree_views(), initial_evals@.len()),
            r.layers().len() == fold_rounds(initial_evals@.len(), final_layer_size as nat) + 1,
            r.layers()[0] == vals(initial_evals@),
            r.betas().len() == fold_rounds(initial_evals@.len(), final_layer_size as nat),
            layers_fold::<F>(r.layers(), r.betas(), domain_offset.val(), initial_evals@.len()),
            r.tree_views().len() == if fold_rounds(initial_evals@.len(), final_layer_size as nat) == 0 {
                1
            } else {
                fold_rounds(initial_evals@.len(), final_layer_size as nat)
            },
            r.proof_view().layer_roots@.len() == r.tree_views().len(),
            forall|t: int| 0 <= t < r.tree_views().len() ==> #[trigger] r.proof_view().layer_roots@[t]
                == r.tree_views()[t].last()[0],
            forall|t: int| 0 <= t < r.betas().len() ==> #[trigger] r.betas()[t] == round_beta::<F>(
                old(transcript)@,
                r.proof_view().layer_roots@,
                t,
            ),
            is_normalized(vals(r.proof_view().final_poly_coeffs@)),
            r.proof_view().final_poly_coeffs@.len() <= final_poly_num_coeffs,
            forall|i: int|
                0 <= i < final_poly_num_coeffs ==> #[trigger] poly_eval(
                    vals(r.proof_view().final_poly_coeffs@),
                    domain_point_spec::<F>(
                        domain_offset.val(),
                        fri_generator::<F>(initial_evals@.len()),
                        i as nat,
                        fold_rounds(initial_evals@.len(), final_layer_size as nat),
                    ),
                    F::p(),
                ) == r.layers()[fold_rounds(initial_evals@.len(), final_layer_size as nat) as int][i],
            final(transcript)@ == absorb_seq(
                commit_transcript_state(
                    old(transcript)@,
                    r.proof_view().layer_roots@,
                    fold_rounds(initial_evals@.len(), final_layer_size as nat),
                ),
                field_words(r.proof_view().final_poly_coeffs@),
            ),
    {
        proof {
            F::lemma_prime_field();
        }
        let n = initial_evals.len();
        proof {
            let kk = choose|kk: nat| pow2(kk) == final_poly_num_coeffs;
            vstd::arithmetic::power2::lemma_pow2_pos(kk);
            F::lemma_val_range(domain_offset);
            crate::layers::lemma_final_points_distinct::<F>(
                domain_offset.val(),
                n as nat,
                final_layer_size as nat,
                final_poly_num_coeffs as nat,
            );
        }
        let (eval_layers, trees, layer_roots, evals, domain, betas) = commit_layers(
            initial_evals,
            domain_offset,
            final_layer_size,
            transcript,
        );
        let k = final_poly_num_coeffs;
        let mut points: Vec<(F, F)> = Vec::with_capacity(k);
        let mut i: usize = 0;
        while i < k
            invariant
                i <= k,
                k == final_poly_num_coeffs,
                k < evals@.len(),
                domain@.len() == evals@.len(),
                points@.len() == i,
                forall|a: int| 0 <= a < i ==> (#[trigger] points@[a]).0 == domain@[a] && points@[a].1 == evals@[a],
            decreases k - i,
        {
            points.push((domain[i], evals[i]));
            i = i + 1;
        }
        proof {
            assert forall|a: int, b: int| 0 <= a < b < points@.len() implies #[trigger] points@[a].0.val()
                != #[trigger] points@[b].0.val() by {
                assert(vals(domain@)[a] == domain@[a].val());
                assert(vals(domain@)[b] == domain@[b].val());
            }
        }
        let final_poly = crate::interpolate::lagrange_interpolate(points.as_slice());
        final_poly.check_normalized();
        let final_poly_coeffs = copy_vec(final_poly.coeffs());
        proof {
            if crate::field::inverses_correct::<F>() {
                let rounds = fold_rounds(n as nat, final_layer_size as nat);
                assert forall|a: int| 0 <= a < k implies #[trigger] poly_eval(
                    vals(final_poly_coeffs@),
                    domain_point_spec::<F>(domain_offset.val(), fri_generator::<F>(n as nat), a as nat, rounds),
                    F::p(),
                ) == layer_vals(eval_layers@)[rounds as int][a] by {
                    assert(vals(domain@)[a] == domain@[a].val());
                    assert(vals(evals@)[a] == evals@[a].val());
                    assert(points@[a].0.val() == domain@[a].val());
                }
            }
        }
        absorb_all_fields(final_poly_coeffs.as_slice(), transcript);
        FriProver {
            eval_layers,
            trees,
            proof: FriCommitPhaseProof { layer_roots, final_poly_coeffs },
            initial_domain_size: n,
            domain_offset,
            betas,
        }
    }

    /// Opens every committed layer for each query index.
    pub fn open(&self, indices: &[usize]) -> (r: Vec<Vec<FriRoundOpening<F>>>)
        ensures
            r@.len() == indices@.len(),
            forall|q: int| 0 <= q < r@.len() ==> (#[trigger] r@[q])@.len() == self.tree_views().len(),
            forall|q: int, j: int|
                0 <= q < r@.len() && 0 <= j < self.tree_views().len() ==> #[trigger] honest_opening::<F>(
                    self.layers(),
                    self.tree_views(),
                    self.initial_size(),
                    indices@[q] as nat,
                    j,
                    r@[q]@[j],
                ),
    {
        proof {
            use_type_invariant(self);
        }
        let num_rounds = self.trees.len();
        let mut out: Vec<Vec<FriRoundOpening<F>>> = Vec::with_capacity(indices.len());
        let mut q: usize = 0;
        while q < indices.len()
            invariant
                q <= indices@.len(),
                num_rounds == self.tree_views().len(),
                prover_layers_ok(self.layers(), self.tree_views(), self.initial_domain_size as nat),
                out@.len() == q,
                forall|q2: int| 0 <= q2 < q ==> (#[trigger] out@[q2])@.len() == num_rounds,
                forall|q2: int, j: int|
                    0 <= q2 < q && 0 <= j < num_rounds ==> #[trigger] honest_opening::<F>(
                        self.layers(),
                        self.tree_views(),
                        self.initial_size(),
                        indices@[q2] as nat,
                        j,
                        out@[q2]@[j],
                    ),
            decreases indices@.len() - q,
        {
            let idx0 = indices[q];
            let mut rounds: Vec<FriRoundOpening<F>> = Vec::with_capacity(num_rounds);
            let mut layer_size = self.initial_domain_size;
            let mut r: usize = 0;
            while r < num_rounds
                invariant
                    r <= num_rounds,
                    num_rounds == self.tree_views().len(),
                    prover_layers_ok(self.layers(), self.tree_views(), self.initial_domain_size as nat),
                    layer_size == halvings(self.initial_domain_size as nat, r as nat),
                    rounds@.len() == r,
                    forall|j: int| 0 <= j < r ==> #[trigger] honest_opening::<F>(
                        self.layers(),
                        self.tree_views(),
                        self.initial_size(),
                        idx0 as nat,
                        j,
                        rounds@[j],
                    ),
                decreases num_rounds - r,
            {
                let ghost lv = self.layers();
                let ghost tv = self.tree_views();
                let ghost jr: int = r as int;
                assert(halvings(self.initial_domain_size as nat, jr as nat) >= 2);
                assert(lv[jr].len() == halvings(self.initial_domain_size as nat, jr as nat));
                assert(tree_commits(tv[jr], lv[jr]));
                reveal(tree_commits);
                let half = layer_size / 2;
                let i = idx0 % half;
                let layer = &self.eval_layers[r];
                assert(lv[jr] == vals(layer@));
                let value_a = layer[i];
                let value_b = layer[i + half];
                let tree = &self.trees[r];
                assert(tv[jr] == tree@);
                let path_a = tree.open(i);
                let path_b = tree.open(i + half);
                rounds.push(FriRoundOpening { value_a, path_a, value_b, path_b });
                layer_size = half;
                r = r + 1;
            }
            out.push(rounds);
            q = q + 1;
        }
        out
    }
}


/// The challenges the verifier derives by replaying the commit phase:
/// each root is absorbed and a challenge squeezed after it, then the final
/// coefficients are absorbed.
pub fn replay_commit_phase<F: Field>(proof: &FriCommitPhaseProof<F>, transcript: &mut Transcript) -> (r: Vec<F>)
    ensures
        r@.len() == proof.layer_roots@.len(),
        forall|t: int| 0 <= t < r@.len() ==> #[trigger] vals(r@)[t] == round_beta::<F>(
            old(transcript)@,
            proof.layer_roots@,
            t,
        ),
        final(transcript)@ == absorb_seq(
            rounds_state(old(transcript)@, proof.layer_roots@),
            field_words(proof.final_poly_coeffs@),
        ),
{
    let n = proof.layer_roots.len();
    let ghost roots = proof.layer_roots@;
    let ghost s0 = transcript@;
    let mut betas: Vec<F> = Vec::with_capacity(n);
    let mut i: usize = 0;
    while i < n
        invariant
            i <= n,
            n == roots.len(),
            roots == proof.layer_roots@,
            betas@.len() == i,
            transcript@ == rounds_state(s0, roots.subrange(0, i as int)),
            forall|t: int| 0 <= t < i ==> #[trigger] vals(betas@)[t] == round_beta::<F>(s0, roots, t),
        decreases n - i,
    {
        let root = proof.layer_roots[i];
        transcript.absorb(root);
        let beta = transcript.squeeze_field::<F>();
        proof {
            assert(roots.subrange(0, i + 1).drop_last() =~= roots.subrange(0, i as int));
            crate::poly::lemma_vals_push(betas@, beta);
        }
        betas.push(beta);
        i = i + 1;
    }
    proof {
        assert(roots.subrange(0, n as int) =~= roots);
    }
    absorb_all_fields(proof.final_poly_coeffs.as_slice(), transcript);
    betas
}

/// Checks round `r` of the query at `idx0`.
pub(crate) fn check_round<F: Field>(
    proof: &FriCommitPhaseProof<F>,
    betas: &[F],
    final_poly: &Polynomial<F>,
    domain_offset: F,
    generator: F,
    n: usize,
    idx0: usize,
    rounds: &Vec<FriRoundOpening<F>>,
    r: usize,
    layer_size: usize,
    next_layer_size: usize,
) -> (ok: bool)
    requires
        domain_offset.val() != 0,
        is_pow2_len(n as nat),
        n <= pow2(F::two_adicity_spec()),
        generator.val() == fri_generator::<F>(n as nat),
        final_poly@ == trim(vals(proof.final_poly_coeffs@)),
        layer_size == halvings(n as nat, r as nat),
        next_layer_size == halvings(n as nat, (r + 1) as nat),
        next_layer_size >= 1,
        r < proof.layer_roots@.len(),
        r < 63,
        betas@.len() == proof.layer_roots@.len(),
        rounds@.len() == proof.layer_roots@.len(),
    ensures
        ok == round_ok::<F>(
            proof.layer_roots@,
            vals(betas@),
            vals(proof.final_poly_coeffs@),
            domain_offset.val(),
            n as nat,
            idx0 as nat,
            rounds@,
            r as int,
        ),
{
    proof {
        F::lemma_prime_field();
    }
    proof {
        F::lemma_val_range(domain_offset);
    }
    let half = layer_size / 2;
    let i = idx0 % half;
    let opening = &rounds[r];
    let root = proof.layer_roots[r];
    let leaf_a = hash_leaf(opening.value_a.to_canonical_u64());
    let leaf_b = hash_leaf(opening.value_b.to_canonical_u64());
    if opening.path_a.leaf_index != i || opening.path_b.leaf_index != i + half {
        return false;
    }
    if !opening.path_a.verify(root, leaf_a) {
        return false;
    }
    if !opening.path_b.verify(root, leaf_b) {
        return false;
    }
    let x = domain_point(domain_offset, generator, i, r as u32);
    proof {
        lemma_domain_point_nonzero::<F>(domain_offset.val(), n as nat, i as nat, r as nat);
    }
    let beta = betas[r];
    assert(vals(betas@)[r as int] == beta.val());
    let folded = fold_value(opening.value_a, opening.value_b, x, beta);
    let next_half = next_layer_size / 2;
    let next_index = idx0 % next_layer_size;
    if r + 1 < proof.layer_roots.len() {
        let expected = if next_index < next_half {
            rounds[r + 1].value_a
        } else {
            rounds[r + 1].value_b
        };
        folded.feq(&expected)
    } else {
        let final_x = domain_point(domain_offset, generator, next_index, (r + 1) as u32);
        final_poly.eval(final_x).feq(&folded)
    }
}

/// The verifier's query phase: checks every opened round of every query
/// against the committed roots, the folding relation between consecutive
/// rounds, and the final polynomial after the last round.
pub fn verify_queries<F: Field>(
    proof: &FriCommitPhaseProof<F>,
    betas: &[F],
    domain_offset: F,
    initial_domain_size: usize,
    final_layer_size: usize,
    expected_final_poly_num_coeffs: usize,
    indices: &[usize],
    openings: &[Vec<FriRoundOpening<F>>],
) -> (ok: bool)
    requires
        fri_shape_ok::<F>(
            *proof,
            betas@.len(),
            initial_domain_size as nat,
            final_layer_size as nat,
            expected_final_poly_num_coeffs as nat,
            indices@.len(),
            openings@.len(),
        ) ==> fri_domain_ok::<F>(domain_offset.val(), initial_domain_size as nat, final_layer_size as nat),
    ensures
        ok == fri_accepts::<F>(
            *proof,
            vals(betas@),
            domain_offset.val(),
            initial_domain_size as nat,
            final_layer_size as nat,
            expected_final_poly_num_coeffs as nat,
            indices@,
            openings@,
        ),
{
    proof {
        F::lemma_prime_field();
    }
    let n = initial_domain_size;
    let num_rounds = proof.layer_roots.len();
    if betas.len() != num_rounds || indices.len() != openings.len() {
        return false;
    }
    if proof.final_poly_coeffs.len() != expected_final_poly_num_coeffs {
        return false;
    }
    let mut layer_sizes: Vec<usize> = Vec::new();
    layer_sizes.push(n);
    let mut r: usize = 0;
    while r < num_rounds
        invariant
            r <= num_rounds,
            layer_sizes@.len() == r + 1,
            forall|j: int| 0 <= j <= r ==> #[trigger] layer_sizes@[j] == halvings(n as nat, j as nat),
        decreases num_rounds - r,
    {
        let last = layer_sizes[r];
        layer_sizes.push(last / 2);
        r = r + 1;
    }
    if layer_sizes[num_rounds] != final_layer_size {
        return false;
    }
    let log_n = match log2_exact(n) {
        Some(k) => k,
        None => {
            return false;
        },
    };
    proof {
        lemma_log2_of(log_n as nat);
        if log_n > F::two_adicity_spec() {
            vstd::arithmetic::power2::lemma_pow2_strictly_increases(F::two_adicity_spec(), log_n as nat);
        }
    }
    let generator = F::root_of_unity(log_n);
    let final_poly = Polynomial::new(copy_vec(proof.final_poly_coeffs.as_slice()));
    let ghost roots = proof.layer_roots@;
    let ghost coeffs = vals(proof.final_poly_coeffs@);
    let ghost off = domain_offset.val();
    proof {
        lemma_rounds_bound(n as nat, log_n as nat, num_rounds as nat);
    }
    let nq = openings.len();
    let mut q: usize = 0;
    while q < nq
        invariant
            q <= nq,
            nq == openings@.len(),
            nq == indices@.len(),
            num_rounds == proof.layer_roots@.len(),
            n == initial_domain_size,
            final_layer_size >= 1,
            no_zero_divisors::<F>(),
            domain_offset.val() != 0,
            is_pow2_len(n as nat),
            n <= pow2(F::two_adicity_spec()),
            num_rounds <= log_n,
            log_n < 64,
            pow2(log_n as nat) == n,
            betas@.len() == num_rounds,
            layer_sizes@.len() == num_rounds + 1,
            forall|j: int| 0 <= j <= num_rounds ==> #[trigger] layer_sizes@[j] == halvings(n as nat, j as nat),
            halvings(n as nat, num_rounds as nat) == final_layer_size,
            generator.val() == fri_generator::<F>(n as nat),
            final_poly@ == trim(coeffs),
            roots == proof.layer_roots@,
            coeffs == vals(proof.final_poly_coeffs@),
            off == domain_offset.val(),
            forall|q2: int| 0 <= q2 < q ==> (#[trigger] openings@[q2])@.len() == num_rounds,
            forall|q2: int, r2: int|
                0 <= q2 < q && 0 <= r2 < num_rounds ==> #[trigger] round_ok::<F>(
                    roots,
                    vals(betas@),
                    coeffs,
                    off,
                    n as nat,
                    indices@[q2] as nat,
                    openings@[q2]@,
                    r2,
                ),
        decreases nq - q,
    {
        let rounds = &openings[q];
        let idx0 = indices[q];
        if rounds.len() != num_rounds {
            proof {
                assert(openings@[q as int]@.len() != num_rounds);
            }
            return false;
        }
        let mut r: usize = 0;
        while r < num_rounds
            invariant
                r <= num_rounds,
                q < nq,
                nq == openings@.len(),
                nq == indices@.len(),
                rounds@ == openings@[q as int]@,
                idx0 == indices@[q as int],
                rounds@.len() == num_rounds,
                num_rounds == proof.layer_roots@.len(),
                n == initial_domain_size,
                no_zero_divisors::<F>(),
                domain_offset.val() != 0,
                is_pow2_len(n as nat),
                n <= pow2(F::two_adicity_spec()),
                num_rounds <= log_n,
                log_n < 64,
                pow2(log_n as nat) == n,
                betas@.len() == num_rounds,
                layer_sizes@.len() == num_rounds + 1,
                forall|j: int| 0 <= j <= num_rounds ==> #[trigger] layer_sizes@[j] == halvings(n as nat, j as nat),
                halvings(n as nat, num_rounds as nat) == final_layer_size,
                final_layer_size >= 1,
                generator.val() == fri_generator::<F>(n as nat),
                final_poly@ == trim(coeffs),
                roots == proof.layer_roots@,
                coeffs == vals(proof.final_poly_coeffs@),
                off == domain_offset.val(),
                forall|r2: int| 0 <= r2 < r ==> #[trigger] round_ok::<F>(
                    roots,
                    vals(betas@),
                    coeffs,
                    off,
                    n as nat,
                    idx0 as nat,
                    rounds@,
                    r2,
                ),
            decreases num_rounds - r,
        {
            proof {
                lemma_halvings_monotone(n as nat, (r + 1) as nat, num_rounds as nat);
            }
            let ok = check_round(
                proof,
                betas,
                &final_poly,
                domain_offset,
                generator,
                n,
                idx0,
                rounds,
                r,
                layer_sizes[r],
                layer_sizes[r + 1],
            );
            if !ok {
                proof {
                    assert(!round_ok::<F>(
                        roots,
                        vals(betas@),
                        coeffs,
                        off,
                        n as nat,
                        indices@[q as int] as nat,
                        openings@[q as int]@,
                        r as int,
                    ));
                }
                return false;
            }
            r = r + 1;
        }
        q = q + 1;
    }
    true
}

/// Fiat-Shamir consistency: a verifier whose transcript is in the state the
/// prover's was in before the commit phase, replaying the prover's
/// commitment, draws exactly the prover's folding challenges and ends in
/// the prover's final state.
pub proof fn lemma_replay_matches_commit<F: Field>(
    s0: u64,
    roots: Seq<u64>,
    coeffs: Seq<F>,
    prover_betas: Seq<int>,
    prover_final: u64,
    replayed: Seq<F>,
    verifier_final: u64,
)
    requires
        roots.len() >= 1,
        prover_betas.len() == roots.len(),
        forall|t: int| 0 <= t < prover_betas.len() ==> #[trigger] prover_betas[t] == round_beta::<F>(s0, roots, t),
        prover_final == absorb_seq(commit_transcript_state(s0, roots, roots.len()), field_words(coeffs)),
        replayed.len() == roots.len(),
        forall|t: int| 0 <= t < replayed.len() ==> #[trigger] vals(replayed)[t] == round_beta::<F>(s0, roots, t),
        verifier_final == absorb_seq(rounds_state(s0, roots), field_words(coeffs)),
    ensures
        vals(replayed) == prover_betas,
        verifier_final == prover_final,
{
    assert(vals(replayed) =~= prover_betas);
}

/// One round of one honest query passes its Merkle and folding checks.
proof fn lemma_honest_round<F: Field>(
    layers: Seq<Seq<int>>,
    trees: Seq<Seq<Seq<u64>>>,
    betas: Seq<int>,
    proof: FriCommitPhaseProof<F>,
    offset: int,
    n: nat,
    idx: nat,
    rounds: Seq<FriRoundOpening<F>>,
    r: int,
)
    requires
        is_pow2_len(n),
        prover_layers_ok(layers, trees, n),
        layers_fold::<F>(layers, betas, offset, n),
        trees.len() == betas.len(),
        layers.len() == trees.len() + 1,
        proof.layer_roots@.len() == trees.len(),
        forall|t: int| 0 <= t < trees.len() ==> #[trigger] proof.layer_roots@[t] == trees[t].last()[0],
        rounds.len() == trees.len(),
        forall|j: int| 0 <= j < trees.len() ==> #[trigger] honest_opening::<F>(layers, trees, n, idx, j, rounds[j]),
        0 <= r < trees.len(),
    ensures
        round_ok::<F>(proof.layer_roots@, betas, vals(proof.final_poly_coeffs@), offset, n, idx, rounds, r)
            <==> (r + 1 < trees.len() || final_agrees::<F>(
            vals(proof.final_poly_coeffs@),
            layers[trees.len() as int],
            offset,
            n,
            trees.len() as nat,
            idx,
        )),
{
    let p = F::p();
    let roots = proof.layer_roots@;
    let size = halvings(n, r as nat);
    let half = size / 2;
    let i = idx % half;
    let o = rounds[r];
    let t = trees[r];
    assert(honest_opening::<F>(layers, trees, n, idx, r, o));
    assert(size >= 2);
    assert(layers[r].len() == size);
    assert(tree_commits(t, layers[r]));
    assert(t[0].len() == size) by {
        reveal(tree_commits);
    }
    assert(half == halvings(n, (r + 1) as nat));
    vstd::arithmetic::div_mod::lemma_mod_bound(idx as int, half as int);
    assert(i + half < size);
    assert(roots[r] == t.last()[0]);
    lemma_honest_path(t, layers[r], roots[r], i, o.path_a, o.value_a.val());
    lemma_honest_path(t, layers[r], roots[r], (i + half) as nat, o.path_b, o.value_b.val());
    let g = fri_generator::<F>(n);
    let x = domain_point_spec::<F>(offset, g, i, r as nat);
    assert(layers[r + 1][i as int] == fold_spec::<F>(
        layers[r][i as int],
        layers[r][i as int + halvings(n, (r + 1) as nat)],
        x,
        betas[r],
    ));
    let next_size = halvings(n, (r + 1) as nat);
    let ni = idx % next_size;
    assert(ni == i);
    if r + 1 < trees.len() {
        let next_half = halvings(n, (r + 2) as nat);
        assert(halvings(n, (r + 1) as nat) >= 2);
        assert(honest_opening::<F>(layers, trees, n, idx, r + 1, rounds[r + 1]));
        assert(next_half == next_size / 2);
        let k = choose|k: nat| pow2(k) == n;
        lemma_rounds_bound(n, k, (r + 1) as nat);
        lemma_halvings_pow2(k, (r + 1) as nat);
        crate::merkle::lemma_pow2_halving(next_size);
        lemma_mod_of_double(idx, next_half);
    }
}

/// A path that the tree's `open` gives verifies the leaf's value.
proof fn lemma_honest_path(
    t: Seq<Seq<u64>>,
    values: Seq<int>,
    root: u64,
    i: nat,
    path: MerklePath,
    value: int,
)
    requires
        tree_commits(t, values),
        i < values.len(),
        is_tree_path(t, i, path),
        value == values[i as int],
        root == t.last()[0],
    ensures
        opening_ok(root, path, i, value),
{
    reveal(tree_commits);
    lemma_open_verifies(t, i, path.siblings@);
}

/// Completeness of the query phase: on the openings of the honest prover
/// (the committed layers, folded with the challenges the verifier replays),
/// every Merkle check and every folding check passes, so the verifier
/// accepts exactly when, at every query, the final polynomial agrees with
/// the last folded layer.
pub proof fn lemma_honest_queries_accepted<F: Field>(
    layers: Seq<Seq<int>>,
    trees: Seq<Seq<Seq<u64>>>,
    betas: Seq<int>,
    proof: FriCommitPhaseProof<F>,
    offset: int,
    n: nat,
    final_size: nat,
    num_coeffs: nat,
    indices: Seq<usize>,
    openings: Seq<Vec<FriRoundOpening<F>>>,
)
    requires
        is_pow2_len(n),
        prover_layers_ok(layers, trees, n),
        layers_fold::<F>(layers, betas, offset, n),
        trees.len() == betas.len(),
        layers.len() == trees.len() + 1,
        proof.layer_roots@.len() == trees.len(),
        forall|t: int| 0 <= t < trees.len() ==> #[trigger] proof.layer_roots@[t] == trees[t].last()[0],
        halvings(n, trees.len() as nat) == final_size,
        proof.final_poly_coeffs@.len() == num_coeffs,
        openings.len() == indices.len(),
        forall|q: int| 0 <= q < openings.len() ==> (#[trigger] openings[q])@.len() == trees.len(),
        forall|q: int, j: int|
            0 <= q < openings.len() && 0 <= j < trees.len() ==> #[trigger] honest_opening::<F>(
                layers,
                trees,
                n,
                indices[q] as nat,
                j,
                openings[q]@[j],
            ),
    ensures
        fri_accepts::<F>(proof, betas, offset, n, final_size, num_coeffs, indices, openings) <==> (forall|q: int|
            0 <= q < openings.len() ==> #[trigger] final_agrees::<F>(
                vals(proof.final_poly_coeffs@),
                layers[trees.len() as int],
                offset,
                n,
                trees.len() as nat,
                indices[q] as nat,
            )),
{
    let roots = proof.layer_roots@;
    let coeffs = vals(proof.final_poly_coeffs@);
    let nr = trees.len();
    assert forall|q: int, r: int| 0 <= q < openings.len() && 0 <= r < nr implies (#[trigger] round_ok::<F>(
        roots,
        betas,
        coeffs,
        offset,
        n,
        indices[q] as nat,
        openings[q]@,
        r,
    ) <==> (r + 1 < nr || final_agrees::<F>(coeffs, layers[nr as int], offset, n, nr as nat, indices[q] as nat))) by {
        assert forall|j: int| 0 <= j < nr implies #[trigger] honest_opening::<F>(
            layers,
            trees,
            n,
            indices[q] as nat,
            j,
            openings[q]@[j],
        ) by {}
        lemma_honest_round::<F>(layers, trees, betas, proof, offset, n, indices[q] as nat, openings[q]@, r);
    }
    if nr > 0 {
        assert forall|q: int| 0 <= q < openings.len() implies (#[trigger] final_agrees::<F>(
            coeffs,
            layers[nr as int],
            offset,
            n,
            nr as nat,
            indices[q] as nat,
        ) <==> round_ok::<F>(roots, betas, coeffs, offset, n, indices[q] as nat, openings[q]@, nr - 1)) by {}
    }
}



/// Two openings that carry the same values and paths.
pub open spec fn same_round<F: Field>(a: FriRoundOpening<F>, b: FriRoundOpening<F>) -> bool {
    &&& a.value_a == b.value_a
    &&& a.value_b == b.value_b
    &&& a.path_a.leaf_index == b.path_a.leaf_index
    &&& a.path_a.siblings@ == b.path_a.siblings@
    &&& a.path_b.leaf_index == b.path_b.leaf_index
    &&& a.path_b.siblings@ == b.path_b.siblings@
}

/// Two lists of openings that agree entry by entry.
pub open spec fn same_rounds<F: Field>(a: Seq<FriRoundOpening<F>>, b: Seq<FriRoundOpening<F>>) -> bool {
    &&& a.len() == b.len()
    &&& forall|r: int| 0 <= r < a.len() ==> #[trigger] same_round(a[r], b[r])
}

fn copy_path(p: &MerklePath) -> (r: MerklePath)
    ensures
        r.leaf_index == p.leaf_index,
        r.siblings@ == p.siblings@,
{
    let mut siblings: Vec<u64> = Vec::with_capacity(p.siblings.len());
    let mut i: usize = 0;
    while i < p.siblings.len()
        invariant
            i <= p.siblings@.len(),
            siblings@ == p.siblings@.subrange(0, i as int),
        decreases p.siblings@.len() - i,
    {
        siblings.push(p.siblings[i]);
        proof {
            assert(siblings@ =~= p.siblings@.subrange(0, i + 1));
        }
        i = i + 1;
    }
    proof {
        assert(siblings@ =~= p.siblings@);
    }
    MerklePath { leaf_index: p.leaf_index, siblings }
}

/// A copy of the openings of one query.
pub(crate) fn copy_rounds<F: Field>(v: &Vec<FriRoundOpening<F>>) -> (r: Vec<FriRoundOpening<F>>)
    ensures
        same_rounds(r@, v@),
{
    let mut out: Vec<FriRoundOpening<F>> = Vec::with_capacity(v.len());
    let mut i: usize = 0;
    while i < v.len()
        invariant
            i <= v@.len(),
            out@.len() == i,
            forall|j: int| 0 <= j < i ==> #[trigger] same_round(out@[j], v@[j]),
        decreases v@.len() - i,
    {
        let o = &v[i];
        out.push(FriRoundOpening {
            value_a: o.value_a,
            path_a: copy_path(&o.path_a),
            value_b: o.value_b,
            path_b: copy_path(&o.path_b),
        });
        i = i + 1;
    }
    out
}

/// A round's checks read the openings only through their values and paths.
proof fn lemma_round_ok_same<F: Field>(
    roots: Seq<u64>,
    betas: Seq<int>,
    coeffs: Seq<int>,
    offset: int,
    n: nat,
    idx: nat,
    a: Seq<FriRoundOpening<F>>,
    b: Seq<FriRoundOpening<F>>,
    r: int,
)
    requires
        same_rounds(a, b),
        a.len() == roots.len(),
        0 <= r < roots.len(),
    ensures
        round_ok::<F>(roots, betas, coeffs, offset, n, idx, a, r) == round_ok::<F>(roots, betas, coeffs, offset, n, idx, b, r),
{
    assert(same_round(a[r], b[r]));
    if r + 1 < roots.len() {
        assert(same_round(a[r + 1], b[r + 1]));
    }
}

/// The verdict depends on the openings only through their values and paths.
pub proof fn lemma_fri_accepts_same<F: Field>(
    proof: FriCommitPhaseProof<F>,
    betas: Seq<int>,
    offset: int,
    n: nat,
    final_size: nat,
    num_coeffs: nat,
    indices: Seq<usize>,
    a: Seq<Vec<FriRoundOpening<F>>>,
    b: Seq<Vec<FriRoundOpening<F>>>,
)
    requires
        a.len() == b.len(),
        forall|q: int| 0 <= q < a.len() ==> #[trigger] same_rounds(a[q]@, b[q]@),
    ensures
        fri_accepts::<F>(proof, betas, offset, n, final_size, num_coeffs, indices, a) == fri_accepts::<F>(
            proof,
            betas,
            offset,
            n,
            final_size,
            num_coeffs,
            indices,
            b,
        ),
{
    let roots = proof.layer_roots@;
    let coeffs = vals(proof.final_poly_coeffs@);
    assert forall|q: int| 0 <= q < a.len() implies (#[trigger] a[q])@.len() == b[q]@.len() by {
        assert(same_rounds(a[q]@, b[q]@));
    }
    if fri_accepts::<F>(proof, betas, offset, n, final_size, num_coeffs, indices, a) {
        assert forall|q: int, r: int| 0 <= q < b.len() && 0 <= r < roots.len() implies #[trigger] round_ok::<F>(
            roots,
            betas,
            coeffs,
            offset,
            n,
            indices[q] as nat,
            b[q]@,
            r,
        ) by {
            assert(round_ok::<F>(roots, betas, coeffs, offset, n, indices[q] as nat, a[q]@, r));
            assert(a[q]@.len() == roots.len());
            lemma_round_ok_same::<F>(roots, betas, coeffs, offset, n, indices[q] as nat, a[q]@, b[q]@, r);
        }
        assert forall|q: int| 0 <= q < b.len() implies (#[trigger] b[q])@.len() == roots.len() by {
            assert(a[q]@.len() == roots.len());
            assert(a[q]@.len() == b[q]@.len());
        }
    }
    if fri_accepts::<F>(proof, betas, offset, n, final_size, num_coeffs, indices, b) {
        assert forall|q: int, r: int| 0 <= q < a.len() && 0 <= r < roots.len() implies #[trigger] round_ok::<F>(
            roots,
            betas,
            coeffs,
            offset,
            n,
            indices[q] as nat,
            a[q]@,
            r,
        ) by {
            assert(round_ok::<F>(roots, betas, coeffs, offset, n, indices[q] as nat, b[q]@, r));
            assert(b[q]@.len() == roots.len());
            assert(a[q]@.len() == b[q]@.len());
            lemma_round_ok_same::<F>(roots, betas, coeffs, offset, n, indices[q] as nat, a[q]@, b[q]@, r);
        }
        assert forall|q: int| 0 <= q < a.len() implies (#[trigger] a[q])@.len() == roots.len() by {
            assert(b[q]@.len() == roots.len());
            assert(a[q]@.len() == b[q]@.len());
        }
    }
}

/// Completeness of FRI: when the first layer holds the values on its
/// domain of a polynomial with at most `k * 2^r` coefficients (`r` the
/// number of folds), the honest prover's commitments, final polynomial
/// (interpolated through the first `k` points of the last layer, with `k`
/// coefficients) and openings are accepted at every query.
pub proof fn lemma_honest_fri_accepted<F: Field>(
    layers: Seq<Seq<int>>,
    trees: Seq<Seq<Seq<u64>>>,
    betas: Seq<int>,
    proof: FriCommitPhaseProof<F>,
    offset: int,
    n: nat,
    final_size: nat,
    k: nat,
    indices: Seq<usize>,
    openings: Seq<Vec<FriRoundOpening<F>>>,
    c: Seq<int>,
)
    requires
        0 < offset < F::p(),
        is_pow2_len(n),
        n <= pow2(F::two_adicity_spec()),
        prover_layers_ok(layers, trees, n),
        layers_fold::<F>(layers, betas, offset, n),
        trees.len() == betas.len(),
        layers.len() == trees.len() + 1,
        proof.layer_roots@.len() == trees.len(),
        forall|t: int| 0 <= t < trees.len() ==> #[trigger] proof.layer_roots@[t] == trees[t].last()[0],
        halvings(n, trees.len() as nat) == final_size,
        proof.final_poly_coeffs@.len() == k,
        1 <= k <= final_size,
        openings.len() == indices.len(),
        forall|q: int| 0 <= q < openings.len() ==> (#[trigger] openings[q])@.len() == trees.len(),
        forall|q: int, j: int|
            0 <= q < openings.len() && 0 <= j < trees.len() ==> #[trigger] honest_opening::<F>(
                layers,
                trees,
                n,
                indices[q] as nat,
                j,
                openings[q]@[j],
            ),
        crate::fri_laws::layer_is_poly::<F>(layers[0], c, offset, n, 0),
        c.len() <= k * pow2(trees.len() as nat),
        forall|i: int, j: int|
            0 <= i < j < k ==> #[trigger] domain_point_spec::<F>(offset, fri_generator::<F>(n), i as nat, betas.len())
                != #[trigger] domain_point_spec::<F>(offset, fri_generator::<F>(n), j as nat, betas.len()),
        forall|i: int|
            0 <= i < k ==> #[trigger] poly_eval(
                vals(proof.final_poly_coeffs@),
                domain_point_spec::<F>(offset, fri_generator::<F>(n), i as nat, betas.len()),
                F::p(),
            ) == layers[betas.len() as int][i],
    ensures
        fri_accepts::<F>(proof, betas, offset, n, final_size, k, indices, openings),
{
    F::lemma_prime_field();
    let kk = choose|kk: nat| pow2(kk) == n;
    lemma_log2_of(kk);
    lemma_rounds_bound(n, kk, trees.len() as nat);
    lemma_honest_queries_accepted::<F>(layers, trees, betas, proof, offset, n, final_size, k, indices, openings);
    assert forall|q: int| 0 <= q < openings.len() implies #[trigger] final_agrees::<F>(
        vals(proof.final_poly_coeffs@),
        layers[trees.len() as int],
        offset,
        n,
        trees.len() as nat,
        indices[q] as nat,
    ) by {
        crate::fri_laws::lemma_fri_complete::<F>(layers, betas, offset, n, c, vals(proof.final_poly_coeffs@), k, indices[q] as nat);
    }
}

} // verus!
