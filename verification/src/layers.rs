//! The FRI protocol: the prover commits to a chain of folded layers, and
//! the verifier checks query openings against the committed roots.

use vstd::prelude::*;
use vstd::arithmetic::power2::pow2;
use crate::field::{Field, vals, inverses_correct, pow_mod};
use crate::fft::{is_pow2_len, log2_of, no_zero_divisors, log2_exact, lemma_log2_of, lemma_root_nonzero, lemma_pow_nonzero, stage_root};
use crate::fold::{fold_spec, domain_point_spec, fold_value, fold_layer, domain_point};
use crate::lde::{subgroup_generator, coset_domain, coset_point};
use crate::merkle::{MerklePath, MerkleTree, MerkleTreeView, hash_leaf, path_root, layers_wf, sibling_index, ancestor, lemma_open_verifies};
use crate::poly::{Polynomial, poly_eval, trim, is_normalized, copy_vec};
use crate::poseidon::{Poseidon, PoseidonView, hash_many_spec};
use crate::transcript::{ChallengeSource, TranscriptEvent};

verus! {

/// The two openings of one FRI round for one query: the values at `i`
/// and `i + n/2` of the round's layer, with their Merkle paths.
#[derive(Debug, Clone)]
pub struct FriRoundOpening<F: Field> {
    pub value_a: F,
    pub path_a: MerklePath<F>,
    pub value_b: F,
    pub path_b: MerklePath<F>,
}

/// What the prover sends in the commit phase: one Merkle root per
/// committed layer, and the coefficients of the final polynomial.
#[derive(Debug, Clone)]
pub struct FriCommitPhaseProof<F: Field> {
    pub layer_roots: Vec<F>,
    pub final_poly_coeffs: Vec<F>,
}

/// `n` halved `r` times.
pub open spec fn halvings(n: nat, r: nat) -> nat
    decreases r,
{
    if r == 0 {
        n
    } else {
        halvings(n, (r - 1) as nat) / 2
    }
}

/// The number of folds from a domain of `n` points down to `final_size`.
pub open spec fn fold_rounds(n: nat, final_size: nat) -> nat {
    (log2_of(n) - log2_of(final_size)) as nat
}

/// The generator of the `n`-point subgroup.
pub open spec fn fri_generator<F: Field>(n: nat) -> int {
    subgroup_generator::<F>(log2_of(n))
}

/// The hash of a leaf holding `value`.
pub open spec fn leaf_hash_spec(h: PoseidonView, value: int, p: int) -> int {
    hash_many_spec(h, seq![value], p)
}

/// The events of the commit phase: each root is absorbed and, where a
/// challenge follows it, that challenge is squeezed.
pub open spec fn round_events(roots: Seq<int>, betas: Seq<int>) -> Seq<TranscriptEvent>
    decreases roots.len(),
{
    if roots.len() == 0 {
        Seq::empty()
    } else if betas.len() == 0 {
        seq![TranscriptEvent::Absorbed(roots[0])] + round_events(roots.drop_first(), betas)
    } else {
        seq![TranscriptEvent::Absorbed(roots[0]), TranscriptEvent::Squeezed(betas[0])] + round_events(
            roots.drop_first(),
            betas.drop_first(),
        )
    }
}

/// Absorbing each value in turn.
pub open spec fn absorb_events(values: Seq<int>) -> Seq<TranscriptEvent> {
    values.map_values(|v: int| TranscriptEvent::Absorbed(v))
}

/// A Merkle opening of `value` at `index` against `root`.
pub open spec fn opening_ok<F: Field>(h: PoseidonView, root: int, path: MerklePath<F>, index: nat, value: int) -> bool {
    &&& path.leaf_index == index
    &&& path_root(h, leaf_hash_spec(h, value, F::p()), index, vals(path.siblings@), F::p()) == root
}

/// The checks of round `r` of one query: both openings verify, and the
/// folded value matches the next round's opening or, after the last
/// round, the final polynomial.
pub open spec fn round_ok<F: Field>(
    h: PoseidonView,
    roots: Seq<int>,
    betas: Seq<int>,
    final_coeffs: Seq<int>,
    offset: int,
    n: nat,
    idx: nat,
    rounds: Seq<FriRoundOpening<F>>,
    r: int,
) -> bool {
    let p = F::p();
    let half = halvings(n, r as nat) / 2;
    let i = idx % half;
    let o = rounds[r];
    let g = fri_generator::<F>(n);
    let x = domain_point_spec::<F>(offset, g, i, r as nat);
    let folded = fold_spec::<F>(o.value_a.val(), o.value_b.val(), x, betas[r]);
    let next_size = halvings(n, (r + 1) as nat);
    let ni = idx % next_size;
    &&& opening_ok(h, roots[r], o.path_a, i, o.value_a.val())
    &&& opening_ok(h, roots[r], o.path_b, i + half, o.value_b.val())
    &&& if r + 1 < roots.len() {
        folded == (if ni < next_size / 2 {
            rounds[r + 1].value_a.val()
        } else {
            rounds[r + 1].value_b.val()
        })
    } else {
        poly_eval(trim(final_coeffs), domain_point_spec::<F>(offset, g, ni, (r + 1) as nat), p) == folded
    }
}

/// The shape of a query phase that the verifier looks into: one challenge
/// per committed root, one opening per query index, the expected number of
/// final coefficients, and the committed rounds halving the domain down to
/// the final layer.
pub open spec fn fri_shape_ok<F: Field>(
    proof: FriCommitPhaseProof<F>,
    num_betas: nat,
    n: nat,
    final_size: nat,
    num_coeffs: nat,
    num_indices: nat,
    num_openings: nat,
) -> bool {
    let num_rounds = proof.layer_roots@.len();
    &&& num_betas == num_rounds
    &&& num_indices == num_openings
    &&& proof.final_poly_coeffs@.len() == num_coeffs
    &&& halvings(n, num_rounds) == final_size
}

/// The domain a well-shaped query phase is checked on: a power-of-two
/// subgroup the field holds, shifted by a nonzero offset, folded down to a
/// nonempty final layer.
pub open spec fn fri_domain_ok<F: Field>(offset: int, n: nat, final_size: nat) -> bool {
    &&& is_pow2_len(n)
    &&& n <= pow2(F::two_adicity_spec())
    &&& final_size >= 1
    &&& offset != 0
}

/// The verifier's verdict on a set of query openings.
pub open spec fn fri_accepts<F: Field>(
    h: PoseidonView,
    proof: FriCommitPhaseProof<F>,
    betas: Seq<int>,
    offset: int,
    n: nat,
    final_size: nat,
    num_coeffs: nat,
    indices: Seq<usize>,
    openings: Seq<Vec<FriRoundOpening<F>>>,
) -> bool {
    let roots = vals(proof.layer_roots@);
    let num_rounds = roots.len();
    &&& betas.len() == num_rounds
    &&& indices.len() == openings.len()
    &&& proof.final_poly_coeffs@.len() == num_coeffs
    &&& halvings(n, num_rounds) == final_size
    &&& forall|q: int| 0 <= q < openings.len() ==> (#[trigger] openings[q])@.len() == num_rounds
    &&& forall|q: int, r: int|
        0 <= q < openings.len() && 0 <= r < num_rounds ==> #[trigger] round_ok::<F>(
            h,
            roots,
            betas,
            vals(proof.final_poly_coeffs@),
            offset,
            n,
            indices[q] as nat,
            openings[q]@,
            r,
        )
}

/// Every value an accepted query phase opens is authenticated: for each
/// query and each round, the value at `i` and the value at `i + half` (with
/// `i` the query index reduced into the round's first half) hash, along
/// their Merkle paths, to the root committed for that round.
pub proof fn lemma_accepted_openings_authenticated<F: Field>(
    h: PoseidonView,
    proof: FriCommitPhaseProof<F>,
    betas: Seq<int>,
    offset: int,
    n: nat,
    final_size: nat,
    num_coeffs: nat,
    indices: Seq<usize>,
    openings: Seq<Vec<FriRoundOpening<F>>>,
)
    requires
        fri_accepts::<F>(h, proof, betas, offset, n, final_size, num_coeffs, indices, openings),
    ensures
        forall|q: int, r: int|
            0 <= q < openings.len() && 0 <= r < proof.layer_roots@.len() ==> {
                let half = halvings(n, r as nat) / 2;
                let i = indices[q] as nat % half;
                let o = #[trigger] openings[q]@[r];
                let root = proof.layer_roots@[r].val();
                &&& o.path_a.leaf_index == i
                &&& path_root(h, hash_many_spec(h, seq![o.value_a.val()], F::p()), i, vals(o.path_a.siblings@), F::p())
                    == root
                &&& o.path_b.leaf_index == i + half
                &&& path_root(h, hash_many_spec(h, seq![o.value_b.val()], F::p()), i + half, vals(o.path_b.siblings@), F::p())
                    == root
            },
{
    let roots = vals(proof.layer_roots@);
    assert forall|q: int, r: int| 0 <= q < openings.len() && 0 <= r < proof.layer_roots@.len() implies {
        let half = halvings(n, r as nat) / 2;
        let i = indices[q] as nat % half;
        let o = #[trigger] openings[q]@[r];
        let root = proof.layer_roots@[r].val();
        &&& o.path_a.leaf_index == i
        &&& path_root(h, hash_many_spec(h, seq![o.value_a.val()], F::p()), i, vals(o.path_a.siblings@), F::p())
            == root
        &&& o.path_b.leaf_index == i + half
        &&& path_root(h, hash_many_spec(h, seq![o.value_b.val()], F::p()), i + half, vals(o.path_b.siblings@), F::p())
            == root
    } by {
        assert(round_ok::<F>(h, roots, betas, vals(proof.final_poly_coeffs@), offset, n, indices[q] as nat, openings[q]@, r));
        assert(roots[r] == proof.layer_roots@[r].val());
    }
}

/// `t` is a Merkle tree, under hasher `h`, whose leaves are the hashes of `values`.
#[verifier::opaque]
pub open spec fn tree_commits<F: Field>(t: MerkleTreeView, values: Seq<int>, h: PoseidonView) -> bool {
    &&& t.hasher == h
    &&& layers_wf(t.layers, h, F::p())
    &&& t.layers[0].len() == values.len()
    &&& forall|i: int| 0 <= i < values.len() ==> #[trigger] t.layers[0][i] == leaf_hash_spec(h, values[i], F::p())
}

/// The layers of the prover halve from `n` points, and each committed
/// layer, at least two points wide, has its Merkle tree.
pub open spec fn prover_layers_ok<F: Field>(
    layers: Seq<Seq<int>>,
    trees: Seq<MerkleTreeView>,
    h: PoseidonView,
    n: nat,
) -> bool {
    &&& layers.len() >= 1
    &&& 1 <= trees.len() <= layers.len()
    &&& forall|j: int| 0 <= j < layers.len() ==> #[trigger] layers[j].len() == halvings(n, j as nat)
    &&& forall|j: int| 0 <= j < trees.len() ==> #[trigger] halvings(n, j as nat) >= 2
    &&& forall|j: int| 0 <= j < trees.len() ==> #[trigger] tree_commits::<F>(trees[j], layers[j], h)
}

/// Each layer after the first folds the one before it, with that round's
/// challenge, over the round's domain.
pub open spec fn layers_fold<F: Field>(layers: Seq<Seq<int>>, betas: Seq<int>, offset: int, n: nat) -> bool {
    forall|j: int, i: int|
        0 <= j < layers.len() - 1 && 0 <= i < halvings(n, (j + 1) as nat) ==> #[trigger] layers[j + 1][i]
            == fold_spec::<F>(
            layers[j][i],
            layers[j][i + halvings(n, (j + 1) as nat)],
            domain_point_spec::<F>(offset, fri_generator::<F>(n), i as nat, j as nat),
            betas[j],
        )
}

/// The first `k` points of the final folded domain are pairwise distinct,
/// so the final polynomial can be interpolated through them.
pub open spec fn final_points_distinct<F: Field>(offset: int, n: nat, final_size: nat, k: nat) -> bool {
    let g = fri_generator::<F>(n);
    let rounds = fold_rounds(n, final_size);
    forall|i: int, j: int|
        0 <= i < j < k ==> #[trigger] domain_point_spec::<F>(offset, g, i as nat, rounds)
            != #[trigger] domain_point_spec::<F>(offset, g, j as nat, rounds)
}

/// The `i`-th point of the `2^kf`-point layer reached from the coset
/// `offset * H` of the `2^kn`-point subgroup: `offset^M` times the `i`-th
/// power of the `2^kf`-th root, with `M = 2^(kn - kf)`.
proof fn lemma_final_point_power<F: Field>(offset: int, kn: nat, kf: nat, i: nat)
    requires
        kf <= kn,
        kn <= F::two_adicity_spec(),
        F::p() > 1,
    ensures
        domain_point_spec::<F>(offset, stage_root::<F>(kn), i, (kn - kf) as nat) == (pow_mod(
            offset,
            pow2((kn - kf) as nat),
            F::p(),
        ) * pow_mod(stage_root::<F>(kf), i, F::p())) % F::p(),
{
    let p = F::p();
    let t = F::two_adicity_spec();
    let m = pow2((kn - kf) as nat);
    let g = stage_root::<F>(kn);
    let root = F::prim_root_val();
    let gi = vstd::arithmetic::power::pow(g, i);
    // (offset * (g^i mod p)) mod p, raised to M, is offset^M * g^(iM) mod p
    vstd::arithmetic::power::lemma_pow_mod_noop(offset * (gi % p), m, p);
    vstd::arithmetic::div_mod::lemma_mul_mod_noop_right(offset, gi, p);
    vstd::arithmetic::power::lemma_pow_mod_noop(offset * gi, m, p);
    assert(vstd::arithmetic::power::pow(offset * (gi % p), m) % p == vstd::arithmetic::power::pow(offset * gi, m) % p);
    vstd::arithmetic::power::lemma_pow_distributes(offset, gi, m);
    vstd::arithmetic::power::lemma_pow_multiplies(g, i, m);
    vstd::arithmetic::power::lemma_pow_multiplies(g, m, i);
    assert(i * m == m * i) by (nonlinear_arith);
    // g^M mod p is the root of the smaller subgroup
    vstd::arithmetic::power::lemma_pow_mod_noop(vstd::arithmetic::power::pow(root, pow2((t - kn) as nat)), m, p);
    vstd::arithmetic::power::lemma_pow_multiplies(root, pow2((t - kn) as nat), m);
    vstd::arithmetic::power2::lemma_pow2_adds((t - kn) as nat, (kn - kf) as nat);
    assert(((t - kn) + (kn - kf)) as nat == (t - kf) as nat);
    assert(vstd::arithmetic::power::pow(g, m) % p == stage_root::<F>(kf));
    vstd::arithmetic::power::lemma_pow_mod_noop(vstd::arithmetic::power::pow(g, m), i, p);
    assert(vstd::arithmetic::power::pow(g, i * m) % p == pow_mod(stage_root::<F>(kf), i, p));
    vstd::arithmetic::div_mod::lemma_mul_mod_noop(
        vstd::arithmetic::power::pow(offset, m),
        vstd::arithmetic::power::pow(gi, m),
        p,
    );
    let lhs = domain_point_spec::<F>(offset, g, i, (kn - kf) as nat);
    reveal(domain_point_spec);
    assert(pow_mod(g, i, p) == gi % p);
    assert(lhs == pow_mod(crate::field::fm(offset, pow_mod(g, i, p), p), m, p));
    assert(crate::field::fm(offset, pow_mod(g, i, p), p) == (offset * (gi % p)) % p);
    assert(lhs == vstd::arithmetic::power::pow((offset * (gi % p)) % p, m) % p);
    assert((offset * (gi % p)) % p == (offset * gi) % p);
    assert(lhs == vstd::arithmetic::power::pow((offset * gi) % p, m) % p);
    assert(lhs == vstd::arithmetic::power::pow(offset * gi, m) % p);
    assert(lhs == (vstd::arithmetic::power::pow(offset, m) * vstd::arithmetic::power::pow(gi, m)) % p);
    assert(vstd::arithmetic::power::pow(gi, m) == vstd::arithmetic::power::pow(g, i * m));
    assert(lhs == ((vstd::arithmetic::power::pow(offset, m) % p) * (vstd::arithmetic::power::pow(g, i * m) % p)) % p);
}

/// Two distinct values below `p`, each multiplied by a nonzero value,
/// stay distinct modulo `p` in a field without zero divisors.
proof fn lemma_cancel_nonzero<F: Field>(a: int, x: int, y: int)
    requires
        0 < a < F::p(),
        0 <= x < F::p(),
        0 <= y < F::p(),
        x != y,
    ensures
        (a * x) % F::p() != (a * y) % F::p(),
{
    F::lemma_prime_field();
    let p = F::p();
    let d = (x - y) % p;
    vstd::arithmetic::div_mod::lemma_mod_bound(x - y, p);
    if d == 0 {
        if x > y {
            vstd::arithmetic::div_mod::lemma_small_mod((x - y) as nat, p as nat);
        } else {
            vstd::arithmetic::div_mod::lemma_fundamental_div_mod_converse(x - y, p, -1, p + x - y);
        }
    }
    assert(0 < d < p);
    assert((a * d) % p != 0);
    vstd::arithmetic::div_mod::lemma_mul_mod_noop_right(a, x - y, p);
    assert(a * (x - y) == a * x - a * y) by (nonlinear_arith);
    vstd::arithmetic::div_mod::lemma_sub_mod_noop(a * x, a * y, p);
    if (a * x) % p == (a * y) % p {
        vstd::arithmetic::div_mod::lemma_small_mod(0, p as nat);
        assert(((a * x) % p - (a * y) % p) % p == 0);
    }
}

/// The points the final polynomial is interpolated through are distinct:
/// the folded coset of a nonzero offset has as many points as the final
/// layer.
pub proof fn lemma_final_points_distinct<F: Field>(offset: int, n: nat, final_size: nat, k: nat)
    requires
        0 < offset < F::p(),
        is_pow2_len(n),
        n <= pow2(F::two_adicity_spec()),
        is_pow2_len(final_size),
        final_size <= n,
        k <= final_size,
    ensures
        final_points_distinct::<F>(offset, n, final_size, k),
{
    F::lemma_prime_field();
    F::lemma_modulus();
    let p = F::p();
    let t = F::two_adicity_spec();
    let kn = choose|e: nat| pow2(e) == n;
    let kf = choose|e: nat| pow2(e) == final_size;
    lemma_log2_of(kn);
    lemma_log2_of(kf);
    if kf > kn {
        vstd::arithmetic::power2::lemma_pow2_strictly_increases(kn, kf);
    }
    if kn > t {
        vstd::arithmetic::power2::lemma_pow2_strictly_increases(t, kn);
    }
    assert(fri_generator::<F>(n) == stage_root::<F>(kn));
    let m = pow2((kn - kf) as nat);
    lemma_pow_nonzero::<F>(offset, m);
    let a = pow_mod(offset, m, p);
    assert forall|i: int, j: int| 0 <= i < j < k implies #[trigger] domain_point_spec::<F>(
        offset,
        fri_generator::<F>(n),
        i as nat,
        fold_rounds(n, final_size),
    ) != #[trigger] domain_point_spec::<F>(offset, fri_generator::<F>(n), j as nat, fold_rounds(n, final_size)) by {
        lemma_final_point_power::<F>(offset, kn, kf, i as nat);
        lemma_final_point_power::<F>(offset, kn, kf, j as nat);
        crate::toystark::composition::lemma_root_powers_distinct::<F>(kf, i as nat, j as nat);
        crate::fft::lemma_root_nonzero::<F>(kf);
        lemma_pow_nonzero::<F>(stage_root::<F>(kf), i as nat);
        lemma_pow_nonzero::<F>(stage_root::<F>(kf), j as nat);
        lemma_cancel_nonzero::<F>(
            a,
            pow_mod(stage_root::<F>(kf), i as nat, p),
            pow_mod(stage_root::<F>(kf), j as nat, p),
        );
    }
}

/// `path` is what the tree's `open` gives for leaf `i`.
pub open spec fn is_tree_path<F: Field>(t: MerkleTreeView, i: nat, path: MerklePath<F>) -> bool {
    &&& path.leaf_index == i
    &&& path.siblings@.len() == t.layers.len() - 1
    &&& forall|k: int| 0 <= k < path.siblings@.len() ==> #[trigger] vals(path.siblings@)[k] == t.layers[k][sibling_index(
        ancestor(i, k as nat),
    ) as int]
}

/// The values of each layer.
pub open spec fn layer_vals<F: Field>(layers: Seq<Vec<F>>) -> Seq<Seq<int>> {
    layers.map_values(|l: Vec<F>| vals(l@))
}

/// The view of each tree.
pub open spec fn tree_vals<F: Field>(trees: Seq<MerkleTree<F>>) -> Seq<MerkleTreeView> {
    trees.map_values(|t: MerkleTree<F>| t@)
}

/// `o` is what the honest prover opens in round `j` for query index `idx`.
pub open spec fn honest_opening<F: Field>(
    layers: Seq<Seq<int>>,
    trees: Seq<MerkleTreeView>,
    n: nat,
    idx: nat,
    j: int,
    o: FriRoundOpening<F>,
) -> bool {
    let half = halvings(n, j as nat) / 2;
    let i = idx % half;
    &&& o.value_a.val() == layers[j][i as int]
    &&& o.value_b.val() == layers[j][(i + half) as int]
    &&& is_tree_path(trees[j], i, o.path_a)
    &&& is_tree_path(trees[j], i + half, o.path_b)
}

/// The FRI prover's state after the commit phase.
pub struct FriProver<'h, F: Field> {
    hasher: &'h Poseidon<F>,
    eval_layers: Vec<Vec<F>>,
    trees: Vec<MerkleTree<F>>,
    pub proof: FriCommitPhaseProof<F>,
    initial_domain_size: usize,
    domain_offset: F,
    betas: Ghost<Seq<int>>,
}

impl<'h, F: Field> FriProver<'h, F> {
    #[verifier::type_invariant]
    spec fn inv(self) -> bool {
        prover_layers_ok::<F>(self.layers(), self.tree_views(), self.hasher@, self.initial_domain_size as nat)
    }

    /// The evaluation layers, from the initial one to the final one.
    pub closed spec fn layers(&self) -> Seq<Seq<int>> {
        layer_vals(self.eval_layers@)
    }

    /// The Merkle trees of the committed layers.
    pub closed spec fn tree_views(&self) -> Seq<MerkleTreeView> {
        tree_vals(self.trees@)
    }

    /// The hasher the trees were built with.
    pub closed spec fn hasher_view(&self) -> PoseidonView {
        self.hasher@
    }

    /// The size of the initial domain.
    pub closed spec fn initial_size(&self) -> nat {
        self.initial_domain_size as nat
    }

    /// The coset offset of the initial domain.
    pub closed spec fn offset_val(&self) -> int {
        self.domain_offset.val()
    }

    /// What the commit phase sends to the verifier.
    pub closed spec fn proof_view(&self) -> FriCommitPhaseProof<F> {
        self.proof
    }

    /// The folding challenges drawn during the commit phase.
    pub closed spec fn betas(&self) -> Seq<int> {
        self.betas@
    }

    /// The number of committed layers, one per query round.
    pub fn num_rounds(&self) -> (r: usize)
        ensures
            r == self.tree_views().len(),
    {
        self.trees.len()
    }

    /// The bound below which query indices are drawn: half the initial domain.
    pub fn index_bound(&self) -> (r: usize)
        ensures
            r == self.initial_size() / 2,
    {
        self.initial_domain_size / 2
    }

    /// The coset offset of the initial domain.
    pub fn domain_offset(&self) -> (r: F)
        ensures
            r.val() == self.offset_val(),
    {
        self.domain_offset
    }

    /// What the commit phase sends to the verifier.
    pub fn commit_proof(&self) -> (r: &FriCommitPhaseProof<F>)
        ensures
            *r == self.proof_view(),
    {
        &self.proof
    }

    /// Opens every committed layer for each query index: in round `j` the
    /// pair at `i` and `i + n_j/2`, where `i` is the index modulo `n_j/2`.
    pub fn open(&self, indices: &[usize]) -> (r: Vec<Vec<FriRoundOpening<F>>>)
        ensures
            r@.len() == indices@.len(),
            forall|q: int| 0 <= q < r@.len() ==> (#[trigger] r@[q])@.len() == self.tree_views().len(),
            forall|q: int, j: int|
                0 <= q < r@.len() && 0 <= j < self.tree_views().len() ==> #[trigger] honest_opening::<F>(
                    self.layers(),
                    self.tree_views(),
                    self.initial_size(),
                    indices@[q] as nat,
                    j,
                    r@[q]@[j],
                ),
    {
        proof {
            use_type_invariant(self);
        }
        let num_rounds = self.trees.len();
        let mut out: Vec<Vec<FriRoundOpening<F>>> = Vec::with_capacity(indices.len());
        let mut q: usize = 0;
        while q < indices.len()
            invariant
                q <= indices@.len(),
                num_rounds == self.tree_views().len(),
                prover_layers_ok::<F>(self.layers(), self.tree_views(), self.hasher@, self.initial_domain_size as nat),
                out@.len() == q,
                forall|q2: int| 0 <= q2 < q ==> (#[trigger] out@[q2])@.len() == num_rounds,
                forall|q2: int, j: int|
                    0 <= q2 < q && 0 <= j < num_rounds ==> #[trigger] honest_opening::<F>(
                        self.layers(),
                        self.tree_views(),
                        self.initial_size(),
                        indices@[q2] as nat,
                        j,
                        out@[q2]@[j],
                    ),
            decreases indices@.len() - q,
        {
            let idx0 = indices[q];
            let mut rounds: Vec<FriRoundOpening<F>> = Vec::with_capacity(num_rounds);
            let mut layer_size = self.initial_domain_size;
            let mut r: usize = 0;
            while r < num_rounds
                invariant
                    r <= num_rounds,
                    num_rounds == self.tree_views().len(),
                    prover_layers_ok::<F>(self.layers(), self.tree_views(), self.hasher@, self.initial_domain_size as nat),
                    layer_size == halvings(self.initial_domain_size as nat, r as nat),
                    rounds@.len() == r,
                    forall|j: int| 0 <= j < r ==> #[trigger] honest_opening::<F>(
                        self.layers(),
                        self.tree_views(),
                        self.initial_size(),
                        idx0 as nat,
                        j,
                        rounds@[j],
                    ),
                decreases num_rounds - r,
            {
                let ghost lv = self.layers();
                let ghost tv = self.tree_views();
                let ghost jr: int = r as int;
                assert(halvings(self.initial_domain_size as nat, jr as nat) >= 2);
                assert(lv[jr].len() == halvings(self.initial_domain_size as nat, jr as nat));
                assert(tree_commits::<F>(tv[r as int], lv[r as int], self.hasher@));
                reveal(tree_commits);
                let half = layer_size / 2;
                let i = idx0 % half;
                let layer = &self.eval_layers[r];
                assert(lv[r as int] == vals(layer@));
                let value_a = layer[i];
                let value_b = layer[i + half];
                let tree = &self.trees[r];
                assert(tv[r as int] == tree@);
                let path_a = tree.open(i);
                let path_b = tree.open(i + half);
                rounds.push(FriRoundOpening { value_a, path_a, value_b, path_b });
                layer_size = half;
                r = r + 1;
            }
            out.push(rounds);
            q = q + 1;
        }
        out
    }

    /// Commits to `initial_evals`, the values on the coset
    /// `domain_offset * H` of a power-of-two subgroup `H`: folds with
    /// challenges drawn after each committed root until `final_layer_size`
    /// points are left, then interpolates the final polynomial through the
    /// first `final_poly_num_coeffs` of them and absorbs its coefficients.
    pub fn commit<C: ChallengeSource<F>>(
        hasher: &'h Poseidon<F>,
        initial_evals: Vec<F>,
        domain_offset: F,
        final_layer_size: usize,
        final_poly_num_coeffs: usize,
        challenges: &mut C,
    ) -> (r: Self)
        requires
            is_pow2_len(initial_evals@.len()),
            initial_evals@.len() <= pow2(F::two_adicity_spec()),
            is_pow2_len(final_layer_size as nat),
            initial_evals@.len() >= final_layer_size,
            is_pow2_len(final_poly_num_coeffs as nat),
            final_poly_num_coeffs < final_layer_size,
            domain_offset.val() != 0,
        ensures
            r.hasher_view() == hasher@,
            r.initial_size() == initial_evals@.len(),
            r.offset_val() == domain_offset.val(),
            prover_layers_ok::<F>(r.layers(), r.tree_views(), hasher@, initial_evals@.len()),
            r.layers().len() == fold_rounds(initial_evals@.len(), final_layer_size as nat) + 1,
            r.layers()[0] == vals(initial_evals@),
            r.betas().len() == fold_rounds(initial_evals@.len(), final_layer_size as nat),
            layers_fold::<F>(r.layers(), r.betas(), domain_offset.val(), initial_evals@.len()),
            r.tree_views().len() == if fold_rounds(initial_evals@.len(), final_layer_size as nat) == 0 {
                1
            } else {
                fold_rounds(initial_evals@.len(), final_layer_size as nat)
            },
            r.proof_view().layer_roots@.len() == r.tree_views().len(),
            forall|t: int| 0 <= t < r.tree_views().len() ==> #[trigger] vals(r.proof_view().layer_roots@)[t]
                == r.tree_views()[t].layers.last()[0],
            is_normalized(vals(r.proof_view().final_poly_coeffs@)),
            r.proof_view().final_poly_coeffs@.len() <= final_poly_num_coeffs,
            forall|i: int|
                0 <= i < final_poly_num_coeffs ==> #[trigger] poly_eval(
                    vals(r.proof_view().final_poly_coeffs@),
                    domain_point_spec::<F>(
                        domain_offset.val(),
                        fri_generator::<F>(initial_evals@.len()),
                        i as nat,
                        fold_rounds(initial_evals@.len(), final_layer_size as nat),
                    ),
                    F::p(),
                ) == r.layers()[fold_rounds(initial_evals@.len(), final_layer_size as nat) as int][i],
            final(challenges).hasher_view() == old(challenges).hasher_view(),
            final(challenges).log() == old(challenges).log() + round_events(
                vals(r.proof_view().layer_roots@),
                r.betas(),
            ) + absorb_events(vals(r.proof_view().final_poly_coeffs@)),
    {
        proof {
            F::lemma_prime_field();
        }
        let n = initial_evals.len();
        proof {
            let kk = choose|kk: nat| pow2(kk) == final_poly_num_coeffs;
            vstd::arithmetic::power2::lemma_pow2_pos(kk);
            F::lemma_val_range(domain_offset);
            lemma_final_points_distinct::<F>(
                domain_offset.val(),
                n as nat,
                final_layer_size as nat,
                final_poly_num_coeffs as nat,
            );
        }
        let (eval_layers, trees, layer_roots, evals, domain, betas) = commit_layers(
            hasher,
            initial_evals,
            domain_offset,
            final_layer_size,
            challenges,
        );
        let ghost rounds = fold_rounds(n as nat, final_layer_size as nat);
        let k = final_poly_num_coeffs;
        let mut points: Vec<(F, F)> = Vec::with_capacity(k);
        let mut i: usize = 0;
        while i < k
            invariant
                i <= k,
                k == final_poly_num_coeffs,
                k < evals@.len(),
                domain@.len() == evals@.len(),
                points@.len() == i,
                forall|a: int| 0 <= a < i ==> (#[trigger] points@[a]).0 == domain@[a] && points@[a].1 == evals@[a],
            decreases k - i,
        {
            points.push((domain[i], evals[i]));
            i = i + 1;
        }
        proof {
            assert forall|a: int, b: int| 0 <= a < b < points@.len() implies #[trigger] points@[a].0.val()
                != #[trigger] points@[b].0.val() by {
                assert(vals(domain@)[a] == domain@[a].val());
                assert(vals(domain@)[b] == domain@[b].val());
            }
        }
        let final_poly = crate::interpolate::lagrange_interpolate(points.as_slice());
        final_poly.check_normalized();
        let final_poly_coeffs = copy_vec(final_poly.coeffs());
        proof {
            if inverses_correct::<F>() {
                assert forall|a: int| 0 <= a < k implies #[trigger] poly_eval(
                    vals(final_poly_coeffs@),
                    domain_point_spec::<F>(domain_offset.val(), fri_generator::<F>(n as nat), a as nat, rounds),
                    F::p(),
                ) == layer_vals(eval_layers@)[rounds as int][a] by {
                    assert(vals(domain@)[a] == domain@[a].val());
                    assert(vals(evals@)[a] == evals@[a].val());
                    assert(points@[a].0.val() == domain@[a].val());
                }
            }
        }
        absorb_all_values(final_poly_coeffs.as_slice(), challenges);
        FriProver {
            hasher,
            eval_layers,
            trees,
            proof: FriCommitPhaseProof { layer_roots, final_poly_coeffs },
            initial_domain_size: n,
            domain_offset,
            betas,
        }
    }
}

/// Absorbs each value in turn.
fn absorb_all_values<F: Field, C: ChallengeSource<F>>(values: &[F], challenges: &mut C)
    ensures
        final(challenges).log() == old(challenges).log() + absorb_events(vals(values@)),
        final(challenges).hasher_view() == old(challenges).hasher_view(),
{
    let m = values.len();
    let ghost coeffs = vals(values@);
    let mut c: usize = 0;
    while c < m
        invariant
            c <= m,
            m == values@.len(),
            coeffs == vals(values@),
            challenges.log() == old(challenges).log() + absorb_events(coeffs.subrange(0, c as int)),
            challenges.hasher_view() == old(challenges).hasher_view(),
        decreases m - c,
    {
        let v = values[c];
        challenges.absorb(v);
        proof {
            assert(absorb_events(coeffs.subrange(0, c + 1)) =~= absorb_events(coeffs.subrange(0, c as int)).push(
                TranscriptEvent::Absorbed(v.val()),
            ));
        }
        c = c + 1;
    }
    proof {
        assert(coeffs.subrange(0, m as int) =~= coeffs);
        assert(absorb_events(Seq::<int>::empty()) =~= Seq::empty());
        assert(old(challenges).log() + Seq::<TranscriptEvent>::empty() =~= old(challenges).log());
    }
}

/// The state of the commit phase after `j` folds.
pub open spec fn commit_state_ok<F: Field>(
    lv: Seq<Seq<int>>,
    tv: Seq<MerkleTreeView>,
    rv: Seq<int>,
    betas: Seq<int>,
    h: PoseidonView,
    off: int,
    n: nat,
    j: nat,
) -> bool {
    &&& lv.len() == j + 1
    &&& betas.len() == j
    &&& forall|t: int| 0 <= t <= j ==> #[trigger] lv[t].len() == halvings(n, t as nat)
    &&& layers_fold::<F>(lv, betas, off, n)
    &&& 1 <= tv.len() <= j + 1
    &&& rv.len() == tv.len()
    &&& forall|t: int| 0 <= t < tv.len() ==> #[trigger] rv[t] == tv[t].layers.last()[0]
    &&& forall|t: int| 0 <= t < tv.len() ==> #[trigger] tree_commits::<F>(tv[t], lv[t], h)
}

/// The folding loop of the commit phase: commits to each layer wider than
/// `final_layer_size`, draws a challenge after it and folds.
fn commit_layers<F: Field, C: ChallengeSource<F>>(
    hasher: &Poseidon<F>,
    initial_evals: Vec<F>,
    domain_offset: F,
    final_layer_size: usize,
    challenges: &mut C,
) -> (r: (Vec<Vec<F>>, Vec<MerkleTree<F>>, Vec<F>, Vec<F>, Vec<F>, Ghost<Seq<int>>))
    requires
        is_pow2_len(initial_evals@.len()),
        initial_evals@.len() <= pow2(F::two_adicity_spec()),
        is_pow2_len(final_layer_size as nat),
        initial_evals@.len() >= final_layer_size,
        final_layer_size >= 2,
        domain_offset.val() != 0,
    ensures
        ({
            let (eval_layers, trees, roots, evals, domain, betas) = r;
            let n = initial_evals@.len();
            let rounds = fold_rounds(n, final_layer_size as nat);
            &&& commit_state_ok::<F>(layer_vals(eval_layers@), tree_vals(trees@), vals(roots@), betas@, hasher@, domain_offset.val(), n, rounds)
            &&& prover_layers_ok::<F>(layer_vals(eval_layers@), tree_vals(trees@), hasher@, n)
            &&& layer_vals(eval_layers@)[0] == vals(initial_evals@)
            &&& tree_vals(trees@).len() == if rounds == 0 { 1 } else { rounds }
            &&& evals@.len() == final_layer_size
            &&& layer_vals(eval_layers@)[rounds as int] == vals(evals@)
            &&& domain@.len() == final_layer_size
            &&& forall|i: int| 0 <= i < domain@.len() ==> #[trigger] vals(domain@)[i] == domain_point_spec::<F>(
                domain_offset.val(),
                fri_generator::<F>(n),
                i as nat,
                rounds,
            )
            &&& final(challenges).log() == old(challenges).log() + round_events(vals(roots@), betas@)
            &&& final(challenges).hasher_view() == old(challenges).hasher_view()
        }),
{
    proof {
        F::lemma_prime_field();
    }
    let n = initial_evals.len();
    let ghost nn = n as nat;
    let ghost off = domain_offset.val();
    let ghost h = hasher@;
    let ghost g = fri_generator::<F>(nn);
    let log_n = match log2_exact(n) {
        Some(k) => k,
        None => {
            assert(false);
            0
        },
    };
    let ghost log_f = log2_of(final_layer_size as nat);
    let ghost rounds = fold_rounds(nn, final_layer_size as nat);
    proof {
        F::lemma_modulus();
        F::lemma_val_range(domain_offset);
        lemma_log2_of(log_n as nat);
        let kf = choose|kf: nat| pow2(kf) == final_layer_size;
        lemma_log2_of(kf);
        if log_f > log_n {
            vstd::arithmetic::power2::lemma_pow2_strictly_increases(log_n as nat, log_f);
        }
        if log_n > F::two_adicity_spec() {
            vstd::arithmetic::power2::lemma_pow2_strictly_increases(F::two_adicity_spec(), log_n as nat);
        }
    }
    let mut domain = coset_domain(n, domain_offset);
    proof {
        assert forall|i: int| 0 <= i < n implies #[trigger] vals(domain@)[i] == domain_point_spec::<F>(off, g, i as nat, 0) by {
            lemma_coset_point_is_domain_point::<F>(off, g, i as nat);
        }
    }
    let mut evals = initial_evals;
    let mut eval_layers: Vec<Vec<F>> = Vec::new();
    eval_layers.push(copy_vec(evals.as_slice()));
    let mut trees: Vec<MerkleTree<F>> = Vec::new();
    let mut layer_roots: Vec<F> = Vec::new();
    let first_tree = MerkleTree::from_values(hasher, evals.as_slice());
    let root0 = first_tree.root();
    first_tree.check_wf();
    layer_roots.push(root0);
    challenges.absorb(root0);
    trees.push(first_tree);
    let ghost mut betas: Seq<int> = Seq::empty();
    let ghost mut j: nat = 0;
    proof {
        lemma_halvings_pow2(log_n as nat, 0);
        assert(round_events(seq![root0.val()], Seq::<int>::empty()) =~= seq![TranscriptEvent::Absorbed(root0.val())]) by {
            assert(seq![root0.val()].drop_first() =~= Seq::<int>::empty());
            assert(round_events(Seq::<int>::empty(), Seq::<int>::empty()) == Seq::<TranscriptEvent>::empty());
        }
        assert(vals(layer_roots@) =~= seq![root0.val()]);
        assert(layer_vals(eval_layers@) =~= seq![vals(evals@)]);
        assert(tree_vals(trees@) =~= seq![first_tree@]);
        let lv = layer_vals(eval_layers@);
        assert(layers_fold::<F>(lv, betas, off, nn));
        assert(tree_commits::<F>(tree_vals(trees@)[0], lv[0], h)) by {
            reveal(tree_commits);
        }
    }
    while evals.len() > final_layer_size
        invariant
            n == nn,
            nn == pow2(log_n as nat),
            is_pow2_len(nn),
            nn <= pow2(F::two_adicity_spec()),
            log_n < 64,
            log_f <= log_n,
            pow2(log_f) == final_layer_size,
            rounds == log_n - log_f,
            final_layer_size >= 2,
            0 < off < F::p(),
            off == domain_offset.val(),
            h == hasher@,
            g == fri_generator::<F>(nn),
            no_zero_divisors::<F>(),
            j <= rounds,
            evals@.len() == pow2((log_n - j) as nat),
            evals@.len() == halvings(nn, j),
            domain@.len() == evals@.len(),
            forall|i: int| 0 <= i < domain@.len() ==> #[trigger] vals(domain@)[i] == domain_point_spec::<F>(off, g, i as nat, j),
            layer_vals(eval_layers@)[0] == vals(initial_evals@),
            layer_vals(eval_layers@)[j as int] == vals(evals@),
            commit_state_ok::<F>(layer_vals(eval_layers@), tree_vals(trees@), vals(layer_roots@), betas, h, off, nn, j),
            tree_vals(trees@).len() == if j == 0 || evals@.len() > final_layer_size { j + 1 } else { j },
            challenges.log() == old(challenges).log() + round_events(vals(layer_roots@), betas),
            challenges.hasher_view() == old(challenges).hasher_view(),
        decreases evals@.len(),
    {
        proof {
            if j == rounds {
                assert(evals@.len() == final_layer_size);
            }
            vstd::arithmetic::power2::lemma_pow2_unfold((log_n - j) as nat);
            assert forall|i: int| 0 <= i < evals@.len() / 2 implies #[trigger] domain@[i].val() != 0 by {
                lemma_domain_point_nonzero::<F>(off, nn, i as nat, j);
                assert(vals(domain@)[i] == domain@[i].val());
            }
        }
        let beta = challenges.squeeze_field();
        let ghost prev_lv = layer_vals(eval_layers@);
        let ghost prev_domain = vals(domain@);
        proof {
            lemma_round_events_squeeze(vals(layer_roots@), betas, beta.val());
        }
        let (next_evals, next_domain) = fold_layer(evals.as_slice(), domain.as_slice(), beta);
        evals = next_evals;
        domain = next_domain;
        let layer = copy_vec(evals.as_slice());
        proof {
            lemma_layer_vals_push(eval_layers@, layer);
        }
        eval_layers.push(layer);
        proof {
            lemma_fold_extends::<F>(prev_lv, betas, vals(evals@), prev_domain, vals(domain@), beta.val(), off, nn, j);
            lemma_trees_still_commit::<F>(tree_vals(trees@), prev_lv, vals(evals@), h);
            betas = betas.push(beta.val());
            j = j + 1;
        }
        if evals.len() > final_layer_size {
            let tree = MerkleTree::from_values(hasher, evals.as_slice());
            let root = tree.root();
            tree.check_wf();
            proof {
                lemma_round_events_absorb(vals(layer_roots@), betas, root.val());
                crate::poly::lemma_vals_push(layer_roots@, root);
                lemma_tree_vals_push(trees@, tree);
                assert(tree_commits::<F>(tree@, layer_vals(eval_layers@)[j as int], h)) by {
                    reveal(tree_commits);
                }
                lemma_tree_pushed::<F>(layer_vals(eval_layers@), tree_vals(trees@), vals(layer_roots@), betas, tree@, root.val(), h, off, nn, j);
            }
            layer_roots.push(root);
            challenges.absorb(root);
            trees.push(tree);
        }
    }
    proof {
        if j < rounds {
            vstd::arithmetic::power2::lemma_pow2_strictly_increases(log_f, (log_n - j) as nat);
        }
        let lv = layer_vals(eval_layers@);
        let tv = tree_vals(trees@);
        assert forall|t: int| 0 <= t < tv.len() implies #[trigger] halvings(nn, t as nat) >= 2 by {
            lemma_halvings_monotone(nn, t as nat, j);
            if t < j {
                lemma_halvings_monotone(nn, (t + 1) as nat, j);
            }
        }
        assert forall|t: int| 0 <= t < lv.len() implies #[trigger] lv[t].len() == halvings(nn, t as nat) by {
        }
    }
    (eval_layers, trees, layer_roots, evals, domain, Ghost(betas))
}

/// Appending a layer to the values of the layers.
pub proof fn lemma_layer_vals_push<F: Field>(s: Seq<Vec<F>>, x: Vec<F>)
    ensures
        layer_vals(s.push(x)) == layer_vals(s).push(vals(x@)),
{
    assert(layer_vals(s.push(x)) =~= layer_vals(s).push(vals(x@)));
}

/// Appending a tree to the views of the trees.
proof fn lemma_tree_vals_push<F: Field>(s: Seq<MerkleTree<F>>, x: MerkleTree<F>)
    ensures
        tree_vals(s.push(x)) == tree_vals(s).push(x@),
{
    assert(tree_vals(s.push(x)) =~= tree_vals(s).push(x@));
}

/// Adding a layer leaves the committed trees committed.
proof fn lemma_trees_still_commit<F: Field>(tv: Seq<MerkleTreeView>, lv: Seq<Seq<int>>, layer: Seq<int>, h: PoseidonView)
    requires
        tv.len() <= lv.len(),
        forall|t: int| 0 <= t < tv.len() ==> #[trigger] tree_commits::<F>(tv[t], lv[t], h),
    ensures
        forall|t: int| 0 <= t < tv.len() ==> #[trigger] tree_commits::<F>(tv[t], lv.push(layer)[t], h),
{
    assert forall|t: int| 0 <= t < tv.len() implies #[trigger] tree_commits::<F>(tv[t], lv.push(layer)[t], h) by {
        assert(lv.push(layer)[t] == lv[t]);
    }
}

/// One fold extends the chain of folded layers, and squares the domain.
pub proof fn lemma_fold_extends<F: Field>(
    lv: Seq<Seq<int>>,
    betas: Seq<int>,
    layer: Seq<int>,
    prev_domain: Seq<int>,
    next_domain: Seq<int>,
    beta: int,
    off: int,
    n: nat,
    j: nat,
)
    requires
        F::p() > 0,
        lv.len() == j + 1,
        betas.len() == j,
        layers_fold::<F>(lv, betas, off, n),
        forall|t: int| 0 <= t <= j ==> #[trigger] lv[t].len() == halvings(n, t as nat),
        prev_domain.len() == lv[j as int].len(),
        forall|i: int| 0 <= i < prev_domain.len() ==> #[trigger] prev_domain[i] == domain_point_spec::<F>(
            off,
            fri_generator::<F>(n),
            i as nat,
            j,
        ),
        layer.len() == lv[j as int].len() / 2,
        next_domain.len() == layer.len(),
        forall|i: int| 0 <= i < layer.len() ==> #[trigger] layer[i] == fold_spec::<F>(
            lv[j as int][i],
            lv[j as int][i + layer.len()],
            prev_domain[i],
            beta,
        ),
        forall|i: int| 0 <= i < layer.len() ==> #[trigger] next_domain[i] == crate::field::fm(
            prev_domain[i],
            prev_domain[i],
            F::p(),
        ),
    ensures
        layers_fold::<F>(lv.push(layer), betas.push(beta), off, n),
        forall|t: int| 0 <= t <= j + 1 ==> #[trigger] lv.push(layer)[t].len() == halvings(n, t as nat),
        forall|i: int| 0 <= i < next_domain.len() ==> #[trigger] next_domain[i] == domain_point_spec::<F>(
            off,
            fri_generator::<F>(n),
            i as nat,
            j + 1,
        ),
{
    let g = fri_generator::<F>(n);
    let lv2 = lv.push(layer);
    let b2 = betas.push(beta);
    assert forall|jj: int, i: int|
        0 <= jj < lv2.len() - 1 && 0 <= i < halvings(n, (jj + 1) as nat) implies #[trigger] lv2[jj + 1][i]
            == fold_spec::<F>(
            lv2[jj][i],
            lv2[jj][i + halvings(n, (jj + 1) as nat)],
            domain_point_spec::<F>(off, g, i as nat, jj as nat),
            b2[jj],
        ) by {
        assert(lv2[jj] == lv[jj]);
        if jj + 1 < lv.len() {
            assert(lv2[jj + 1] == lv[jj + 1]);
            assert(b2[jj] == betas[jj]);
        } else {
            assert(lv2[jj + 1] == layer);
        }
    }
    assert forall|t: int| 0 <= t <= j + 1 implies #[trigger] lv2[t].len() == halvings(n, t as nat) by {
        if t <= j {
            assert(lv2[t] == lv[t]);
        }
    }
    assert forall|i: int| 0 <= i < next_domain.len() implies #[trigger] next_domain[i] == domain_point_spec::<F>(
        off,
        g,
        i as nat,
        j + 1,
    ) by {
        let base = crate::field::fm(off, crate::field::pow_mod(g, i as nat, F::p()), F::p());
        crate::field::lemma_square_pow2_mod(base, j, F::p());
        assert(prev_domain[i] == domain_point_spec::<F>(off, g, i as nat, j));
        reveal(domain_point_spec);
    }
}

/// Committing one more tree, over the newest layer.
proof fn lemma_tree_pushed<F: Field>(
    lv: Seq<Seq<int>>,
    tv: Seq<MerkleTreeView>,
    rv: Seq<int>,
    betas: Seq<int>,
    t: MerkleTreeView,
    root: int,
    h: PoseidonView,
    off: int,
    n: nat,
    j: nat,
)
    requires
        lv.len() == j + 1,
        betas.len() == j,
        forall|k: int| 0 <= k <= j ==> #[trigger] lv[k].len() == halvings(n, k as nat),
        layers_fold::<F>(lv, betas, off, n),
        tv.len() == j,
        j >= 1,
        rv.len() == tv.len(),
        forall|k: int| 0 <= k < tv.len() ==> #[trigger] rv[k] == tv[k].layers.last()[0],
        forall|k: int| 0 <= k < tv.len() ==> #[trigger] tree_commits::<F>(tv[k], lv[k], h),
        tree_commits::<F>(t, lv[j as int], h),
        root == t.layers.last()[0],
    ensures
        commit_state_ok::<F>(lv, tv.push(t), rv.push(root), betas, h, off, n, j),
{
    let tv2 = tv.push(t);
    let rv2 = rv.push(root);
    assert forall|k: int| 0 <= k < tv2.len() implies #[trigger] rv2[k] == tv2[k].layers.last()[0] by {
        if k < tv.len() {
            assert(tv2[k] == tv[k]);
        }
    }
    assert forall|k: int| 0 <= k < tv2.len() implies #[trigger] tree_commits::<F>(tv2[k], lv[k], h) by {
        if k < tv.len() {
            assert(tv2[k] == tv[k]);
        }
    }
}

/// The first domain of FRI is the coset that `coset_domain` builds.
pub proof fn lemma_coset_point_is_domain_point<F: Field>(offset: int, g: int, i: nat)
    ensures
        coset_point(offset, g, i, F::p()) == domain_point_spec::<F>(offset, g, i, 0),
{
    F::lemma_modulus();
    let p = F::p();
    let gi = vstd::arithmetic::power::pow(g, i);
    vstd::arithmetic::div_mod::lemma_mul_mod_noop_right(offset, gi, p);
    vstd::arithmetic::power2::lemma2_to64();
    vstd::arithmetic::power::lemma_pow1((offset * (gi % p)) % p);
    vstd::arithmetic::div_mod::lemma_mod_twice(offset * gi, p);
    reveal(domain_point_spec);
}

/// Squeezing after the last absorbed root.
proof fn lemma_round_events_squeeze(roots: Seq<int>, betas: Seq<int>, beta: int)
    requires
        roots.len() == betas.len() + 1,
    ensures
        round_events(roots, betas.push(beta)) == round_events(roots, betas) + seq![TranscriptEvent::Squeezed(beta)],
    decreases roots.len(),
{
    if betas.len() == 0 {
        assert(roots.drop_first() =~= Seq::<int>::empty());
        assert(betas.push(beta).drop_first() =~= Seq::<int>::empty());
        let e = Seq::<TranscriptEvent>::empty();
        assert(round_events(roots.drop_first(), betas) == e);
        assert(round_events(roots.drop_first(), betas.push(beta).drop_first()) == e);
        assert(round_events(roots, betas) =~= seq![TranscriptEvent::Absorbed(roots[0])]);
        assert(round_events(roots, betas.push(beta)) =~= seq![TranscriptEvent::Absorbed(roots[0]), TranscriptEvent::Squeezed(beta)]);
    } else {
        lemma_round_events_squeeze(roots.drop_first(), betas.drop_first(), beta);
        assert(betas.push(beta).drop_first() =~= betas.drop_first().push(beta));
        assert(round_events(roots, betas.push(beta)) =~= round_events(roots, betas) + seq![TranscriptEvent::Squeezed(beta)]);
    }
}

/// Absorbing a new root once every earlier root has its challenge.
proof fn lemma_round_events_absorb(roots: Seq<int>, betas: Seq<int>, root: int)
    requires
        roots.len() == betas.len(),
    ensures
        round_events(roots.push(root), betas) == round_events(roots, betas) + seq![TranscriptEvent::Absorbed(root)],
    decreases roots.len(),
{
    if roots.len() == 0 {
        assert(roots.push(root).drop_first() =~= Seq::<int>::empty());
        assert(round_events(roots, betas) =~= Seq::<TranscriptEvent>::empty());
        assert(round_events(roots.push(root).drop_first(), betas) == Seq::<TranscriptEvent>::empty());
        assert(round_events(roots.push(root), betas) =~= seq![TranscriptEvent::Absorbed(root)]);
    } else {
        lemma_round_events_absorb(roots.drop_first(), betas.drop_first(), root);
        assert(roots.push(root).drop_first() =~= roots.drop_first().push(root));
        assert(round_events(roots.push(root), betas) =~= round_events(roots, betas) + seq![TranscriptEvent::Absorbed(root)]);
    }
}

/// At query index `idx`, the final polynomial agrees with the last layer.
pub open spec fn final_agrees<F: Field>(
    final_coeffs: Seq<int>,
    last_layer: Seq<int>,
    offset: int,
    n: nat,
    rounds: nat,
    idx: nat,
) -> bool {
    let ni = idx % halvings(n, rounds);
    poly_eval(trim(final_coeffs), domain_point_spec::<F>(offset, fri_generator::<F>(n), ni, rounds), F::p())
        == last_layer[ni as int]
}

/// One round of one honest query passes its Merkle and folding checks.
proof fn lemma_honest_round<F: Field>(
    h: PoseidonView,
    layers: Seq<Seq<int>>,
    trees: Seq<MerkleTreeView>,
    betas: Seq<int>,
    proof: FriCommitPhaseProof<F>,
    offset: int,
    n: nat,
    idx: nat,
    rounds: Seq<FriRoundOpening<F>>,
    r: int,
)
    requires
        is_pow2_len(n),
        prover_layers_ok::<F>(layers, trees, h, n),
        layers_fold::<F>(layers, betas, offset, n),
        trees.len() == betas.len(),
        layers.len() == trees.len() + 1,
        proof.layer_roots@.len() == trees.len(),
        forall|t: int| 0 <= t < trees.len() ==> #[trigger] vals(proof.layer_roots@)[t] == trees[t].layers.last()[0],
        rounds.len() == trees.len(),
        forall|j: int| 0 <= j < trees.len() ==> #[trigger] honest_opening::<F>(layers, trees, n, idx, j, rounds[j]),
        0 <= r < trees.len(),
    ensures
        round_ok::<F>(h, vals(proof.layer_roots@), betas, vals(proof.final_poly_coeffs@), offset, n, idx, rounds, r)
            <==> (r + 1 < trees.len() || final_agrees::<F>(
            vals(proof.final_poly_coeffs@),
            layers[trees.len() as int],
            offset,
            n,
            trees.len() as nat,
            idx,
        )),
{
    let p = F::p();
    let roots = vals(proof.layer_roots@);
    let size = halvings(n, r as nat);
    let half = size / 2;
    let i = idx % half;
    let o = rounds[r];
    let t = trees[r];
    assert(honest_opening::<F>(layers, trees, n, idx, r, o));
    assert(size >= 2);
    assert(layers[r].len() == size);
    assert(tree_commits::<F>(t, layers[r], h));
    assert(t.layers[0].len() == size) by {
        reveal(tree_commits);
    }
    assert(half == halvings(n, (r + 1) as nat));
    vstd::arithmetic::div_mod::lemma_mod_bound(idx as int, half as int);
    assert(i + half < size);
    assert(roots[r] == t.layers.last()[0]);
    lemma_honest_path::<F>(h, t, layers[r], roots[r], i, o.path_a, o.value_a.val());
    lemma_honest_path::<F>(h, t, layers[r], roots[r], (i + half) as nat, o.path_b, o.value_b.val());
    let g = fri_generator::<F>(n);
    let x = domain_point_spec::<F>(offset, g, i, r as nat);
    assert(layers[r + 1][i as int] == fold_spec::<F>(
        layers[r][i as int],
        layers[r][i as int + halvings(n, (r + 1) as nat)],
        x,
        betas[r],
    ));
    let next_size = halvings(n, (r + 1) as nat);
    let ni = idx % next_size;
    assert(ni == i);
    if r + 1 < trees.len() {
        let next_half = halvings(n, (r + 2) as nat);
        assert(halvings(n, (r + 1) as nat) >= 2);
        assert(honest_opening::<F>(layers, trees, n, idx, r + 1, rounds[r + 1]));
        assert(next_half == next_size / 2);
        let k = choose|k: nat| pow2(k) == n;
        lemma_rounds_bound(n, k, (r + 1) as nat);
        lemma_halvings_pow2(k, (r + 1) as nat);
        crate::merkle::lemma_pow2_halving(next_size);
        lemma_mod_of_double(idx, next_half);
    }
}

/// A path that the tree's `open` gives verifies the leaf's value.
proof fn lemma_honest_path<F: Field>(
    h: PoseidonView,
    t: MerkleTreeView,
    values: Seq<int>,
    root: int,
    i: nat,
    path: MerklePath<F>,
    value: int,
)
    requires
        tree_commits::<F>(t, values, h),
        i < values.len(),
        is_tree_path(t, i, path),
        value == values[i as int],
        root == t.layers.last()[0],
    ensures
        opening_ok(h, root, path, i, value),
{
    reveal(tree_commits);
    lemma_open_verifies(t, i, vals(path.siblings@), F::p());
}

/// `(x mod 2m)` reduced mod `m` is `x mod m`; the upper half lies `m` above it.
pub proof fn lemma_mod_of_double(x: nat, m: nat)
    requires
        m > 0,
    ensures
        x % (2 * m) < m ==> x % (2 * m) == x % m,
        x % (2 * m) >= m ==> x % (2 * m) == x % m + m,
{
    vstd::arithmetic::div_mod::lemma_mod_mod(x as int, m as int, 2);
    vstd::arithmetic::mul::lemma_mul_is_commutative(m as int, 2);
    let y = x % (2 * m);
    vstd::arithmetic::div_mod::lemma_mod_bound(x as int, (2 * m) as int);
    if y < m {
        vstd::arithmetic::div_mod::lemma_small_mod(y, m);
    } else {
        vstd::arithmetic::div_mod::lemma_mod_sub_multiples_vanish(y as int, m as int);
        vstd::arithmetic::div_mod::lemma_small_mod((y - m) as nat, m);
    }
}

/// Completeness of the query phase: on the openings of the honest prover
/// (the committed layers, folded with the challenges the verifier replays),
/// every Merkle check and every folding check passes, so the verifier
/// accepts exactly when, at every query, the final polynomial agrees with
/// the last folded layer.
pub proof fn lemma_honest_queries_accepted<F: Field>(
    h: PoseidonView,
    layers: Seq<Seq<int>>,
    trees: Seq<MerkleTreeView>,
    betas: Seq<int>,
    proof: FriCommitPhaseProof<F>,
    offset: int,
    n: nat,
    final_size: nat,
    num_coeffs: nat,
    indices: Seq<usize>,
    openings: Seq<Vec<FriRoundOpening<F>>>,
)
    requires
        is_pow2_len(n),
        prover_layers_ok::<F>(layers, trees, h, n),
        layers_fold::<F>(layers, betas, offset, n),
        trees.len() == betas.len(),
        layers.len() == trees.len() + 1,
        proof.layer_roots@.len() == trees.len(),
        forall|t: int| 0 <= t < trees.len() ==> #[trigger] vals(proof.layer_roots@)[t] == trees[t].layers.last()[0],
        halvings(n, trees.len() as nat) == final_size,
        proof.final_poly_coeffs@.len() == num_coeffs,
        openings.len() == indices.len(),
        forall|q: int| 0 <= q < openings.len() ==> (#[trigger] openings[q])@.len() == trees.len(),
        forall|q: int, j: int|
            0 <= q < openings.len() && 0 <= j < trees.len() ==> #[trigger] honest_opening::<F>(
                layers,
                trees,
                n,
                indices[q] as nat,
                j,
                openings[q]@[j],
            ),
    ensures
        fri_accepts::<F>(h, proof, betas, offset, n, final_size, num_coeffs, indices, openings) <==> (forall|q: int|
            0 <= q < openings.len() ==> #[trigger] final_agrees::<F>(
                vals(proof.final_poly_coeffs@),
                layers[trees.len() as int],
                offset,
                n,
                trees.len() as nat,
                indices[q] as nat,
            )),
{
    let roots = vals(proof.layer_roots@);
    let coeffs = vals(proof.final_poly_coeffs@);
    let nr = trees.len();
    assert forall|q: int, r: int| 0 <= q < openings.len() && 0 <= r < nr implies (#[trigger] round_ok::<F>(
        h,
        roots,
        betas,
        coeffs,
        offset,
        n,
        indices[q] as nat,
        openings[q]@,
        r,
    ) <==> (r + 1 < nr || final_agrees::<F>(coeffs, layers[nr as int], offset, n, nr as nat, indices[q] as nat))) by {
        assert forall|j: int| 0 <= j < nr implies #[trigger] honest_opening::<F>(
            layers,
            trees,
            n,
            indices[q] as nat,
            j,
            openings[q]@[j],
        ) by {}
        lemma_honest_round::<F>(h, layers, trees, betas, proof, offset, n, indices[q] as nat, openings[q]@, r);
    }
    if nr > 0 {
        assert forall|q: int| 0 <= q < openings.len() implies (#[trigger] final_agrees::<F>(
            coeffs,
            layers[nr as int],
            offset,
            n,
            nr as nat,
            indices[q] as nat,
        ) <==> round_ok::<F>(h, roots, betas, coeffs, offset, n, indices[q] as nat, openings[q]@, nr - 1)) by {}
    }
}

/// Halving `2^a` gives `2^(a-1)`.
pub proof fn lemma_halvings_pow2(a: nat, j: nat)
    requires
        j <= a,
    ensures
        halvings(pow2(a), j) == pow2((a - j) as nat),
    decreases j,
{
    if j > 0 {
        lemma_halvings_pow2(a, (j - 1) as nat);
        vstd::arithmetic::power2::lemma_pow2_unfold((a - j + 1) as nat);
    }
}

/// A nonzero halving count `r` of `n` leaves `n >= 2^r`.
pub proof fn lemma_halvings_bound(n: nat, r: nat)
    ensures
        halvings(n, r) * pow2(r) <= n,
    decreases r,
{
    if r > 0 {
        lemma_halvings_bound(n, (r - 1) as nat);
        vstd::arithmetic::power2::lemma_pow2_unfold(r);
        let a = halvings(n, (r - 1) as nat);
        let b = pow2((r - 1) as nat);
        assert(pow2(r) == 2 * b);
        assert(halvings(n, r) == a / 2);
        assert((a / 2) * (2 * b) <= a * b) by (nonlinear_arith)
            requires b >= 0, a >= 0;
        assert(halvings(n, r) * pow2(r) == (a / 2) * (2 * b));
        assert(a * b <= n);
    } else {
        vstd::arithmetic::power2::lemma2_to64();
    }
}

/// Halving counts only shrink.
pub proof fn lemma_halvings_monotone(n: nat, r: nat, s: nat)
    requires
        r <= s,
    ensures
        halvings(n, s) <= halvings(n, r),
    decreases s - r,
{
    if r < s {
        lemma_halvings_monotone(n, r, (s - 1) as nat);
    }
}

/// The points of every folded domain are nonzero.
pub proof fn lemma_domain_point_nonzero<F: Field>(offset: int, n: nat, i: nat, r: nat)
    requires
        0 < offset < F::p(),
        is_pow2_len(n),
        n <= pow2(F::two_adicity_spec()),
    ensures
        domain_point_spec::<F>(offset, fri_generator::<F>(n), i, r) != 0,
{
    F::lemma_prime_field();
    F::lemma_modulus();
    let k = log2_of(n);
    let kk = choose|kk: nat| pow2(kk) == n;
    lemma_log2_of(kk);
    if k > F::two_adicity_spec() {
        vstd::arithmetic::power2::lemma_pow2_strictly_increases(F::two_adicity_spec(), k);
    }
    lemma_root_nonzero::<F>(k);
    let g = fri_generator::<F>(n);
    assert(g == stage_root::<F>(k));
    lemma_pow_nonzero::<F>(g, i);
    let gi = crate::field::pow_mod(g, i, F::p());
    let base = (offset * gi) % F::p();
    assert(base != 0);
    vstd::arithmetic::div_mod::lemma_mod_bound(offset * gi, F::p());
    lemma_pow_nonzero::<F>(base, pow2(r));
    reveal(domain_point_spec);
}

/// The challenges the verifier derives by replaying the commit phase:
/// each root is absorbed and a challenge squeezed after it, then the final
/// coefficients are absorbed.
pub fn replay_commit_phase<F: Field, C: ChallengeSource<F>>(
    proof: &FriCommitPhaseProof<F>,
    challenges: &mut C,
) -> (r: Vec<F>)
    ensures
        r@.len() == proof.layer_roots@.len(),
        final(challenges).log() == old(challenges).log() + round_events(vals(proof.layer_roots@), vals(r@))
            + absorb_events(vals(proof.final_poly_coeffs@)),
        final(challenges).hasher_view() == old(challenges).hasher_view(),
{
    let n = proof.layer_roots.len();
    let mut betas: Vec<F> = Vec::with_capacity(n);
    let ghost roots = vals(proof.layer_roots@);
    let mut i: usize = 0;
    while i < n
        invariant
            i <= n,
            n == proof.layer_roots@.len(),
            roots == vals(proof.layer_roots@),
            betas@.len() == i,
            challenges.log() == old(challenges).log() + round_events(roots.subrange(0, i as int), vals(betas@)),
            challenges.hasher_view() == old(challenges).hasher_view(),
        decreases n - i,
    {
        let root = proof.layer_roots[i];
        challenges.absorb(root);
        let beta = challenges.squeeze_field();
        proof {
            lemma_round_events_push(roots.subrange(0, i as int), vals(betas@), root.val(), beta.val());
            assert(roots.subrange(0, i as int).push(root.val()) =~= roots.subrange(0, i + 1));
            crate::poly::lemma_vals_push(betas@, beta);
        }
        betas.push(beta);
        i = i + 1;
    }
    proof {
        assert(roots.subrange(0, n as int) =~= roots);
    }
    let m = proof.final_poly_coeffs.len();
    let ghost coeffs = vals(proof.final_poly_coeffs@);
    let ghost mid = challenges.log();
    let mut k: usize = 0;
    while k < m
        invariant
            k <= m,
            m == proof.final_poly_coeffs@.len(),
            coeffs == vals(proof.final_poly_coeffs@),
            challenges.log() == mid + absorb_events(coeffs.subrange(0, k as int)),
            challenges.hasher_view() == old(challenges).hasher_view(),
        decreases m - k,
    {
        let c = proof.final_poly_coeffs[k];
        challenges.absorb(c);
        proof {
            assert(absorb_events(coeffs.subrange(0, k + 1)) =~= absorb_events(coeffs.subrange(0, k as int)).push(
                TranscriptEvent::Absorbed(c.val()),
            ));
        }
        k = k + 1;
    }
    proof {
        assert(coeffs.subrange(0, m as int) =~= coeffs);
        assert(absorb_events(Seq::<int>::empty()) =~= Seq::empty());
    }
    betas
}

/// A domain of `n = 2^k` points halves to at least one point at most `k` times.
pub proof fn lemma_rounds_bound(n: nat, k: nat, r: nat)
    requires
        pow2(k) == n,
        halvings(n, r) >= 1,
    ensures
        r <= k,
{
    lemma_halvings_bound(n, r);
    let h = halvings(n, r);
    assert(h * pow2(r) >= pow2(r)) by (nonlinear_arith)
        requires h >= 1;
    if r > k {
        vstd::arithmetic::power2::lemma_pow2_strictly_increases(k, r);
    }
}

/// Checks round `r` of the query at `idx0`.
fn check_round<F: Field>(
    hasher: &Poseidon<F>,
    proof: &FriCommitPhaseProof<F>,
    betas: &[F],
    final_poly: &Polynomial<F>,
    domain_offset: F,
    generator: F,
    n: usize,
    idx0: usize,
    rounds: &Vec<FriRoundOpening<F>>,
    r: usize,
    layer_size: usize,
    next_layer_size: usize,
) -> (ok: bool)
    requires
        domain_offset.val() != 0,
        is_pow2_len(n as nat),
        n <= pow2(F::two_adicity_spec()),
        generator.val() == fri_generator::<F>(n as nat),
        final_poly@ == trim(vals(proof.final_poly_coeffs@)),
        layer_size == halvings(n as nat, r as nat),
        next_layer_size == halvings(n as nat, (r + 1) as nat),
        next_layer_size >= 1,
        r < proof.layer_roots@.len(),
        r < 63,
        betas@.len() == proof.layer_roots@.len(),
        rounds@.len() == proof.layer_roots@.len(),
    ensures
        ok == round_ok::<F>(
            hasher@,
            vals(proof.layer_roots@),
            vals(betas@),
            vals(proof.final_poly_coeffs@),
            domain_offset.val(),
            n as nat,
            idx0 as nat,
            rounds@,
            r as int,
        ),
{
    proof {
        F::lemma_prime_field();
    }
    let ghost roots = vals(proof.layer_roots@);
    let ghost p = F::p();
    proof {
        F::lemma_val_range(domain_offset);
    }
    let half = layer_size / 2;
    let i = idx0 % half;
    let opening = &rounds[r];
    let root = proof.layer_roots[r];
    assert(roots[r as int] == root.val());
    let leaf_a = hash_leaf(hasher, opening.value_a);
    let leaf_b = hash_leaf(hasher, opening.value_b);
    if opening.path_a.leaf_index != i || opening.path_b.leaf_index != i + half {
        return false;
    }
    if !opening.path_a.verify(hasher, root, leaf_a) {
        return false;
    }
    if !opening.path_b.verify(hasher, root, leaf_b) {
        return false;
    }
    let x = domain_point(domain_offset, generator, i, r as u32);
    proof {
        lemma_domain_point_nonzero::<F>(domain_offset.val(), n as nat, i as nat, r as nat);
    }
    let beta = betas[r];
    assert(vals(betas@)[r as int] == beta.val());
    let folded = fold_value(opening.value_a, opening.value_b, x, beta);
    let next_half = next_layer_size / 2;
    let next_index = idx0 % next_layer_size;
    if r + 1 < proof.layer_roots.len() {
        let expected = if next_index < next_half {
            rounds[r + 1].value_a
        } else {
            rounds[r + 1].value_b
        };
        folded.feq(&expected)
    } else {
        let final_x = domain_point(domain_offset, generator, next_index, (r + 1) as u32);
        final_poly.eval(final_x).feq(&folded)
    }
}

/// The verifier's query phase: checks every opened round of every query
/// against the committed roots, the folding relation between consecutive
/// rounds, and the final polynomial after the last round.
pub fn verify_queries<F: Field>(
    hasher: &Poseidon<F>,
    proof: &FriCommitPhaseProof<F>,
    betas: &[F],
    domain_offset: F,
    initial_domain_size: usize,
    final_layer_size: usize,
    expected_final_poly_num_coeffs: usize,
    indices: &[usize],
    openings: &[Vec<FriRoundOpening<F>>],
) -> (ok: bool)
    requires
        fri_shape_ok::<F>(
            *proof,
            betas@.len(),
            initial_domain_size as nat,
            final_layer_size as nat,
            expected_final_poly_num_coeffs as nat,
            indices@.len(),
            openings@.len(),
        ) ==> fri_domain_ok::<F>(domain_offset.val(), initial_domain_size as nat, final_layer_size as nat),
    ensures
        ok == fri_accepts::<F>(
            hasher@,
            *proof,
            vals(betas@),
            domain_offset.val(),
            initial_domain_size as nat,
            final_layer_size as nat,
            expected_final_poly_num_coeffs as nat,
            indices@,
            openings@,
        ),
{
    proof {
        F::lemma_prime_field();
    }
    let n = initial_domain_size;
    let num_rounds = proof.layer_roots.len();
    if betas.len() != num_rounds || indices.len() != openings.len() {
        return false;
    }
    if proof.final_poly_coeffs.len() != expected_final_poly_num_coeffs {
        return false;
    }
    let mut layer_sizes: Vec<usize> = Vec::new();
    layer_sizes.push(n);
    let mut r: usize = 0;
    while r < num_rounds
        invariant
            r <= num_rounds,
            layer_sizes@.len() == r + 1,
            forall|j: int| 0 <= j <= r ==> #[trigger] layer_sizes@[j] == halvings(n as nat, j as nat),
        decreases num_rounds - r,
    {
        let last = layer_sizes[r];
        layer_sizes.push(last / 2);
        r = r + 1;
    }
    if layer_sizes[num_rounds] != final_layer_size {
        return false;
    }
    let log_n = match log2_exact(n) {
        Some(k) => k,
        None => {
            return false;
        },
    };
    proof {
        lemma_log2_of(log_n as nat);
        if log_n > F::two_adicity_spec() {
            vstd::arithmetic::power2::lemma_pow2_strictly_increases(F::two_adicity_spec(), log_n as nat);
        }
    }
    let generator = F::root_of_unity(log_n);
    let final_poly = Polynomial::new(copy_vec(proof.final_poly_coeffs.as_slice()));
    let ghost roots = vals(proof.layer_roots@);
    let ghost coeffs = vals(proof.final_poly_coeffs@);
    let ghost h = hasher@;
    let ghost off = domain_offset.val();
    proof {
        lemma_rounds_bound(n as nat, log_n as nat, num_rounds as nat);
    }
    let nq = openings.len();
    let mut q: usize = 0;
    while q < nq
        invariant
            q <= nq,
            nq == openings@.len(),
            nq == indices@.len(),
            num_rounds == proof.layer_roots@.len(),
            n == initial_domain_size,
            final_layer_size >= 1,
            no_zero_divisors::<F>(),
            domain_offset.val() != 0,
            is_pow2_len(n as nat),
            n <= pow2(F::two_adicity_spec()),
            num_rounds <= log_n,
            log_n < 64,
            pow2(log_n as nat) == n,
            betas@.len() == num_rounds,
            layer_sizes@.len() == num_rounds + 1,
            forall|j: int| 0 <= j <= num_rounds ==> #[trigger] layer_sizes@[j] == halvings(n as nat, j as nat),
            halvings(n as nat, num_rounds as nat) == final_layer_size,
            generator.val() == fri_generator::<F>(n as nat),
            final_poly@ == trim(coeffs),
            roots == vals(proof.layer_roots@),
            coeffs == vals(proof.final_poly_coeffs@),
            h == hasher@,
            off == domain_offset.val(),
            forall|q2: int| 0 <= q2 < q ==> (#[trigger] openings@[q2])@.len() == num_rounds,
            forall|q2: int, r2: int|
                0 <= q2 < q && 0 <= r2 < num_rounds ==> #[trigger] round_ok::<F>(
                    h,
                    roots,
                    vals(betas@),
                    coeffs,
                    off,
                    n as nat,
                    indices@[q2] as nat,
                    openings@[q2]@,
                    r2,
                ),
        decreases nq - q,
    {
        let rounds = &openings[q];
        let idx0 = indices[q];
        if rounds.len() != num_rounds {
            proof {
                assert(openings@[q as int]@.len() != num_rounds);
            }
            return false;
        }
        let mut r: usize = 0;
        while r < num_rounds
            invariant
                r <= num_rounds,
                q < nq,
                nq == openings@.len(),
                nq == indices@.len(),
                rounds@ == openings@[q as int]@,
                idx0 == indices@[q as int],
                rounds@.len() == num_rounds,
                num_rounds == proof.layer_roots@.len(),
                n == initial_domain_size,
                no_zero_divisors::<F>(),
                domain_offset.val() != 0,
                is_pow2_len(n as nat),
                n <= pow2(F::two_adicity_spec()),
                num_rounds <= log_n,
                log_n < 64,
                pow2(log_n as nat) == n,
                betas@.len() == num_rounds,
                layer_sizes@.len() == num_rounds + 1,
                forall|j: int| 0 <= j <= num_rounds ==> #[trigger] layer_sizes@[j] == halvings(n as nat, j as nat),
                halvings(n as nat, num_rounds as nat) == final_layer_size,
                final_layer_size >= 1,
                generator.val() == fri_generator::<F>(n as nat),
                final_poly@ == trim(coeffs),
                roots == vals(proof.layer_roots@),
                coeffs == vals(proof.final_poly_coeffs@),
                h == hasher@,
                off == domain_offset.val(),
                forall|r2: int| 0 <= r2 < r ==> #[trigger] round_ok::<F>(
                    h,
                    roots,
                    vals(betas@),
                    coeffs,
                    off,
                    n as nat,
                    idx0 as nat,
                    rounds@,
                    r2,
                ),
            decreases num_rounds - r,
        {
            proof {
                lemma_halvings_monotone(n as nat, (r + 1) as nat, num_rounds as nat);
            }
            let ok = check_round(
                hasher,
                proof,
                betas,
                &final_poly,
                domain_offset,
                generator,
                n,
                idx0,
                rounds,
                r,
                layer_sizes[r],
                layer_sizes[r + 1],
            );
            if !ok {
                proof {
                    assert(!round_ok::<F>(
                        h,
                        roots,
                        vals(betas@),
                        coeffs,
                        off,
                        n as nat,
                        indices@[q as int] as nat,
                        openings@[q as int]@,
                        r as int,
                    ));
                }
                return false;
            }
            r = r + 1;
        }
        q = q + 1;
    }
    true
}

/// Appending one absorbed root and one squeezed challenge.
proof fn lemma_round_events_push(roots: Seq<int>, betas: Seq<int>, root: int, beta: int)
    requires
        roots.len() == betas.len(),
    ensures
        round_events(roots.push(root), betas.push(beta)) == round_events(roots, betas) + seq![
            TranscriptEvent::Absorbed(root),
            TranscriptEvent::Squeezed(beta),
        ],
    decreases roots.len(),
{
    if roots.len() == 0 {
        assert(roots.push(root).drop_first() =~= Seq::<int>::empty());
        assert(betas.push(beta).drop_first() =~= Seq::<int>::empty());
        assert(round_events(Seq::<int>::empty(), Seq::<int>::empty()) =~= Seq::empty());
        assert(round_events(roots, betas) =~= Seq::empty());
    } else {
        lemma_round_events_push(roots.drop_first(), betas.drop_first(), root, beta);
        assert(roots.push(root).drop_first() =~= roots.drop_first().push(root));
        assert(betas.push(beta).drop_first() =~= betas.drop_first().push(beta));
    }
}


/// The verifier's replay draws the prover's challenges: two valid
/// transcripts that agree before the commit phase and absorb the same
/// roots squeeze the same folding challenges.
pub proof fn lemma_replay_matches_commit(
    h: PoseidonView,
    log: Seq<TranscriptEvent>,
    roots: Seq<int>,
    committed: Seq<int>,
    replayed: Seq<int>,
    p: int,
)
    requires
        roots.len() == committed.len(),
        roots.len() == replayed.len(),
        crate::transcript::log_valid(h, log + round_events(roots, committed), p),
        crate::transcript::log_valid(h, log + round_events(roots, replayed), p),
    ensures
        committed == replayed,
{
    lemma_round_events_replayed(h, log, roots, committed, p);
    lemma_round_events_replayed(h, log, roots, replayed, p);
}

/// Fiat-Shamir determinism: in a valid transcript log, the challenges that
/// follow the commit-phase roots are the ones the sponge gives, so a
/// verifier replaying the same roots on the same log draws the prover's
/// challenges and reaches the same log.
pub proof fn lemma_round_events_replayed(
    h: PoseidonView,
    log: Seq<TranscriptEvent>,
    roots: Seq<int>,
    betas: Seq<int>,
    p: int,
)
    requires
        roots.len() == betas.len(),
        crate::transcript::log_valid(h, log + round_events(roots, betas), p),
    ensures
        betas == crate::transcript::replayed_challenges(h, log, roots, p),
        log + round_events(roots, betas) == crate::transcript::replayed_log(h, log, roots, p),
    decreases roots.len(),
{
    if roots.len() == 0 {
        assert(round_events(roots, betas) =~= Seq::<TranscriptEvent>::empty());
        assert(log + Seq::<TranscriptEvent>::empty() =~= log);
        assert(betas =~= Seq::<int>::empty());
    } else {
        let l1 = log.push(TranscriptEvent::Absorbed(roots[0]));
        let l2 = l1.push(TranscriptEvent::Squeezed(betas[0]));
        let rest = round_events(roots.drop_first(), betas.drop_first());
        assert(log + round_events(roots, betas) =~= l2 + rest);
        crate::transcript::lemma_log_valid_prefix(h, l2, rest, p);
        assert(l2.drop_last() =~= l1);
        reveal(crate::transcript::log_valid);
        lemma_round_events_replayed(h, l2, roots.drop_first(), betas.drop_first(), p);
        assert(betas =~= seq![betas[0]] + betas.drop_first());
    }
}

/// Two openings that carry the same values and paths.
pub open spec fn same_round<F: Field>(a: FriRoundOpening<F>, b: FriRoundOpening<F>) -> bool {
    &&& a.value_a == b.value_a
    &&& a.value_b == b.value_b
    &&& a.path_a.leaf_index == b.path_a.leaf_index
    &&& a.path_a.siblings@ == b.path_a.siblings@
    &&& a.path_b.leaf_index == b.path_b.leaf_index
    &&& a.path_b.siblings@ == b.path_b.siblings@
}

/// Two lists of openings that agree entry by entry.
pub open spec fn same_rounds<F: Field>(a: Seq<FriRoundOpening<F>>, b: Seq<FriRoundOpening<F>>) -> bool {
    &&& a.len() == b.len()
    &&& forall|r: int| 0 <= r < a.len() ==> #[trigger] same_round(a[r], b[r])
}

fn copy_path<F: Field>(p: &MerklePath<F>) -> (r: MerklePath<F>)
    ensures
        r.leaf_index == p.leaf_index,
        r.siblings@ == p.siblings@,
{
    let mut siblings: Vec<F> = Vec::with_capacity(p.siblings.len());
    let mut i: usize = 0;
    while i < p.siblings.len()
        invariant
            i <= p.siblings@.len(),
            siblings@ == p.siblings@.subrange(0, i as int),
        decreases p.siblings@.len() - i,
    {
        siblings.push(p.siblings[i]);
        proof {
            assert(siblings@ =~= p.siblings@.subrange(0, i + 1));
        }
        i = i + 1;
    }
    proof {
        assert(siblings@ =~= p.siblings@);
    }
    MerklePath { leaf_index: p.leaf_index, siblings }
}

/// A copy of the openings of one query.
pub(crate) fn copy_rounds<F: Field>(v: &Vec<FriRoundOpening<F>>) -> (r: Vec<FriRoundOpening<F>>)
    ensures
        same_rounds(r@, v@),
{
    let mut out: Vec<FriRoundOpening<F>> = Vec::with_capacity(v.len());
    let mut i: usize = 0;
    while i < v.len()
        invariant
            i <= v@.len(),
            out@.len() == i,
            forall|j: int| 0 <= j < i ==> #[trigger] same_round(out@[j], v@[j]),
        decreases v@.len() - i,
    {
        let o = &v[i];
        out.push(FriRoundOpening {
            value_a: o.value_a,
            path_a: copy_path(&o.path_a),
            value_b: o.value_b,
            path_b: copy_path(&o.path_b),
        });
        i = i + 1;
    }
    out
}

/// A round's checks read the openings only through their values and paths.
proof fn lemma_round_ok_same<F: Field>(
    h: PoseidonView,
    roots: Seq<int>,
    betas: Seq<int>,
    coeffs: Seq<int>,
    offset: int,
    n: nat,
    idx: nat,
    a: Seq<FriRoundOpening<F>>,
    b: Seq<FriRoundOpening<F>>,
    r: int,
)
    requires
        same_rounds(a, b),
        a.len() == roots.len(),
        0 <= r < roots.len(),
    ensures
        round_ok::<F>(h, roots, betas, coeffs, offset, n, idx, a, r) == round_ok::<F>(h, roots, betas, coeffs, offset, n, idx, b, r),
{
    assert(same_round(a[r], b[r]));
    if r + 1 < roots.len() {
        assert(same_round(a[r + 1], b[r + 1]));
    }
}

/// The verdict depends on the openings only through their values and paths.
pub proof fn lemma_fri_accepts_same<F: Field>(
    h: PoseidonView,
    proof: FriCommitPhaseProof<F>,
    betas: Seq<int>,
    offset: int,
    n: nat,
    final_size: nat,
    num_coeffs: nat,
    indices: Seq<usize>,
    a: Seq<Vec<FriRoundOpening<F>>>,
    b: Seq<Vec<FriRoundOpening<F>>>,
)
    requires
        a.len() == b.len(),
        forall|q: int| 0 <= q < a.len() ==> #[trigger] same_rounds(a[q]@, b[q]@),
    ensures
        fri_accepts::<F>(h, proof, betas, offset, n, final_size, num_coeffs, indices, a) == fri_accepts::<F>(
            h,
            proof,
            betas,
            offset,
            n,
            final_size,
            num_coeffs,
            indices,
            b,
        ),
{
    let roots = vals(proof.layer_roots@);
    let coeffs = vals(proof.final_poly_coeffs@);
    assert forall|q: int| 0 <= q < a.len() implies (#[trigger] a[q])@.len() == b[q]@.len() by {
        assert(same_rounds(a[q]@, b[q]@));
    }
    if fri_accepts::<F>(h, proof, betas, offset, n, final_size, num_coeffs, indices, a) {
        assert forall|q: int, r: int| 0 <= q < b.len() && 0 <= r < roots.len() implies #[trigger] round_ok::<F>(
            h,
            roots,
            betas,
            coeffs,
            offset,
            n,
            indices[q] as nat,
            b[q]@,
            r,
        ) by {
            assert(round_ok::<F>(h, roots, betas, coeffs, offset, n, indices[q] as nat, a[q]@, r));
            assert(a[q]@.len() == roots.len());
            lemma_round_ok_same::<F>(h, roots, betas, coeffs, offset, n, indices[q] as nat, a[q]@, b[q]@, r);
        }
        assert forall|q: int| 0 <= q < b.len() implies (#[trigger] b[q])@.len() == roots.len() by {
            assert(a[q]@.len() == roots.len());
            assert(a[q]@.len() == b[q]@.len());
        }
    }
    if fri_accepts::<F>(h, proof, betas, offset, n, final_size, num_coeffs, indices, b) {
        assert forall|q: int, r: int| 0 <= q < a.len() && 0 <= r < roots.len() implies #[trigger] round_ok::<F>(
            h,
            roots,
            betas,
            coeffs,
            offset,
            n,
            indices[q] as nat,
            a[q]@,
            r,
        ) by {
            assert(round_ok::<F>(h, roots, betas, coeffs, offset, n, indices[q] as nat, b[q]@, r));
            assert(b[q]@.len() == roots.len());
            assert(a[q]@.len() == b[q]@.len());
            lemma_round_ok_same::<F>(h, roots, betas, coeffs, offset, n, indices[q] as nat, a[q]@, b[q]@, r);
        }
        assert forall|q: int| 0 <= q < a.len() implies (#[trigger] a[q])@.len() == roots.len() by {
            assert(b[q]@.len() == roots.len());
            assert(a[q]@.len() == b[q]@.len());
        }
    }
}

} // verus!
