//! Merkle trees over field elements, hashed with Poseidon.

use vstd::prelude::*;
use crate::field::{Field, vals};
use crate::fft::is_pow2_len;
use crate::poseidon::{Poseidon, PoseidonView, hash_two_spec, hash_many_spec};
use crate::poly::lemma_vals_push;

verus! {

/// An authentication path: the leaf's index and the sibling hashes from
/// the leaf level up to just below the root.
#[derive(Debug, Clone, PartialEq, Eq)]
pub struct MerklePath<F: Field> {
    pub leaf_index: usize,
    pub siblings: Vec<F>,
}

/// The node hash of a left and a right child.
pub open spec fn node_hash(h: PoseidonView, left: int, right: int, p: int) -> int {
    hash_two_spec(h, left, right, p)
}

/// The root reached by hashing `current` (at position `index`) up
/// through the given siblings.
pub open spec fn path_root(h: PoseidonView, current: int, index: nat, siblings: Seq<int>, p: int) -> int
    decreases siblings.len(),
{
    if siblings.len() == 0 {
        current
    } else {
        let next = if index % 2 == 0 {
            node_hash(h, current, siblings[0], p)
        } else {
            node_hash(h, siblings[0], current, p)
        };
        path_root(h, next, index / 2, siblings.drop_first(), p)
    }
}

impl<F: Field> MerklePath<F> {
    /// Does hashing `leaf_hash` up the path give `root`?
    pub fn verify(&self, hasher: &Poseidon<F>, root: F, leaf_hash: F) -> (r: bool)
        ensures
            r == (path_root(hasher@, leaf_hash.val(), self.leaf_index as nat, vals(self.siblings@), F::p())
                == root.val()),
    {
        let mut current = leaf_hash;
        let mut index = self.leaf_index;
        let n = self.siblings.len();
        let mut k: usize = 0;
        proof {
            assert(vals(self.siblings@).subrange(0, n as int) =~= vals(self.siblings@));
        }
        while k < n
            invariant
                k <= n,
                n == self.siblings@.len(),
                path_root(hasher@, current.val(), index as nat, vals(self.siblings@).subrange(k as int, n as int), F::p())
                    == path_root(hasher@, leaf_hash.val(), self.leaf_index as nat, vals(self.siblings@), F::p()),
            decreases n - k,
        {
            let sibling = self.siblings[k];
            let ghost rest = vals(self.siblings@).subrange(k as int, n as int);
            proof {
                assert(rest[0] == sibling.val());
                assert(rest.drop_first() =~= vals(self.siblings@).subrange(k + 1, n as int));
            }
            current = if index % 2 == 0 {
                hasher.hash_two(current, sibling)
            } else {
                hasher.hash_two(sibling, current)
            };
            index = index / 2;
            k = k + 1;
        }
        proof {
            assert(vals(self.siblings@).subrange(n as int, n as int) =~= Seq::<int>::empty());
        }
        current.feq(&root)
    }
}

/// The layers as plain values, and the hasher that built them.
pub struct MerkleTreeView {
    pub layers: Seq<Seq<int>>,
    pub hasher: PoseidonView,
}

/// Each layer hashes the pairs of the layer below, down to a single root;
/// the leaf layer is a nonzero power of two wide.
pub open spec fn layers_wf(layers: Seq<Seq<int>>, h: PoseidonView, p: int) -> bool {
    &&& layers.len() >= 1
    &&& is_pow2_len(layers[0].len())
    &&& layers[0].len() > 0
    &&& layers.last().len() == 1
    &&& forall|k: int| 0 <= k < layers.len() - 1 ==> #[trigger] layers[k].len() == 2 * layers[k + 1].len()
    &&& forall|k: int, i: int|
        0 <= k < layers.len() - 1 && 0 <= i < layers[k + 1].len() ==> #[trigger] layers[k + 1][i] == node_hash(
            h,
            layers[k][2 * i],
            layers[k][2 * i + 1],
            p,
        )
}

/// The layers of a Merkle tree over `leaves`: the pairs of each layer are
/// hashed into the next, until one node is left.
pub struct MerkleTree<F: Field> {
    layers: Vec<Vec<F>>,
    hasher_view: Ghost<PoseidonView>,
}

/// The index of the sibling of node `x`.
pub open spec fn sibling_index(x: nat) -> nat {
    if x % 2 == 0 {
        x + 1
    } else {
        (x - 1) as nat
    }
}

/// The index at level `k` of the ancestor of leaf `i`.
pub open spec fn ancestor(i: nat, k: nat) -> nat
    decreases k,
{
    if k == 0 {
        i
    } else {
        ancestor(i, (k - 1) as nat) / 2
    }
}

impl<F: Field> View for MerkleTree<F> {
    type V = MerkleTreeView;

    closed spec fn view(&self) -> MerkleTreeView {
        MerkleTreeView { layers: self.layers@.map_values(|l: Vec<F>| vals(l@)), hasher: self.hasher_view@ }
    }
}

/// The hash of a single value as a leaf.
pub fn hash_leaf<F: Field>(hasher: &Poseidon<F>, value: F) -> (r: F)
    ensures
        r.val() == hash_many_spec(hasher@, seq![value.val()], F::p()),
{
    let v = vec![value];
    proof {
        assert(vals(v@) =~= seq![value.val()]);
    }
    hasher.hash_many(v.as_slice())
}

/// Pairs of children hashed into their parents.
fn hash_pairs<F: Field>(hasher: &Poseidon<F>, prev: &Vec<F>) -> (r: Vec<F>)
    requires
        prev@.len() % 2 == 0,
    ensures
        r@.len() * 2 == prev@.len(),
        forall|i: int| 0 <= i < r@.len() ==> #[trigger] vals(r@)[i] == node_hash(
            hasher@,
            vals(prev@)[2 * i],
            vals(prev@)[2 * i + 1],
            F::p(),
        ),
{
    let half = prev.len() / 2;
    let mut next: Vec<F> = Vec::with_capacity(half);
    let mut i: usize = 0;
    while i < half
        invariant
            i <= half,
            half * 2 == prev@.len(),
            next@.len() == i,
            forall|j: int| 0 <= j < i ==> #[trigger] vals(next@)[j] == node_hash(
                hasher@,
                vals(prev@)[2 * j],
                vals(prev@)[2 * j + 1],
                F::p(),
            ),
        decreases half - i,
    {
        assert(2 * i + 1 < prev.len());
        let h = hasher.hash_two(prev[2 * i], prev[2 * i + 1]);
        let ghost before = next@;
        next.push(h);
        proof {
            lemma_vals_push(before, h);
        }
        i = i + 1;
    }
    next
}

impl<F: Field> MerkleTree<F> {
    #[verifier::type_invariant]
    spec fn wf(self) -> bool {
        layers_wf(self.layers@.map_values(|l: Vec<F>| vals(l@)), self.hasher_view@, F::p())
    }

    /// The tree is well formed.
    pub fn check_wf(&self)
        ensures
            layers_wf(self@.layers, self@.hasher, F::p()),
    {
        proof {
            use_type_invariant(self);
        }
    }

    /// The tree over the given leaf hashes, whose number must be a nonzero
    /// power of two.
    pub fn build(hasher: &Poseidon<F>, leaf_hashes: &[F]) -> (r: Self)
        requires
            is_pow2_len(leaf_hashes@.len()),
            leaf_hashes@.len() > 0,
        ensures
            r@.hasher == hasher@,
            r@.layers[0] == vals(leaf_hashes@),
            layers_wf(r@.layers, r@.hasher, F::p()),
    {
        let first = crate::poly::copy_vec(leaf_hashes);
        let mut layers: Vec<Vec<F>> = Vec::new();
        layers.push(first);
        let ghost h = hasher@;
        proof {
            lemma_pow2_halving(leaf_hashes@.len());
        }
        while layers[layers.len() - 1].len() > 1
            invariant
                layers@.len() >= 1,
                layers@[0]@ == leaf_hashes@,
                h == hasher@,
                is_pow2_len(layers@.last()@.len()),
                layers@.last()@.len() > 0,
                layers@.last()@.len() <= leaf_hashes@.len(),
                forall|k: int| 0 <= k < layers@.len() - 1 ==> #[trigger] layers@[k]@.len() == 2 * layers@[k + 1]@.len(),
                forall|k: int, i: int|
                    0 <= k < layers@.len() - 1 && 0 <= i < layers@[k + 1]@.len() ==> #[trigger] vals(layers@[k + 1]@)[i]
                        == node_hash(h, vals(layers@[k]@)[2 * i], vals(layers@[k]@)[2 * i + 1], F::p()),
            decreases layers@.last()@.len(),
        {
            let prev = &layers[layers.len() - 1];
            proof {
                lemma_pow2_halving(prev@.len());
            }
            let next = hash_pairs(hasher, prev);
            proof {
                lemma_pow2_half(prev@.len());
            }
            let ghost before = layers@;
            layers.push(next);
            proof {
                assert(layers@[0] == before[0]);
                assert forall|k: int| 0 <= k < layers@.len() - 1 implies #[trigger] layers@[k]@.len() == 2 * layers@[k + 1]@.len() by {
                    if k < before.len() - 1 {
                        assert(layers@[k] == before[k] && layers@[k + 1] == before[k + 1]);
                    }
                }
                assert forall|k: int, i: int|
                    0 <= k < layers@.len() - 1 && 0 <= i < layers@[k + 1]@.len() implies #[trigger] vals(layers@[k + 1]@)[i]
                        == node_hash(h, vals(layers@[k]@)[2 * i], vals(layers@[k]@)[2 * i + 1], F::p()) by {
                    if k < before.len() - 1 {
                        assert(layers@[k] == before[k] && layers@[k + 1] == before[k + 1]);
                    } else {
                        assert(layers@[k] == before.last());
                    }
                }
            }
        }
        let r = MerkleTree { layers, hasher_view: Ghost(hasher@) };
        proof {
            let lv = r.layers@.map_values(|l: Vec<F>| vals(l@));
            assert forall|k: int| 0 <= k < lv.len() - 1 implies #[trigger] lv[k].len() == 2 * lv[k + 1].len() by {
                assert(lv[k] == vals(r.layers@[k]@));
                assert(lv[k + 1] == vals(r.layers@[k + 1]@));
            }
            assert forall|k: int, i: int|
                0 <= k < lv.len() - 1 && 0 <= i < lv[k + 1].len() implies #[trigger] lv[k + 1][i] == node_hash(
                    h,
                    lv[k][2 * i],
                    lv[k][2 * i + 1],
                    F::p(),
                ) by {
                assert(lv[k] == vals(r.layers@[k]@));
                assert(lv[k + 1] == vals(r.layers@[k + 1]@));
            }
            assert(lv.last() == vals(r.layers@.last()@));
            assert(lv[0] == vals(leaf_hashes@));
        }
        r
    }

    /// The tree whose leaves are the leaf hashes of `values`.
    pub fn from_values(hasher: &Poseidon<F>, values: &[F]) -> (r: Self)
        requires
            is_pow2_len(values@.len()),
            values@.len() > 0,
        ensures
            r@.hasher == hasher@,
            r@.layers[0].len() == values@.len(),
            forall|i: int| 0 <= i < values@.len() ==> #[trigger] r@.layers[0][i] == hash_many_spec(
                hasher@,
                seq![values@[i].val()],
                F::p(),
            ),
            layers_wf(r@.layers, r@.hasher, F::p()),
    {
        let n = values.len();
        let mut leaves: Vec<F> = Vec::with_capacity(n);
        let mut i: usize = 0;
        while i < n
            invariant
                i <= n,
                n == values@.len(),
                leaves@.len() == i,
                forall|j: int| 0 <= j < i ==> #[trigger] vals(leaves@)[j] == hash_many_spec(
                    hasher@,
                    seq![values@[j].val()],
                    F::p(),
                ),
            decreases n - i,
        {
            let h = hash_leaf(hasher, values[i]);
            let ghost before = leaves@;
            leaves.push(h);
            proof {
                lemma_vals_push(before, h);
            }
            i = i + 1;
        }
        Self::build(hasher, leaves.as_slice())
    }

    /// The tree whose leaves are the sponge hashes of the rows.
    pub fn from_rows(hasher: &Poseidon<F>, rows: &[Vec<F>]) -> (r: Self)
        requires
            is_pow2_len(rows@.len()),
            rows@.len() > 0,
        ensures
            r@.hasher == hasher@,
            r@.layers[0].len() == rows@.len(),
            forall|i: int| 0 <= i < rows@.len() ==> #[trigger] r@.layers[0][i] == hash_many_spec(
                hasher@,
                vals(rows@[i]@),
                F::p(),
            ),
            layers_wf(r@.layers, r@.hasher, F::p()),
    {
        let n = rows.len();
        let mut leaves: Vec<F> = Vec::with_capacity(n);
        let mut i: usize = 0;
        while i < n
            invariant
                i <= n,
                n == rows@.len(),
                leaves@.len() == i,
                forall|j: int| 0 <= j < i ==> #[trigger] vals(leaves@)[j] == hash_many_spec(
                    hasher@,
                    vals(rows@[j]@),
                    F::p(),
                ),
            decreases n - i,
        {
            let h = hasher.hash_many(rows[i].as_slice());
            let ghost before = leaves@;
            leaves.push(h);
            proof {
                lemma_vals_push(before, h);
            }
            i = i + 1;
        }
        Self::build(hasher, leaves.as_slice())
    }

    /// The root hash.
    pub fn root(&self) -> (r: F)
        ensures
            r.val() == self@.layers.last()[0],
    {
        proof {
            use_type_invariant(self);
            assert(self@.layers.last() == vals(self.layers@.last()@));
        }
        let last = &self.layers[self.layers.len() - 1];
        last[0]
    }

    /// The number of leaves.
    pub fn num_leaves(&self) -> (r: usize)
        ensures
            r == self@.layers[0].len(),
    {
        proof {
            use_type_invariant(self);
            assert(self@.layers[0] == vals(self.layers@[0]@));
        }
        self.layers[0].len()
    }

    /// The authentication path of leaf `index`.
    #[verifier::spinoff_prover]
    #[verifier::rlimit(30)]
    pub fn open(&self, index: usize) -> (r: MerklePath<F>)
        requires
            index < self@.layers[0].len(),
        ensures
            r.leaf_index == index,
            r.siblings@.len() == self@.layers.len() - 1,
            forall|k: int| 0 <= k < r.siblings@.len() ==> #[trigger] vals(r.siblings@)[k] == self@.layers[k][sibling_index(
                ancestor(index as nat, k as nat),
            ) as int],
    {
        proof {
            use_type_invariant(self);
        }
        let ghost lv = self@.layers;
        let nl = self.layers.len();
        let mut siblings: Vec<F> = Vec::with_capacity(nl - 1);
        let mut idx = index;
        let mut k: usize = 0;
        proof {
            lemma_ancestor_in_range(lv, index as nat, 0, F::p(), self@.hasher);
        }
        while k + 1 < nl
            invariant
                nl == self.layers@.len(),
                nl == lv.len(),
                lv == self@.layers,
                layers_wf(lv, self@.hasher, F::p()),
                index < lv[0].len(),
                k + 1 <= nl,
                idx == ancestor(index as nat, k as nat),
                idx < lv[k as int].len(),
                siblings@.len() == k,
                forall|j: int| 0 <= j < k ==> #[trigger] vals(siblings@)[j] == lv[j][sibling_index(
                    ancestor(index as nat, j as nat),
                ) as int],
            decreases nl - k,
        {
            let layer = &self.layers[k];
            proof {
                assert(lv[k as int] == vals(layer@));
                assert(lv[k as int].len() == 2 * lv[k + 1].len());
            }
            let sib = if idx % 2 == 0 { idx + 1 } else { idx - 1 };
            let s = layer[sib];
            let ghost before = siblings@;
            siblings.push(s);
            proof {
                lemma_vals_push(before, s);
            }
            idx = idx / 2;
            k = k + 1;
            proof {
                lemma_ancestor_in_range(lv, index as nat, k as nat, F::p(), self@.hasher);
            }
        }
        MerklePath { leaf_index: index, siblings }
    }
}

/// A power of two above one is even, and its half is a power of two.
pub proof fn lemma_pow2_halving(n: nat)
    requires
        is_pow2_len(n),
    ensures
        n > 1 ==> n % 2 == 0,
{
    let k = choose|k: nat| vstd::arithmetic::power2::pow2(k) == n;
    if n > 1 && k > 0 {
        vstd::arithmetic::power2::lemma_pow2_unfold(k);
    } else if n > 1 {
        vstd::arithmetic::power2::lemma2_to64();
    }
}

pub proof fn lemma_pow2_half(n: nat)
    requires
        is_pow2_len(n),
        n > 1,
    ensures
        is_pow2_len(n / 2),
        n / 2 > 0,
        n / 2 < n,
{
    let k = choose|k: nat| vstd::arithmetic::power2::pow2(k) == n;
    if k == 0 {
        vstd::arithmetic::power2::lemma2_to64();
    } else {
        vstd::arithmetic::power2::lemma_pow2_unfold(k);
        assert(vstd::arithmetic::power2::pow2((k - 1) as nat) == n / 2);
    }
}

/// A well-formed tree over `2^m` leaves has `m + 1` levels.
pub proof fn lemma_layers_count(layers: Seq<Seq<int>>, h: PoseidonView, p: int, m: nat)
    requires
        layers_wf(layers, h, p),
        layers[0].len() == vstd::arithmetic::power2::pow2(m),
    ensures
        layers.len() == m + 1,
{
    let last = (layers.len() - 1) as nat;
    assert forall|k: nat| k <= last implies #[trigger] layers[k as int].len() * vstd::arithmetic::power2::pow2(k)
        == layers[0].len() by {
        lemma_level_len(layers, h, p, k);
    }
    assert(layers[last as int].len() * vstd::arithmetic::power2::pow2(last) == layers[0].len());
    assert(vstd::arithmetic::power2::pow2(last) == vstd::arithmetic::power2::pow2(m));
    if last < m {
        vstd::arithmetic::power2::lemma_pow2_strictly_increases(last, m);
    } else if last > m {
        vstd::arithmetic::power2::lemma_pow2_strictly_increases(m, last);
    }
}

/// Two well-formed trees under one hasher over the same leaves are the
/// same tree, and so have the same root.
pub proof fn lemma_tree_determined_by_leaves(a: Seq<Seq<int>>, b: Seq<Seq<int>>, h: PoseidonView, p: int)
    requires
        layers_wf(a, h, p),
        layers_wf(b, h, p),
        a[0] == b[0],
    ensures
        a == b,
        a.last()[0] == b.last()[0],
{
    let m = choose|e: nat| vstd::arithmetic::power2::pow2(e) == a[0].len();
    lemma_layers_count(a, h, p, m);
    lemma_layers_count(b, h, p, m);
    assert forall|k: nat| k < a.len() implies #[trigger] a[k as int] == b[k as int] by {
        lemma_levels_equal(a, b, h, p, k);
    }
    assert(a =~= b);
}

/// Level by level, two well-formed trees over the same leaves agree.
proof fn lemma_levels_equal(a: Seq<Seq<int>>, b: Seq<Seq<int>>, h: PoseidonView, p: int, k: nat)
    requires
        layers_wf(a, h, p),
        layers_wf(b, h, p),
        a[0] == b[0],
        a.len() == b.len(),
        k < a.len(),
    ensures
        a[k as int] == b[k as int],
    decreases k,
{
    if k > 0 {
        lemma_levels_equal(a, b, h, p, (k - 1) as nat);
        assert(a[k - 1].len() == 2 * a[k as int].len());
        assert(b[k - 1].len() == 2 * b[k as int].len());
        assert forall|i: int| 0 <= i < a[k as int].len() implies #[trigger] a[k as int][i] == b[k as int][i] by {
            assert(a[k as int][i] == node_hash(h, a[k - 1][2 * i], a[k - 1][2 * i + 1], p));
            assert(b[k as int][i] == node_hash(h, b[k - 1][2 * i], b[k - 1][2 * i + 1], p));
        }
        assert(a[k as int] =~= b[k as int]);
    }
}

/// Level `k` of a well-formed tree is `2^k` times smaller than the leaves.
proof fn lemma_level_len(layers: Seq<Seq<int>>, h: PoseidonView, p: int, k: nat)
    requires
        layers_wf(layers, h, p),
        k < layers.len(),
    ensures
        layers[k as int].len() * vstd::arithmetic::power2::pow2(k) == layers[0].len(),
    decreases k,
{
    if k == 0 {
        vstd::arithmetic::power2::lemma2_to64();
        assert(layers[0].len() * 1 == layers[0].len());
    } else {
        lemma_level_len(layers, h, p, (k - 1) as nat);
        vstd::arithmetic::power2::lemma_pow2_unfold(k);
        assert(layers[k - 1].len() == 2 * layers[k as int].len());
        let a = layers[k as int].len() as int;
        let b = vstd::arithmetic::power2::pow2((k - 1) as nat) as int;
        assert(vstd::arithmetic::power2::pow2(k) == 2 * b);
        assert((2 * a) * b == a * (2 * b)) by (nonlinear_arith);
        assert(layers[k - 1].len() * vstd::arithmetic::power2::pow2((k - 1) as nat) == (2 * a) * b);
        assert(a * vstd::arithmetic::power2::pow2(k) == a * (2 * b));
    }
}

/// The ancestor of an in-range leaf at every level is in range.
proof fn lemma_ancestor_in_range(layers: Seq<Seq<int>>, i: nat, k: nat, p: int, h: PoseidonView)
    requires
        layers_wf(layers, h, p),
        i < layers[0].len(),
        k < layers.len(),
    ensures
        ancestor(i, k) < layers[k as int].len(),
    decreases k,
{
    if k > 0 {
        lemma_ancestor_in_range(layers, i, (k - 1) as nat, p, h);
        assert(layers[k - 1].len() == 2 * layers[k as int].len());
    }
}

/// Hashing a leaf up its path from level `k` reaches the root.
proof fn lemma_path_from_level(layers: Seq<Seq<int>>, h: PoseidonView, p: int, i: nat, k: nat, sibs: Seq<int>)
    requires
        layers_wf(layers, h, p),
        i < layers[0].len(),
        k < layers.len(),
        sibs.len() == layers.len() - 1,
        forall|j: int| 0 <= j < sibs.len() ==> #[trigger] sibs[j] == layers[j][sibling_index(ancestor(i, j as nat)) as int],
    ensures
        path_root(h, layers[k as int][ancestor(i, k) as int], ancestor(i, k), sibs.subrange(k as int, sibs.len() as int), p)
            == layers.last()[0],
    decreases layers.len() - k,
{
    let a = ancestor(i, k);
    lemma_ancestor_in_range(layers, i, k, p, h);
    let rest = sibs.subrange(k as int, sibs.len() as int);
    if k + 1 == layers.len() {
        assert(rest.len() == 0);
        assert(layers[k as int].len() == 1);
    } else {
        lemma_path_from_level(layers, h, p, i, k + 1, sibs);
        assert(rest.drop_first() =~= sibs.subrange((k + 1) as int, sibs.len() as int));
        assert(rest[0] == sibs[k as int]);
        assert(ancestor(i, k + 1) == a / 2);
        assert(layers[k as int].len() == 2 * layers[(k + 1) as int].len());
        if a % 2 == 0 {
            assert(layers[(k + 1) as int][(a / 2) as int] == node_hash(h, layers[k as int][a as int], layers[k as int][(a + 1) as int], p));
        } else {
            assert(layers[(k + 1) as int][(a / 2) as int] == node_hash(h, layers[k as int][(a - 1) as int], layers[k as int][a as int], p));
        }
    }
}

/// Completeness of Merkle openings: the path that `open` returns for leaf
/// `i` verifies against the root, with that leaf's hash, under the hasher
/// that built the tree.
pub proof fn lemma_open_verifies(t: MerkleTreeView, i: nat, sibs: Seq<int>, p: int)
    requires
        layers_wf(t.layers, t.hasher, p),
        i < t.layers[0].len(),
        sibs.len() == t.layers.len() - 1,
        forall|j: int| 0 <= j < sibs.len() ==> #[trigger] sibs[j] == t.layers[j][sibling_index(ancestor(i, j as nat)) as int],
    ensures
        path_root(t.hasher, t.layers[0][i as int], i, sibs, p) == t.layers.last()[0],
{
    lemma_path_from_level(t.layers, t.hasher, p, i, 0, sibs);
    assert(sibs.subrange(0, sibs.len() as int) =~= sibs);
}

} // verus!
