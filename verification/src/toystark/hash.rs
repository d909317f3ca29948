//! A 64-bit mixing hash and Merkle trees over it.

use vstd::prelude::*;
use crate::fft::is_pow2_len;
use crate::merkle::{sibling_index, ancestor, lemma_pow2_halving, lemma_pow2_half};

verus! {

/// The splitmix64 finalizer.
#[verifier::opaque]
pub open spec fn mix64_spec(x: u64) -> u64 {
    let x1 = x ^ (x >> 30u64);
    let x2 = x1.wrapping_mul(0xbf58476d1ce4e5b9u64);
    let x3 = x2 ^ (x2 >> 27u64);
    let x4 = x3.wrapping_mul(0x94d049bb133111ebu64);
    x4 ^ (x4 >> 31u64)
}

/// The hash of a leaf value.
#[verifier::opaque]
pub open spec fn leaf_hash(value: u64) -> u64 {
    mix64_spec(value ^ 0x9E37_79B9_7F4A_7C15u64)
}

/// `x` rotated left by 17 bits.
pub open spec fn rotl17(x: u64) -> u64 {
    (x << 17u64) | (x >> 47u64)
}

/// The hash of an inner node from its two children.
#[verifier::opaque]
pub open spec fn pair_hash(left: u64, right: u64) -> u64 {
    mix64_spec(rotl17(left) ^ mix64_spec(right))
}

fn mix64(x: u64) -> (r: u64)
    ensures
        r == mix64_spec(x),
{
    let mut x = x;
    x = x ^ (x >> 30u64);
    x = x.wrapping_mul(0xbf58476d1ce4e5b9);
    x = x ^ (x >> 27u64);
    x = x.wrapping_mul(0x94d049bb133111eb);
    x = x ^ (x >> 31u64);
    proof {
        reveal(mix64_spec);
    }
    x
}

/// The hash of a leaf holding `value`.
pub fn hash_leaf(value: u64) -> (r: u64)
    ensures
        r == leaf_hash(value),
{
    proof {
        reveal(leaf_hash);
    }
    mix64(value ^ 0x9E37_79B9_7F4A_7C15)
}

/// The hash of a node with children `left` and `right`.
pub fn hash_pair(left: u64, right: u64) -> (r: u64)
    ensures
        r == pair_hash(left, right),
{
    let rot = (left << 17u64) | (left >> 47u64);
    proof {
        reveal(pair_hash);
    }
    mix64(rot ^ mix64(right))
}

/// The root reached by hashing `current` (at position `index`) up through
/// the given siblings.
pub open spec fn path_root(current: u64, index: nat, siblings: Seq<u64>) -> u64
    decreases siblings.len(),
{
    if siblings.len() == 0 {
        current
    } else {
        let next = if index % 2 == 0 {
            pair_hash(current, siblings[0])
        } else {
            pair_hash(siblings[0], current)
        };
        path_root(next, index / 2, siblings.drop_first())
    }
}

/// An authentication path: the leaf's index and the sibling hashes from the
/// leaf level up to just below the root.
#[derive(PartialEq, Debug, Clone, Eq)]
pub struct MerklePath {
    pub leaf_index: usize,
    pub siblings: Vec<u64>,
}

impl MerklePath {
    /// Does hashing `leaf_hash` up the path give `root`?
    pub fn verify(&self, root: u64, leaf_hash: u64) -> (r: bool)
        ensures
            r == (path_root(leaf_hash, self.leaf_index as nat, self.siblings@) == root),
    {
        let mut current = leaf_hash;
        let mut index = self.leaf_index;
        let n = self.siblings.len();
        let mut k: usize = 0;
        proof {
            assert(self.siblings@.subrange(0, n as int) =~= self.siblings@);
        }
        while k < n
            invariant
                k <= n,
                n == self.siblings@.len(),
                path_root(current, index as nat, self.siblings@.subrange(k as int, n as int))
                    == path_root(leaf_hash, self.leaf_index as nat, self.siblings@),
            decreases n - k,
        {
            let sibling = self.siblings[k];
            proof {
                let rest = self.siblings@.subrange(k as int, n as int);
                assert(rest[0] == sibling);
                assert(rest.drop_first() =~= self.siblings@.subrange(k + 1, n as int));
            }
            current = if index % 2 == 0 {
                hash_pair(current, sibling)
            } else {
                hash_pair(sibling, current)
            };
            index = index / 2;
            k = k + 1;
        }
        proof {
            assert(self.siblings@.subrange(n as int, n as int) =~= Seq::<u64>::empty());
        }
        root == current
    }
}

/// Each layer hashes the pairs of the layer below, down to a single root;
/// the leaf layer is a nonzero power of two wide.
pub open spec fn hash_layers_wf(layers: Seq<Seq<u64>>) -> bool {
    &&& layers.len() >= 1
    &&& is_pow2_len(layers[0].len())
    &&& layers[0].len() > 0
    &&& layers.last().len() == 1
    &&& forall|k: int| 0 <= k < layers.len() - 1 ==> #[trigger] layers[k].len() == 2 * layers[k + 1].len()
    &&& forall|k: int, i: int|
        0 <= k < layers.len() - 1 && 0 <= i < layers[k + 1].len() ==> #[trigger] layers[k + 1][i] == pair_hash(
            layers[k][2 * i],
            layers[k][2 * i + 1],
        )
}

/// A Merkle tree of 64-bit hashes, kept layer by layer.
#[derive(Debug)]
pub struct MerkleTree {
    layers: Vec<Vec<u64>>,
}

/// The layers as sequences.
pub open spec fn hash_layer_seqs(layers: Seq<Vec<u64>>) -> Seq<Seq<u64>> {
    layers.map_values(|l: Vec<u64>| l@)
}

impl View for MerkleTree {
    type V = Seq<Seq<u64>>;

    closed spec fn view(&self) -> Seq<Seq<u64>> {
        hash_layer_seqs(self.layers@)
    }
}

fn hash_pairs(prev: &Vec<u64>) -> (r: Vec<u64>)
    requires
        prev@.len() % 2 == 0,
    ensures
        r@.len() * 2 == prev@.len(),
        forall|i: int| 0 <= i < r@.len() ==> #[trigger] r@[i] == pair_hash(prev@[2 * i], prev@[2 * i + 1]),
{
    let half = prev.len() / 2;
    let mut next: Vec<u64> = Vec::with_capacity(half);
    let mut i: usize = 0;
    while i < half
        invariant
            i <= half,
            half * 2 == prev@.len(),
            next@.len() == i,
            forall|j: int| 0 <= j < i ==> #[trigger] next@[j] == pair_hash(prev@[2 * j], prev@[2 * j + 1]),
        decreases half - i,
    {
        assert(2 * i + 1 < prev.len());
        let h = hash_pair(prev[2 * i], prev[2 * i + 1]);
        next.push(h);
        i = i + 1;
    }
    next
}

impl MerkleTree {
    #[verifier::type_invariant]
    spec fn wf(self) -> bool {
        hash_layers_wf(hash_layer_seqs(self.layers@))
    }

    /// Every tree is well formed.
    pub fn check_wf(&self)
        ensures
            hash_layers_wf(self@),
    {
        proof {
            use_type_invariant(self);
        }
    }

    /// Builds the tree over the given leaf hashes.
    pub fn build(leaf_hashes: &[u64]) -> (r: Self)
        requires
            is_pow2_len(leaf_hashes@.len()),
            leaf_hashes@.len() > 0,
        ensures
            r@[0] == leaf_hashes@,
            hash_layers_wf(r@),
    {
        let mut first: Vec<u64> = Vec::with_capacity(leaf_hashes.len());
        let mut c: usize = 0;
        while c < leaf_hashes.len()
            invariant
                c <= leaf_hashes@.len(),
                first@ == leaf_hashes@.subrange(0, c as int),
            decreases leaf_hashes@.len() - c,
        {
            first.push(leaf_hashes[c]);
            proof {
                assert(first@ =~= leaf_hashes@.subrange(0, c + 1));
            }
            c = c + 1;
        }
        proof {
            assert(first@ =~= leaf_hashes@);
        }
        let mut layers: Vec<Vec<u64>> = Vec::new();
        layers.push(first);
        proof {
            lemma_pow2_halving(leaf_hashes@.len());
        }
        while layers[layers.len() - 1].len() > 1
            invariant
                layers@.len() >= 1,
                layers@[0]@ == leaf_hashes@,
                is_pow2_len(layers@.last()@.len()),
                layers@.last()@.len() > 0,
                forall|k: int| 0 <= k < layers@.len() - 1 ==> #[trigger] layers@[k]@.len() == 2 * layers@[k + 1]@.len(),
                forall|k: int, i: int|
                    0 <= k < layers@.len() - 1 && 0 <= i < layers@[k + 1]@.len() ==> #[trigger] layers@[k + 1]@[i]
                        == pair_hash(layers@[k]@[2 * i], layers@[k]@[2 * i + 1]),
            decreases layers@.last()@.len(),
        {
            let prev = &layers[layers.len() - 1];
            proof {
                lemma_pow2_halving(prev@.len());
            }
            let next = hash_pairs(prev);
            proof {
                lemma_pow2_half(prev@.len());
            }
            let ghost before = layers@;
            layers.push(next);
            proof {
                assert(layers@[0] == before[0]);
                assert forall|k: int| 0 <= k < layers@.len() - 1 implies #[trigger] layers@[k]@.len() == 2 * layers@[k + 1]@.len() by {
                    if k < before.len() - 1 {
                        assert(layers@[k] == before[k] && layers@[k + 1] == before[k + 1]);
                    }
                }
                assert forall|k: int, i: int|
                    0 <= k < layers@.len() - 1 && 0 <= i < layers@[k + 1]@.len() implies #[trigger] layers@[k + 1]@[i]
                        == pair_hash(layers@[k]@[2 * i], layers@[k]@[2 * i + 1]) by {
                    if k < before.len() - 1 {
                        assert(layers@[k] == before[k] && layers@[k + 1] == before[k + 1]);
                    } else {
                        assert(layers@[k] == before.last());
                    }
                }
            }
        }
        let r = MerkleTree { layers };
        proof {
            let lv = hash_layer_seqs(r.layers@);
            assert forall|k: int| 0 <= k < lv.len() - 1 implies #[trigger] lv[k].len() == 2 * lv[k + 1].len() by {
                assert(lv[k] == r.layers@[k]@);
                assert(lv[k + 1] == r.layers@[k + 1]@);
            }
            assert forall|k: int, i: int|
                0 <= k < lv.len() - 1 && 0 <= i < lv[k + 1].len() implies #[trigger] lv[k + 1][i] == pair_hash(
                    lv[k][2 * i],
                    lv[k][2 * i + 1],
                ) by {
                assert(lv[k] == r.layers@[k]@);
                assert(lv[k + 1] == r.layers@[k + 1]@);
            }
            assert(lv.last() == r.layers@.last()@);
            assert(lv[0] == leaf_hashes@);
        }
        r
    }

    /// The tree over the leaf hashes of `values`.
    pub fn from_values(values: &[u64]) -> (r: Self)
        requires
            is_pow2_len(values@.len()),
            values@.len() > 0,
        ensures
            r@[0].len() == values@.len(),
            forall|i: int| 0 <= i < values@.len() ==> #[trigger] r@[0][i] == leaf_hash(values@[i]),
            hash_layers_wf(r@),
    {
        let n = values.len();
        let mut leaves: Vec<u64> = Vec::with_capacity(n);
        let mut i: usize = 0;
        while i < n
            invariant
                i <= n,
                n == values@.len(),
                leaves@.len() == i,
                forall|j: int| 0 <= j < i ==> #[trigger] leaves@[j] == leaf_hash(values@[j]),
            decreases n - i,
        {
            leaves.push(hash_leaf(values[i]));
            i = i + 1;
        }
        Self::build(leaves.as_slice())
    }

    /// The root hash.
    pub fn root(&self) -> (r: u64)
        ensures
            r == self@.last()[0],
    {
        proof {
            use_type_invariant(self);
            assert(self@.last() == self.layers@.last()@);
        }
        let last = &self.layers[self.layers.len() - 1];
        last[0]
    }

    /// The number of leaves.
    pub fn num_leaves(&self) -> (r: usize)
        ensures
            r == self@[0].len(),
    {
        proof {
            use_type_invariant(self);
            assert(self@[0] == self.layers@[0]@);
        }
        self.layers[0].len()
    }

    /// The authentication path of leaf `index`.
    pub fn open(&self, index: usize) -> (r: MerklePath)
        requires
            index < self@[0].len(),
        ensures
            r.leaf_index == index,
            r.siblings@.len() == self@.len() - 1,
            forall|k: int| 0 <= k < r.siblings@.len() ==> #[trigger] r.siblings@[k] == self@[k][sibling_index(
                ancestor(index as nat, k as nat),
            ) as int],
    {
        proof {
            use_type_invariant(self);
        }
        let ghost lv = self@;
        let nl = self.layers.len();
        let mut siblings: Vec<u64> = Vec::with_capacity(nl - 1);
        let mut idx = index;
        let mut k: usize = 0;
        proof {
            lemma_ancestor_in_range(lv, index as nat, 0);
        }
        while k + 1 < nl
            invariant
                nl == self.layers@.len(),
                nl == lv.len(),
                lv == self@,
                hash_layers_wf(lv),
                index < lv[0].len(),
                k + 1 <= nl,
                idx == ancestor(index as nat, k as nat),
                idx < lv[k as int].len(),
                siblings@.len() == k,
                forall|j: int| 0 <= j < k ==> #[trigger] siblings@[j] == lv[j][sibling_index(
                    ancestor(index as nat, j as nat),
                ) as int],
            decreases nl - k,
        {
            let layer = &self.layers[k];
            proof {
                assert(lv[k as int] == layer@);
                assert(lv[k as int].len() == 2 * lv[k + 1].len());
            }
            let sib = if idx % 2 == 0 { idx + 1 } else { idx - 1 };
            siblings.push(layer[sib]);
            idx = idx / 2;
            k = k + 1;
            proof {
                lemma_ancestor_in_range(lv, index as nat, k as nat);
            }
        }
        MerklePath { leaf_index: index, siblings }
    }
}

/// The ancestor of an in-range leaf at every level is in range.
proof fn lemma_ancestor_in_range(layers: Seq<Seq<u64>>, i: nat, k: nat)
    requires
        hash_layers_wf(layers),
        i < layers[0].len(),
        k < layers.len(),
    ensures
        ancestor(i, k) < layers[k as int].len(),
    decreases k,
{
    if k > 0 {
        lemma_ancestor_in_range(layers, i, (k - 1) as nat);
        assert(layers[k - 1].len() == 2 * layers[k as int].len());
    }
}

/// Hashing a leaf up its path from level `k` reaches the root.
proof fn lemma_path_from_level(layers: Seq<Seq<u64>>, i: nat, k: nat, sibs: Seq<u64>)
    requires
        hash_layers_wf(layers),
        i < layers[0].len(),
        k < layers.len(),
        sibs.len() == layers.len() - 1,
        forall|j: int| 0 <= j < sibs.len() ==> #[trigger] sibs[j] == layers[j][sibling_index(ancestor(i, j as nat)) as int],
    ensures
        path_root(layers[k as int][ancestor(i, k) as int], ancestor(i, k), sibs.subrange(k as int, sibs.len() as int))
            == layers.last()[0],
    decreases layers.len() - k,
{
    let a = ancestor(i, k);
    lemma_ancestor_in_range(layers, i, k);
    let rest = sibs.subrange(k as int, sibs.len() as int);
    if k + 1 == layers.len() {
        assert(rest.len() == 0);
        assert(layers[k as int].len() == 1);
    } else {
        lemma_path_from_level(layers, i, k + 1, sibs);
        assert(rest.drop_first() =~= sibs.subrange((k + 1) as int, sibs.len() as int));
        assert(rest[0] == sibs[k as int]);
        assert(ancestor(i, k + 1) == a / 2);
        assert(layers[k as int].len() == 2 * layers[(k + 1) as int].len());
        if a % 2 == 0 {
            assert(layers[(k + 1) as int][(a / 2) as int] == pair_hash(layers[k as int][a as int], layers[k as int][(a + 1) as int]));
        } else {
            assert(layers[(k + 1) as int][(a / 2) as int] == pair_hash(layers[k as int][(a - 1) as int], layers[k as int][a as int]));
        }
    }
}

/// Completeness of Merkle openings: the path that `open` returns for leaf
/// `i` verifies against the root with that leaf's hash.
pub proof fn lemma_open_verifies(layers: Seq<Seq<u64>>, i: nat, sibs: Seq<u64>)
    requires
        hash_layers_wf(layers),
        i < layers[0].len(),
        sibs.len() == layers.len() - 1,
        forall|j: int| 0 <= j < sibs.len() ==> #[trigger] sibs[j] == layers[j][sibling_index(ancestor(i, j as nat)) as int],
    ensures
        path_root(layers[0][i as int], i, sibs) == layers.last()[0],
{
    lemma_path_from_level(layers, i, 0, sibs);
    assert(sibs.subrange(0, sibs.len() as int) =~= sibs);
}

} // verus!
