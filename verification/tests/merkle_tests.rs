use zkvm::field::Field;
use zkvm::goldilocks::Goldilocks;
use zkvm::merkle::{hash_leaf, MerkleTree};
use zkvm::poseidon::Poseidon;
use zkvm::toyfield::ToyField;

fn hasher() -> Poseidon<ToyField> {
    Poseidon::new(5)
}

fn tf(x: u64) -> ToyField {
    ToyField::from_u64(x)
}

#[test]
fn same_input_hashes_the_same_every_time() {
    let p: Poseidon<ToyField> = Poseidon::new(5);
    let a = p.hash_two(ToyField::from_u64(3), ToyField::from_u64(4));
    let b = p.hash_two(ToyField::from_u64(3), ToyField::from_u64(4));
    assert_eq!(a, b);
}

#[test]
fn different_inputs_hash_differently() {
    let p: Poseidon<ToyField> = Poseidon::new(5);
    let a = p.hash_two(ToyField::from_u64(3), ToyField::from_u64(4));
    let b = p.hash_two(ToyField::from_u64(4), ToyField::from_u64(3));
    let c = p.hash_two(ToyField::from_u64(3), ToyField::from_u64(5));
    assert_ne!(a, b, "hash should not be symmetric in its two inputs");
    assert_ne!(a, c);
}

#[test]
fn works_over_goldilocks_with_alpha_seven() {
    let p: Poseidon<Goldilocks> = Poseidon::new(7);
    let a = p.hash_two(Goldilocks::from_u64(100), Goldilocks::from_u64(200));
    let b = p.hash_two(Goldilocks::from_u64(100), Goldilocks::from_u64(200));
    assert_eq!(a, b);
    let c = p.hash_two(Goldilocks::from_u64(200), Goldilocks::from_u64(100));
    assert_ne!(a, c);
}

#[test]
fn hash_many_handles_lengths_not_a_multiple_of_rate() {
    let p: Poseidon<ToyField> = Poseidon::new(5);
    let values: Vec<ToyField> = (1..=5).map(ToyField::from_u64).collect();
    let h = p.hash_many(&values);
    let h_again = p.hash_many(&values);
    assert_eq!(h, h_again);
}

#[test]
fn hash_many_of_single_value_matches_hash_two_with_implicit_zero() {
    let p: Poseidon<ToyField> = Poseidon::new(5);
    let single = p.hash_many(&[ToyField::from_u64(9)]);
    let pair = p.hash_two(ToyField::from_u64(9), ToyField::from_u64(0));
    assert_eq!(single, pair, "hash_many([9]) absorbs the same padded chunk as hash_two(9, 0)");
}

#[test]
fn mds_matrix_rows_are_distinct_and_nonzero() {
    let p: Poseidon<ToyField> = Poseidon::new(5);
    let mds = p.mds();
    for row in &mds {
        assert!(row.iter().any(|&v| !v.is_zero()));
    }
    assert_ne!(mds[0], mds[1]);
    assert_ne!(mds[1], mds[2]);
}

#[test]
fn mds_entries_are_cauchy_inverses() {
    let p: Poseidon<ToyField> = Poseidon::new(5);
    let mds = p.mds();
    for i in 0..3u64 {
        for j in 0..3u64 {
            assert_eq!(mds[i as usize][j as usize] * tf(i + 3 + j), ToyField::one());
        }
    }
}

#[test]
fn permutation_is_deterministic_and_changes_the_state() {
    let p: Poseidon<ToyField> = Poseidon::new(5);
    let input = [ToyField::from_u64(1), ToyField::from_u64(2), ToyField::from_u64(3)];
    let out1 = p.permute(input);
    let out2 = p.permute(input);
    assert_eq!(out1, out2);
    assert_ne!(out1, input);
}

#[test]
fn hash_two_is_the_permutation_of_the_pair() {
    let p: Poseidon<ToyField> = Poseidon::new(5);
    let out = p.permute([tf(3), tf(4), ToyField::zero()]);
    assert_eq!(p.hash_two(tf(3), tf(4)), out[0]);
    assert_eq!(p.hash_many(&[]), p.permute([ToyField::zero(); 3])[0]);
}

#[test]
fn tree_build_and_verify_every_leaf() {
    let h = hasher();
    let values: Vec<ToyField> = (0..16).map(tf).collect();
    let tree = MerkleTree::from_values(&h, &values);
    for (i, &v) in values.iter().enumerate() {
        let path = tree.open(i);
        assert!(path.verify(&h, tree.root(), hash_leaf(&h, v)), "leaf {i} failed to verify");
    }
}

#[test]
fn tree_tampered_leaf_fails_verification() {
    let h = hasher();
    let values: Vec<ToyField> = (0..8).map(tf).collect();
    let tree = MerkleTree::from_values(&h, &values);
    let path = tree.open(3);
    assert!(!path.verify(&h, tree.root(), hash_leaf(&h, tf(99))));
}

#[test]
fn tree_tampered_sibling_fails_verification() {
    let h = hasher();
    let values: Vec<ToyField> = (0..8).map(tf).collect();
    let tree = MerkleTree::from_values(&h, &values);
    let mut path = tree.open(2);
    path.siblings[0] += ToyField::one();
    assert!(!path.verify(&h, tree.root(), hash_leaf(&h, tf(2))));
}

#[test]
fn wrong_leaf_index_fails_verification() {
    let h = hasher();
    let values: Vec<ToyField> = (0..8).map(tf).collect();
    let tree = MerkleTree::from_values(&h, &values);
    let mut path = tree.open(2);
    path.leaf_index = 5;
    assert!(!path.verify(&h, tree.root(), hash_leaf(&h, tf(2))));
}

#[test]
fn tree_single_leaf_tree_has_leaf_as_root() {
    let h = hasher();
    let tree = MerkleTree::from_values(&h, &[tf(42)]);
    assert_eq!(tree.root(), hash_leaf(&h, tf(42)));
    let path = tree.open(0);
    assert!(path.siblings.is_empty());
    assert!(path.verify(&h, tree.root(), hash_leaf(&h, tf(42))));
    assert_eq!(tree.num_leaves(), 1);
}

#[test]
fn from_rows_commits_multi_column_leaves() {
    let h = hasher();
    let rows: Vec<Vec<ToyField>> = vec![
        vec![tf(1), tf(2), tf(3)],
        vec![tf(4), tf(5), tf(6)],
        vec![tf(7), tf(8), tf(9)],
        vec![tf(10), tf(11), tf(12)],
    ];
    let tree = MerkleTree::from_rows(&h, &rows);
    for (i, row) in rows.iter().enumerate() {
        let leaf_hash = h.hash_many(row);
        let path = tree.open(i);
        assert!(path.verify(&h, tree.root(), leaf_hash));
    }
}

#[test]
fn from_rows_with_different_column_values_gives_different_root() {
    let h = hasher();
    let rows_a: Vec<Vec<ToyField>> = vec![vec![tf(1), tf(2)], vec![tf(3), tf(4)]];
    let rows_b: Vec<Vec<ToyField>> = vec![vec![tf(1), tf(2)], vec![tf(3), tf(5)]];
    let tree_a = MerkleTree::from_rows(&h, &rows_a);
    let tree_b = MerkleTree::from_rows(&h, &rows_b);
    assert_ne!(tree_a.root(), tree_b.root());
}

#[test]
fn different_hasher_instances_with_same_alpha_agree() {
    let h1 = hasher();
    let h2 = hasher();
    let values: Vec<ToyField> = (0..8).map(tf).collect();
    let tree1 = MerkleTree::from_values(&h1, &values);
    let tree2 = MerkleTree::from_values(&h2, &values);
    assert_eq!(tree1.root(), tree2.root());
}

#[test]
fn two_leaf_root_is_the_node_hash_of_the_leaves() {
    let h = hasher();
    let tree = MerkleTree::from_values(&h, &[tf(1), tf(2)]);
    assert_eq!(tree.root(), h.hash_two(hash_leaf(&h, tf(1)), hash_leaf(&h, tf(2))));
    assert_eq!(tree.num_leaves(), 2);
    assert_eq!(tree.open(1).siblings, vec![hash_leaf(&h, tf(1))]);
}

#[test]
fn odd_inputs_are_padded_with_zero() {
    let p: Poseidon<Goldilocks> = Poseidon::new(7);
    let v = Goldilocks::from_u64(11);
    let z = Goldilocks::from_u64(0);
    assert_eq!(p.hash_many(&[v]), p.hash_two(v, z));
    let xs = [Goldilocks::from_u64(1), Goldilocks::from_u64(2), Goldilocks::from_u64(3)];
    let padded = [Goldilocks::from_u64(1), Goldilocks::from_u64(2), Goldilocks::from_u64(3), z];
    assert_eq!(p.hash_many(&xs), p.hash_many(&padded));
}
