use openrank_core::merkle::{
    compute_root, create_compute_tree, hash_leaf, hash_two, meta_root, score_leaf,
    DenseMerkleTree, MerkleError,
};
use sha3::Digest;

fn keccak(data: &[u8]) -> [u8; 32] {
    sha3::Keccak256::digest(data).into()
}

fn h(data: &[u8]) -> openrank_core::merkle::Hash {
    openrank_core::merkle::Hash::from_bytes(keccak(data))
}

fn node(a: &openrank_core::merkle::Hash, b: &openrank_core::merkle::Hash) -> openrank_core::merkle::Hash {
    let mut bytes = a.inner().to_vec();
    bytes.extend_from_slice(&b.inner());
    h(&bytes)
}

#[test]
fn leaf_hash_is_keccak256() {
    let empty = hash_leaf(&vec![]);
    assert_eq!(
        empty.inner().to_vec(),
        vec![
            0xc5, 0xd2, 0x46, 0x01, 0x86, 0xf7, 0x23, 0x3c, 0x92, 0x7e, 0x7d, 0xb2, 0xdc, 0xc7, 0x03,
            0xc0, 0xe5, 0x00, 0xb6, 0x53, 0xca, 0x82, 0x27, 0x3b, 0x7b, 0xfa, 0xd8, 0x04, 0x5d, 0x85,
            0xa4, 0x70
        ]
    );
    assert_eq!(hash_leaf(&b"abc".to_vec()), h(b"abc"));
}

#[test]
fn inner_node_hashes_the_concatenation() {
    let a = h(b"left");
    let b = h(b"right");
    assert_eq!(hash_two(&a, &b), node(&a, &b));
    assert_ne!(hash_two(&a, &b), hash_two(&b, &a));
}

#[test]
fn score_leaf_hashes_big_endian_bits() {
    assert_eq!(score_leaf(0.5f32.to_bits()), h(&[0x3f, 0x00, 0x00, 0x00]));
    assert_eq!(score_leaf(0x0102_0304), h(&[1, 2, 3, 4]));
}

#[test]
fn single_leaf_is_its_own_root() {
    let a = h(b"a");
    let t = DenseMerkleTree::new(vec![a]).unwrap();
    assert_eq!(t.root(), a);
}

#[test]
fn odd_leaf_count_is_padded_with_the_last_leaf() {
    let (a, b, c) = (h(b"a"), h(b"b"), h(b"c"));
    let t = DenseMerkleTree::new(vec![a, b, c]).unwrap();
    assert_eq!(t.root(), node(&node(&a, &b), &node(&c, &c)));
    let (d, e, f) = (h(b"d"), h(b"e"), h(b"f"));
    let t = DenseMerkleTree::new(vec![a, b, c, d, e, f]).unwrap();
    let expected = node(&node(&node(&a, &b), &node(&c, &d)), &node(&node(&e, &f), &node(&f, &f)));
    assert_eq!(t.root(), expected);
}

#[test]
fn no_leaves_is_an_error() {
    assert!(matches!(DenseMerkleTree::new(vec![]), Err(MerkleError::LeavesEmpty)));
    assert!(matches!(compute_root(&vec![]), Err(MerkleError::LeavesEmpty)));
    assert!(matches!(meta_root(vec![]), Err(MerkleError::LeavesEmpty)));
}

#[test]
fn meta_root_of_four_sub_jobs() {
    let r: Vec<openrank_core::merkle::Hash> = (0u8..4).map(|i| h(&[i])).collect();
    let meta = meta_root(r.clone()).unwrap();
    assert_eq!(meta, node(&node(&r[0], &r[1]), &node(&r[2], &r[3])));
}

#[test]
fn merkle_construction_is_deterministic() {
    let leaves: Vec<openrank_core::merkle::Hash> = (0u8..5).map(|i| h(&[i, i])).collect();
    let t1 = DenseMerkleTree::new(leaves.clone()).unwrap();
    let t2 = DenseMerkleTree::new(leaves).unwrap();
    assert_eq!(t1.root(), t2.root());
    let mut swapped: Vec<openrank_core::merkle::Hash> = (0u8..5).map(|i| h(&[i, i])).collect();
    swapped.swap(0, 1);
    assert_ne!(DenseMerkleTree::new(swapped).unwrap().root(), t1.root());
}

#[test]
fn compute_tree_commits_to_score_leaves() {
    let scores = vec![(0u64, 0.25f32.to_bits()), (1, 0.75f32.to_bits())];
    let t = create_compute_tree(&scores).unwrap();
    let expected = node(&score_leaf(0.25f32.to_bits()), &score_leaf(0.75f32.to_bits()));
    assert_eq!(t.root(), expected);
    assert_eq!(compute_root(&scores).unwrap(), expected);
}
