use basic_merkle_tree_rs::{
    hash::{leaf_hash, node_hash, Keccak, MerkleHasher, Sha3},
    merkle_proof::Proof,
    tree::{MerkleError, MerkleTree},
};

fn sha3_leaves(msgs: &[&[u8]]) -> Vec<basic_merkle_tree_rs::hash::Hash> {
    msgs.iter().map(|m| leaf_hash::<Sha3>(m)).collect()
}

#[test]
fn sha3_known_digest() {
    assert_eq!(
        Sha3::hash(b"").to_hex_lower(),
        "a7ffc6f8bf1ed76651c14756a061d662f580ff4de43b49fa82d80a4b80f8434a"
    );
    assert_eq!(<Sha3 as MerkleHasher>::NAME, "sha3-256");
}

#[test]
fn keccak_known_digest() {
    assert_eq!(
        Keccak::hash(b"").to_hex_lower(),
        "c5d2460186f7233c927e7db2dcc703c0e500b653ca82273b7bfad8045d85a470"
    );
    assert_eq!(<Keccak as MerkleHasher>::NAME, "keccak-256");
}

#[test]
fn leaf_and_node_hash_exact_values() {
    let a = leaf_hash::<Sha3>(b"a");
    let b = leaf_hash::<Sha3>(b"b");
    assert_eq!(
        a.to_hex_lower(),
        "d4a31b6bbfc0f8229bcb66ba85fd3cf1fe50c5da2f4cc69edbdf1e313258aaba"
    );
    assert_eq!(a, Sha3::hash(&[0u8, b'a']));
    assert_eq!(
        node_hash::<Sha3>(&a, &b).to_hex_lower(),
        "3ec5c89b9b90f68dd0878fddc1d803e6f4ccdcd0eb458d352cc7f0f819c840c9"
    );
    let mut input = vec![1u8];
    input.extend_from_slice(a.as_bytes());
    input.extend_from_slice(b.as_bytes());
    assert_eq!(node_hash::<Sha3>(&a, &b), Sha3::hash(&input));
    assert_ne!(node_hash::<Sha3>(&a, &b), node_hash::<Sha3>(&b, &a));
}

#[test]
fn hex_renderings() {
    let c = leaf_hash::<Sha3>(b"c");
    assert_eq!(
        c.to_hex_upper(),
        "7D8630E7DC3824B87E5F6319F56CE2448A4D1B3F1C5F903DBDFAE94DB422A588"
    );
    assert_eq!(c.to_hex_lower(), c.to_hex_upper().to_lowercase());
    let bytes = basic_merkle_tree_rs::hash::Hash([0x0fu8; 32]);
    assert_eq!(bytes.to_hex_lower(), "0f".repeat(32));
    assert_eq!(bytes.as_ref(), &[0x0fu8; 32][..]);
}

#[test]
fn three_leaf_root_exact_value() {
    let tree = MerkleTree::<Sha3>::from_leaves(sha3_leaves(&[b"a", b"b", b"c"])).unwrap();
    assert_eq!(
        tree.root().to_hex_lower(),
        "f1dabf1ee72ba4685812172389249b95675d82e0f79db1ed6ac98ca7ccbcb39a"
    );
}

#[test]
fn three_leaf_duplicate_last_keccak() {
    let a = leaf_hash::<Keccak>(b"a");
    let b = leaf_hash::<Keccak>(b"b");
    let c = leaf_hash::<Keccak>(b"c");
    let expect = node_hash::<Keccak>(&node_hash::<Keccak>(&a, &b), &node_hash::<Keccak>(&c, &c));
    let tree = MerkleTree::<Keccak>::from_leaves(vec![a, b, c]).unwrap();
    assert_eq!(tree.root(), expect);
    assert_ne!(tree.root(), node_hash::<Keccak>(&node_hash::<Keccak>(&a, &b), &c));
}

#[test]
fn single_leaf_tree() {
    let x = leaf_hash::<Sha3>(b"only");
    let y = leaf_hash::<Sha3>(b"other");
    let tree = MerkleTree::<Sha3>::from_leaves(vec![x]).unwrap();
    assert_eq!(tree.root(), x);
    assert_eq!(tree.leaf_len(), 1);
    let p = tree.inclusion_proof(0).unwrap();
    assert!(p.siblings().is_empty());
    assert_eq!(p.index(), 0);
    assert!(p.verify::<Sha3>(x, tree.root()));
    assert!(!p.verify::<Sha3>(y, tree.root()));
}

#[test]
fn other_leaf_is_rejected() {
    let msgs: [&[u8]; 5] = [b"a", b"b", b"c", b"d", b"e"];
    let tree = MerkleTree::<Sha3>::from_leaves(sha3_leaves(&msgs)).unwrap();
    let root = tree.root();
    let stranger = leaf_hash::<Sha3>(b"z");
    for i in 0..msgs.len() {
        let p = tree.inclusion_proof(i).unwrap();
        assert_eq!(p.siblings().len(), 3);
        assert!(!p.verify::<Sha3>(stranger, root));
        let j = (i + 1) % msgs.len();
        assert!(!p.verify::<Sha3>(leaf_hash::<Sha3>(msgs[j]), root));
    }
}

#[test]
fn out_of_bounds_proof_rejected() {
    let tree = MerkleTree::<Sha3>::from_leaves(sha3_leaves(&[b"a", b"b", b"c", b"d"])).unwrap();
    assert_eq!(tree.leaf_len(), 4);
    assert!(matches!(tree.inclusion_proof(4), Err(MerkleError::IndexOutOfBounds)));
    assert!(matches!(tree.inclusion_proof(5), Err(MerkleError::IndexOutOfBounds)));
    assert!(matches!(tree.inclusion_proof(usize::MAX), Err(MerkleError::IndexOutOfBounds)));
    assert!(tree.inclusion_proof(3).is_ok());
}

#[test]
fn building_is_deterministic() {
    let msgs: [&[u8]; 6] = [b"1", b"2", b"3", b"4", b"5", b"6"];
    let t1 = MerkleTree::<Sha3>::from_leaves(sha3_leaves(&msgs)).unwrap();
    let t2 = MerkleTree::<Sha3>::from_leaves(sha3_leaves(&msgs)).unwrap();
    assert_eq!(t1.root(), t2.root());
    for i in 0..msgs.len() {
        let p1 = t1.inclusion_proof(i).unwrap();
        let p2 = t2.inclusion_proof(i).unwrap();
        assert_eq!(p1.siblings(), p2.siblings());
        assert_eq!(p1.index(), p2.index());
    }
    let reordered: [&[u8]; 6] = [b"2", b"1", b"3", b"4", b"5", b"6"];
    let t3 = MerkleTree::<Sha3>::from_leaves(sha3_leaves(&reordered)).unwrap();
    assert_ne!(t1.root(), t3.root());
}

#[test]
fn hand_made_proof_verifies() {
    let a = leaf_hash::<Sha3>(b"a");
    let b = leaf_hash::<Sha3>(b"b");
    let root = node_hash::<Sha3>(&a, &b);
    let left = Proof::new(0, vec![b]);
    assert!(left.verify::<Sha3>(a, root));
    let right = Proof::new(1, vec![a]);
    assert!(right.verify::<Sha3>(b, root));
    assert!(!Proof::new(1, vec![b]).verify::<Sha3>(a, root));
    assert!(!Proof::new(0, vec![]).verify::<Sha3>(a, root));
}
