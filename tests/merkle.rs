use merkle_light::utils::{bit, get_n_for_2n, hash_2_node, shift_to_2n};
use merkle_light::{Merkle, MerkleProof, ProofNode};
use sha3::{Digest, Sha3_256};

fn leaf(i: u8) -> Vec<u8> {
    Sha3_256::digest([i]).to_vec()
}

fn leaves(n: usize) -> Vec<Vec<u8>> {
    (0..n).map(|i| leaf(i as u8)).collect()
}

fn pair(a: &[u8], b: &[u8]) -> Vec<u8> {
    let mut hasher = Sha3_256::new();
    hasher.update(a);
    hasher.update(b);
    hasher.finalize().to_vec()
}

fn hex(bytes: &[u8]) -> String {
    bytes.iter().map(|b| format!("{:02x}", b)).collect()
}

#[test]
fn test_merkle() {
    let mut leafs = Vec::with_capacity(6);

    for i in 0..9u8 {
        let mut hasher = Sha3_256::new();

        hasher.update([i]);

        leafs.push(hasher.finalize().to_vec());
    }

    let merkle = Merkle::new(leafs).unwrap();

    for (idx, node) in merkle.nodes.iter().enumerate() {
        let h = hex(node);

        println!("{}: {}", idx, h);
    }

    let proof = merkle.build_proof(5);

    assert!(proof.verify());
}

#[test]
fn test_n_for_2n() {
    assert_eq!(get_n_for_2n(5), 0);
    assert_eq!(get_n_for_2n(4), 2);
    assert_eq!(get_n_for_2n(0), 0);
}

#[test]
fn quick_shift() {
    assert_eq!(16, shift_to_2n(9));
}

#[test]
fn shift_keeps_powers_of_two() {
    assert_eq!(shift_to_2n(0), 1);
    assert_eq!(shift_to_2n(1), 1);
    assert_eq!(shift_to_2n(2), 2);
    assert_eq!(shift_to_2n(3), 4);
    assert_eq!(shift_to_2n(4), 4);
    assert_eq!(shift_to_2n(6), 8);
    assert_eq!(shift_to_2n(7), 8);
    assert_eq!(shift_to_2n(8), 8);
    assert_eq!(shift_to_2n(1 << 20), 1 << 20);
    assert_eq!(shift_to_2n((1 << 20) + 1), 1 << 21);
}

#[test]
fn lowest_set_bit() {
    assert_eq!(get_n_for_2n(1), 0);
    assert_eq!(get_n_for_2n(8), 3);
    assert_eq!(get_n_for_2n(12), 2);
    assert_eq!(get_n_for_2n(1 << 40), 40);
    assert_eq!(get_n_for_2n(usize::MAX), 0);
}

#[test]
fn bit_positions() {
    assert!(bit(5, 0));
    assert!(!bit(5, 1));
    assert!(bit(5, 2));
    assert!(!bit(5, 3));
    assert!(bit(usize::MAX, usize::BITS - 1));
    assert!(!bit(0, 7));
}

#[test]
fn pair_hash_is_sha3_of_concatenation() {
    let a = leaf(1);
    let b = leaf(2);
    let h = hash_2_node(a.clone(), b.clone());
    assert_eq!(h.len(), 32);
    assert_eq!(h, pair(&a, &b));
    assert_ne!(h, a);
    assert_ne!(h, hash_2_node(b.clone(), a.clone()));
    assert_eq!(
        hex(&hash_2_node(Vec::new(), Vec::new())),
        "a7ffc6f8bf1ed76651c14756a061d662f580ff4de43b49fa82d80a4b80f8434a"
    );
}

#[test]
fn proof_node_side_follows_parity() {
    assert!(matches!(ProofNode::new(4, vec![1]), ProofNode::Left(d) if d == vec![1]));
    assert!(matches!(ProofNode::new(7, vec![2]), ProofNode::Right(d) if d == vec![2]));
}

#[test]
fn empty_input_has_no_tree() {
    assert!(Merkle::new(Vec::new()).is_none());
}

#[test]
fn single_leaf_tree() {
    let d = leaf(42);
    let t = Merkle::new(vec![d.clone()]).unwrap();
    assert_eq!(t.depth, 1);
    assert_eq!(t.nodes.len(), 1);
    assert_eq!(t.root(), &d);
    let p = t.build_proof(0);
    assert!(p.nodes.is_empty());
    assert_eq!(p.leaf, d);
    assert_eq!(p.root, d);
    assert!(p.verify());
}

#[test]
fn two_leaf_root() {
    let t = Merkle::new(leaves(2)).unwrap();
    assert_eq!(t.depth, 1);
    assert_eq!(t.nodes.len(), 3);
    assert_eq!(t.root(), &pair(&leaf(0), &leaf(1)));
}

#[test]
fn power_of_two_counts_are_not_padded() {
    for (n, depth) in [(2usize, 1u32), (4, 2), (8, 3), (16, 4)] {
        let t = Merkle::new(leaves(n)).unwrap();
        assert_eq!(t.nodes.len(), 2 * n - 1);
        assert_eq!(t.depth, depth);
        assert_eq!(&t.nodes[..n], &leaves(n)[..]);
    }
}

#[test]
fn four_leaf_layout() {
    let l = leaves(4);
    let t = Merkle::new(l.clone()).unwrap();
    let left = pair(&l[0], &l[1]);
    let right = pair(&l[2], &l[3]);
    assert_eq!(t.nodes[4], left);
    assert_eq!(t.nodes[5], right);
    assert_eq!(t.nodes[6], pair(&left, &right));
    let p = t.build_proof(2);
    assert_eq!(p.nodes.len(), 2);
    assert!(matches!(&p.nodes[0], ProofNode::Right(d) if *d == l[3]));
    assert!(matches!(&p.nodes[1], ProofNode::Left(d) if *d == left));
}

#[test]
fn every_proof_round_trips() {
    for n in 1..=17usize {
        let t = Merkle::new(leaves(n)).unwrap();
        for i in 0..n {
            let p = t.build_proof(i);
            assert_eq!(p.leaf, leaf(i as u8));
            assert_eq!(&p.root, t.root());
            assert!(p.verify(), "n = {}, i = {}", n, i);
        }
    }
}

fn flip_last(v: &mut Vec<u8>) {
    let k = v.len() - 1;
    v[k] ^= 1;
}

#[test]
fn tampered_proofs_are_rejected() {
    let t = Merkle::new(leaves(11)).unwrap();
    for i in 0..11 {
        let p = t.build_proof(i);
        let mut q = MerkleProof { root: p.root.clone(), nodes: p.nodes.clone(), leaf: p.leaf.clone() };
        flip_last(&mut q.leaf);
        assert!(!q.verify());
        let mut q = MerkleProof { root: p.root.clone(), nodes: p.nodes.clone(), leaf: p.leaf.clone() };
        q.root[0] ^= 0x80;
        assert!(!q.verify());
        for j in 0..p.nodes.len() {
            let mut nodes = p.nodes.clone();
            match &mut nodes[j] {
                ProofNode::Left(d) | ProofNode::Right(d) => d[17] ^= 4,
            }
            let q = MerkleProof { root: p.root.clone(), nodes, leaf: p.leaf.clone() };
            assert!(!q.verify());
        }
    }
}

#[test]
fn building_is_deterministic() {
    let a = Merkle::new(leaves(13)).unwrap();
    let b = Merkle::new(leaves(13)).unwrap();
    assert_eq!(a.nodes, b.nodes);
    assert_eq!(a.depth, b.depth);
    assert_eq!(a.root(), b.root());
}

#[test]
fn six_leaves_pad_to_eight() {
    let l = leaves(6);
    let t = Merkle::new(l.clone()).unwrap();
    assert_eq!(shift_to_2n(6), 8);
    assert_eq!(t.nodes.len(), 15);
    assert_eq!(t.depth, 3);
    assert_eq!(t.nodes[6], l[5]);
    assert_eq!(t.nodes[7], l[5]);
    let distinct = Merkle::new(leaves(8)).unwrap();
    assert_eq!(&distinct.nodes[..6], &t.nodes[..6]);
    assert_ne!(distinct.root(), t.root());
}

#[test]
fn six_leaf_scenario() {
    let t = Merkle::new(leaves(6)).unwrap();
    let p = t.build_proof(5);
    assert!(p.verify());
    let mut q = MerkleProof { root: p.root.clone(), nodes: p.nodes.clone(), leaf: p.leaf.clone() };
    flip_last(&mut q.root);
    assert!(!q.verify());
}
