use spaceproof_merkle::digest::Algorithm;
use spaceproof_merkle::hashutils::{BitIterator, HashUtils, Hashable};
use spaceproof_merkle::merkletree::MerkleTree;
use spaceproof_merkle::path::Positioned;

fn leaves_of(n: usize) -> Vec<Vec<u8>> {
    (0..n).map(|x| vec![(x % 251) as u8, (x / 251) as u8]).collect()
}

#[test]
fn test_height_formula() {
    let alg = Algorithm::new();
    let expected: Vec<(usize, usize)> = vec![
        (0, 0),
        (1, 0),
        (2, 1),
        (3, 2),
        (4, 2),
        (5, 3),
        (8, 3),
        (9, 4),
        (16, 4),
        (17, 5),
    ];
    for (n, h) in expected {
        let tree = MerkleTree::from_vec(&alg, leaves_of(n));
        assert_eq!(tree.count(), n);
        assert_eq!(tree.height(), h, "height for {} leaves", n);
    }
}

#[test]
fn test_combining_is_not_identity() {
    let alg = Algorithm::new();
    let a = alg.hash_leaf(&vec![1u8]);
    let b = alg.hash_leaf(&vec![2u8]);
    let h0 = alg.hash_nodes(0, &a, &b);
    let h1 = alg.hash_nodes(1, &a, &b);
    let h0r = alg.hash_nodes(0, &b, &a);

    // A combined digest is a 32-byte field encoding, not either input.
    assert_eq!(h0.get_val().len(), 32);
    assert_ne!(h0.get_val(), a.get_val());
    assert_ne!(h0.get_val(), b.get_val());
    // The layer tag separates domains, and the operand order matters.
    assert_ne!(h0.get_val(), h1.get_val());
    assert_ne!(h0.get_val(), h0r.get_val());
}

#[test]
fn test_carried_leaf_has_no_sibling() {
    let alg = Algorithm::new();
    let values: Vec<Vec<u8>> = vec![vec![1], vec![2], vec![3]];
    let tree = MerkleTree::from_vec(&alg, values);

    // Leaf 2 is carried through layer 0 and combined only at layer 1.
    let proof = tree.gen_nth_proof(2).unwrap();
    let siblings = proof.get_sibling_vec();
    assert_eq!(siblings.len(), 2);
    assert!(siblings[0].is_none());
    assert!(siblings[1].is_some());

    let h1 = alg.hash_leaf(&vec![1u8]);
    let h2 = alg.hash_leaf(&vec![2u8]);
    let h01 = alg.hash_nodes(0, &h1, &h2);
    assert_eq!(siblings[1].as_ref().unwrap().as_slice(), h01.get_val());

    assert!(proof.validate(tree.root_hash()));
    assert_eq!(proof.index(tree.count()), 2);
}

#[test]
fn test_nth_proof_indexes_odd_count() {
    let alg = Algorithm::new();
    for &count in &[1usize, 2, 3, 5, 7, 9, 12] {
        let tree = MerkleTree::from_vec(&alg, leaves_of(count));
        let root = tree.root_hash().clone();
        for i in 0..count {
            let proof = tree.gen_nth_proof(i).unwrap();
            assert!(proof.validate(&root), "proof {} of {}", i, count);
            assert_eq!(proof.index(count), i, "index {} of {}", i, count);
        }
        assert!(tree.gen_nth_proof(count).is_none());
    }
}

#[test]
fn test_gen_proof_finds_first_duplicate() {
    let alg = Algorithm::new();
    let values: Vec<Vec<u8>> = vec![vec![7], vec![9], vec![7], vec![4]];
    let tree = MerkleTree::from_vec(&alg, values);
    let proof = tree.gen_proof(vec![7u8]).unwrap();
    assert_eq!(proof.index(tree.count()), 0);
    assert!(proof.validate(tree.root_hash()));

    assert!(tree.gen_proof(vec![8u8]).is_none());
}

#[test]
fn test_flipped_side_fails_validation() {
    let alg = Algorithm::new();
    let values: Vec<Vec<u8>> = vec![vec![1], vec![2]];
    let tree = MerkleTree::from_vec(&alg, values);
    let mut proof = tree.gen_nth_proof(0).unwrap();

    // Leaf 0's sibling stands on the right; flipping the recorded side must
    // change the recomputed root.
    let flipped = match proof.lemma.sibling_hash.take().unwrap() {
        Positioned::Right(h) => Positioned::Left(h),
        Positioned::Left(h) => Positioned::Right(h),
    };
    proof.lemma.sibling_hash = Some(flipped);
    assert!(!proof.validate(tree.root_hash()));
}

#[test]
fn test_proof_of_one_tree_fails_on_other_root() {
    let alg = Algorithm::new();
    let tree_a = MerkleTree::from_vec(&alg, leaves_of(6));
    let tree_b = MerkleTree::from_vec(&alg, leaves_of(7));
    for i in 0..6usize {
        let proof = tree_a.gen_nth_proof(i).unwrap();
        assert!(proof.validate(tree_a.root_hash()));
        assert!(!proof.validate(tree_b.root_hash()));
    }
}

#[test]
fn test_bit_iterator_order() {
    // The iterator walks from the most significant bit of the last byte down
    // to the least significant bit of the first byte.
    let bytes: Vec<u8> = vec![0x01, 0x80];
    let mut it = BitIterator::new(bytes.as_slice());
    let mut got: Vec<bool> = Vec::new();
    while let Some(b) = it.next() {
        got.push(b);
    }
    let mut expected = vec![false; 16];
    expected[0] = true; // bit 7 of the last byte
    expected[15] = true; // bit 0 of the first byte
    assert_eq!(got, expected);
    assert!(it.next().is_none());
}

#[test]
fn test_single_leaf_proof() {
    let alg = Algorithm::new();
    let values: Vec<Vec<u8>> = vec![vec![42]];
    let tree = MerkleTree::from_vec(&alg, values);
    assert_eq!(tree.height(), 0);
    let proof = tree.gen_nth_proof(0).unwrap();
    assert!(proof.get_sibling_vec().is_empty());
    assert!(proof.validate(tree.root_hash()));
    assert_eq!(proof.index(1), 0);
}
