// The combining function must be reproducible inside an arithmetic circuit,
// bit for bit: these tests drive sapling's circuit gadgets over the same
// values the library hashes and compare both sides.

use sapling_crypto_ce::babyjubjub::JubjubBn256;
use sapling_crypto_ce::bellman::pairing::bn256::{Bn256, Fr, FrRepr};
use sapling_crypto_ce::bellman::pairing::ff::{PrimeField, PrimeFieldRepr};
use sapling_crypto_ce::bellman::ConstraintSystem;
use sapling_crypto_ce::circuit::baby_pedersen_hash;
use sapling_crypto_ce::circuit::boolean::{AllocatedBit, Boolean};
use sapling_crypto_ce::circuit::num::AllocatedNum;
use sapling_crypto_ce::circuit::test::TestConstraintSystem;

use spaceproof_merkle::digest::Algorithm;
use spaceproof_merkle::hashutils::{HashUtils, Hashable};
use spaceproof_merkle::merkletree::MerkleTree;
use spaceproof_merkle::spaceproof_merkle_tree::Node;

fn fr_from_le_bytes(bytes: &[u8]) -> Fr {
    let mut repr = FrRepr::default();
    repr.read_le(bytes).expect("32 bytes");
    Fr::from_repr(repr).expect("canonical encoding")
}

fn fr_to_le_bytes(fr: &Fr) -> Vec<u8> {
    let mut buf = vec![];
    fr.into_repr().write_le(&mut buf).unwrap();
    buf
}

#[test]
fn test_circuit_combining_matches_plaintext() {
    let alg = Algorithm::new();
    let left = Node::newFromStr("5").unwrap();
    let right = Node::newFromStr("7").unwrap();
    let plain = alg.hash_nodes(0, &left, &right);

    let params = JubjubBn256::new();
    let mut cs = TestConstraintSystem::<Bn256>::new();
    let xl = AllocatedNum::alloc(cs.namespace(|| "xl"), || Ok(fr_from_le_bytes(left.get_val())))
        .unwrap();
    let xr = AllocatedNum::alloc(cs.namespace(|| "xr"), || Ok(fr_from_le_bytes(right.get_val())))
        .unwrap();
    let mut preimage = vec![];
    preimage.extend(xl.into_bits_le_strict(cs.namespace(|| "xl bits")).unwrap());
    preimage.extend(xr.into_bits_le_strict(cs.namespace(|| "xr bits")).unwrap());
    let circuit_hash = baby_pedersen_hash::pedersen_hash(
        cs.namespace(|| "pedersen"),
        baby_pedersen_hash::Personalization::MerkleTree(0),
        &preimage,
        &params,
    )
    .unwrap()
    .get_x()
    .clone();

    assert!(cs.is_satisfied());
    let circuit_root = circuit_hash.get_value().unwrap();
    assert_eq!(fr_to_le_bytes(&circuit_root), plain.get_val().to_vec());
}

#[test]
fn test_circuit_path_matches_tree_root() {
    // A tree of four field-element leaves; the witness for leaf 3 must
    // re-derive the tree's root inside the circuit.
    let alg = Algorithm::new();
    let leaves = vec![
        Node::newFromStr("11").unwrap(),
        Node::newFromStr("22").unwrap(),
        Node::newFromStr("33").unwrap(),
        Node::newFromStr("44").unwrap(),
    ];
    let position: usize = 3;
    let leaf_fr = fr_from_le_bytes(leaves[position].get_val());
    let tree = MerkleTree::from_vec(&alg, leaves);
    let root_bytes = tree.root_hash().clone();

    let proof = tree.gen_nth_proof(position).unwrap();
    let siblings = proof.get_sibling_vec();
    assert_eq!(siblings.len(), 2);

    let params = JubjubBn256::new();
    let mut cs = TestConstraintSystem::<Bn256>::new();

    let mut hash = AllocatedNum::alloc(cs.namespace(|| "node"), || Ok(leaf_fr)).unwrap();
    hash.inputize(cs.namespace(|| "public input node")).unwrap();
    let position_num = AllocatedNum::alloc(cs.namespace(|| "position"), || {
        Ok(Fr::from_str(&position.to_string()).unwrap())
    })
    .unwrap();
    position_num.inputize(cs.namespace(|| "public input position")).unwrap();
    let size_vec = position_num.into_bits_le_strict(cs.namespace(|| "position into bits")).unwrap();

    for i in 0..siblings.len() {
        let element = fr_from_le_bytes(siblings[i].as_ref().unwrap());
        let elt = AllocatedNum::alloc(cs.namespace(|| format!("elt {}", i)), || Ok(element))
            .unwrap();
        let right_side = Boolean::from(
            AllocatedBit::alloc(
                cs.namespace(|| format!("position bit {}", i)),
                size_vec[i].get_value(),
            )
            .unwrap(),
        );
        let (xl, xr) = AllocatedNum::conditionally_reverse(
            cs.namespace(|| format!("conditional reversal of preimage {}", i)),
            &hash,
            &elt,
            &right_side,
        )
        .unwrap();
        let mut preimage = vec![];
        preimage.extend(xl.into_bits_le_strict(cs.namespace(|| format!("xl into bits {}", i))).unwrap());
        preimage.extend(xr.into_bits_le_strict(cs.namespace(|| format!("xr into bits {}", i))).unwrap());
        hash = baby_pedersen_hash::pedersen_hash(
            cs.namespace(|| format!("computation of pedersen hash {}", i)),
            baby_pedersen_hash::Personalization::MerkleTree(i),
            &preimage,
            &params,
        )
        .unwrap()
        .get_x()
        .clone();
    }
    hash.inputize(cs.namespace(|| "root")).unwrap();

    assert!(cs.is_satisfied());
    let circuit_root = hash.get_value().unwrap();
    assert_eq!(fr_to_le_bytes(&circuit_root), root_bytes);
}
