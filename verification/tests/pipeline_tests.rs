// End to end through the proving backend: generate a CRS for the tree's
// depth, prove membership of a genuine (leaf, position, siblings) triple, and
// verify against the public inputs [leaf, position, root]; flipping any
// public input must make verification fail.

use rand::{ChaChaRng, SeedableRng};
use sapling_crypto_ce::babyjubjub::{JubjubBn256, JubjubEngine};
use sapling_crypto_ce::bellman::groth16::{
    create_random_proof, generate_random_parameters, prepare_verifying_key, verify_proof,
};
use sapling_crypto_ce::bellman::pairing::bn256::{Bn256, Fr, FrRepr};
use sapling_crypto_ce::bellman::pairing::ff::{Field, PrimeField, PrimeFieldRepr};
use sapling_crypto_ce::bellman::{Circuit, ConstraintSystem, SynthesisError};
use sapling_crypto_ce::circuit::baby_pedersen_hash;
use sapling_crypto_ce::circuit::boolean::{AllocatedBit, Boolean};
use sapling_crypto_ce::circuit::num::AllocatedNum;

use spaceproof_merkle::digest::Algorithm;
use spaceproof_merkle::hashutils::Hashable;
use spaceproof_merkle::merkletree::MerkleTree;
use spaceproof_merkle::spaceproof_merkle_tree::Node;

struct PathCircuit<'a, E: JubjubEngine> {
    position: Option<E::Fr>,
    node: Option<E::Fr>,
    proof: Vec<Option<E::Fr>>,
    params: &'a E::Params,
}

impl<'a, E: JubjubEngine> Circuit<E> for PathCircuit<'a, E> {
    fn synthesize<CS: ConstraintSystem<E>>(self, cs: &mut CS) -> Result<(), SynthesisError> {
        let mut hash = AllocatedNum::alloc(cs.namespace(|| "node"), || {
            Ok(match self.node {
                Some(n) => n,
                None => E::Fr::zero(),
            })
        })?;
        hash.inputize(cs.namespace(|| "public input node"))?;
        let position = AllocatedNum::alloc(cs.namespace(|| "position"), || {
            Ok(match self.position {
                Some(p) => p,
                None => E::Fr::zero(),
            })
        })?;
        position.inputize(cs.namespace(|| "public input position"))?;
        let size_vec = position.into_bits_le_strict(cs.namespace(|| "position into bits"))?;
        for i in 0..self.proof.len() {
            if let Some(ref element) = self.proof[i] {
                let elt =
                    AllocatedNum::alloc(cs.namespace(|| format!("elt {}", i)), || Ok(*element))?;
                let right_side = Boolean::from(
                    AllocatedBit::alloc(
                        cs.namespace(|| format!("position bit {}", i)),
                        size_vec[i].get_value(),
                    )
                    .unwrap(),
                );
                let (xl, xr) = AllocatedNum::conditionally_reverse(
                    cs.namespace(|| format!("conditional reversal of preimage {}", i)),
                    &hash,
                    &elt,
                    &right_side,
                )?;
                let mut preimage = vec![];
                preimage
                    .extend(xl.into_bits_le_strict(cs.namespace(|| format!("xl into bits {}", i)))?);
                preimage
                    .extend(xr.into_bits_le_strict(cs.namespace(|| format!("xr into bits {}", i)))?);
                hash = baby_pedersen_hash::pedersen_hash(
                    cs.namespace(|| format!("computation of pedersen hash {}", i)),
                    baby_pedersen_hash::Personalization::MerkleTree(i),
                    &preimage,
                    self.params,
                )?
                .get_x()
                .clone();
            }
        }
        hash.inputize(cs)?;
        Ok(())
    }
}

fn fr_from_le_bytes(bytes: &[u8]) -> Fr {
    let mut repr = FrRepr::default();
    repr.read_le(bytes).expect("32 bytes");
    Fr::from_repr(repr).expect("canonical encoding")
}

#[test]
fn test_space_generate_params() {
    let seed_slice = &[1u32, 1u32, 1u32, 1u32];
    let rng = &mut ChaChaRng::from_seed(seed_slice);
    let j_params = JubjubBn256::new();

    let pos_int: usize = 3;
    let position = Fr::from_str(&pos_int.to_string()).unwrap();
    let leaves = vec![
        Node::newFromStr("101").unwrap(),
        Node::newFromStr("102").unwrap(),
        Node::newFromStr("103").unwrap(),
        Node::newFromStr("104").unwrap(),
    ];
    let node_fr = fr_from_le_bytes(leaves[pos_int].get_val());

    let alg = Algorithm::new();
    let merkle = MerkleTree::from_vec(&alg, leaves);
    let root = fr_from_le_bytes(merkle.root_hash());

    let proof_path = merkle.gen_nth_proof(pos_int).unwrap();
    let fproof: Vec<Option<Fr>> = proof_path
        .get_sibling_vec()
        .iter()
        .map(|s| Some(fr_from_le_bytes(s.as_ref().unwrap())))
        .collect();
    assert_eq!(fproof.len(), merkle.height());

    let params = generate_random_parameters::<Bn256, _, _>(
        PathCircuit {
            params: &j_params,
            position: None,
            node: None,
            proof: vec![Some(Fr::zero()); merkle.height()],
        },
        rng,
    )
    .unwrap();

    let proof = create_random_proof(
        PathCircuit {
            params: &j_params,
            position: Some(position),
            node: Some(node_fr),
            proof: fproof,
        },
        &params,
        rng,
    )
    .unwrap();

    let pvk = prepare_verifying_key::<Bn256>(&params.vk);
    assert!(verify_proof(&pvk, &proof, &[node_fr, position, root]).unwrap());

    // Any flipped public input must be rejected.
    let wrong_leaf = fr_from_le_bytes(Node::newFromStr("105").unwrap().get_val());
    assert!(!verify_proof(&pvk, &proof, &[wrong_leaf, position, root]).unwrap());
    let wrong_position = Fr::from_str("2").unwrap();
    assert!(!verify_proof(&pvk, &proof, &[node_fr, wrong_position, root]).unwrap());
    let wrong_root = fr_from_le_bytes(Node::newFromStr("106").unwrap().get_val());
    assert!(!verify_proof(&pvk, &proof, &[node_fr, position, wrong_root]).unwrap());
}
