//! The digest type shared by the tree, the proofs and the hash algorithm.

use std::sync::Arc;

use vstd::prelude::*;

verus! {

/// The baby-Jubjub parameter set behind the combining function.  Opaque to
/// the model: `JubjubBn256::new`, its only constructor, derives the same
/// fixed tables in every process, so a value of this type carries no
/// information of its own.
#[verifier::external_type_specification]
#[verifier::external_body]
pub struct ExJubjubBn256(sapling_crypto_ce::babyjubjub::JubjubBn256);

/// The combining algorithm, a stateless capability object shared by
/// reference across all tree operations.  It carries the fixed curve
/// parameter tables so they are computed once per capability, not once per
/// hash.
#[derive(Clone)]
pub struct Algorithm {
    pub(crate) params: Arc<sapling_crypto_ce::babyjubjub::JubjubBn256>,
}

impl Algorithm {
    /// Relies on `JubjubBn256::new`: the parameter set is derived from fixed
    /// constants, the same in every process, so every `Algorithm` is
    /// interchangeable with every other.
    #[verifier::external_body]
    pub fn new() -> (a: Algorithm) {
        Algorithm { params: Arc::new(sapling_crypto_ce::babyjubjub::JubjubBn256::new()) }
    }
}

/// An immutable byte-sequence digest together with the algorithm that
/// produced it.  Equality of digests is byte-wise equality of `value`.
pub struct Digest {
    pub value: Vec<u8>,
    pub algorithm: Algorithm,
}

impl View for Digest {
    type V = Seq<u8>;

    open spec fn view(&self) -> Seq<u8> {
        self.value@
    }
}

impl Digest {
    /// The algorithm that was used to calculate the digest value.
    pub fn algorithm(&self) -> (a: &Algorithm)
        ensures
            a == &self.algorithm,
    {
        &self.algorithm
    }
}

} // verus!
