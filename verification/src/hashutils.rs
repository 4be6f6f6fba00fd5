//! The domain-separated combining function and the leaf-encoding capability.
//!
//! A leaf digest is the leaf's own canonical byte encoding, the empty leaf set
//! is represented by the empty digest, and two nodes are combined by a Pedersen
//! hash over the BN256 baby-Jubjub curve, personalized with the layer index so
//! that the same byte patterns at different depths never collide.

use vstd::prelude::*;
use vstd::string::StringSliceAdditionalSpecFns;
use vstd::utf8::encode_utf8;

use crate::digest::{Algorithm, Digest};

verus! {

/// Bit capacity of a BN256 scalar field element: each combining operand is
/// truncated to its low `FR_BITS` little-endian bits, exactly as a field
/// element is decomposed inside the arithmetic circuit.
pub const FR_BITS: usize = 254;

/// Layer tags must stay below this bound: the Pedersen personalization encodes
/// the layer in six bits and refuses anything at or above 62.
pub const MAX_LAYER_TAG: usize = 62;

/// The little-endian bit reading of a byte sequence: bit `i` of the stream is
/// bit `i % 8` of byte `i / 8`.
pub open spec fn le_bits(bytes: Seq<u8>) -> Seq<bool> {
    Seq::new(bytes.len() * 8, |i: int| (bytes[i / 8] >> ((i % 8) as u8)) & 1u8 == 1u8)
}

/// The little-endian bits of a combining operand, truncated to `FR_BITS` bits.
pub open spec fn fr_bits(bytes: Seq<u8>) -> Seq<bool> {
    if bytes.len() * 8 <= FR_BITS {
        le_bits(bytes)
    } else {
        le_bits(bytes).take(FR_BITS as int)
    }
}

/// The preimage of one combining step: the left operand's bits followed by the
/// right operand's bits.
pub open spec fn node_preimage(left: Seq<u8>, right: Seq<u8>) -> Seq<bool> {
    fr_bits(left) + fr_bits(right)
}

/// The little-endian byte encoding of the x-coordinate of the Pedersen hash of
/// `bits` under the layer personalization `layer`.  The hash itself is outside
/// this model; the name stands for its value, which depends on the layer tag
/// and the bits alone.
pub uninterp spec fn pedersen_of(layer: int, bits: Seq<bool>) -> Seq<u8>;

/// The digest of an empty leaf set.
pub open spec fn spec_hash_empty() -> Seq<u8> {
    Seq::empty()
}

/// The digest of a leaf: its canonical byte encoding, unchanged.  Leaves need
/// no further separation from internal nodes because internal digests carry a
/// layer tag and leaves stand only at level zero.
pub open spec fn spec_hash_leaf(bytes: Seq<u8>) -> Seq<u8> {
    bytes
}

/// The digest of two combined nodes at the given layer.
pub open spec fn spec_hash_nodes(layer: nat, left: Seq<u8>, right: Seq<u8>) -> Seq<u8> {
    pedersen_of(layer as int, node_preimage(left, right))
}

/// Relies on `sapling_crypto_ce::baby_pedersen_hash::pedersen_hash` over
/// `Bn256` with `Personalization::MerkleTree(layer)`, and on ff's
/// `into_repr`/`write_le` for the canonical little-endian encoding of the
/// resulting x-coordinate.  The hash is a pure function of the layer tag and
/// the bits: every `Algorithm` carries the parameter tables that
/// `JubjubBn256::new`, their only constructor, derives from fixed constants.
/// The personalization refuses layers at or above 62, and the generator
/// table covers 930 preimage bits, far above what the bound below admits.
/// `write_le` renders the four 64-bit limbs of the representation, so the
/// result is always 32 bytes.
#[verifier::external_body]
fn pedersen_hash_le_bytes(alg: &Algorithm, layer: usize, bits: &Vec<bool>) -> (r: Vec<u8>)
    requires
        layer < MAX_LAYER_TAG,
        bits@.len() <= 2 * FR_BITS,
    ensures
        r@ == pedersen_of(layer as int, bits@),
        r@.len() == 32,
{
    let point = sapling_crypto_ce::baby_pedersen_hash::pedersen_hash::<
        sapling_crypto_ce::bellman::pairing::bn256::Bn256,
        _,
    >(
        sapling_crypto_ce::baby_pedersen_hash::Personalization::MerkleTree(layer),
        bits.iter().cloned(),
        &*alg.params,
    );
    let x = point.into_xy().0;
    let repr = sapling_crypto_ce::bellman::pairing::ff::PrimeField::into_repr(&x);
    let mut buf = vec![];
    sapling_crypto_ce::bellman::pairing::ff::PrimeFieldRepr::write_le(&repr, &mut buf).unwrap();
    buf
}

/// The type of values stored in a `MerkleTree`: a value with a canonical,
/// stable byte encoding.  `spec_val` is that encoding, `get_val` produces it,
/// and `dup` duplicates the value without disturbing it.
pub trait Hashable: Sized {
    /// The canonical byte encoding of this value.
    spec fn spec_val(&self) -> Seq<u8>;

    /// Produce the canonical byte encoding.
    fn get_val(&self) -> (r: &[u8])
        ensures
            r@ == self.spec_val(),
    ;

    /// Duplicate the value; the copy has the same canonical encoding.
    fn dup(&self) -> (r: Self)
        ensures
            r.spec_val() == self.spec_val(),
    ;
}

impl Hashable for Vec<u8> {
    open spec fn spec_val(&self) -> Seq<u8> {
        self@
    }

    fn get_val(&self) -> (r: &[u8]) {
        self.as_slice()
    }

    fn dup(&self) -> (r: Self) {
        vstd::slice::slice_to_vec(self.as_slice())
    }
}

impl Hashable for &[u8] {
    open spec fn spec_val(&self) -> Seq<u8> {
        (*self)@
    }

    fn get_val(&self) -> (r: &[u8]) {
        self
    }

    fn dup(&self) -> (r: Self) {
        *self
    }
}

impl Hashable for &str {
    open spec fn spec_val(&self) -> Seq<u8> {
        self.spec_bytes()
    }

    fn get_val(&self) -> (r: &[u8]) {
        self.as_bytes()
    }

    fn dup(&self) -> (r: Self) {
        *self
    }
}

impl Hashable for String {
    open spec fn spec_val(&self) -> Seq<u8> {
        encode_utf8(self@)
    }

    fn get_val(&self) -> (r: &[u8]) {
        self.as_str().as_bytes()
    }

    fn dup(&self) -> (r: Self) {
        self.clone()
    }
}

impl Hashable for Digest {
    open spec fn spec_val(&self) -> Seq<u8> {
        self.value@
    }

    fn get_val(&self) -> (r: &[u8]) {
        self.value.as_slice()
    }

    fn dup(&self) -> (r: Self) {
        Digest {
            value: vstd::slice::slice_to_vec(self.value.as_slice()),
            algorithm: self.algorithm.clone(),
        }
    }
}

/// Extends `Algorithm` with the three tree-hashing operations.
pub trait HashUtils {
    /// The digest of the empty leaf set.
    fn hash_empty(&self) -> (d: Digest)
        ensures
            d@ == spec_hash_empty(),
    ;

    /// The digest of a single leaf.
    fn hash_leaf<T: Hashable>(&self, leaf: &T) -> (d: Digest)
        ensures
            d@ == spec_hash_leaf(leaf.spec_val()),
    ;

    /// The digest of the concatenation of `left` and `right`, personalized by
    /// the combination layer `height` (0 for the first layer above the
    /// leaves): a 32-byte field-element encoding.  The layer tag must fit the
    /// personalization's six-bit domain.
    fn hash_nodes<T: Hashable>(&self, height: usize, left: &T, right: &T) -> (d: Digest)
        requires
            height < MAX_LAYER_TAG,
        ensures
            d@ == spec_hash_nodes(height as nat, left.spec_val(), right.spec_val()),
            d@.len() == 32,
    ;
}

/// Append the truncated little-endian bits of `bytes` to `bits`.
fn push_fr_bits(bits: &mut Vec<bool>, bytes: &[u8])
    requires
        old(bits)@.len() <= FR_BITS,
    ensures
        final(bits)@ == old(bits)@ + fr_bits(bytes@),
{
    let n: usize = if bytes.len() >= 32 {
        FR_BITS
    } else {
        bytes.len() * 8
    };
    assert(fr_bits(bytes@).len() == n);
    let ghost base = bits@;
    let mut i: usize = 0;
    while i < n
        invariant
            i <= n,
            n == fr_bits(bytes@).len(),
            n <= bytes@.len() * 8,
            bits@ == base + fr_bits(bytes@).take(i as int),
        decreases n - i,
    {
        let b: bool = (bytes[i / 8] >> ((i % 8) as u8)) & 1u8 == 1u8;
        assert(b == le_bits(bytes@)[i as int]);
        assert(b == fr_bits(bytes@)[i as int]);
        bits.push(b);
        assert(bits@ == base + fr_bits(bytes@).take(i as int + 1));
        i = i + 1;
    }
    assert(fr_bits(bytes@).take(n as int) == fr_bits(bytes@));
}

impl HashUtils for Algorithm {
    fn hash_empty(&self) -> (d: Digest) {
        Digest { value: Vec::new(), algorithm: self.clone() }
    }

    fn hash_leaf<T: Hashable>(&self, leaf: &T) -> (d: Digest) {
        Digest { value: vstd::slice::slice_to_vec(leaf.get_val()), algorithm: self.clone() }
    }

    fn hash_nodes<T: Hashable>(&self, height: usize, left: &T, right: &T) -> (d: Digest) {
        let mut bits: Vec<bool> = Vec::new();
        push_fr_bits(&mut bits, left.get_val());
        push_fr_bits(&mut bits, right.get_val());
        let value = pedersen_hash_le_bytes(self, height, &bits);
        Digest { value, algorithm: self.clone() }
    }
}

/// Iterates the bits of a byte sequence from the most significant bit of the
/// last byte down to the least significant bit of the first byte: the reverse
/// of the little-endian bit reading `le_bits`.
pub struct BitIterator<'a> {
    t: &'a [u8],
    n: usize,
}

impl<'a> BitIterator<'a> {
    /// The bytes the iterator walks.
    pub closed spec fn bytes(&self) -> Seq<u8> {
        self.t@
    }

    /// How many bits are still to be yielded.
    pub closed spec fn remaining(&self) -> nat {
        self.n as nat
    }

    /// The cursor never points past the end of the bit stream.
    pub closed spec fn wf(&self) -> bool {
        self.n <= self.t@.len() * 8
    }

    pub fn new(t: &'a [u8]) -> (r: Self)
        requires
            t@.len() <= usize::MAX / 8,
        ensures
            r.wf(),
            r.bytes() == t@,
            r.remaining() == t@.len() * 8,
    {
        let n = t.len() * 8;
        BitIterator { t, n }
    }

    /// Yield the next bit, walking `le_bits(self.bytes())` from its last
    /// element down to its first; `None` once every bit has been yielded.
    pub fn next(&mut self) -> (r: Option<bool>)
        requires
            old(self).wf(),
        ensures
            final(self).wf(),
            final(self).bytes() == old(self).bytes(),
            match r {
                None => old(self).remaining() == 0 && final(self).remaining() == 0,
                Some(b) => {
                    &&& old(self).remaining() > 0
                    &&& final(self).remaining() == old(self).remaining() - 1
                    &&& b == le_bits(old(self).bytes())[old(self).remaining() - 1]
                },
            },
    {
        if self.n == 0 {
            None
        } else {
            self.n = self.n - 1;
            let part = self.n / 8;
            let bit = self.n - 8 * part;
            assert(bit == self.n % 8);
            assert(part < self.t@.len());
            let byte = self.t[part];
            let b = byte & (1u8 << (bit as u8)) > 0;
            proof {
                let k = (bit as u8);
                assert((byte & (1u8 << k) > 0) == ((byte >> k) & 1u8 == 1u8)) by (bit_vector)
                    requires
                        k < 8,
                ;
            }
            assert(b == le_bits(self.t@)[self.n as int]);
            Some(b)
        }
    }
}

} // verus!
