//! Field-element leaves for the proving pipeline.
//!
//! A `Node` is a leaf whose bytes are the canonical 32-byte little-endian
//! encoding of a BN256 scalar: the same value the arithmetic circuit consumes,
//! so a tree over `Node`s has a root the circuit can re-derive.  Decoding
//! rejects anything that is not such an encoding; parsing a decimal string
//! reduces it into the field.

use vstd::prelude::*;
use vstd::arithmetic::power::pow;

use crate::hashutils::Hashable;

verus! {

/// The little-endian integer a byte sequence encodes.
pub open spec fn le_int(b: Seq<u8>) -> nat
    decreases b.len(),
{
    if b.len() == 0 {
        0
    } else {
        (b[0] + 256 * le_int(b.drop_first())) as nat
    }
}

/// The canonical little-endian encoding of the BN256 scalar field's order,
/// 21888242871839275222246405745257275088548364400416034343698204186575808495617.
pub open spec fn fr_modulus_le_bytes() -> Seq<u8> {
    seq![
        0x01u8, 0x00, 0x00, 0xf0, 0x93, 0xf5, 0xe1, 0x43,
        0x91, 0x70, 0xb9, 0x79, 0x48, 0xe8, 0x33, 0x28,
        0x5d, 0x58, 0x81, 0x81, 0xb6, 0x45, 0x50, 0xb8,
        0x29, 0xa0, 0x31, 0xe1, 0x72, 0x4e, 0x64, 0x30,
    ]
}

/// The order of the BN256 scalar field.
pub open spec fn fr_modulus() -> nat {
    le_int(fr_modulus_le_bytes())
}

/// Whether `b` is the canonical encoding of a field element: exactly 32
/// little-endian bytes whose value lies below the field order.
pub open spec fn fr_canonical_bytes(b: Seq<u8>) -> bool {
    b.len() == 32 && le_int(b) < fr_modulus()
}

/// Whether `s` is a decimal numeral the field parser accepts: non-empty, all
/// decimal digits, and without an unnecessary leading zero.
pub open spec fn is_canonical_decimal(s: Seq<char>) -> bool {
    &&& s.len() > 0
    &&& forall|i: int| 0 <= i < s.len() ==> '0' <= #[trigger] s[i] <= '9'
    &&& s.len() > 1 ==> s[0] != '0'
}

/// The value of a decimal numeral.
pub open spec fn decimal_val(s: Seq<char>) -> nat
    decreases s.len(),
{
    if s.len() == 0 {
        0
    } else {
        (10 * decimal_val(s.drop_last()) + (s.last() as int - '0' as int)) as nat
    }
}

/// A little-endian byte sequence encodes a value below `pow(256, len)`.
proof fn lemma_le_int_bound(s: Seq<u8>)
    ensures
        le_int(s) < pow(256, s.len()),
    decreases s.len(),
{
    reveal(pow);
    if s.len() == 0 {
    } else {
        lemma_le_int_bound(s.drop_first());
        assert(pow(256, s.len()) == 256 * pow(256, (s.len() - 1) as nat));
        assert(s[0] + 256 * le_int(s.drop_first()) < 256 * pow(256, (s.len() - 1) as nat)) by (nonlinear_arith)
            requires
                s[0] < 256,
                le_int(s.drop_first()) < pow(256, (s.len() - 1) as nat),
                s.len() >= 1,
        ;
    }
}

/// Splitting off the most significant byte: the value is the value of the
/// remaining bytes plus the last byte at its positional weight.
proof fn lemma_le_int_split_last(s: Seq<u8>)
    requires
        s.len() >= 1,
    ensures
        le_int(s) == le_int(s.drop_last()) + s.last() * pow(256, (s.len() - 1) as nat),
    decreases s.len(),
{
    reveal(pow);
    if s.len() == 1 {
        assert(s.drop_last().len() == 0);
        assert(s.drop_first().len() == 0);
        assert(le_int(s.drop_first()) == 0);
        assert(le_int(s.drop_last()) == 0);
        assert(le_int(s) == s[0]);
        assert(pow(256, 0) == 1);
    } else {
        let rest = s.drop_first();
        lemma_le_int_split_last(rest);
        assert(rest.drop_last() =~= s.drop_last().drop_first());
        assert(rest.last() == s.last());
        assert(le_int(s.drop_last()) == s[0] + 256 * le_int(s.drop_last().drop_first()));
        assert(pow(256, (s.len() - 1) as nat) == 256 * pow(256, (s.len() - 2) as nat));
        assert(256 * (le_int(rest.drop_last()) + s.last() * pow(256, (s.len() - 2) as nat)) == 256
            * le_int(rest.drop_last()) + s.last() * (256 * pow(256, (s.len() - 2) as nat)))
            by (nonlinear_arith);
    }
}

/// Compare the low `len` bytes of `a` and `m` as little-endian integers,
/// walking from the most significant byte down.
fn le_bytes_lt(a: &[u8], m: &[u8], len: usize) -> (r: bool)
    requires
        len <= a@.len(),
        len <= m@.len(),
    ensures
        r == (le_int(a@.take(len as int)) < le_int(m@.take(len as int))),
    decreases len,
{
    if len == 0 {
        assert(a@.take(0).len() == 0);
        assert(m@.take(0).len() == 0);
        false
    } else {
        let i = len - 1;
        proof {
            lemma_le_int_split_last(a@.take(len as int));
            lemma_le_int_split_last(m@.take(len as int));
            assert(a@.take(len as int).drop_last() =~= a@.take(i as int));
            assert(m@.take(len as int).drop_last() =~= m@.take(i as int));
            assert(a@.take(len as int).last() == a@[i as int]);
            assert(m@.take(len as int).last() == m@[i as int]);
            lemma_le_int_bound(a@.take(i as int));
            lemma_le_int_bound(m@.take(i as int));
        }
        let ghost w = pow(256, i as nat);
        if a[i] < m[i] {
            proof {
                assert(le_int(a@.take(i as int)) + (a@[i as int] as nat) * w < (
                le_int(m@.take(i as int)) + (m@[i as int] as nat) * w)) by (nonlinear_arith)
                    requires
                        le_int(a@.take(i as int)) < w,
                        (a@[i as int] as nat) < (m@[i as int] as nat),
                        0 <= le_int(m@.take(i as int)),
                ;
            }
            true
        } else if a[i] > m[i] {
            proof {
                assert(le_int(m@.take(i as int)) + (m@[i as int] as nat) * w < (
                le_int(a@.take(i as int)) + (a@[i as int] as nat) * w)) by (nonlinear_arith)
                    requires
                        le_int(m@.take(i as int)) < w,
                        (m@[i as int] as nat) < (a@[i as int] as nat),
                        0 <= le_int(a@.take(i as int)),
                ;
            }
            false
        } else {
            le_bytes_lt(a, m, i)
        }
    }
}

/// The modulus encoding as runtime bytes.
fn fr_modulus_bytes() -> (m: Vec<u8>)
    ensures
        m@ == fr_modulus_le_bytes(),
{
    let m: Vec<u8> = vec![
        0x01u8, 0x00, 0x00, 0xf0, 0x93, 0xf5, 0xe1, 0x43,
        0x91, 0x70, 0xb9, 0x79, 0x48, 0xe8, 0x33, 0x28,
        0x5d, 0x58, 0x81, 0x81, 0xb6, 0x45, 0x50, 0xb8,
        0x29, 0xa0, 0x31, 0xe1, 0x72, 0x4e, 0x64, 0x30,
    ];
    proof {
        assert(m@ =~= fr_modulus_le_bytes());
    }
    m
}

/// Relies on ff's `PrimeField::from_str` for the BN256 scalar field, and on
/// `into_repr`/`write_le` for the canonical encoding: the parser accepts
/// exactly the non-empty digit strings without an unnecessary leading zero,
/// and returns their decimal value reduced into the field, which the encoding
/// then renders as 32 canonical little-endian bytes.
#[verifier::external_body]
fn fr_decimal_to_le_bytes(s: &str) -> (r: Option<Vec<u8>>)
    ensures
        match r {
            Option::Some(v) => is_canonical_decimal(s@) && fr_canonical_bytes(v@) && le_int(v@)
                == decimal_val(s@) % fr_modulus(),
            Option::None => !is_canonical_decimal(s@),
        },
{
    let fr = <sapling_crypto_ce::bellman::pairing::bn256::Fr as sapling_crypto_ce::bellman::pairing::ff::PrimeField>::from_str(s)?;
    let repr = sapling_crypto_ce::bellman::pairing::ff::PrimeField::into_repr(&fr);
    let mut buf = vec![];
    sapling_crypto_ce::bellman::pairing::ff::PrimeFieldRepr::write_le(&repr, &mut buf).unwrap();
    Some(buf)
}

/// A leaf value carrying the canonical encoding of a BN256 scalar.
#[derive(Debug)]
pub struct Node {
    encoded: Vec<u8>,
}

impl View for Node {
    type V = Seq<u8>;

    closed spec fn view(&self) -> Seq<u8> {
        self.encoded@
    }
}

impl Node {
    /// The encoding is canonical: 32 bytes, value below the field order.
    pub open spec fn wf(&self) -> bool {
        fr_canonical_bytes(self@)
    }

    /// Decode a field element from stored bytes: the first 32 bytes read as a
    /// little-endian integer must lie below the field order.  Anything
    /// shorter, and any value at or above the order, is rejected with a
    /// message naming the failure.
    #[allow(non_snake_case)]
    pub fn newFromVec(s: Vec<u8>) -> (r: Result<Node, String>)
        ensures
            match r {
                Result::Ok(n) => {
                    &&& s@.len() >= 32
                    &&& fr_canonical_bytes(s@.take(32))
                    &&& n@ == s@.take(32)
                },
                Result::Err(e) => (s@.len() < 32 && e@ == "could not read a full field encoding"@)
                    || (s@.len() >= 32 && !fr_canonical_bytes(s@.take(32)) && e@
                    == "could not convert into prime field"@),
            },
    {
        if s.len() < 32 {
            return Result::Err("could not read a full field encoding".to_owned());
        }
        let prefix = vstd::slice::slice_subrange(s.as_slice(), 0, 32);
        let enc = vstd::slice::slice_to_vec(prefix);
        proof {
            assert(enc@ =~= s@.take(32));
        }
        let m = fr_modulus_bytes();
        if le_bytes_lt(enc.as_slice(), m.as_slice(), 32) {
            proof {
                assert(enc@.take(32) =~= enc@);
                assert(m@.take(32) =~= m@);
            }
            Result::Ok(Node { encoded: enc })
        } else {
            proof {
                assert(enc@.take(32) =~= enc@);
                assert(m@.take(32) =~= m@);
            }
            Result::Err("could not convert into prime field".to_owned())
        }
    }

    /// Parse a decimal numeral into a field element: accepted exactly when
    /// the numeral is non-empty, all digits, and free of an unnecessary
    /// leading zero; the value is reduced into the field.
    #[allow(non_snake_case)]
    pub fn newFromStr(s: &str) -> (r: Option<Node>)
        ensures
            match r {
                Option::Some(n) => {
                    &&& is_canonical_decimal(s@)
                    &&& n.wf()
                    &&& le_int(n@) == decimal_val(s@) % fr_modulus()
                },
                Option::None => !is_canonical_decimal(s@),
            },
    {
        match fr_decimal_to_le_bytes(s) {
            Option::Some(v) => Option::Some(Node { encoded: v }),
            Option::None => Option::None,
        }
    }
}

impl Hashable for Node {
    open spec fn spec_val(&self) -> Seq<u8> {
        self@
    }

    fn get_val(&self) -> (r: &[u8]) {
        self.encoded.as_slice()
    }

    fn dup(&self) -> (r: Self) {
        Node { encoded: vstd::slice::slice_to_vec(self.encoded.as_slice()) }
    }
}

/// A generated parameter set, serialized for a caller.
pub struct Generate {
    pub params: String,
}

/// A generated zero-knowledge proof, serialized for a caller.
pub struct SProof {
    pub proof: String,
}

} // verus!
