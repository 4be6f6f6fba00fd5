//! Membership paths: the `Lemma` chain from a leaf to the root, the `Proof`
//! that carries it, and their validation.
//!
//! A `Lemma` entry at level `k` records the digest of the path node at that
//! level, the sibling (if any) that was combined with the level-`k - 1` node
//! to produce it, tagged with the side the sibling stood on, and the entry one
//! level further down.  The entry at the bottom is the leaf itself and records
//! no sibling.  A level with no recorded sibling is a carried node: the digest
//! passes through unchanged.

use vstd::prelude::*;
use vstd::arithmetic::power2::{lemma_pow2_pos, lemma_pow2_unfold, pow2};

use crate::digest::Algorithm;
use crate::hashutils::{
    spec_hash_leaf, spec_hash_nodes, Hashable, HashUtils, MAX_LAYER_TAG,
};

verus! {

/// A sibling digest tagged with the side it stands on, relative to the path
/// node it is combined with.
pub enum Positioned<T> {
    Left(T),
    Right(T),
}

/// One level of a membership path; see the module documentation.
pub struct Lemma {
    pub node_hash: Vec<u8>,
    pub sibling_hash: Option<Positioned<Vec<u8>>>,
    pub sub_lemma: Option<Box<Lemma>>,
}

/// A membership proof: the original leaf value, the root it claims, and the
/// lemma chain connecting the two.
pub struct Proof<T> {
    pub algorithm: Algorithm,
    pub root_hash: Vec<u8>,
    pub lemma: Lemma,
    pub value: T,
}

/// The number of levels below the top entry of `l`: 0 for a bare leaf entry,
/// and the number of combining layers otherwise.
pub open spec fn levels_below(l: Lemma) -> nat
    decreases l,
{
    match l.sub_lemma {
        Option::None => 0,
        Option::Some(sub) => 1 + levels_below(*sub),
    }
}

/// The digest recorded at the bottom (leaf) entry of the chain.
pub open spec fn leaf_hash(l: Lemma) -> Seq<u8>
    decreases l,
{
    match l.sub_lemma {
        Option::None => l.node_hash@,
        Option::Some(sub) => leaf_hash(*sub),
    }
}

/// Whether every entry's digest is the correct combination of the entry below
/// it and the recorded sibling, under the layer tag of that combination.  An
/// entry with no sibling must repeat the digest below it (a carried node).
pub open spec fn chain_ok(l: Lemma) -> bool
    decreases l,
{
    match l.sub_lemma {
        Option::None => l.sibling_hash is None,
        Option::Some(sub) => {
            &&& chain_ok(*sub)
            &&& match l.sibling_hash {
                Option::None => l.node_hash@ == (*sub).node_hash@,
                Option::Some(Positioned::Left(h)) => l.node_hash@ == spec_hash_nodes(
                    levels_below(*sub),
                    h@,
                    (*sub).node_hash@,
                ),
                Option::Some(Positioned::Right(h)) => l.node_hash@ == spec_hash_nodes(
                    levels_below(*sub),
                    (*sub).node_hash@,
                    h@,
                ),
            }
        },
    }
}

/// The leaf position the chain encodes: a `Left` sibling at layer `k` means
/// the path node was the right child there and contributes a 1-bit of weight
/// `pow2(k)`; a `Right` sibling or a carried node contributes 0.
pub open spec fn path_index(l: Lemma) -> nat
    decreases l,
{
    match l.sub_lemma {
        Option::None => 0,
        Option::Some(sub) => path_index(*sub) + if l.sibling_hash matches Option::Some(
            Positioned::Left(_),
        ) {
            pow2(levels_below(*sub))
        } else {
            0
        },
    }
}

/// The recorded siblings without their sides, ordered from the leaf level
/// upward: entry `k` is the sibling combined at layer `k`, `None` at a
/// carried layer.
pub open spec fn sibling_seq(l: Lemma) -> Seq<Option<Seq<u8>>>
    decreases l,
{
    match l.sub_lemma {
        Option::None => Seq::empty(),
        Option::Some(sub) => sibling_seq(*sub).push(
            match l.sibling_hash {
                Option::None => Option::None,
                Option::Some(Positioned::Left(h)) => Option::Some(h@),
                Option::Some(Positioned::Right(h)) => Option::Some(h@),
            },
        ),
    }
}

/// The recorded siblings with their sides, ordered from the leaf level upward.
pub open spec fn sibling_sides(l: Lemma) -> Seq<Option<Positioned<Seq<u8>>>>
    decreases l,
{
    match l.sub_lemma {
        Option::None => Seq::empty(),
        Option::Some(sub) => sibling_sides(*sub).push(
            match l.sibling_hash {
                Option::None => Option::None,
                Option::Some(Positioned::Left(h)) => Option::Some(Positioned::Left(h@)),
                Option::Some(Positioned::Right(h)) => Option::Some(Positioned::Right(h@)),
            },
        ),
    }
}

/// The digests along the path, ordered from the leaf entry up to the top
/// entry.
pub open spec fn node_chain(l: Lemma) -> Seq<Seq<u8>>
    decreases l,
{
    match l.sub_lemma {
        Option::None => seq![l.node_hash@],
        Option::Some(sub) => node_chain(*sub).push(l.node_hash@),
    }
}

/// What `Proof::validate` decides: the proof's stored root and the top digest
/// of its chain both equal the claimed root, the chain is consistent at every
/// layer, its depth fits the layer-tag domain of the combining function, and
/// the bottom entry is the digest of the proof's own leaf value.
pub open spec fn spec_validate<T: Hashable>(p: Proof<T>, root: Seq<u8>) -> bool {
    &&& p.root_hash@ == root
    &&& p.lemma.node_hash@ == root
    &&& levels_below(p.lemma) <= MAX_LAYER_TAG
    &&& chain_ok(p.lemma)
    &&& leaf_hash(p.lemma) == spec_hash_leaf(p.value.spec_val())
}

/// Byte-wise equality of two slices.
pub fn bytes_eq(a: &[u8], b: &[u8]) -> (r: bool)
    ensures
        r == (a@ == b@),
{
    if a.len() != b.len() {
        assert(a@.len() != b@.len());
        return false;
    }
    let mut i: usize = 0;
    while i < a.len()
        invariant
            i <= a@.len(),
            a@.len() == b@.len(),
            forall|j: int| 0 <= j < i ==> a@[j] == b@[j],
        decreases a@.len() - i,
    {
        if a[i] != b[i] {
            return false;
        }
        i = i + 1;
    }
    proof {
        assert(a@ =~= b@);
    }
    true
}

/// Walk the chain from the top down and recompute every combination; returns
/// the number of levels below the top entry when the chain is consistent and
/// shallow enough for the layer-tag domain, and `None` otherwise.
fn check_chain(algorithm: &Algorithm, l: &Lemma) -> (res: Option<usize>)
    ensures
        match res {
            Option::Some(d) => d == levels_below(*l) && d <= MAX_LAYER_TAG && chain_ok(*l),
            Option::None => !(chain_ok(*l) && levels_below(*l) <= MAX_LAYER_TAG),
        },
    decreases *l,
{
    match &l.sub_lemma {
        Option::None => {
            if l.sibling_hash.is_none() {
                Option::Some(0)
            } else {
                Option::None
            }
        },
        Option::Some(sub) => {
            match check_chain(algorithm, &**sub) {
                Option::None => Option::None,
                Option::Some(d) => {
                    if d >= MAX_LAYER_TAG {
                        return Option::None;
                    }
                    let ok = match &l.sibling_hash {
                        Option::None => bytes_eq(
                            l.node_hash.as_slice(),
                            sub.node_hash.as_slice(),
                        ),
                        Option::Some(Positioned::Left(h)) => {
                            let combined = algorithm.hash_nodes(d, h, &sub.node_hash);
                            bytes_eq(l.node_hash.as_slice(), combined.value.as_slice())
                        },
                        Option::Some(Positioned::Right(h)) => {
                            let combined = algorithm.hash_nodes(d, &sub.node_hash, h);
                            bytes_eq(l.node_hash.as_slice(), combined.value.as_slice())
                        },
                    };
                    if ok {
                        Option::Some(d + 1)
                    } else {
                        Option::None
                    }
                },
            }
        },
    }
}

/// The digest stored at the bottom (leaf) entry.
fn leaf_node<'a>(l: &'a Lemma) -> (r: &'a Vec<u8>)
    ensures
        r@ == leaf_hash(*l),
    decreases *l,
{
    match &l.sub_lemma {
        Option::None => &l.node_hash,
        Option::Some(sub) => leaf_node(&**sub),
    }
}

/// Horner accumulation of the path bits from the top entry down: the result
/// extends `acc` by the bits of `l`'s levels, most significant first.
fn index_walk(l: &Lemma, acc: usize) -> (r: usize)
    requires
        acc * pow2(levels_below(*l)) + path_index(*l) <= usize::MAX,
    ensures
        r == acc * pow2(levels_below(*l)) + path_index(*l),
    decreases *l,
{
    match &l.sub_lemma {
        Option::None => {
            proof {
                assert(pow2(0) == 1) by {
                    vstd::arithmetic::power2::lemma2_to64();
                }
            }
            acc
        },
        Option::Some(sub) => {
            let ghost d = levels_below(*l);
            let ghost dsub = levels_below(**sub);
            let bit: usize = match &l.sibling_hash {
                Option::Some(Positioned::Left(_)) => 1,
                _ => 0,
            };
            proof {
                lemma_pow2_unfold(d);
                lemma_pow2_pos(dsub);
                assert(pow2(d) == 2 * pow2(dsub));
                assert(path_index(*l) == path_index(**sub) + (bit as nat) * pow2(dsub));
                assert((acc * 2 + bit) * pow2(dsub) == acc * (2 * pow2(dsub)) + bit * pow2(dsub))
                    by (nonlinear_arith);
                assert((acc * 2 + bit) * pow2(dsub) + path_index(**sub) == acc * pow2(d)
                    + path_index(*l));
                assert(acc * 2 + bit <= (acc * 2 + bit) * pow2(dsub)) by (nonlinear_arith)
                    requires
                        pow2(dsub) >= 1,
                ;
            }
            let acc2 = acc * 2 + bit;
            index_walk(&**sub, acc2)
        },
    }
}

impl<T: Hashable> Proof<T> {
    /// Recompute the root from the chain and compare it, byte for byte, with
    /// the claimed root; see `spec_validate` for exactly what is decided.
    pub fn validate(&self, root_hash: &[u8]) -> (r: bool)
        ensures
            r == spec_validate(*self, root_hash@),
    {
        if !bytes_eq(self.root_hash.as_slice(), root_hash) {
            return false;
        }
        if !bytes_eq(self.lemma.node_hash.as_slice(), root_hash) {
            return false;
        }
        match check_chain(&self.algorithm, &self.lemma) {
            Option::None => false,
            Option::Some(_d) => {
                let leaf = leaf_node(&self.lemma);
                let expected = self.algorithm.hash_leaf(&self.value);
                bytes_eq(leaf.as_slice(), expected.value.as_slice())
            },
        }
    }

    /// Recover the leaf position encoded in the chain's sibling sides, for a
    /// tree of `count` leaves.  The position of a leaf in such a tree is
    /// always below `count`.
    pub fn index(&self, count: usize) -> (r: usize)
        requires
            path_index(self.lemma) < count,
        ensures
            r == path_index(self.lemma),
    {
        proof {
            lemma_pow2_pos(levels_below(self.lemma));
        }
        index_walk(&self.lemma, 0)
    }

    /// The recorded sibling digests, ordered from the leaf level upward, with
    /// `None` at each carried layer.
    pub fn get_sibling_vec(&self) -> (r: Vec<Option<Vec<u8>>>)
        ensures
            r.deep_view() == sibling_seq(self.lemma),
    {
        collect_siblings(&self.lemma)
    }
}

/// Collect the sibling digests of the chain, leaf level first.
fn collect_siblings(l: &Lemma) -> (r: Vec<Option<Vec<u8>>>)
    ensures
        r.deep_view() == sibling_seq(*l),
    decreases *l,
{
    match &l.sub_lemma {
        Option::None => {
            let r: Vec<Option<Vec<u8>>> = Vec::new();
            assert(r.deep_view() =~~= sibling_seq(*l));
            r
        },
        Option::Some(sub) => {
            let mut r = collect_siblings(&**sub);
            let entry: Option<Vec<u8>> = match &l.sibling_hash {
                Option::None => Option::None,
                Option::Some(Positioned::Left(h)) => Option::Some(
                    vstd::slice::slice_to_vec(h.as_slice()),
                ),
                Option::Some(Positioned::Right(h)) => Option::Some(
                    vstd::slice::slice_to_vec(h.as_slice()),
                ),
            };
            r.push(entry);
            assert(r.deep_view() =~~= sibling_seq(*l));
            r
        },
    }
}

/// Pushing one element onto each of two sequences yields equal sequences only
/// when the originals and the pushed elements agree.
proof fn lemma_push_parts<A>(s1: Seq<A>, a: A, s2: Seq<A>, b: A)
    requires
        s1.push(a) == s2.push(b),
    ensures
        s1 == s2,
        a == b,
{
    assert(s1.push(a).len() == s1.len() + 1);
    assert(s2.push(b).len() == s2.len() + 1);
    assert(s1.len() == s2.len());
    assert(a == s1.push(a)[s1.len() as int]);
    assert(b == s2.push(b)[s2.len() as int]);
    assert(s1 =~= s2) by {
        assert forall|i: int| 0 <= i < s1.len() implies s1[i] == s2[i] by {
            assert(s1[i] == s1.push(a)[i]);
            assert(s2[i] == s2.push(b)[i]);
        }
    }
}

/// The chain has exactly one recorded sibling slot per combining layer.
pub proof fn lemma_levels_matches_sides(l: Lemma)
    ensures
        sibling_sides(l).len() == levels_below(l),
    decreases l,
{
    match l.sub_lemma {
        Option::None => {},
        Option::Some(sub) => {
            lemma_levels_matches_sides(*sub);
        },
    }
}

/// A consistent chain is pinned by its leaf digest and its recorded siblings:
/// every digest along the path, the root included, is recomputed from them,
/// so two consistent chains over the same leaf digest and the same siblings
/// and sides carry the same digests at every level.
pub proof fn lemma_chain_determined(l1: Lemma, l2: Lemma)
    requires
        chain_ok(l1),
        chain_ok(l2),
        sibling_sides(l1) == sibling_sides(l2),
        leaf_hash(l1) == leaf_hash(l2),
    ensures
        node_chain(l1) == node_chain(l2),
    decreases l1,
{
    lemma_levels_matches_sides(l1);
    lemma_levels_matches_sides(l2);
    match l1.sub_lemma {
        Option::None => {
            assert(l2.sub_lemma is None);
            assert(node_chain(l1) =~= node_chain(l2));
        },
        Option::Some(sub1) => {
            let sub2 = l2.sub_lemma->Some_0;
            let e1 = match l1.sibling_hash {
                Option::None => Option::None,
                Option::Some(Positioned::Left(h)) => Option::Some(Positioned::Left(h@)),
                Option::Some(Positioned::Right(h)) => Option::Some(Positioned::Right(h@)),
            };
            let e2 = match l2.sibling_hash {
                Option::None => Option::None,
                Option::Some(Positioned::Left(h)) => Option::Some(Positioned::Left(h@)),
                Option::Some(Positioned::Right(h)) => Option::Some(Positioned::Right(h@)),
            };
            lemma_push_parts(sibling_sides(*sub1), e1, sibling_sides(*sub2), e2);
            lemma_chain_determined(*sub1, *sub2);
            assert((*sub1).node_hash@ == node_chain(*sub1).last());
            assert((*sub2).node_hash@ == node_chain(*sub2).last());
            assert(l1.node_hash@ == l2.node_hash@);
            assert(node_chain(l1) =~= node_chain(l2));
        },
    }
}

/// The sibling list without sides is the sibling list with sides, entry by
/// entry, each side tag dropped: what `get_sibling_vec` hands out is pinned
/// by whatever pins `sibling_sides`.
pub proof fn lemma_sibling_seq_drops_sides(l: Lemma)
    ensures
        sibling_seq(l).len() == sibling_sides(l).len(),
        forall|k: int|
            0 <= k < sibling_seq(l).len() ==> sibling_seq(l)[k] == (
            match #[trigger] sibling_sides(l)[k] {
                Option::None => Option::None,
                Option::Some(Positioned::Left(h)) => Option::Some(h),
                Option::Some(Positioned::Right(h)) => Option::Some(h),
            }),
    decreases l,
{
    match l.sub_lemma {
        Option::None => {},
        Option::Some(sub) => {
            lemma_sibling_seq_drops_sides(*sub);
        },
    }
}

/// A proof validates against at most one root: the claimed root is compared,
/// byte for byte, with the digest the chain carries.  Whether two different
/// leaf sequences can produce the same root is the collision resistance of
/// the combining function, a cryptographic assumption outside this model.
pub proof fn lemma_validate_binds_root<T: Hashable>(p: Proof<T>, root1: Seq<u8>, root2: Seq<u8>)
    requires
        spec_validate(p, root1),
        spec_validate(p, root2),
    ensures
        root1 == root2,
{
}

/// Changing any digest along the chain of a valid proof, while keeping the
/// leaf value and the recorded siblings, leaves nothing that validates: the
/// digests are all recomputed from the leaf and the siblings, and the root
/// comparison is byte-wise.  A change to a sibling digest or to a recorded
/// side alters the hash preimages instead; that it changes the hash values
/// is the collision resistance of the combining function, outside this model.
pub proof fn lemma_digest_tamper_detected<T: Hashable>(p1: Proof<T>, p2: Proof<T>, root: Seq<u8>)
    requires
        spec_validate(p1, root),
        p2.value.spec_val() == p1.value.spec_val(),
        sibling_sides(p2.lemma) == sibling_sides(p1.lemma),
        node_chain(p2.lemma) != node_chain(p1.lemma),
    ensures
        !spec_validate(p2, root),
{
    if spec_validate(p2, root) {
        lemma_chain_determined(p1.lemma, p2.lemma);
    }
}

} // verus!
