//! The Merkle tree: built once from an ordered leaf sequence, fully
//! materialized level by level, immutable thereafter.
//!
//! Construction pairs consecutive nodes left to right and combines each pair
//! under the layer's tag; a level with an odd count carries its last node to
//! the next level unchanged.  The sole node of the top level is the root; an
//! empty leaf sequence has the empty digest as its root.

use vstd::prelude::*;
use vstd::arithmetic::div_mod::{lemma_div_denominator, lemma_mod_breakdown, lemma_small_mod};
use vstd::arithmetic::power2::{
    lemma2_to64, lemma_pow2_pos, lemma_pow2_unfold, pow2,
};

use crate::digest::Algorithm;
use crate::hashutils::{
    spec_hash_empty, spec_hash_leaf, spec_hash_nodes, Hashable, HashUtils, MAX_LAYER_TAG,
};
use crate::path::{
    chain_ok, leaf_hash, levels_below, path_index, sibling_sides, spec_validate, Lemma,
    Positioned, Proof,
};

verus! {

/// The byte sequences held by a vector of digest vectors, element by element.
pub open spec fn bytes_view(v: Seq<Vec<u8>>) -> Seq<Seq<u8>> {
    Seq::new(v.len(), |i: int| v[i]@)
}

/// The digests of a leaf sequence, in leaf order: level 0 of the tree.
pub open spec fn leaf_digests(leaves: Seq<Seq<u8>>) -> Seq<Seq<u8>> {
    Seq::new(leaves.len(), |i: int| spec_hash_leaf(leaves[i]))
}

/// One construction step: consecutive pairs combined under `layer`'s tag, an
/// unpaired last node carried through unchanged.
pub open spec fn combine_level(layer: nat, nodes: Seq<Seq<u8>>) -> Seq<Seq<u8>> {
    Seq::new(
        (nodes.len() + 1) / 2,
        |j: int|
            if 2 * j + 1 < nodes.len() {
                spec_hash_nodes(layer, nodes[2 * j], nodes[2 * j + 1])
            } else {
                nodes[2 * j]
            },
    )
}

/// The digests at level `layer` of the tree over the given leaf encodings.
pub open spec fn level_nodes(leaves: Seq<Seq<u8>>, layer: nat) -> Seq<Seq<u8>>
    decreases layer,
{
    if layer == 0 {
        leaf_digests(leaves)
    } else {
        combine_level((layer - 1) as nat, level_nodes(leaves, (layer - 1) as nat))
    }
}

/// The number of combining layers needed to reduce `n` nodes to one: 0 for at
/// most one node, and one more than for the `(n + 1) / 2` nodes of the level
/// above otherwise.  For `n > 1` this is the base-2 logarithm of `n`, rounded
/// up (see `lemma_height_is_ceil_log2`).
pub open spec fn spec_height_of(n: nat) -> nat
    decreases n,
{
    if n <= 1 {
        0
    } else {
        1 + spec_height_of((n + 1) / 2)
    }
}

/// The root digest of the tree over the given leaf encodings.
pub open spec fn spec_root(leaves: Seq<Seq<u8>>) -> Seq<u8> {
    if leaves.len() == 0 {
        spec_hash_empty()
    } else {
        level_nodes(leaves, spec_height_of(leaves.len()))[0]
    }
}

/// The largest leaf count the combining function's layer-tag domain admits,
/// `pow2(MAX_LAYER_TAG)`: a deeper tree would need a layer tag the Pedersen
/// personalization refuses.
pub open spec fn max_leaf_count() -> nat {
    0x4000000000000000
}

/// `max_leaf_count` is the power of two matching the layer-tag domain.
pub proof fn lemma_max_leaf_count_is_pow2()
    ensures
        max_leaf_count() == pow2(MAX_LAYER_TAG as nat),
{
    vstd::arithmetic::power2::lemma2_to64_rest();
}

/// The sibling recorded at `layer` on the path of the leaf at `index`: the
/// adjacent node of that level, tagged `Left` when the path node is a right
/// child there (bit `layer` of `index` is 1), `Right` when it is a left
/// child with a neighbor, and nothing where the path node is the carried
/// last node of an odd level.
pub open spec fn spec_sibling_entry(leaves: Seq<Seq<u8>>, index: nat, layer: nat) -> Option<
    Positioned<Seq<u8>>,
> {
    let pos = index / pow2(layer);
    let lvl = level_nodes(leaves, layer);
    if pos % 2 == 1 {
        Option::Some(Positioned::Left(lvl[pos as int - 1]))
    } else if pos + 1 < lvl.len() {
        Option::Some(Positioned::Right(lvl[pos as int + 1]))
    } else {
        Option::None
    }
}

/// Walking one level up shrinks the remaining height by exactly one: the
/// level sizes `(n + 1) / 2, ...` step down the same ladder as
/// `spec_height_of`.
proof fn lemma_level_progress(leaves: Seq<Seq<u8>>, layer: nat)
    requires
        leaves.len() >= 1,
        layer <= spec_height_of(leaves.len()),
    ensures
        level_nodes(leaves, layer).len() >= 1,
        spec_height_of(level_nodes(leaves, layer).len()) + layer == spec_height_of(leaves.len()),
        layer < spec_height_of(leaves.len()) ==> level_nodes(leaves, layer).len() >= 2,
        layer == spec_height_of(leaves.len()) ==> level_nodes(leaves, layer).len() == 1,
    decreases layer,
{
    if layer == 0 {
    } else {
        lemma_level_progress(leaves, (layer - 1) as nat);
    }
}

/// The height formula: a tree over at most one leaf has height 0, and a
/// tree over `n > 1` leaves has the unique height `h` with
/// `pow2(h - 1) < n <= pow2(h)`, that is, the base-2 logarithm of `n`
/// rounded up.
pub proof fn lemma_height_is_ceil_log2(n: nat)
    ensures
        n <= 1 ==> spec_height_of(n) == 0,
        n >= 1 ==> n <= pow2(spec_height_of(n)),
        n > 1 ==> pow2((spec_height_of(n) - 1) as nat) < n,
    decreases n,
{
    lemma2_to64();
    if n > 1 {
        let m = (n + 1) / 2;
        lemma_height_is_ceil_log2(m);
        let h = spec_height_of(n);
        lemma_pow2_unfold(h);
        if m > 1 {
            lemma_pow2_unfold((h - 1) as nat);
        }
    }
}

/// A leaf count bounded by `pow2(k)` gives a height of at most `k`.
pub proof fn lemma_height_bounded(n: nat, k: nat)
    requires
        n <= pow2(k),
    ensures
        spec_height_of(n) <= k,
    decreases n,
{
    lemma2_to64();
    if n > 1 {
        if k == 0 {
            assert(false);
        } else {
            lemma_pow2_unfold(k);
            lemma_height_bounded((n + 1) / 2, (k - 1) as nat);
        }
    }
}

/// A Merkle tree over leaves of type `T`: the leaf values in order, every
/// level of digests derived from them, and the root.
pub struct MerkleTree<T> {
    algorithm: Algorithm,
    leaves: Vec<T>,
    levels: Vec<Vec<Vec<u8>>>,
    height: usize,
    root: Vec<u8>,
}

impl<T: Hashable> MerkleTree<T> {
    /// The leaf values the tree was built from, in order.
    pub closed spec fn spec_leaves(&self) -> Seq<T> {
        self.leaves@
    }

    /// The canonical byte encodings of the leaves, in order.
    pub open spec fn leaf_bytes(&self) -> Seq<Seq<u8>> {
        Seq::new(self.spec_leaves().len(), |i: int| self.spec_leaves()[i].spec_val())
    }

    /// The structural invariant: the height matches the leaf count, every
    /// materialized level holds exactly the digests `level_nodes` assigns it,
    /// and the root field repeats the top level's sole digest (or the empty
    /// digest for an empty tree, which materializes no levels).
    pub closed spec fn wf(&self) -> bool {
        &&& self.leaves@.len() <= max_leaf_count()
        &&& self.height == spec_height_of(self.leaf_bytes().len())
        &&& self.root@ == spec_root(self.leaf_bytes())
        &&& if self.leaf_bytes().len() == 0 {
            self.levels@.len() == 0
        } else {
            &&& self.levels@.len() == self.height + 1
            &&& forall|layer: int|
                0 <= layer <= self.height ==> #[trigger] bytes_view(self.levels@[layer]@)
                    == level_nodes(self.leaf_bytes(), layer as nat)
        }
    }

    /// Build the tree: hash every leaf, then combine level by level until a
    /// single digest remains.  The root, the height and every level are
    /// pinned by the construction algorithm; `requires` only keeps the leaf
    /// count within the combining function's layer-tag domain.
    pub fn from_vec(algorithm: &Algorithm, values: Vec<T>) -> (tree: MerkleTree<T>)
        requires
            values@.len() <= max_leaf_count(),
        ensures
            tree.wf(),
            tree.spec_leaves() == values@,
    {
        let ghost lb = Seq::new(values@.len(), |i: int| values@[i].spec_val());
        if values.len() == 0 {
            let empty = algorithm.hash_empty();
            return MerkleTree {
                algorithm: algorithm.clone(),
                leaves: values,
                levels: Vec::new(),
                height: 0,
                root: empty.value,
            };
        }
        proof {
            lemma_max_leaf_count_is_pow2();
            lemma_height_bounded(lb.len(), MAX_LAYER_TAG as nat);
        }
        let ghost hgt = spec_height_of(lb.len());
        let mut level0: Vec<Vec<u8>> = Vec::new();
        let mut i: usize = 0;
        while i < values.len()
            invariant
                i <= values@.len(),
                lb == Seq::new(values@.len(), |k: int| values@[k].spec_val()),
                bytes_view(level0@) == leaf_digests(lb).take(i as int),
            decreases values@.len() - i,
        {
            let d = algorithm.hash_leaf(&values[i]);
            let ghost prev = level0@;
            level0.push(d.value);
            proof {
                assert(bytes_view(prev).len() == leaf_digests(lb).take(i as int).len());
                assert(prev.len() == i);
                assert(bytes_view(level0@)[i as int] == d.value@);
                assert(bytes_view(level0@) =~~= leaf_digests(lb).take(i as int + 1));
            }
            i = i + 1;
        }
        assert(leaf_digests(lb).take(values@.len() as int) =~~= leaf_digests(lb));
        let mut levels: Vec<Vec<Vec<u8>>> = Vec::new();
        levels.push(level0);
        let mut layer: usize = 0;
        while levels[layer].len() > 1
            invariant
                layer + 1 == levels@.len(),
                layer <= hgt,
                hgt == spec_height_of(lb.len()),
                hgt <= MAX_LAYER_TAG,
                lb.len() >= 1,
                forall|k: int|
                    0 <= k <= layer ==> #[trigger] bytes_view(levels@[k]@) == level_nodes(
                        lb,
                        k as nat,
                    ),
                spec_height_of(bytes_view(levels@[layer as int]@).len()) + layer == hgt,
                bytes_view(levels@[layer as int]@).len() >= 1,
            decreases hgt - layer,
        {
            let next = combine_level_exec(algorithm, layer, &levels[layer]);
            proof {
                let cur = bytes_view(levels@[layer as int]@);
                assert(bytes_view(next@).len() == (cur.len() + 1) / 2);
                assert(cur.len() >= 2);
                assert(spec_height_of(cur.len()) == 1 + spec_height_of((cur.len() + 1) / 2));
            }
            levels.push(next);
            layer = layer + 1;
            assert(bytes_view(levels@[layer as int]@) == level_nodes(lb, layer as nat));
        }
        proof {
            let cur = bytes_view(levels@[layer as int]@);
            assert(cur.len() == 1);
            assert(spec_height_of(1) == 0);
            assert(layer == hgt);
        }
        let top = &levels[layer];
        let root = vstd::slice::slice_to_vec(top[0].as_slice());
        let height = layer;
        let tree = MerkleTree { algorithm: algorithm.clone(), leaves: values, levels, height, root };
        proof {
            assert(tree.leaf_bytes() =~~= lb);
            assert(tree.root@ == level_nodes(lb, hgt)[0]);
        }
        tree
    }

    /// The number of leaves the tree was built from.
    pub fn count(&self) -> (c: usize)
        ensures
            c == self.spec_leaves().len(),
    {
        self.leaves.len()
    }

    /// The number of combining layers between the leaves and the root.
    pub fn height(&self) -> (h: usize)
        requires
            self.wf(),
        ensures
            h == spec_height_of(self.leaf_bytes().len()),
    {
        self.height
    }

    /// The root digest's bytes.
    pub fn root_hash(&self) -> (r: &Vec<u8>)
        requires
            self.wf(),
        ensures
            r@ == spec_root(self.leaf_bytes()),
    {
        &self.root
    }

    /// The leaf values, in the order the tree was built from.
    pub fn leaves(&self) -> (r: &Vec<T>)
        ensures
            r@ == self.spec_leaves(),
    {
        &self.leaves
    }

    /// Consume the tree and hand back its leaf values, in order.
    pub fn into_leaves(self) -> (r: Vec<T>)
        ensures
            r@ == self.spec_leaves(),
    {
        self.leaves
    }

    /// Retrace the pairing structure from leaf `index` up to the root and
    /// record, at every layer, the sibling that was combined with the path
    /// node there — or no sibling where the node was carried.
    fn build_lemma(&self, index: usize) -> (lem: Lemma)
        requires
            self.wf(),
            index < self.spec_leaves().len(),
        ensures
            chain_ok(lem),
            levels_below(lem) == spec_height_of(self.leaf_bytes().len()),
            path_index(lem) == index,
            leaf_hash(lem) == level_nodes(self.leaf_bytes(), 0)[index as int],
            lem.node_hash@ == spec_root(self.leaf_bytes()),
            sibling_sides(lem).len() == spec_height_of(self.leaf_bytes().len()),
            forall|k: int|
                0 <= k < spec_height_of(self.leaf_bytes().len()) ==> #[trigger] sibling_sides(
                    lem,
                )[k] == spec_sibling_entry(self.leaf_bytes(), index as nat, k as nat),
    {
        let ghost lb = self.leaf_bytes();
        let ghost hgt = spec_height_of(lb.len());
        proof {
            lemma_height_is_ceil_log2(lb.len());
            lemma_max_leaf_count_is_pow2();
            lemma_height_bounded(lb.len(), MAX_LAYER_TAG as nat);
            lemma2_to64();
            assert(index as nat / pow2(0) == index) by {
                assert(pow2(0) == 1);
            }
            assert(index as nat % pow2(0) == 0) by {
                assert(pow2(0) == 1);
            }
            assert(self.levels@.len() >= 1);
            assert(bytes_view(self.levels@[0]@) == level_nodes(lb, 0));
            assert(self.levels@[0]@.len() == level_nodes(lb, 0).len());
            assert(level_nodes(lb, 0).len() == lb.len());
        }
        let mut pos = index;
        let node0 = vstd::slice::slice_to_vec(self.levels[0][index].as_slice());
        proof {
            assert(node0@ == bytes_view(self.levels@[0]@)[index as int]);
        }
        let mut lem = Lemma { node_hash: node0, sibling_hash: Option::None, sub_lemma: Option::None };
        let mut layer: usize = 0;
        while layer < self.height
            invariant
                self.wf(),
                lb == self.leaf_bytes(),
                hgt == spec_height_of(lb.len()),
                hgt == self.height,
                hgt <= MAX_LAYER_TAG,
                index < lb.len(),
                layer <= hgt,
                pos as nat == index as nat / pow2(layer as nat),
                pos < level_nodes(lb, layer as nat).len(),
                chain_ok(lem),
                levels_below(lem) == layer,
                lem.node_hash@ == level_nodes(lb, layer as nat)[pos as int],
                leaf_hash(lem) == level_nodes(lb, 0)[index as int],
                path_index(lem) == index as nat % pow2(layer as nat),
                sibling_sides(lem).len() == layer,
                forall|k: int|
                    0 <= k < layer ==> #[trigger] sibling_sides(lem)[k] == spec_sibling_entry(
                        lb,
                        index as nat,
                        k as nat,
                    ),
            decreases hgt - layer,
        {
            proof {
                lemma_level_progress(lb, layer as nat);
                lemma_level_progress(lb, (layer + 1) as nat);
            }
            let ghost cur = level_nodes(lb, layer as nat);
            let ghost up = level_nodes(lb, (layer + 1) as nat);
            let nodes = &self.levels[layer];
            proof {
                assert(bytes_view(nodes@) == cur);
                assert(nodes@.len() == cur.len());
                assert(up == combine_level(layer as nat, cur));
                assert(up.len() == (cur.len() + 1) / 2);
            }
            let sibling: Option<Positioned<Vec<u8>>>;
            if pos % 2 == 1 {
                sibling = Option::Some(
                    Positioned::Left(vstd::slice::slice_to_vec(nodes[pos - 1].as_slice())),
                );
            } else if pos + 1 < nodes.len() {
                sibling = Option::Some(
                    Positioned::Right(vstd::slice::slice_to_vec(nodes[pos + 1].as_slice())),
                );
            } else {
                sibling = Option::None;
            }
            let upper = &self.levels[layer + 1];
            proof {
                assert(bytes_view(upper@) == up);
                assert(pos / 2 < up.len());
            }
            let parent = vstd::slice::slice_to_vec(upper[pos / 2].as_slice());
            let ghost prev = lem;
            lem = Lemma {
                node_hash: parent,
                sibling_hash: sibling,
                sub_lemma: Option::Some(Box::new(lem)),
            };
            proof {
                let j = pos as int / 2;
                if pos % 2 == 1 {
                    assert(2 * j == pos - 1 && 2 * j + 1 == pos as int);
                    assert(up[j] == spec_hash_nodes(layer as nat, cur[2 * j], cur[2 * j + 1]));
                } else if pos + 1 < nodes.len() {
                    assert(2 * j == pos as int && 2 * j + 1 == pos + 1);
                    assert(up[j] == spec_hash_nodes(layer as nat, cur[2 * j], cur[2 * j + 1]));
                } else {
                    assert(pos as int == cur.len() - 1 && pos % 2 == 0);
                    assert(2 * j == pos as int);
                    assert(!(2 * j + 1 < cur.len()));
                    assert(up[j] == cur[2 * j]);
                }
                assert(chain_ok(lem));
                assert(levels_below(lem) == layer + 1);
                // The entry just recorded is the level's adjacent node.
                let e = spec_sibling_entry(lb, index as nat, layer as nat);
                assert(sibling_sides(lem) == sibling_sides(prev).push(e));
                assert(sibling_sides(lem).len() == layer + 1);
                assert(forall|k: int|
                    0 <= k < layer ==> #[trigger] sibling_sides(lem)[k] == sibling_sides(prev)[k]);
                assert(sibling_sides(lem)[layer as int] == e);
                // Position and index bookkeeping for the next layer up.
                lemma_pow2_pos(layer as nat);
                lemma_pow2_unfold((layer + 1) as nat);
                lemma_div_denominator(index as int, pow2(layer as nat) as int, 2);
                assert((pos / 2) as nat == index as nat / pow2((layer + 1) as nat));
                lemma_mod_breakdown(index as int, pow2(layer as nat) as int, 2);
                assert(path_index(lem) == index as nat % pow2((layer + 1) as nat));
            }
            pos = pos / 2;
            layer = layer + 1;
        }
        proof {
            lemma_level_progress(lb, hgt);
            assert(level_nodes(lb, hgt).len() == 1);
            assert(pos == 0);
            assert(lem.node_hash@ == spec_root(lb));
            assert((index as nat) < pow2(hgt)) by {
                lemma_height_is_ceil_log2(lb.len());
            }
            lemma_small_mod(index as nat, pow2(hgt));
            assert(path_index(lem) == index);
        }
        lem
    }

    /// Extract the membership proof for the leaf at `index`: the proof, which
    /// validates against this tree's root and encodes `index`, or nothing for
    /// an out-of-range index — if and only if `index >= count`.
    pub fn gen_nth_proof(&self, index: usize) -> (res: Option<Proof<T>>)
        requires
            self.wf(),
        ensures
            match res {
                Option::Some(p) => {
                    &&& index < self.spec_leaves().len()
                    &&& p.value.spec_val() == self.leaf_bytes()[index as int]
                    &&& path_index(p.lemma) == index
                    &&& levels_below(p.lemma) == spec_height_of(self.leaf_bytes().len())
                    &&& spec_validate(p, spec_root(self.leaf_bytes()))
                    &&& sibling_sides(p.lemma).len() == spec_height_of(self.leaf_bytes().len())
                    &&& forall|k: int|
                        0 <= k < spec_height_of(self.leaf_bytes().len())
                            ==> #[trigger] sibling_sides(p.lemma)[k] == spec_sibling_entry(
                            self.leaf_bytes(),
                            index as nat,
                            k as nat,
                        )
                },
                Option::None => index >= self.spec_leaves().len(),
            },
    {
        if index >= self.leaves.len() {
            return Option::None;
        }
        let lemma = self.build_lemma(index);
        let root_hash = vstd::slice::slice_to_vec(self.root.as_slice());
        let value = self.leaves[index].dup();
        proof {
            lemma_max_leaf_count_is_pow2();
            lemma_height_bounded(self.leaf_bytes().len(), MAX_LAYER_TAG as nat);
        }
        Option::Some(Proof { algorithm: self.algorithm.clone(), root_hash, lemma, value })
    }

    /// Extract the membership proof for the first leaf whose byte encoding
    /// equals that of `value`: the proof, which validates against this tree's
    /// root and encodes that first position, or nothing — if and only if no
    /// leaf has `value`'s encoding.
    pub fn gen_proof(&self, value: T) -> (res: Option<Proof<T>>)
        requires
            self.wf(),
        ensures
            match res {
                Option::Some(p) => {
                    &&& path_index(p.lemma) < self.spec_leaves().len()
                    &&& self.leaf_bytes()[path_index(p.lemma) as int] == value.spec_val()
                    &&& forall|k: int|
                        0 <= k < path_index(p.lemma) ==> self.leaf_bytes()[k] != value.spec_val()
                    &&& p.value.spec_val() == value.spec_val()
                    &&& levels_below(p.lemma) == spec_height_of(self.leaf_bytes().len())
                    &&& spec_validate(p, spec_root(self.leaf_bytes()))
                    &&& sibling_sides(p.lemma).len() == spec_height_of(self.leaf_bytes().len())
                    &&& forall|k: int|
                        0 <= k < spec_height_of(self.leaf_bytes().len())
                            ==> #[trigger] sibling_sides(p.lemma)[k] == spec_sibling_entry(
                            self.leaf_bytes(),
                            path_index(p.lemma),
                            k as nat,
                        )
                },
                Option::None => forall|k: int|
                    0 <= k < self.spec_leaves().len() ==> self.leaf_bytes()[k]
                        != value.spec_val(),
            },
    {
        let mut i: usize = 0;
        while i < self.leaves.len()
            invariant
                self.wf(),
                i <= self.spec_leaves().len(),
                forall|k: int| 0 <= k < i ==> self.leaf_bytes()[k] != value.spec_val(),
            decreases self.spec_leaves().len() - i,
        {
            if crate::path::bytes_eq(self.leaves[i].get_val(), value.get_val()) {
                let lemma = self.build_lemma(i);
                let root_hash = vstd::slice::slice_to_vec(self.root.as_slice());
                proof {
                    lemma_max_leaf_count_is_pow2();
                    lemma_height_bounded(self.leaf_bytes().len(), MAX_LAYER_TAG as nat);
                }
                return Option::Some(
                    Proof { algorithm: self.algorithm.clone(), root_hash, lemma, value },
                );
            }
            i = i + 1;
        }
        Option::None
    }
}

/// One construction step over materialized digests; mirrors `combine_level`.
fn combine_level_exec(algorithm: &Algorithm, layer: usize, nodes: &Vec<Vec<u8>>) -> (next: Vec<
    Vec<u8>,
>)
    requires
        layer < MAX_LAYER_TAG,
        nodes@.len() >= 2,
    ensures
        bytes_view(next@) == combine_level(layer as nat, bytes_view(nodes@)),
{
    let ghost all = bytes_view(nodes@);
    let mut next: Vec<Vec<u8>> = Vec::new();
    let pairs = nodes.len() / 2;
    let mut j: usize = 0;
    while j < pairs
        invariant
            j <= pairs,
            pairs == nodes@.len() / 2,
            nodes@.len() <= usize::MAX,
            layer < MAX_LAYER_TAG,
            all == bytes_view(nodes@),
            bytes_view(next@) == combine_level(layer as nat, all).take(j as int),
        decreases pairs - j,
    {
        proof {
            assert(2 * pairs <= nodes@.len());
            assert(2 * j + 1 < nodes@.len());
        }
        let d = algorithm.hash_nodes(layer, &nodes[2 * j], &nodes[2 * j + 1]);
        let ghost prev = next@;
        next.push(d.value);
        proof {
            assert(bytes_view(prev).len() == combine_level(layer as nat, all).take(j as int).len());
            assert(prev.len() == j);
            assert(next@.len() == prev.len() + 1);
            assert(bytes_view(next@)[j as int] == d.value@);
            assert(d.value@ == combine_level(layer as nat, all)[j as int]);
            assert(bytes_view(next@) =~~= combine_level(layer as nat, all).take(j as int + 1));
        }
        j = j + 1;
    }
    proof {
        assert(combine_level(layer as nat, all).len() == (all.len() + 1) / 2);
    }
    if nodes.len() % 2 == 1 {
        let last = vstd::slice::slice_to_vec(nodes[nodes.len() - 1].as_slice());
        let ghost prev = next@;
        next.push(last);
        proof {
            assert(prev.len() == pairs);
            assert(next@.len() == prev.len() + 1);
            assert(2 * pairs + 1 == nodes@.len());
            assert(bytes_view(next@)[pairs as int] == all[2 * (pairs as int)]);
            assert(bytes_view(next@)[pairs as int] == combine_level(layer as nat, all)[pairs as int]);
            assert(forall|k: int|
                0 <= k < pairs ==> bytes_view(next@)[k] == #[trigger] bytes_view(prev)[k]);
            assert(combine_level(layer as nat, all).len() == pairs + 1);
        }
    } else {
        proof {
            assert(combine_level(layer as nat, all).len() == pairs);
        }
    }
    proof {
        let c = combine_level(layer as nat, all);
        assert(bytes_view(next@).len() == c.len());
        assert forall|k: int| 0 <= k < c.len() implies bytes_view(next@)[k] == c[k] by {
            if k < pairs {
                assert(bytes_view(next@)[k] == c.take(pairs as int)[k]);
            }
        }
        assert(bytes_view(next@) =~= c);
    }
    next
}

} // verus!
