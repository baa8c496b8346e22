use vstd::prelude::*;

use crate::hash::{is_collision, node_digest, node_hash, node_input, MerkleHasher};

verus! {

/// The digests of a sequence of hashes.
pub open spec fn digests(v: Seq<crate::hash::Hash>) -> Seq<Seq<u8>> {
    v.map_values(|h: crate::hash::Hash| h@)
}

/// One step up the tree: an even index is a left child, an odd one a right child.
pub open spec fn climb<H: MerkleHasher>(acc: Seq<u8>, sibling: Seq<u8>, index: nat) -> Seq<u8> {
    if index % 2 == 0 {
        node_digest::<H>(acc, sibling)
    } else {
        node_digest::<H>(sibling, acc)
    }
}

/// The root recomputed from a leaf digest, its index and the sibling path, bottom to top.
pub open spec fn fold_path<H: MerkleHasher>(siblings: Seq<Seq<u8>>, index: nat, leaf: Seq<u8>) -> Seq<u8>
    decreases siblings.len(),
{
    if siblings.len() == 0 {
        leaf
    } else {
        fold_path::<H>(siblings.drop_first(), index / 2, climb::<H>(leaf, siblings[0], index))
    }
}

/// Merkle inclusion proof: sibling digests from the leaf level up, and the leaf's index.
#[derive(Clone, Debug)]
pub struct Proof {
    pub(crate) siblings: Vec<crate::hash::Hash>,
    pub(crate) original_index: usize,
}

impl Proof {
    /// The sibling digests, bottom to top.
    pub open(crate) spec fn sibling_digests(&self) -> Seq<Seq<u8>> {
        digests(self.siblings@)
    }

    pub open(crate) spec fn leaf_index(&self) -> nat {
        self.original_index as nat
    }

    pub fn new(original_index: usize, siblings: Vec<crate::hash::Hash>) -> (r: Self)
        ensures
            r.sibling_digests() == digests(siblings@),
            r.leaf_index() == original_index,
    {
        Self { siblings, original_index }
    }

    /// Whether `leaf` (a leaf digest) and this proof lead to `root`. Never fails.
    pub fn verify<H: MerkleHasher>(&self, leaf: crate::hash::Hash, root: crate::hash::Hash) -> (r: bool)
        ensures
            r == (fold_path::<H>(self.sibling_digests(), self.leaf_index(), leaf@) == root@),
    {
        let mut index = self.original_index;
        let mut acc = leaf;
        let mut k: usize = 0;
        assert(self.sibling_digests().skip(0) =~= self.sibling_digests());
        while k < self.siblings.len()
            invariant
                k <= self.siblings@.len(),
                fold_path::<H>(self.sibling_digests().skip(k as int), index as nat, acc@)
                    == fold_path::<H>(self.sibling_digests(), self.leaf_index(), leaf@),
            decreases self.siblings@.len() - k,
        {
            let sib = &self.siblings[k];
            let ghost rest = self.sibling_digests().skip(k as int);
            assert(rest.drop_first() =~= self.sibling_digests().skip(k + 1));
            acc = if index % 2 == 0 {
                node_hash::<H>(&acc, sib)
            } else {
                node_hash::<H>(sib, &acc)
            };
            index = index / 2;
            k = k + 1;
        }
        assert(self.sibling_digests().skip(k as int) =~= Seq::<Seq<u8>>::empty());
        acc == root
    }

    pub fn siblings(&self) -> (r: &[crate::hash::Hash])
        ensures
            digests(r@) == self.sibling_digests(),
    {
        self.siblings.as_slice()
    }

    pub fn index(&self) -> (r: usize)
        ensures
            r == self.leaf_index(),
    {
        self.original_index
    }
}

/// Two child pairs that differ but hash to the same node digest are a collision.
proof fn lemma_node_inputs_differ<H: MerkleHasher>(a: Seq<u8>, b: Seq<u8>, s: Seq<u8>, index: nat)
    requires
        a != b,
        climb::<H>(a, s, index) == climb::<H>(b, s, index),
    ensures
        index % 2 == 0 ==> is_collision::<H>(node_input(a, s), node_input(b, s)),
        index % 2 == 1 ==> is_collision::<H>(node_input(s, a), node_input(s, b)),
{
    if index % 2 == 0 {
        if node_input(a, s) == node_input(b, s) {
            assert(node_input(a, s).len() == node_input(b, s).len());
            assert(a =~= node_input(a, s).subrange(1, 1 + a.len() as int));
            assert(b =~= node_input(b, s).subrange(1, 1 + b.len() as int));
        }
    } else {
        if node_input(s, a) == node_input(s, b) {
            assert(a =~= node_input(s, a).skip(1 + s.len() as int));
            assert(b =~= node_input(s, b).skip(1 + s.len() as int));
        }
    }
}

/// A proof accepts two distinct leaf digests for one root only if `H` has a collision:
/// with a collision-resistant hash, no leaf other than the committed one verifies.
pub proof fn lemma_two_leaves_give_collision<H: MerkleHasher>(
    siblings: Seq<Seq<u8>>,
    index: nat,
    leaf: Seq<u8>,
    other: Seq<u8>,
)
    requires
        leaf != other,
        fold_path::<H>(siblings, index, leaf) == fold_path::<H>(siblings, index, other),
    ensures
        exists|a: Seq<u8>, b: Seq<u8>| #[trigger] is_collision::<H>(a, b),
    decreases siblings.len(),
{
    if siblings.len() > 0 {
        let s = siblings[0];
        let x = climb::<H>(leaf, s, index);
        let y = climb::<H>(other, s, index);
        if x == y {
            lemma_node_inputs_differ::<H>(leaf, other, s, index);
            if index % 2 == 0 {
                assert(is_collision::<H>(node_input(leaf, s), node_input(other, s)));
            } else {
                assert(is_collision::<H>(node_input(s, leaf), node_input(s, other)));
            }
        } else {
            lemma_two_leaves_give_collision::<H>(siblings.drop_first(), index / 2, x, y);
        }
    }
}

} // verus!
