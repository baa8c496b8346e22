use std::marker::PhantomData;

use vstd::prelude::*;

use crate::hash::{node_digest, node_hash, MerkleHasher};
use crate::merkle_proof::{climb, digests, fold_path, lemma_two_leaves_give_collision, Proof};

verus! {

/// The level above `s`: consecutive pairs are hashed together, and an unpaired last
/// digest is hashed with itself.
pub open spec fn next_level<H: MerkleHasher>(s: Seq<Seq<u8>>) -> Seq<Seq<u8>> {
    Seq::new(
        ((s.len() + 1) / 2) as nat,
        |j: int| node_digest::<H>(s[2 * j], if 2 * j + 1 < s.len() { s[2 * j + 1] } else { s[2 * j] }),
    )
}

/// The root of the tree over the non-empty level `s`.
pub open spec fn root_of<H: MerkleHasher>(s: Seq<Seq<u8>>) -> Seq<u8>
    decreases s.len(),
{
    if s.len() <= 1 {
        s[0]
    } else {
        root_of::<H>(next_level::<H>(s))
    }
}

/// The digest that the element at `i` is paired with on level `s`.
pub open spec fn partner(s: Seq<Seq<u8>>, i: nat) -> Seq<u8> {
    if i % 2 == 0 {
        if i + 1 < s.len() {
            s[i + 1 as int]
        } else {
            s[i as int]
        }
    } else {
        s[i - 1]
    }
}

/// The inclusion path of the element at `i` of level `s`: its partners, bottom to top.
pub open spec fn path_of<H: MerkleHasher>(s: Seq<Seq<u8>>, i: nat) -> Seq<Seq<u8>>
    decreases s.len(),
{
    if s.len() <= 1 {
        Seq::empty()
    } else {
        seq![partner(s, i)] + path_of::<H>(next_level::<H>(s), i / 2)
    }
}

/// The first level is non-empty, and each further level is `next_level` of the one below it,
/// which held more than one entry.
pub open spec fn levels_chain<H: MerkleHasher>(lv: Seq<Seq<Seq<u8>>>) -> bool {
    &&& lv.len() >= 1
    &&& lv[0].len() >= 1
    &&& forall|k: int|
        1 <= k < lv.len() ==> lv[k - 1].len() > 1 && #[trigger] lv[k] == next_level::<H>(lv[k - 1])
}

/// A complete level sequence: a chain whose last level holds the root alone.
pub open spec fn is_tower<H: MerkleHasher>(lv: Seq<Seq<Seq<u8>>>) -> bool {
    levels_chain::<H>(lv) && lv.last().len() == 1
}

/// The digests of each level.
pub open spec fn level_views(levels: Seq<Vec<crate::hash::Hash>>) -> Seq<Seq<Seq<u8>>> {
    levels.map_values(|v: Vec<crate::hash::Hash>| digests(v@))
}

/// Round trip: the path of every leaf, folded from that leaf, gives the root.
pub proof fn lemma_round_trip<H: MerkleHasher>(leaves: Seq<Seq<u8>>, i: nat)
    requires
        leaves.len() > 0,
        i < leaves.len(),
    ensures
        fold_path::<H>(path_of::<H>(leaves, i), i, leaves[i as int]) == root_of::<H>(leaves),
    decreases leaves.len(),
{
    if leaves.len() > 1 {
        let next = next_level::<H>(leaves);
        let path = path_of::<H>(leaves, i);
        let rest = path_of::<H>(next, i / 2);
        assert(path.drop_first() =~= rest);
        assert(climb::<H>(leaves[i as int], partner(leaves, i), i) == next[(i / 2) as int]);
        lemma_next_level_shorter::<H>(leaves);
        lemma_round_trip::<H>(next, i / 2);
    }
}

/// No false positives: a leaf digest other than the committed one verifies against the
/// root only if `H` has a collision.
pub proof fn lemma_other_leaf_rejected<H: MerkleHasher>(leaves: Seq<Seq<u8>>, i: nat, other: Seq<u8>)
    requires
        leaves.len() > 0,
        i < leaves.len(),
        other != leaves[i as int],
        fold_path::<H>(path_of::<H>(leaves, i), i, other) == root_of::<H>(leaves),
    ensures
        exists|a: Seq<u8>, b: Seq<u8>| #[trigger] crate::hash::is_collision::<H>(a, b),
{
    lemma_round_trip::<H>(leaves, i);
    lemma_two_leaves_give_collision::<H>(path_of::<H>(leaves, i), i, leaves[i as int], other);
}

/// A single leaf is its own root, its path is empty, and only that leaf verifies.
pub proof fn lemma_single_leaf<H: MerkleHasher>(x: Seq<u8>, y: Seq<u8>)
    ensures
        root_of::<H>(seq![x]) == x,
        path_of::<H>(seq![x], 0) == Seq::<Seq<u8>>::empty(),
        fold_path::<H>(path_of::<H>(seq![x], 0), 0, y) == root_of::<H>(seq![x]) <==> y == x,
{
}

/// With three leaves the last one is paired with itself.
pub proof fn lemma_three_leaves<H: MerkleHasher>(a: Seq<u8>, b: Seq<u8>, c: Seq<u8>)
    ensures
        root_of::<H>(seq![a, b, c]) == node_digest::<H>(
            node_digest::<H>(a, b),
            node_digest::<H>(c, c),
        ),
{
    let l1 = next_level::<H>(seq![a, b, c]);
    assert(l1 =~= seq![node_digest::<H>(a, b), node_digest::<H>(c, c)]);
    let l2 = next_level::<H>(l1);
    assert(l2 =~= seq![node_digest::<H>(node_digest::<H>(a, b), node_digest::<H>(c, c))]);
    assert(root_of::<H>(l2) == l2[0]);
    assert(root_of::<H>(l1) == root_of::<H>(l2));
    assert(root_of::<H>(seq![a, b, c]) == root_of::<H>(l1));
}

/// Determinism: the leaves fix every level, so two trees built from the same leaves hold
/// the same levels, hence the same root and the same proofs.
pub proof fn lemma_levels_determined<H: MerkleHasher>(x: Seq<Seq<Seq<u8>>>, y: Seq<Seq<Seq<u8>>>)
    requires
        is_tower::<H>(x),
        is_tower::<H>(y),
        x[0] == y[0],
    ensures
        x == y,
{
    assert forall|k: int| 0 <= k < x.len() && k < y.len() implies #[trigger] x[k] == y[k] by {
        lemma_levels_agree::<H>(x, y, k);
    }
    if x.len() < y.len() {
        let k = x.len() - 1;
        assert(y[k + 1] == next_level::<H>(y[k]));
        assert(x[k] == y[k]);
    } else if y.len() < x.len() {
        let k = y.len() - 1;
        assert(x[k + 1] == next_level::<H>(x[k]));
        assert(x[k] == y[k]);
    }
    assert(x =~= y);
}

proof fn lemma_levels_agree<H: MerkleHasher>(x: Seq<Seq<Seq<u8>>>, y: Seq<Seq<Seq<u8>>>, k: int)
    requires
        levels_chain::<H>(x),
        levels_chain::<H>(y),
        x[0] == y[0],
        0 <= k < x.len(),
        k < y.len(),
    ensures
        x[k] == y[k],
    decreases k,
{
    if k > 0 {
        lemma_levels_agree::<H>(x, y, k - 1);
        assert(x[k] == next_level::<H>(x[k - 1]));
        assert(y[k] == next_level::<H>(y[k - 1]));
    }
}

/// Why a tree or a proof could not be produced.
#[derive(Debug, Copy, Clone, Eq, PartialEq, Structural)]
pub enum MerkleError {
    /// Construction was given no leaf digests.
    EmptyLeaves,
    /// A proof was asked for an index not below the leaf count.
    IndexOutOfBounds,
}

/// A Merkle tree over leaf digests, hashed with `H`.
#[derive(Debug)]
pub struct MerkleTree<H: MerkleHasher> {
    levels: Vec<Vec<crate::hash::Hash>>,
    _marker: PhantomData<H>,
}

proof fn lemma_next_level_shorter<H: MerkleHasher>(s: Seq<Seq<u8>>)
    requires
        s.len() > 1,
    ensures
        1 <= next_level::<H>(s).len() < s.len(),
{
}

proof fn lemma_chain_push<H: MerkleHasher>(lv: Seq<Seq<Seq<u8>>>, next: Seq<Seq<u8>>)
    requires
        levels_chain::<H>(lv),
        lv.last().len() > 1,
        next == next_level::<H>(lv.last()),
    ensures
        levels_chain::<H>(lv.push(next)),
{
    let lv2 = lv.push(next);
    assert forall|k: int| 1 <= k < lv2.len() implies lv2[k - 1].len() > 1 && #[trigger] lv2[k]
        == next_level::<H>(lv2[k - 1]) by {
        if k < lv.len() {
            assert(lv[k] == lv2[k]);
            assert(lv[k - 1] == lv2[k - 1]);
        }
    }
}

/// Every level of a tower leads to the same root, the sole entry of the last level.
proof fn lemma_tower_root<H: MerkleHasher>(lv: Seq<Seq<Seq<u8>>>, k: int)
    requires
        is_tower::<H>(lv),
        0 <= k < lv.len(),
    ensures
        root_of::<H>(lv[k]) == lv.last()[0],
    decreases lv.len() - k,
{
    if k + 1 < lv.len() {
        assert(lv[k + 1] == next_level::<H>(lv[k]));
        lemma_tower_root::<H>(lv, k + 1);
    }
}

/// The digests on one level of a tree.
fn build_level<H: MerkleHasher>(curr: &Vec<crate::hash::Hash>) -> (r: Vec<crate::hash::Hash>)
    ensures
        digests(r@) == next_level::<H>(digests(curr@)),
{
    let n = curr.len();
    let half = n / 2 + n % 2;
    let ghost target = next_level::<H>(digests(curr@));
    let mut out: Vec<crate::hash::Hash> = Vec::new();
    let mut j: usize = 0;
    while j < half
        invariant
            n == curr@.len(),
            half == (n + 1) / 2,
            target == next_level::<H>(digests(curr@)),
            j <= half,
            digests(out@) =~= target.take(j as int),
        decreases half - j,
    {
        let i = 2 * j;
        let left = curr[i];
        let right = if i + 1 < n {
            curr[i + 1]
        } else {
            left
        };
        assert(left@ == digests(curr@)[i as int]);
        assert(right@ == digests(curr@)[if i + 1 < n { i + 1 } else { i as int }]);
        let h = node_hash::<H>(&left, &right);
        assert(target[j as int] == h@);
        let ghost before = digests(out@);
        out.push(h);
        assert(digests(out@) =~= before.push(h@));
        assert(target.take(j + 1) =~= target.take(j as int).push(h@));
        j = j + 1;
    }
    assert(target.take(half as int) =~= target);
    out
}

impl<H: MerkleHasher> MerkleTree<H> {
    #[verifier::type_invariant]
    spec fn wf(self) -> bool {
        is_tower::<H>(level_views(self.levels@))
    }

    /// The leaf digests, in order.
    pub closed spec fn leaves(self) -> Seq<Seq<u8>> {
        digests(self.levels@[0]@)
    }

    /// Build from leaf digests; fails on an empty sequence.
    pub fn from_leaves(leaves: Vec<crate::hash::Hash>) -> (r: Result<Self, MerkleError>)
        ensures
            leaves@.len() == 0 <==> r is Err,
            r is Err ==> r == Err::<Self, MerkleError>(MerkleError::EmptyLeaves),
            r is Ok ==> r->Ok_0.leaves() == digests(leaves@),
    {
        if leaves.len() == 0 {
            return Err(MerkleError::EmptyLeaves);
        }
        let ghost leaf_d = digests(leaves@);
        let mut levels: Vec<Vec<crate::hash::Hash>> = Vec::new();
        levels.push(leaves);
        assert(level_views(levels@)[0] == leaf_d);
        while levels[levels.len() - 1].len() > 1
            invariant
                levels_chain::<H>(level_views(levels@)),
                level_views(levels@)[0] == leaf_d,
            decreases levels@.last()@.len(),
        {
            let ghost old_lv = level_views(levels@);
            let next = build_level::<H>(&levels[levels.len() - 1]);
            let ghost nd = digests(next@);
            proof {
                lemma_next_level_shorter::<H>(old_lv.last());
                lemma_chain_push::<H>(old_lv, nd);
            }
            levels.push(next);
            assert(level_views(levels@) =~= old_lv.push(nd));
        }
        Ok(MerkleTree { levels, _marker: PhantomData })
    }

    /// The root digest.
    pub fn root(&self) -> (r: crate::hash::Hash)
        ensures
            r@ == root_of::<H>(self.leaves()),
    {
        proof {
            use_type_invariant(self);
            lemma_tower_root::<H>(level_views(self.levels@), 0);
        }
        let top = &self.levels[self.levels.len() - 1];
        top[0]
    }

    /// The number of leaves.
    pub fn leaf_len(&self) -> (r: usize)
        ensures
            r == self.leaves().len(),
    {
        proof {
            use_type_invariant(self);
        }
        self.levels[0].len()
    }

    /// The inclusion proof of the leaf at `index`; fails unless `index < leaf_len()`.
    pub fn inclusion_proof(&self, index: usize) -> (r: Result<Proof, MerkleError>)
        ensures
            index >= self.leaves().len() <==> r is Err,
            r is Err ==> r == Err::<Proof, MerkleError>(MerkleError::IndexOutOfBounds),
            r is Ok ==> r->Ok_0.sibling_digests() == path_of::<H>(self.leaves(), index as nat)
                && r->Ok_0.leaf_index() == index,
    {
        proof {
            use_type_invariant(self);
        }
        let ghost lv = level_views(self.levels@);
        let leaves_len = self.leaf_len();
        if index >= leaves_len {
            return Err(MerkleError::IndexOutOfBounds);
        }
        let top = self.levels.len() - 1;
        let mut siblings: Vec<crate::hash::Hash> = Vec::new();
        let mut idx = index;
        let mut level: usize = 0;
        while level < top
            invariant
                lv == level_views(self.levels@),
                is_tower::<H>(lv),
                top == lv.len() - 1,
                level <= top,
                idx < lv[level as int].len(),
                digests(siblings@) + path_of::<H>(lv[level as int], idx as nat) == path_of::<H>(
                    lv[0],
                    index as nat,
                ),
            decreases top - level,
        {
            let nodes = &self.levels[level];
            assert(lv[level as int] == digests(nodes@));
            let pair = if idx % 2 == 0 {
                if idx + 1 < nodes.len() {
                    nodes[idx + 1]
                } else {
                    nodes[idx]
                }
            } else {
                nodes[idx - 1]
            };
            assert(pair@ == partner(lv[level as int], idx as nat));
            assert(lv[level + 1] == next_level::<H>(lv[level as int]));
            let ghost before = digests(siblings@);
            siblings.push(pair);
            assert(digests(siblings@) =~= before.push(pair@));
            assert(digests(siblings@) + path_of::<H>(lv[level + 1], (idx / 2) as nat) =~= before
                + path_of::<H>(lv[level as int], idx as nat));
            idx = idx / 2;
            level = level + 1;
        }
        assert(path_of::<H>(lv[top as int], idx as nat) =~= Seq::<Seq<u8>>::empty());
        assert(digests(siblings@) =~= digests(siblings@) + Seq::<Seq<u8>>::empty());
        Ok(Proof { siblings, original_index: index })
    }
}

} // verus!
