use vstd::prelude::*;

use crate::hash::{hash_concat, hash_pair};
use crate::model::{
    build_tree, climb, climb_step, depth, hashes_children, is_hash_tree, is_pow2, labels,
    leaves_of, lemma_hash_tree_unique, parent,
};

verus! {

/// Inner node `j` of a tree whose first `offset` nodes are cut off hashes its
/// children: `t` holds the nodes from `offset` on.
pub open spec fn hashes_children_from(t: Seq<Seq<char>>, offset: int, j: int) -> bool {
    t[j - offset] == hash_pair(t[2 * j + 1 - offset], t[2 * j + 2 - offset])
}

/// `t` holds the nodes from `offset` to the end of a tree with `leaf_count`
/// leaves, every inner node among them hashes its children, and the leaves are
/// `leaves`.
pub open spec fn is_tree_suffix(
    t: Seq<Seq<char>>,
    offset: int,
    leaf_count: nat,
    leaves: Seq<Seq<char>>,
) -> bool {
    &&& 0 <= offset
    &&& t.len() == 2 * leaf_count - 1 - offset
    &&& forall|j: int| offset <= j < leaf_count - 1 ==> #[trigger] hashes_children_from(t, offset, j)
    &&& leaves.len() == leaf_count
    &&& t.subrange(t.len() - leaf_count, t.len() as int) == leaves
}

/// Builds the Merkle tree over `leaves` one level at a time, from the leaves up,
/// putting each new level in front of the levels below it.
pub(crate) fn build_levels(leaves: Vec<String>) -> (tree: Vec<String>)
    requires
        is_pow2(leaves.len() as nat),
        2 * leaves.len() - 1 <= usize::MAX,
    ensures
        labels(tree@) == build_tree(labels(leaves@)),
        is_hash_tree(labels(tree@), leaves.len() as nat),
        leaves_of(labels(tree@), leaves.len() as nat) == labels(leaves@),
{
    let ghost leaf_count = leaves.len() as nat;
    let ghost leaf_labels = labels(leaves@);
    let mut level_n: Vec<String> = leaves;
    let mut current_tree: Vec<String> = Vec::new();
    for k in 0..level_n.len()
        invariant
            current_tree.len() == k,
            forall|p: int| 0 <= p < k ==> #[trigger] current_tree@[p] == level_n@[p],
    {
        current_tree.push(level_n[k].clone());
    }
    assert(labels(current_tree@).subrange(0, leaf_count as int) =~= leaf_labels);
    while level_n.len() > 1
        invariant
            1 <= level_n.len() <= leaf_count,
            is_pow2(level_n.len() as nat),
            is_tree_suffix(labels(current_tree@), level_n.len() - 1, leaf_count, leaf_labels),
            forall|p: int| 0 <= p < level_n.len() ==> #[trigger] current_tree@[p] == level_n@[p],
        decreases level_n.len(),
    {
        let ghost size = level_n.len() as int;
        let ghost t = labels(current_tree@);
        assert(size % 2 == 0 && is_pow2((size / 2) as nat));
        let mut level_n_minus1: Vec<String> = Vec::new();
        let mut next_current_level: Vec<String> = Vec::new();
        let mut i: usize = 0;
        while i < level_n.len()
            invariant
                size == level_n.len(),
                size % 2 == 0,
                i % 2 == 0,
                i <= size,
                level_n_minus1.len() == i / 2,
                next_current_level.len() == i / 2,
                forall|m: int|
                    0 <= m < i / 2 ==> #[trigger] level_n_minus1@[m]@ == hash_pair(
                        level_n@[2 * m]@,
                        level_n@[2 * m + 1]@,
                    ),
                forall|m: int| 0 <= m < i / 2 ==> #[trigger] next_current_level@[m] == level_n_minus1@[m],
            decreases size - i,
        {
            let h = hash_concat(level_n[i].as_str(), level_n[i + 1].as_str());
            next_current_level.push(h.clone());
            level_n_minus1.push(h);
            i = i + 2;
        }
        let ghost new_level = level_n_minus1@;
        level_n_minus1.append(&mut current_tree);
        current_tree = level_n_minus1;
        level_n = next_current_level;
        proof {
            let half = size / 2;
            let t2 = labels(current_tree@);
            assert(t2 =~= labels(new_level) + t);
            assert forall|j: int| half - 1 <= j < leaf_count - 1 implies #[trigger] hashes_children_from(
                t2,
                half - 1,
                j,
            ) by {
                if j >= size - 1 {
                    assert(hashes_children_from(t, size - 1, j));
                } else {
                    let m = j - (half - 1);
                    assert(t2[2 * j + 1 - (half - 1)] == t[2 * m]);
                    assert(t2[2 * j + 2 - (half - 1)] == t[2 * m + 1]);
                }
            }
            assert(t2.subrange(t2.len() - leaf_count, t2.len() as int) =~= t.subrange(
                t.len() - leaf_count,
                t.len() as int,
            ));
        }
    }
    proof {
        let t = labels(current_tree@);
        assert forall|j: int| 0 <= j < leaf_count - 1 implies #[trigger] hashes_children(t, j) by {
            assert(hashes_children_from(t, 0, j));
        }
        assert(leaves_of(t, leaf_count) =~= t.subrange(t.len() - leaf_count, t.len() as int));
        lemma_hash_tree_unique(t, leaf_count);
    }
    current_tree
}

/// Climbs from node `index` labelled `start`, hashing in one label of `proofs`
/// per level: an odd node is a left child, an even one a right child. Gives
/// `None` when the root is reached with labels left over.
pub(crate) fn climb_labels(start: String, proofs: &Vec<String>, index: usize) -> (res: Option<
    String,
>)
    ensures
        res is None <==> proofs.len() > depth(index as nat),
        res matches Some(label) ==> label@ == climb(start@, labels(proofs@), index as nat),
{
    let mut hash_for_verification = start;
    let mut leaf_index = index;
    let mut k: usize = 0;
    assert(labels(proofs@).skip(0) =~= labels(proofs@));
    while k < proofs.len()
        invariant
            k <= proofs.len(),
            k + depth(leaf_index as nat) == depth(index as nat),
            climb(hash_for_verification@, labels(proofs@).skip(k as int), leaf_index as nat)
                == climb(start@, labels(proofs@), index as nat),
        decreases proofs.len() - k,
    {
        if leaf_index == 0 {
            return None;
        }
        let ghost s = labels(proofs@).skip(k as int);
        let ghost before = hash_for_verification@;
        let ghost i = leaf_index as nat;
        let proof = &proofs[k];
        if leaf_index % 2 == 1 {
            hash_for_verification = hash_concat(hash_for_verification.as_str(), proof.as_str());
        } else {
            hash_for_verification = hash_concat(proof.as_str(), hash_for_verification.as_str());
            leaf_index = leaf_index - 1;
        }
        leaf_index = leaf_index / 2;
        k = k + 1;
        proof {
            assert(s.drop_first() =~= labels(proofs@).skip(k as int));
            assert(hash_for_verification@ == climb_step(before, s[0], i));
            assert(leaf_index == parent(i));
        }
    }
    Some(hash_for_verification)
}

} // verus!
