use vstd::prelude::*;

use crate::hash::{digest, sha256_hex};
use crate::model::{
    build_tree, climb, depth, hashes_children, is_hash_tree, is_pow2, labels, leaf_hashes,
    leaves_of, path_proof, texts,
};
use crate::ops::{build_levels, climb_labels};

verus! {

/// A Merkle tree over a power-of-two number of data blocks, with no padding,
/// stored from the root down: [root, ..., leaves].
#[allow(non_camel_case_types)]
pub struct Merkle_Tree {
    tree: Vec<String>,
    leaves: usize,
}

impl Merkle_Tree {
    /// The node labels, from the root down.
    pub closed spec fn nodes(&self) -> Seq<Seq<char>> {
        labels(self.tree@)
    }

    /// The number of leaves.
    pub closed spec fn leaf_count(&self) -> nat {
        self.leaves as nat
    }

    /// A Merkle tree over a power-of-two number of leaves.
    pub open spec fn wf(&self) -> bool {
        &&& is_pow2(self.leaf_count())
        &&& is_hash_tree(self.nodes(), self.leaf_count())
    }

    /// Builds the tree concatenating the different levels into one array.
    /// The final array tree goes from root to leaves -> [root....branch_n, branch_n+1....leaf].
    pub fn new(data_vector: Vec<&str>) -> (res: Self)
        requires
            is_pow2(data_vector.len() as nat),
            2 * data_vector.len() - 1 <= usize::MAX,
        ensures
            res.wf(),
            res.leaf_count() == data_vector.len(),
            res.nodes() == build_tree(leaf_hashes(texts(data_vector@))),
            res.nodes().len() == 2 * data_vector.len() - 1,
            forall|k: int|
                0 <= k < data_vector.len() ==> #[trigger] res.nodes()[data_vector.len() - 1 + k]
                    == sha256_hex(data_vector@[k]@),
            forall|j: int|
                0 <= j < data_vector.len() - 1 ==> #[trigger] res.nodes()[j] == sha256_hex(
                    res.nodes()[2 * j + 1] + res.nodes()[2 * j + 2],
                ),
    {
        let mut level_n: Vec<String> = Vec::new();
        for i in 0..data_vector.len()
            invariant
                level_n.len() == i,
                forall|j: int| 0 <= j < i ==> #[trigger] level_n@[j]@ == sha256_hex(
                    data_vector@[j]@,
                ),
        {
            level_n.push(digest(data_vector[i]));
        }
        assert(labels(level_n@) =~= leaf_hashes(texts(data_vector@)));
        let ghost leaves = labels(level_n@);
        let tree = build_levels(level_n);
        let res = Merkle_Tree { tree, leaves: data_vector.len() };
        proof {
            let n = data_vector.len() as int;
            let t = res.nodes();
            assert forall|k: int| 0 <= k < n implies #[trigger] t[n - 1 + k] == sha256_hex(
                data_vector@[k]@,
            ) by {
                assert(t[n - 1 + k] == leaves_of(t, n as nat)[k]);
                assert(leaves[k] == level_n@[k]@);
            }
            assert forall|j: int| 0 <= j < n - 1 implies #[trigger] t[j] == sha256_hex(
                t[2 * j + 1] + t[2 * j + 2],
            ) by {
                assert(hashes_children(t, j));
            }
        }
        res
    }

    /// Given a proof and an index of a data hash the function must determine wether the proof is correct.
    /// For understanding this function we can consider the following tree:
    ///               root
    ///          h12        h34
    ///        h1   h2    h3   h4
    ///        |    |     |     |
    ///     data1 data2 data3 data4
    /// The array representation would be: [root,h12,h34,h1,h2,h3,h4]
    /// With the indexes                     0   1   2   3  4  5   6
    pub fn verify(&self, proofs: Vec<String>, leaf_index: usize) -> (res: bool)
        requires
            leaf_index < self.nodes().len(),
        ensures
            res == (proofs.len() <= depth(leaf_index as nat) && climb(
                self.nodes()[leaf_index as int],
                labels(proofs@),
                leaf_index as nat,
            ) == self.nodes()[0]),
    {
        // a proof longer than the path to the root cannot be correct
        match climb_labels(self.tree[leaf_index].clone(), &proofs, leaf_index) {
            Some(hash_for_verification) => hash_for_verification == self.tree[0],
            None => false,
        }
    }

    /// Given an index of a data hash the function must return the proof that the tree contains that data hash.
    pub fn give_proof(&self, leaf_index: usize) -> (res: Vec<String>)
        requires
            self.wf(),
            leaf_index < self.nodes().len(),
        ensures
            labels(res@) == path_proof(self.nodes(), leaf_index as nat),
    {
        let ghost nodes = self.nodes();
        let mut index = leaf_index;
        let mut proof: Vec<String> = vec![];
        while index > 0
            invariant
                nodes == self.nodes(),
                self.tree.len() % 2 == 1,
                index < self.tree.len(),
                labels(proof@) + path_proof(nodes, index as nat) == path_proof(
                    nodes,
                    leaf_index as nat,
                ),
            decreases index,
        {
            let ghost before = labels(proof@);
            let ghost i = index as nat;
            if index % 2 == 1 {
                proof.push(self.tree[index + 1].clone());
            } else {
                proof.push(self.tree[index - 1].clone());
                index = index - 1;
            }
            index = index / 2;
            assert(labels(proof@) + path_proof(nodes, index as nat) =~= before + path_proof(
                nodes,
                i,
            ));
        }
        assert(labels(proof@) =~= labels(proof@) + path_proof(nodes, 0));
        proof
    }

    /// The node labels, from the root down.
    pub fn tree(&self) -> (res: &Vec<String>)
        ensures
            labels(res@) == self.nodes(),
    {
        &self.tree
    }

    /// The number of leaves.
    pub fn leaves(&self) -> (res: usize)
        ensures
            res == self.leaf_count(),
    {
        self.leaves
    }
}

} // verus!
