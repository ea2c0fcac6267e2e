use vstd::prelude::*;

use crate::hash::{digest, hash_concat, hash_pair, sha256_hex};
use crate::model::{
    build_tree, climb, depth, fill_label, hashes_children, is_ancestor, is_hash_tree, is_pow2,
    labels, leaf_hashes, leaves_of, lemma_build_tree, lemma_hash_tree_unique, lemma_pad_from,
    lemma_padded_len, lemma_padded_len_unique, lemma_pow2_gap, lemma_right_half_under_node_2,
    pad_from, pad_to_pow2, padded_len, parent, path_proof, texts,
};
use crate::ops::{build_levels, climb_labels, hashes_children_from, is_tree_suffix};

verus! {

/// Implementation of merkle tree. The struct has a field for the tree structure which revolves
/// around an array that should be interpreted as the following example:
/// Given a 4 leaves tree:
///
///       root
///     /      \
///   h12        h34
///   / \        / \
/// h1   h2    h3   h4
/// |    |     |     |
/// data1 data2 data3 data4
/// The array representation would be: [root,h12,h34,h1,h2,h3,h4]
/// With the indexes                     0   1   2   3  4  5   6
/// It also has a field for the last index where a data hash is found (in this case 6), the
/// number of data blocks, and the number of leaves including the repeated ones.
pub struct MerkleTree {
    tree: Vec<String>,
    last_data_index: usize,
    og_data_vector_size: usize,
    leaves_amount: usize,
}

/// A `MerkleTree` as mathematical values: the node labels from the root down,
/// the index of the last leaf that holds a data block, the number of data
/// blocks, and the number of leaves.
pub struct TreeView {
    pub nodes: Seq<Seq<char>>,
    pub last_data_index: nat,
    pub data_len: nat,
    pub leaf_count: nat,
}

impl View for MerkleTree {
    type V = TreeView;

    closed spec fn view(&self) -> TreeView {
        TreeView {
            nodes: labels(self.tree@),
            last_data_index: self.last_data_index as nat,
            data_len: self.og_data_vector_size as nat,
            leaf_count: self.leaves_amount as nat,
        }
    }
}

impl TreeView {
    /// The tree has `padded_len(data_len)` leaves, of which those after the
    /// first `data_len` repeat the last data leaf; every inner node hashes its
    /// two children; `last_data_index` is the index of the last data leaf.
    pub open spec fn wf(self) -> bool {
        &&& self.data_len >= 1
        &&& self.leaf_count == padded_len(self.data_len)
        &&& self.last_data_index == self.leaf_count + self.data_len - 2
        &&& is_hash_tree(self.nodes, self.leaf_count)
        &&& forall|k: int|
            self.data_len <= k < self.leaf_count ==> #[trigger] leaves_of(
                self.nodes,
                self.leaf_count,
            )[k] == leaves_of(self.nodes, self.leaf_count)[self.data_len - 1]
    }

    /// The tree after one more data block: its digest takes the place of the
    /// padding, or, where there is none, the leaves double and the new half
    /// holds only that digest.
    pub open spec fn with_added(self, block: Seq<char>) -> TreeView {
        let n = self.data_len;
        let new_leaf_count = if is_pow2(n) {
            2 * self.leaf_count
        } else {
            self.leaf_count
        };
        let leaves = leaves_of(self.nodes, self.leaf_count).take(n as int) + Seq::new(
            (new_leaf_count - n) as nat,
            |k: int| sha256_hex(block),
        );
        TreeView {
            nodes: build_tree(leaves),
            last_data_index: (new_leaf_count + n - 1) as nat,
            data_len: n + 1,
            leaf_count: new_leaf_count,
        }
    }
}

/// The tree that `MerkleTree::new` builds over `data`.
pub open spec fn tree_of(data: Seq<Seq<char>>) -> TreeView {
    let n = data.len();
    let leaf_count = padded_len(n);
    TreeView {
        nodes: build_tree(leaf_hashes(pad_to_pow2(data))),
        last_data_index: (leaf_count + n - 2) as nat,
        data_len: n,
        leaf_count,
    }
}

/// The leaves of a tree with `leaf_count` leaves followed by as many copies of
/// `label`.
pub open spec fn doubled_leaves(nodes: Seq<Seq<char>>, leaf_count: nat, label: Seq<char>) -> Seq<
    Seq<char>,
> {
    leaves_of(nodes, leaf_count) + Seq::new(leaf_count, |k: int| label)
}

/// While the leaves double, `s` holds the levels of the new tree built so far,
/// from the level of `2 * amount` nodes down (none while `amount` is still the
/// old leaf count): each new level is the old level above followed by as many
/// roots of subtrees whose leaves are all `label`.
spec fn grown_levels(
    old_nodes: Seq<Seq<char>>,
    s: Seq<Seq<char>>,
    leaf_count: nat,
    amount: nat,
    height: nat,
    label: Seq<char>,
) -> bool {
    let off = if amount == 0 {
        1
    } else {
        4 * amount - 1
    };
    let half = (off + 1) / 2;
    &&& (amount == leaf_count) == (height == 0)
    &&& amount == leaf_count ==> s.len() == 0
    &&& amount < leaf_count ==> {
        &&& is_tree_suffix(
            s,
            off,
            2 * leaf_count,
            doubled_leaves(old_nodes, leaf_count, label),
        )
        &&& forall|p: int| 0 <= p < half ==> #[trigger] s[p] == old_nodes[half - 1 + p]
        &&& forall|p: int|
            half <= p < 2 * half ==> #[trigger] s[p] == fill_label(label, (height - 1) as nat)
    }
}

/// Putting the next level in front keeps `grown_levels`.
proof fn lemma_grow_level(
    old_nodes: Seq<Seq<char>>,
    s: Seq<Seq<char>>,
    level: Seq<Seq<char>>,
    leaf_count: nat,
    amount: nat,
    height: nat,
    label: Seq<char>,
)
    requires
        is_hash_tree(old_nodes, leaf_count),
        is_pow2(leaf_count),
        is_pow2(amount),
        1 <= amount <= leaf_count,
        grown_levels(old_nodes, s, leaf_count, amount, height, label),
        level.len() == 2 * amount,
        forall|p: int| 0 <= p < amount ==> #[trigger] level[p] == old_nodes[amount - 1 + p],
        forall|p: int| amount <= p < 2 * amount ==> #[trigger] level[p] == fill_label(label, height),
    ensures
        grown_levels(old_nodes, level + s, leaf_count, amount / 2, height + 1, label),
{
    let s2 = level + s;
    let a2 = amount / 2;
    let big = 2 * leaf_count;
    let new_leaves = doubled_leaves(old_nodes, leaf_count, label);
    if amount >= 2 {
        assert(amount % 2 == 0);
        assert(is_pow2(a2));
    }
    let off2: int = if a2 == 0 {
        1
    } else {
        4 * a2 - 1
    };
    assert(off2 == 2 * amount - 1);
    if height == 0 {
        assert(s2 =~= level);
        assert(s2.subrange(s2.len() - big, s2.len() as int) =~= new_leaves);
    } else {
        lemma_pow2_gap(amount, leaf_count);
        let off: int = 4 * amount - 1;
        assert forall|j: int| off2 <= j < big - 1 implies #[trigger] hashes_children_from(
            s2,
            off2,
            j,
        ) by {
            if j >= off {
                assert(hashes_children_from(s, off, j));
                assert(s2[j - off2] == s[j - off]);
                assert(s2[2 * j + 1 - off2] == s[2 * j + 1 - off]);
                assert(s2[2 * j + 2 - off2] == s[2 * j + 2 - off]);
            } else {
                let p = j - off2;
                assert(s2[2 * j + 1 - off2] == s[2 * p]);
                assert(s2[2 * j + 2 - off2] == s[2 * p + 1]);
                if p < amount {
                    let i = amount - 1 + p;
                    assert(hashes_children(old_nodes, i));
                    assert(s[2 * p] == old_nodes[2 * i + 1]);
                    assert(s[2 * p + 1] == old_nodes[2 * i + 2]);
                } else {
                    assert(s[2 * p] == fill_label(label, (height - 1) as nat));
                    assert(s[2 * p + 1] == fill_label(label, (height - 1) as nat));
                }
            }
        }
        assert(s2.subrange(s2.len() - big, s2.len() as int) =~= s.subrange(
            s.len() - big,
            s.len() as int,
        ));
    }
    assert forall|p: int| 0 <= p < amount implies #[trigger] s2[p] == old_nodes[amount - 1 + p] by {
        assert(s2[p] == level[p]);
    }
    assert forall|p: int| amount <= p < 2 * amount implies #[trigger] s2[p] == fill_label(
        label,
        height,
    ) by {
        assert(s2[p] == level[p]);
    }
}

/// Adding a block to the tree built over `data` gives the tree built over
/// `data` followed by that block.
pub proof fn lemma_add_node_extends_data(data: Seq<Seq<char>>, block: Seq<char>)
    requires
        data.len() >= 1,
    ensures
        tree_of(data).with_added(block) == tree_of(data.push(block)),
{
    let n = data.len();
    let leaf_count = padded_len(n);
    lemma_padded_len(n);
    let new_count: nat = if is_pow2(n) {
        2 * leaf_count
    } else {
        leaf_count
    };
    if is_pow2(n) {
        lemma_padded_len_unique(n, n);
        assert(is_pow2(2 * n)) by {
            assert((2 * n) / 2 == n);
        }
        lemma_padded_len_unique(n + 1, 2 * n);
    } else {
        lemma_padded_len_unique(n + 1, leaf_count);
    }
    let leaves = leaf_hashes(pad_to_pow2(data));
    lemma_build_tree(leaves);
    let added = tree_of(data).with_added(block);
    let direct = tree_of(data.push(block));
    let new_leaves = leaves.take(n as int) + Seq::new(
        (new_count - n) as nat,
        |k: int| sha256_hex(block),
    );
    assert(new_leaves =~= leaf_hashes(pad_to_pow2(data.push(block))));
    assert(added.nodes == direct.nodes);
    assert(added.last_data_index == direct.last_data_index);
}

/// On a power-of-two number of blocks no padding is added: the tree that
/// `MerkleTree::new` builds is the tree over the digests of the blocks
/// themselves, as `Merkle_Tree::new` builds it.
pub proof fn lemma_no_padding_on_powers_of_two(data: Seq<Seq<char>>)
    requires
        data.len() >= 1,
        is_pow2(data.len()),
    ensures
        tree_of(data).nodes == build_tree(leaf_hashes(data)),
        tree_of(data).leaf_count == data.len(),
{
    lemma_padded_len_unique(data.len(), data.len());
    assert(pad_to_pow2(data) =~= data);
}

/// Adding a block to a well-formed tree gives a well-formed tree with one more
/// data block, and its last data index names the leaf holding the new block's
/// digest.
pub proof fn lemma_with_added_wf(v: TreeView, block: Seq<char>)
    requires
        v.wf(),
    ensures
        v.with_added(block).wf(),
        v.with_added(block).data_len == v.data_len + 1,
        v.with_added(block).nodes[v.with_added(block).last_data_index as int] == sha256_hex(
            block,
        ),
{
    let n = v.data_len;
    lemma_padded_len(n);
    if is_pow2(n) {
        lemma_padded_len_unique(n, n);
        assert(is_pow2(2 * n)) by {
            assert((2 * n) / 2 == n);
        }
        lemma_padded_len_unique(n + 1, 2 * n);
    } else {
        lemma_padded_len_unique(n + 1, v.leaf_count);
    }
    let w = v.with_added(block);
    let leaves = leaves_of(v.nodes, v.leaf_count).take(n as int) + Seq::new(
        (w.leaf_count - n) as nat,
        |k: int| sha256_hex(block),
    );
    lemma_build_tree(leaves);
    let wl = leaves_of(w.nodes, w.leaf_count);
    assert(wl == leaves);
    assert forall|k: int| w.data_len <= k < w.leaf_count implies #[trigger] wl[k] == wl[w.data_len
        - 1] by {}
    assert(w.nodes[w.last_data_index as int] == wl[n as int]);
}

/// The tree built over `data`: each leaf is the SHA-256 digest of its whole
/// block (the last block repeated up to a power of two), every inner node is
/// the digest of its two children's labels written one after the other, and
/// the leaf count is the smallest power of two at least the number of blocks.
pub proof fn lemma_tree_of_labels(data: Seq<Seq<char>>)
    requires
        data.len() >= 1,
    ensures
        is_pow2(tree_of(data).leaf_count),
        data.len() <= tree_of(data).leaf_count < 2 * data.len(),
        tree_of(data).nodes.len() == 2 * tree_of(data).leaf_count - 1,
        forall|k: int|
            0 <= k < tree_of(data).leaf_count ==> #[trigger] tree_of(data).nodes[tree_of(
                data,
            ).leaf_count - 1 + k] == sha256_hex(
                if k < data.len() {
                    data[k]
                } else {
                    data[data.len() - 1]
                },
            ),
        forall|j: int|
            0 <= j < tree_of(data).leaf_count - 1 ==> #[trigger] tree_of(data).nodes[j]
                == sha256_hex(tree_of(data).nodes[2 * j + 1] + tree_of(data).nodes[2 * j + 2]),
{
    let t = tree_of(data);
    let leaf_count = t.leaf_count;
    lemma_padded_len(data.len());
    let leaves = leaf_hashes(pad_to_pow2(data));
    lemma_build_tree(leaves);
    assert forall|k: int| 0 <= k < leaf_count implies #[trigger] t.nodes[leaf_count - 1 + k]
        == sha256_hex(
        if k < data.len() {
            data[k]
        } else {
            data[data.len() - 1]
        },
    ) by {
        assert(t.nodes[leaf_count - 1 + k] == leaves_of(t.nodes, leaf_count)[k]);
        assert(pad_to_pow2(data)[k] == (if k < data.len() {
            data[k]
        } else {
            data[data.len() - 1]
        }));
    }
    assert forall|j: int| 0 <= j < leaf_count - 1 implies #[trigger] t.nodes[j] == sha256_hex(
        t.nodes[2 * j + 1] + t.nodes[2 * j + 2],
    ) by {
        assert(hashes_children(t.nodes, j));
    }
}

/// Adding a block to a well-formed tree: the leaves double exactly when every
/// leaf held a data block; the old data leaves stay; every leaf after them is
/// the SHA-256 digest of the new block; and every inner node is the digest of
/// its two children's labels written one after the other.
pub proof fn lemma_with_added_labels(v: TreeView, block: Seq<char>)
    requires
        v.wf(),
    ensures
        v.with_added(block).leaf_count == (if v.data_len == v.leaf_count {
            2 * v.leaf_count
        } else {
            v.leaf_count
        }),
        v.with_added(block).nodes.len() == 2 * v.with_added(block).leaf_count - 1,
        forall|k: int|
            0 <= k < v.data_len ==> #[trigger] v.with_added(block).nodes[v.with_added(
                block,
            ).leaf_count - 1 + k] == v.nodes[v.leaf_count - 1 + k],
        forall|k: int|
            v.data_len <= k < v.with_added(block).leaf_count ==> #[trigger] v.with_added(
                block,
            ).nodes[v.with_added(block).leaf_count - 1 + k] == sha256_hex(block),
        forall|j: int|
            0 <= j < v.with_added(block).leaf_count - 1 ==> #[trigger] v.with_added(block).nodes[j]
                == sha256_hex(
                v.with_added(block).nodes[2 * j + 1] + v.with_added(block).nodes[2 * j + 2],
            ),
{
    let n = v.data_len;
    let w = v.with_added(block);
    lemma_padded_len(n);
    if is_pow2(n) {
        lemma_padded_len_unique(n, n);
    }
    let leaves = leaves_of(v.nodes, v.leaf_count).take(n as int) + Seq::new(
        (w.leaf_count - n) as nat,
        |k: int| sha256_hex(block),
    );
    lemma_build_tree(leaves);
    assert forall|k: int| 0 <= k < w.leaf_count implies #[trigger] w.nodes[w.leaf_count - 1 + k]
        == leaves[k] by {
        assert(w.nodes[w.leaf_count - 1 + k] == leaves_of(w.nodes, w.leaf_count)[k]);
    }
    assert forall|k: int| 0 <= k < n implies #[trigger] w.nodes[w.leaf_count - 1 + k]
        == v.nodes[v.leaf_count - 1 + k] by {
        assert(w.nodes[w.leaf_count - 1 + k] == leaves[k]);
    }
    assert forall|k: int| n <= k < w.leaf_count implies #[trigger] w.nodes[w.leaf_count - 1 + k]
        == sha256_hex(block) by {
        assert(w.nodes[w.leaf_count - 1 + k] == leaves[k]);
    }
    assert forall|j: int| 0 <= j < w.leaf_count - 1 implies #[trigger] w.nodes[j] == sha256_hex(
        w.nodes[2 * j + 1] + w.nodes[2 * j + 2],
    ) by {
        assert(hashes_children(w.nodes, j));
    }
}

impl MerkleTree {
    /// The tree is well formed (see `TreeView::wf`).
    pub open spec fn wf(&self) -> bool {
        self@.wf()
    }

    /// Builds the tree concatenating the different levels into one array.
    /// The final array tree goes from root to leaves -> [root....branch_n, branch_n+1....leaf].
    pub fn new(data_vector: Vec<&str>) -> (res: Self)
        requires
            data_vector.len() >= 1,
            2 * padded_len(data_vector.len() as nat) - 1 <= usize::MAX,
        ensures
            res.wf(),
            res@ == tree_of(texts(data_vector@)),
            is_pow2(res@.leaf_count),
            data_vector.len() <= res@.leaf_count < 2 * data_vector.len(),
            res@.nodes.len() == 2 * res@.leaf_count - 1,
            forall|k: int|
                0 <= k < res@.leaf_count ==> #[trigger] res@.nodes[res@.leaf_count - 1 + k]
                    == sha256_hex(
                    if k < data_vector.len() {
                        data_vector@[k]@
                    } else {
                        data_vector@[data_vector.len() - 1]@
                    },
                ),
            forall|j: int|
                0 <= j < res@.leaf_count - 1 ==> #[trigger] res@.nodes[j] == sha256_hex(
                    res@.nodes[2 * j + 1] + res@.nodes[2 * j + 2],
                ),
    {
        let pow2_data_vector = extend_to_power2_size(&data_vector);
        let ghost padded = pad_to_pow2(texts(data_vector@));
        proof {
            lemma_padded_len(data_vector.len() as nat);
        }
        let mut level_n: Vec<String> = Vec::new();
        for i in 0..pow2_data_vector.len()
            invariant
                labels(pow2_data_vector@) == padded,
                level_n.len() == i,
                forall|j: int| 0 <= j < i ==> #[trigger] level_n@[j]@ == sha256_hex(padded[j]),
        {
            level_n.push(digest(pow2_data_vector[i].as_str()));
        }
        let ghost leaves = labels(level_n@);
        assert(leaves =~= leaf_hashes(padded));
        let current_tree = build_levels(level_n);
        let last_data_index = current_tree.len() - pow2_data_vector.len() + data_vector.len() - 1;
        let res = MerkleTree {
            tree: current_tree,
            last_data_index: last_data_index,
            og_data_vector_size: data_vector.len(),
            leaves_amount: pow2_data_vector.len(),
        };
        proof {
            let n = data_vector.len() as int;
            assert forall|k: int| n <= k < res@.leaf_count implies #[trigger] leaves_of(
                res@.nodes,
                res@.leaf_count,
            )[k] == leaves_of(res@.nodes, res@.leaf_count)[n - 1] by {
                assert(padded[k] == padded[n - 1]);
            }
            assert(res@ == tree_of(texts(data_vector@)));
            lemma_tree_of_labels(texts(data_vector@));
        }
        res
    }

    /// Given a proof and an index of a data hash the function must determine wether the proof is correct.
    /// For understanding this function we can consider the following tree:
    ///               root
    ///          h12        h34
    ///        h1   h2    h3   h4
    ///        |    |     |     |
    ///     data1 data2 data3 data4
    /// The array representation would be: [root,h12,h34,h1,h2,h3,h4]
    /// With the indexes                     0   1   2   3  4  5   6
    pub fn verify(&self, proofs: Vec<String>, leaf_index: usize) -> (res: Option<bool>)
        ensures
            res == (if leaf_index < self@.nodes.len() {
                Some(
                    proofs.len() <= depth(leaf_index as nat) && climb(
                        self@.nodes[leaf_index as int],
                        labels(proofs@),
                        leaf_index as nat,
                    ) == self@.nodes[0],
                )
            } else {
                None
            }),
    {
        if leaf_index >= self.tree.len() {
            return None;
        }
        // a proof longer than the path to the root cannot be correct
        let ret = match climb_labels(self.tree[leaf_index].clone(), &proofs, leaf_index) {
            Some(hash_for_verification) => hash_for_verification == self.tree[0],
            None => false,
        };
        Some(ret)
    }

    /// Given an index of a data hash the function must return the proof that the tree contains that data hash.
    pub fn generate_proof(&self, node_index: usize) -> (res: Option<Vec<String>>)
        requires
            self.wf(),
        ensures
            node_index < self@.nodes.len() ==> res is Some && labels(res->0@) == path_proof(
                self@.nodes,
                node_index as nat,
            ),
            node_index >= self@.nodes.len() ==> res is None,
    {
        let ghost nodes = self@.nodes;
        let ghost start = node_index as nat;
        let mut index = node_index;
        let mut proof: Vec<String> = vec![];
        if index > self.tree.len() {
            return None;
        }
        while index > 0
            invariant
                nodes == labels(self.tree@),
                nodes == self@.nodes,
                start == node_index,
                self.tree.len() % 2 == 1,
                start <= nodes.len(),
                start < nodes.len() ==> index < nodes.len() && labels(proof@) + path_proof(
                    nodes,
                    index as nat,
                ) == path_proof(nodes, start),
                start == nodes.len() ==> index == start,
            decreases index,
        {
            let ghost before = labels(proof@);
            let ghost i = index as nat;
            if index % 2 == 1 {
                if index >= self.tree.len() - 1 {
                    assert(start == nodes.len());
                    return None;
                }
                proof.push(self.tree[index + 1].clone());
            } else {
                proof.push(self.tree[index - 1].clone());
                index = index - 1;
            }
            index = index / 2;
            assert(labels(proof@) + path_proof(nodes, index as nat) =~= before + path_proof(
                nodes,
                i,
            ));
        }
        assert(labels(proof@) =~= labels(proof@) + path_proof(nodes, 0));
        Some(proof)
    }

    /// Returns a merkle tree with a new node, if the total amount of data is not a power of 2
    /// If the true amount of data is a power of two the method "creates" another tree of the same size
    /// only from the new data, like so:
    ///                      root
    ///                   /       \
    ///          h1234                  h5555
    ///        /      \               /      \
    ///     h12        h34         h55        h55
    ///     / \        / \         / \        / \
    ///   h1   h2    h3   h4     h5   h5    h5   h5
    ///The array representation would be: [root,h1234,h5555,h12,h34,h55,h55,h1,h2,h3,h4,h5,h5,h5,h5]
    /// If that's not the case we know we have repeated data in the tree, so the hash of the new data is inserted
    /// next to the last data index registered, the other nodes from that point on are changed as well to have
    /// a consistent structure. Here's an example:
    ///                      root
    ///                   /       \
    ///          h1234                  h5666
    ///        /      \               /      \
    ///     h12        h34         h56        h66
    ///     / \        / \         / \        / \
    ///   h1   h2    h3   h4     h5   h6    h6   h6
    ///The array representation would be: [root,h1234,h5666,h12,h34,h56,h66,h1,h2,h3,h4,h5,h6,h6,h6]
    pub fn add_node(&mut self, data: &str) -> (res: Option<()>)
        requires
            old(self).wf(),
            2 * padded_len(old(self)@.data_len + 1) - 1 <= usize::MAX,
        ensures
            res == Some(()),
            final(self).wf(),
            final(self)@ == old(self)@.with_added(data@),
            final(self)@.data_len == old(self)@.data_len + 1,
            final(self)@.nodes[final(self)@.last_data_index as int] == sha256_hex(data@),
            final(self)@.leaf_count == (if old(self)@.data_len == old(self)@.leaf_count {
                2 * old(self)@.leaf_count
            } else {
                old(self)@.leaf_count
            }),
            final(self)@.nodes.len() == 2 * final(self)@.leaf_count - 1,
            forall|k: int|
                0 <= k < old(self)@.data_len ==> #[trigger] final(self)@.nodes[final(self)@.leaf_count
                    - 1 + k] == old(self)@.nodes[old(self)@.leaf_count - 1 + k],
            forall|k: int|
                old(self)@.data_len <= k < final(self)@.leaf_count ==> #[trigger] final(self)@.nodes[
                    final(self)@.leaf_count - 1 + k] == sha256_hex(data@),
            forall|j: int|
                0 <= j < final(self)@.leaf_count - 1 ==> #[trigger] final(self)@.nodes[j]
                    == sha256_hex(final(self)@.nodes[2 * j + 1] + final(self)@.nodes[2 * j + 2]),
    {
        let ghost v0 = self@;
        let ghost n = v0.data_len;
        let ghost label = sha256_hex(data@);
        proof {
            lemma_padded_len(n);
        }
        if !is_power_of_2(self.og_data_vector_size) {
            self.replace_padding(data);
            proof {
                lemma_padded_len_unique(n + 1, v0.leaf_count);
            }
        } else {
            proof {
                lemma_padded_len_unique(n, n);
                assert(is_pow2(2 * n)) by {
                    assert((2 * n) / 2 == n);
                }
                lemma_padded_len_unique(n + 1, 2 * n);
            }
            self.double_leaves(data);
        }
        self.og_data_vector_size = self.og_data_vector_size + 1;
        proof {
            let v1 = self@;
            let expected = v0.with_added(data@);
            let leaves = leaves_of(v1.nodes, v1.leaf_count);
            let new_leaves = leaves_of(v0.nodes, v0.leaf_count).take(n as int) + Seq::new(
                (expected.leaf_count - n) as nat,
                |k: int| label,
            );
            assert(leaves =~= new_leaves);
            lemma_hash_tree_unique(v1.nodes, v1.leaf_count);
            assert(v1.nodes == expected.nodes);
            lemma_with_added_wf(v0, data@);
            lemma_with_added_labels(v0, data@);
            assert forall|k: int| v1.data_len <= k < v1.leaf_count implies #[trigger] leaves[k]
                == leaves[v1.data_len - 1] by {
            }
        }
        Some(())
    }

    /// Puts the digest of `data` in every padding leaf and rehashes the path
    /// from each of them to the root.
    fn replace_padding(&mut self, data: &str)
        requires
            old(self).wf(),
            !is_pow2(old(self)@.data_len),
        ensures
            final(self).og_data_vector_size == old(self).og_data_vector_size,
            final(self).leaves_amount == old(self).leaves_amount,
            final(self).last_data_index == old(self).last_data_index + 1,
            is_hash_tree(final(self)@.nodes, final(self)@.leaf_count),
            leaves_of(final(self)@.nodes, final(self)@.leaf_count) == leaves_of(
                old(self)@.nodes,
                old(self)@.leaf_count,
            ).take(old(self)@.data_len as int) + Seq::new(
                (old(self)@.leaf_count - old(self)@.data_len) as nat,
                |k: int| sha256_hex(data@),
            ),
    {
        let ghost v0 = self@;
        let ghost leaf_count = v0.leaf_count;
        let ghost n = v0.data_len;
        proof {
            lemma_padded_len(n);
        }
        let leaf = digest(data);
        let len = self.tree.len();
        let mut index = self.last_data_index + 1;
        while index < len
            invariant
                len == self.tree.len(),
                len == 2 * leaf_count - 1,
                leaf_count == self.leaves_amount,
                leaf_count >= 4,
                is_pow2(leaf_count),
                n == self.og_data_vector_size,
                v0.last_data_index == self.last_data_index,
                v0.wf(),
                leaf_count - 1 + leaf_count / 2 < self.last_data_index + 1 <= index <= len,
                leaf@ == sha256_hex(data@),
                is_hash_tree(labels(self.tree@), leaf_count),
                forall|j: int|
                    leaf_count - 1 <= j < len ==> #[trigger] labels(self.tree@)[j] == (if v0.last_data_index
                        < j < index {
                        leaf@
                    } else {
                        v0.nodes[j]
                    }),
            decreases len - index,
        {
            let ghost pre = labels(self.tree@);
            self.tree[index] = leaf.clone();
            let ghost leaves_now = labels(self.tree@).subrange(leaf_count - 1, len as int);
            let mut node_index = index;
            proof {
                assert forall|j: int|
                    leaf_count - 1 <= j < len implies #[trigger] leaves_now[j - (leaf_count - 1)] == (
                    if v0.last_data_index < j < index + 1 {
                        leaf@
                    } else {
                        v0.nodes[j]
                    }) by {
                    assert(leaves_now[j - (leaf_count - 1)] == labels(self.tree@)[j]);
                    if j != index {
                        assert(labels(self.tree@)[j] == pre[j]);
                    }
                }
                lemma_right_half_under_node_2(leaf_count, index as nat);
                assert forall|j: int|
                    0 <= j < leaf_count - 1 && !is_ancestor(
                        j as nat,
                        index as nat,
                    ) implies #[trigger] hashes_children(labels(self.tree@), j) by {
                    assert(hashes_children(pre, j));
                    if j == parent(index as nat) {
                        assert(is_ancestor(j as nat, index as nat));
                    }
                }
            }
            while node_index > 1
                invariant
                    len == self.tree.len(),
                    len == 2 * leaf_count - 1,
                    leaf_count >= 4,
                    0 <= node_index <= index < len,
                    leaf_count == self.leaves_amount,
                    n == self.og_data_vector_size,
                    v0.last_data_index == self.last_data_index,
                    node_index == 0 || node_index == 2 || is_ancestor(2, node_index as nat),
                    labels(self.tree@).subrange(leaf_count - 1, len as int) == leaves_now,
                    forall|j: int|
                        0 <= j < leaf_count - 1 && !is_ancestor(j as nat, node_index as nat)
                            ==> #[trigger] hashes_children(labels(self.tree@), j),
                decreases node_index,
            {
                let ghost before = labels(self.tree@);
                let ghost c = node_index as nat;
                let ghost p = parent(c);
                if node_index % 2 == 1 {
                    let h = hash_concat(
                        self.tree[node_index].as_str(),
                        self.tree[node_index + 1].as_str(),
                    );
                    self.tree[node_index / 2] = h;
                } else {
                    let h = hash_concat(
                        self.tree[node_index - 1].as_str(),
                        self.tree[node_index].as_str(),
                    );
                    self.tree[(node_index - 1) / 2] = h;
                    node_index = node_index - 1;
                }
                node_index = node_index / 2;
                proof {
                    let after = labels(self.tree@);
                    assert(node_index == p);
                    assert(after == before.update(p as int, hash_pair(
                        before[2 * p + 1 as int],
                        before[2 * p + 2 as int],
                    )));
                    assert forall|j: int|
                        0 <= j < leaf_count - 1 && !is_ancestor(
                            j as nat,
                            p,
                        ) implies #[trigger] hashes_children(after, j) by {
                        if j != p {
                            assert(!is_ancestor(j as nat, c));
                            assert(hashes_children(before, j));
                            if p > 0 {
                                assert(is_ancestor(parent(p), p));
                            }
                        }
                    }
                    assert(after.subrange(leaf_count - 1, len as int) =~= before.subrange(
                        leaf_count - 1,
                        len as int,
                    ));
                }
            }
            proof {
                assert(!is_ancestor(2, 1)) by {
                    assert(!is_ancestor(2, 0));
                }
                assert(node_index == 0);
                assert forall|j: int|
                    leaf_count - 1 <= j < len implies #[trigger] labels(self.tree@)[j] == (if v0.last_data_index
                        < j < index + 1 {
                        leaf@
                    } else {
                        v0.nodes[j]
                    }) by {
                    assert(labels(self.tree@)[j] == labels(self.tree@).subrange(
                        leaf_count - 1,
                        len as int,
                    )[j - (leaf_count - 1)]);
                }
            }
            index = index + 1;
        }
        self.last_data_index = self.last_data_index + 1;
        proof {
            let t = labels(self.tree@);
            assert(leaves_of(t, leaf_count) =~= leaves_of(v0.nodes, leaf_count).take(n as int)
                + Seq::new((leaf_count - n) as nat, |k: int| sha256_hex(data@)));
        }
    }

    /// Doubles the leaves: the old tree becomes the left subtree of a new root,
    /// and the right subtree has only the digest of `data` at its leaves. Each
    /// level of the new tree is the old level above it followed by copies of the
    /// label of a right-hand node, built from the leaves up.
    fn double_leaves(&mut self, data: &str)
        requires
            old(self).wf(),
            is_pow2(old(self)@.data_len),
            4 * old(self)@.leaf_count - 1 <= usize::MAX,
        ensures
            final(self).og_data_vector_size == old(self).og_data_vector_size,
            final(self)@.leaf_count == 2 * old(self)@.leaf_count,
            final(self)@.last_data_index == 3 * old(self)@.leaf_count - 1,
            is_hash_tree(final(self)@.nodes, final(self)@.leaf_count),
            leaves_of(final(self)@.nodes, final(self)@.leaf_count) == doubled_leaves(
                old(self)@.nodes,
                old(self)@.leaf_count,
                sha256_hex(data@),
            ),
    {
        let ghost v0 = self@;
        let ghost leaf_count = v0.leaf_count;
        let ghost label = sha256_hex(data@);
        proof {
            lemma_padded_len_unique(v0.data_len, v0.data_len);
        }
        let mut new_data = digest(data);
        let mut current_tree: Vec<String> = Vec::new();
        let mut amount = self.og_data_vector_size;
        let ghost mut height: nat = 0;
        while amount > 0
            invariant
                self@ == v0,
                v0.wf(),
                leaf_count == v0.data_len,
                leaf_count == v0.leaf_count,
                label == sha256_hex(data@),
                is_pow2(leaf_count),
                4 * leaf_count - 1 <= usize::MAX,
                amount <= leaf_count,
                amount > 0 ==> is_pow2(amount as nat),
                new_data@ == fill_label(label, height),
                grown_levels(v0.nodes, labels(current_tree@), leaf_count, amount as nat, height, label),
            decreases amount,
        {
            let level_start = amount - 1;
            let level_end = 2 * amount - 1;
            let mut current_level: Vec<String> = Vec::new();
            for i in level_start..level_end
                invariant
                    self@ == v0,
                    level_start == amount - 1,
                    level_end == 2 * amount - 1,
                    level_end <= self.tree.len(),
                    v0.nodes.len() == self.tree.len(),
                    current_level.len() == i - level_start,
                    forall|p: int|
                        0 <= p < current_level.len() ==> #[trigger] current_level@[p]@ == v0.nodes[
                        level_start + p],
            {
                current_level.push(self.tree[i].clone());
            }
            current_level.push(new_data.clone());
            let mut level_refs: Vec<&str> = Vec::new();
            for i in 0..current_level.len()
                invariant
                    level_refs.len() == i,
                    forall|p: int| 0 <= p < i ==> #[trigger] level_refs@[p]@ == current_level@[p]@,
            {
                level_refs.push(current_level[i].as_str());
            }
            proof {
                assert(is_pow2(2 * amount as nat)) by {
                    assert((2 * amount as nat) / 2 == amount);
                }
                lemma_padded_len_unique((amount + 1) as nat, 2 * amount as nat);
            }
            let current_level_to_pow_2 = extend_to_power2_size(&level_refs);
            let ghost level = labels(current_level_to_pow_2@);
            let ghost below = labels(current_tree@);
            proof {
                let x = texts(level_refs@);
                assert(level == pad_to_pow2(x));
                assert forall|p: int| 0 <= p < amount implies #[trigger] level[p] == v0.nodes[
                    amount - 1 + p] by {
                    assert(level[p] == x[p]);
                    assert(x[p] == current_level@[p]@);
                }
                assert forall|p: int| amount <= p < 2 * amount implies #[trigger] level[p]
                    == fill_label(label, height) by {
                    assert(x.last() == new_data@);
                    if p == amount {
                        assert(level[p] == x[p]);
                    }
                }
                lemma_grow_level(v0.nodes, below, level, leaf_count, amount as nat, height, label);
            }
            let mut computed_base = current_tree;
            current_tree = current_level_to_pow_2;
            current_tree.append(&mut computed_base);
            proof {
                assert(labels(current_tree@) =~= level + below);
                height = height + 1;
            }
            amount = amount / 2;
            new_data = hash_concat(new_data.as_str(), new_data.as_str());
        }
        let ghost s = labels(current_tree@);
        let new_root = hash_concat(current_tree[0].as_str(), current_tree[1].as_str());
        current_tree.insert(0, new_root);
        self.tree = current_tree;
        self.leaves_amount = self.leaves_amount * 2;
        self.last_data_index = self.tree.len() - self.leaves_amount + self.og_data_vector_size;
        proof {
            let t = labels(self.tree@);
            let big = 2 * leaf_count;
            assert(t =~= seq![hash_pair(s[0], s[1])] + s);
            assert forall|j: int| 0 <= j < big - 1 implies #[trigger] hashes_children(t, j) by {
                if j > 0 {
                    assert(hashes_children_from(s, 1, j));
                }
            }
            assert(leaves_of(t, big) =~= s.subrange(s.len() - big, s.len() as int));
        }
    }

    /// The node labels, from the root down.
    pub fn tree(&self) -> (res: &Vec<String>)
        ensures
            labels(res@) == self@.nodes,
    {
        &self.tree
    }

    /// The index of the last leaf that holds a data block.
    pub fn last_data_index(&self) -> (res: usize)
        ensures
            res == self@.last_data_index,
    {
        self.last_data_index
    }
}

/// `num` is a power of two; `num` must not be zero.
pub fn is_power_of_2(num: usize) -> (res: bool)
    requires
        num >= 1,
    ensures
        res == is_pow2(num as nat),
{
    proof {
        lemma_pow2_bits(num);
    }
    num & (num - 1) == 0
}

/// `n & (n - 1)` clears the lowest set bit of `n`, so it is zero exactly when
/// `n` has a single set bit.
proof fn lemma_pow2_bits(n: usize)
    requires
        n >= 1,
    ensures
        ((n & ((n - 1) as usize)) == 0) == is_pow2(n as nat),
    decreases n,
{
    if n == 1 {
        assert((1usize & 0usize) == 0) by (bit_vector);
    } else if n % 2 == 1 {
        assert(n % 2 == 1 && n >= 3 ==> (n & ((n - 1) as usize)) != 0) by (bit_vector);
    } else {
        lemma_pow2_bits(n / 2);
        assert(n % 2 == 0 && n >= 2 ==> (((n & ((n - 1) as usize)) == 0) == (((n / 2) & ((n / 2
            - 1) as usize)) == 0))) by (bit_vector);
    }
}

/// The smallest power of two that is at least `n`.
pub(crate) fn padded_size(n: usize) -> (res: usize)
    requires
        n >= 1,
        padded_len(n as nat) <= usize::MAX,
    ensures
        res == padded_len(n as nat),
{
    let mut p: usize = 1;
    while p < n
        invariant
            1 <= p,
            is_pow2(p as nat),
            p < 2 * n,
            pad_from(p as nat, n as nat) == padded_len(n as nat),
            padded_len(n as nat) <= usize::MAX,
        decreases 2 * n - p,
    {
        proof {
            assert(is_pow2(2 * p as nat)) by {
                assert((2 * p as nat) / 2 == p);
            }
            lemma_pad_from(2 * p as nat, n as nat);
        }
        p = p * 2;
    }
    p
}

/// Extends the size of a vector to a power of 2 by repeating the last value.
pub fn extend_to_power2_size(vec: &Vec<&str>) -> (res: Vec<String>)
    requires
        vec.len() >= 1,
        padded_len(vec.len() as nat) <= usize::MAX,
    ensures
        labels(res@) == pad_to_pow2(texts(vec@)),
{
    let n = vec.len();
    let mut copy: Vec<String> = Vec::new();
    for i in 0..n
        invariant
            n == vec.len(),
            copy.len() == i,
            forall|j: int| 0 <= j < i ==> #[trigger] copy@[j]@ == vec@[j]@,
    {
        copy.push(vec[i].to_owned());
    }
    if !is_power_of_2(n) {
        let new_size = padded_size(n);
        proof {
            lemma_padded_len(n as nat);
        }
        let last = vec[n - 1];
        for k in 0..new_size - n
            invariant
                n == vec.len(),
                n <= new_size,
                last@ == vec@[n - 1]@,
                copy.len() == n + k,
                forall|j: int| 0 <= j < n ==> #[trigger] copy@[j]@ == vec@[j]@,
                forall|j: int| n <= j < n + k ==> #[trigger] copy@[j]@ == last@,
        {
            copy.push(last.to_owned());
        }
    } else {
        proof {
            lemma_padded_len_unique(n as nat, n as nat);
        }
    }
    proof {
        lemma_padded_len(n as nat);
    }
    assert(labels(copy@) =~= pad_to_pow2(texts(vec@)));
    copy
}

} // verus!
