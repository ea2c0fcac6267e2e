use vstd::prelude::*;

use crate::hash::hash_pair;

verus! {

/// The labels held by a vector of strings.
pub open spec fn labels(v: Seq<String>) -> Seq<Seq<char>> {
    v.map_values(|s: String| s@)
}

/// The texts held by a vector of string slices.
pub open spec fn texts(v: Seq<&str>) -> Seq<Seq<char>> {
    v.map_values(|s: &str| s@)
}

/// `n` is a power of two.
pub open spec fn is_pow2(n: nat) -> bool
    decreases n,
{
    if n == 1 {
        true
    } else if n == 0 || n % 2 == 1 {
        false
    } else {
        is_pow2(n / 2)
    }
}

/// Doubling `p` until it reaches `n`.
pub open spec fn pad_from(p: nat, n: nat) -> nat
    decreases (if p < n { n - p } else { 0 }),
{
    if p == 0 || p >= n {
        p
    } else {
        pad_from(2 * p, n)
    }
}

/// The smallest power of two that is at least `n`.
pub open spec fn padded_len(n: nat) -> nat {
    pad_from(1, n)
}

/// A sequence extended to `padded_len` of its length by repeating its last item.
pub open spec fn pad_to_pow2<T>(s: Seq<T>) -> Seq<T> {
    s + Seq::new((padded_len(s.len()) - s.len()) as nat, |i: int| s.last())
}

/// Of two powers of two, the smaller one is at most half of the larger.
pub proof fn lemma_pow2_gap(p: nat, q: nat)
    requires
        is_pow2(p),
        is_pow2(q),
        p < q,
    ensures
        2 * p <= q,
    decreases q,
{
    if p != 1 {
        lemma_pow2_gap(p / 2, q / 2);
    }
}

/// What `pad_from` gives for a power of two `p` at most `n`.
pub proof fn lemma_pad_from(p: nat, n: nat)
    requires
        is_pow2(p),
        p < 2 * n,
    ensures
        is_pow2(pad_from(p, n)),
        n <= pad_from(p, n) < 2 * n,
        pad_from(p, n) >= p,
    decreases (if p < n { n - p } else { 0 }),
{
    if p < n {
        assert(is_pow2(2 * p)) by {
            assert((2 * p) / 2 == p);
        }
        lemma_pad_from(2 * p, n);
    }
}

/// `padded_len(n)` is a power of two in `[n, 2 * n)`.
pub proof fn lemma_padded_len(n: nat)
    requires
        n >= 1,
    ensures
        is_pow2(padded_len(n)),
        n <= padded_len(n) < 2 * n,
{
    lemma_pad_from(1, n);
}

/// A power of two `q` in `[n, 2 * n)` is `padded_len(n)`.
pub proof fn lemma_padded_len_unique(n: nat, q: nat)
    requires
        is_pow2(q),
        n <= q < 2 * n,
    ensures
        padded_len(n) == q,
{
    lemma_pad_from_reaches(1, n, q);
}

proof fn lemma_pad_from_reaches(p: nat, n: nat, q: nat)
    requires
        is_pow2(p),
        is_pow2(q),
        p <= q,
        n <= q < 2 * n,
    ensures
        pad_from(p, n) == q,
    decreases q - p,
{
    if p >= n {
        if p < q {
            lemma_pow2_gap(p, q);
        }
    } else {
        lemma_pow2_gap(p, q);
        assert(is_pow2(2 * p)) by {
            assert((2 * p) / 2 == p);
        }
        lemma_pad_from_reaches(2 * p, n, q);
    }
}

/// The parent of node `i > 0`.
pub open spec fn parent(i: nat) -> nat {
    ((i - 1) / 2) as nat
}

/// The other child of the parent of node `i > 0`.
pub open spec fn sibling(i: nat) -> nat {
    if i % 2 == 1 {
        i + 1
    } else {
        (i - 1) as nat
    }
}

/// The number of steps from node `i` up to the root.
pub open spec fn depth(i: nat) -> nat
    decreases i,
{
    if i == 0 {
        0
    } else {
        1 + depth(parent(i))
    }
}

/// Node `anc` lies strictly above node `i` on its path to the root.
pub open spec fn is_ancestor(anc: nat, i: nat) -> bool
    decreases i,
{
    i > 0 && (parent(i) == anc || is_ancestor(anc, parent(i)))
}

/// One step up: the label of the parent of node `i`, computed from the label of
/// `i` and that of its sibling. An odd node is a left child.
pub open spec fn climb_step(label: Seq<char>, sibling_label: Seq<char>, i: nat) -> Seq<char> {
    if i % 2 == 1 {
        hash_pair(label, sibling_label)
    } else {
        hash_pair(sibling_label, label)
    }
}

/// The label reached from node `i` labelled `label` by climbing one level per
/// sibling label in `proof`.
pub open spec fn climb(label: Seq<char>, proof: Seq<Seq<char>>, i: nat) -> Seq<char>
    decreases proof.len(),
{
    if proof.len() == 0 {
        label
    } else {
        climb(climb_step(label, proof[0], i), proof.drop_first(), parent(i))
    }
}

/// The labels of the siblings of node `i` and of its ancestors, from the bottom up.
pub open spec fn path_proof(nodes: Seq<Seq<char>>, i: nat) -> Seq<Seq<char>>
    decreases i,
{
    if i == 0 {
        Seq::empty()
    } else {
        seq![nodes[sibling(i) as int]] + path_proof(nodes, parent(i))
    }
}

/// Inner node `j` is labelled with the hash of its children's labels.
pub open spec fn hashes_children(nodes: Seq<Seq<char>>, j: int) -> bool {
    nodes[j] == hash_pair(nodes[2 * j + 1], nodes[2 * j + 2])
}

/// `nodes` is a Merkle tree with `leaf_count` leaves: the last `leaf_count`
/// entries are the leaves, and every other node hashes its two children.
pub open spec fn is_hash_tree(nodes: Seq<Seq<char>>, leaf_count: nat) -> bool {
    &&& leaf_count >= 1
    &&& nodes.len() == 2 * leaf_count - 1
    &&& forall|j: int| 0 <= j < leaf_count - 1 ==> #[trigger] hashes_children(nodes, j)
}

/// The leaves of a tree with `leaf_count` leaves.
pub open spec fn leaves_of(nodes: Seq<Seq<char>>, leaf_count: nat) -> Seq<Seq<char>> {
    nodes.subrange(leaf_count - 1, 2 * leaf_count - 1)
}

/// The label of node `j` in the Merkle tree over `leaves`.
pub open spec fn node_label(leaves: Seq<Seq<char>>, j: nat) -> Seq<char>
    decreases 2 * leaves.len() - j,
{
    if j + 1 >= leaves.len() {
        leaves[j - (leaves.len() - 1)]
    } else {
        hash_pair(node_label(leaves, 2 * j + 1), node_label(leaves, 2 * j + 2))
    }
}

/// The Merkle tree over `leaves`, root first.
pub open spec fn build_tree(leaves: Seq<Seq<char>>) -> Seq<Seq<char>> {
    Seq::new((2 * leaves.len() - 1) as nat, |j: int| node_label(leaves, j as nat))
}

/// The leaves of the tree over the padded data: the digests of its blocks.
pub open spec fn leaf_hashes(blocks: Seq<Seq<char>>) -> Seq<Seq<char>> {
    blocks.map_values(|b: Seq<char>| crate::hash::sha256_hex(b))
}

/// A tree is fixed by its leaves: a Merkle tree is the tree built over them.
pub proof fn lemma_hash_tree_unique(nodes: Seq<Seq<char>>, leaf_count: nat)
    requires
        is_hash_tree(nodes, leaf_count),
    ensures
        nodes == build_tree(leaves_of(nodes, leaf_count)),
{
    let leaves = leaves_of(nodes, leaf_count);
    assert forall|j: int| 0 <= j < nodes.len() implies nodes[j] == node_label(leaves, j as nat) by {
        lemma_node_label(nodes, leaf_count, j as nat);
    }
    assert(nodes =~= build_tree(leaves));
}

proof fn lemma_node_label(nodes: Seq<Seq<char>>, leaf_count: nat, j: nat)
    requires
        is_hash_tree(nodes, leaf_count),
        j < nodes.len(),
    ensures
        nodes[j as int] == node_label(leaves_of(nodes, leaf_count), j),
    decreases 2 * leaf_count - j,
{
    if j + 1 < leaf_count {
        lemma_node_label(nodes, leaf_count, 2 * j + 1);
        lemma_node_label(nodes, leaf_count, 2 * j + 2);
        assert(hashes_children(nodes, j as int));
    }
}

/// The tree built over `leaves` is a Merkle tree with those leaves.
pub proof fn lemma_build_tree(leaves: Seq<Seq<char>>)
    requires
        leaves.len() >= 1,
    ensures
        is_hash_tree(build_tree(leaves), leaves.len()),
        leaves_of(build_tree(leaves), leaves.len()) == leaves,
{
    let t = build_tree(leaves);
    assert forall|j: int| 0 <= j < leaves.len() - 1 implies #[trigger] hashes_children(t, j) by {}
    assert(leaves_of(t, leaves.len()) =~= leaves);
}

/// Completeness: climbing from node `i` of a Merkle tree with the labels of
/// the siblings along its path reaches the root, one step per level.
pub proof fn lemma_path_proof_reaches_root(nodes: Seq<Seq<char>>, leaf_count: nat, i: nat)
    requires
        is_hash_tree(nodes, leaf_count),
        i < nodes.len(),
    ensures
        path_proof(nodes, i).len() == depth(i),
        climb(nodes[i as int], path_proof(nodes, i), i) == nodes[0],
    decreases i,
{
    if i > 0 {
        let p = parent(i);
        lemma_path_proof_reaches_root(nodes, leaf_count, p);
        assert(hashes_children(nodes, p as int));
        let proof = path_proof(nodes, i);
        assert(proof.drop_first() =~= path_proof(nodes, p));
        assert(climb_step(nodes[i as int], proof[0], i) == nodes[p as int]);
    }
}

/// Node 2 is an ancestor of every leaf in the right half of a tree with
/// `leaf_count` leaves (or is that leaf).
pub proof fn lemma_right_half_under_node_2(leaf_count: nat, j: nat)
    requires
        is_pow2(leaf_count),
        leaf_count >= 2,
        leaf_count - 1 + leaf_count / 2 <= j < 2 * leaf_count - 1,
    ensures
        j == 2 || is_ancestor(2, j),
    decreases leaf_count,
{
    if leaf_count > 2 {
        let a = leaf_count / 2;
        assert(is_pow2(a));
        assert(a >= 2);
        assert(a % 2 == 0);
        let p = parent(j);
        assert(a - 1 + a / 2 <= p < 2 * a - 1);
        lemma_right_half_under_node_2(a, p);
    }
}

/// The label of the root of a full subtree of height `height` whose leaves
/// are all labelled `label`.
pub open spec fn fill_label(label: Seq<char>, height: nat) -> Seq<char>
    decreases height,
{
    if height == 0 {
        label
    } else {
        hash_pair(fill_label(label, (height - 1) as nat), fill_label(label, (height - 1) as nat))
    }
}

} // verus!
