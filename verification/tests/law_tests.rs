use merkle_tree::{extend_to_power2_size, is_power_of_2, MerkleTree, Merkle_Tree};
use sha256::digest;

fn blocks(n: usize) -> Vec<String> {
    (1..=n).map(|i| format!("block{}", i)).collect()
}

fn tree_over(data: &[String]) -> MerkleTree {
    MerkleTree::new(data.iter().map(|s| s.as_str()).collect())
}

#[test]
fn every_generated_proof_verifies() {
    for n in 1..=20 {
        let data = blocks(n);
        let tree = tree_over(&data);
        let len = tree.tree().len();
        for i in 0..len {
            let proof = tree.generate_proof(i).unwrap();
            assert_eq!(tree.verify(proof, i), Some(true), "n = {}, i = {}", n, i);
        }
    }
}

#[test]
fn every_fixed_tree_proof_verifies() {
    for n in [1usize, 2, 4, 8, 16, 32] {
        let data = blocks(n);
        let tree = Merkle_Tree::new(data.iter().map(|s| s.as_str()).collect());
        let len = tree.tree().len();
        assert_eq!(len, 2 * n - 1);
        for i in 0..len {
            let proof = tree.give_proof(i);
            assert!(tree.verify(proof, i), "n = {}, i = {}", n, i);
        }
    }
}

#[test]
fn add_node_gives_the_tree_of_the_longer_data() {
    for n in 1..=33 {
        let data = blocks(n + 1);
        let mut grown = tree_over(&data[..n]);
        grown.add_node(&data[n]);
        let direct = tree_over(&data);
        assert_eq!(grown.tree(), direct.tree(), "n = {}", n);
        assert_eq!(grown.last_data_index(), direct.last_data_index(), "n = {}", n);
    }
}

#[test]
fn add_node_returns_some() {
    let mut tree = MerkleTree::new(vec!["a"]);
    for s in ["b", "c", "d", "e"] {
        assert_eq!(tree.add_node(s), Some(()));
    }
    assert_eq!(*tree.tree(), *MerkleTree::new(vec!["a", "b", "c", "d", "e"]).tree());
}

#[test]
fn growing_from_8_to_9_blocks_keeps_the_last_data_index() {
    let data = blocks(9);
    let mut tree = tree_over(&data[..8]);
    tree.add_node(&data[8]);
    assert_eq!(tree.last_data_index(), 23);
    tree.add_node("ten");
    assert_eq!(tree.last_data_index(), 24);
    assert_eq!(tree.tree()[24], digest("ten"));
    assert_eq!(tree.tree()[30], digest("ten"));
    assert_eq!(tree.tree()[23], digest("block9"));
}

#[test]
fn inner_nodes_hash_their_children() {
    let data = blocks(11);
    let tree = tree_over(&data);
    let t = tree.tree();
    assert_eq!(t.len(), 31);
    for j in 0..15 {
        assert_eq!(t[j], digest(t[2 * j + 1].clone() + &t[2 * j + 2]));
    }
    for k in 0..16 {
        let block = if k < 11 { &data[k] } else { &data[10] };
        assert_eq!(t[15 + k], digest(block.as_str()));
    }
}

#[test]
fn single_block_tree_is_its_leaf() {
    let tree = MerkleTree::new(vec!["only"]);
    assert_eq!(*tree.tree(), vec![digest("only")]);
    assert_eq!(tree.last_data_index(), 0);
    assert_eq!(tree.generate_proof(0), Some(vec![]));
    assert_eq!(tree.verify(vec![], 0), Some(true));
    assert_eq!(tree.generate_proof(1), None);
}

#[test]
fn two_block_tree() {
    let tree = MerkleTree::new(vec!["x", "y"]);
    let root = digest(digest("x") + &digest("y"));
    assert_eq!(*tree.tree(), vec![root, digest("x"), digest("y")]);
    assert_eq!(tree.last_data_index(), 2);
    assert_eq!(tree.generate_proof(2), Some(vec![digest("x")]));
}

#[test]
fn proof_for_an_index_past_the_tree_is_none() {
    let tree = MerkleTree::new(vec!["1", "2", "3", "4"]);
    assert_eq!(tree.generate_proof(7), None);
    assert_eq!(tree.generate_proof(8), None);
    assert_eq!(tree.generate_proof(100), None);
    assert_eq!(tree.verify(vec![], 7), None);
    assert_eq!(tree.verify(vec!["x".to_string()], 100), None);
}

#[test]
fn verify_checks_the_order_of_concatenation() {
    let tree = MerkleTree::new(vec!["1", "2"]);
    // node 1 is a left child: its label comes first
    assert_eq!(tree.verify(vec![digest("2")], 1), Some(true));
    assert_eq!(tree.verify(vec![digest("1")], 2), Some(true));
    // the same labels at the wrong node do not reach the root
    assert_eq!(tree.verify(vec![digest("1")], 1), Some(false));
}

#[test]
fn root_is_not_the_data() {
    let tree = MerkleTree::new(vec!["1"]);
    assert_ne!(tree.tree()[0], "1");
    assert_eq!(
        tree.tree()[0],
        "6b86b273ff34fce19d6b804eff5a3f5747ada4eaa22f1d49c01e52ddb7875b4b"
    );
}

#[test]
fn extend_single_and_seventeen() {
    assert_eq!(extend_to_power2_size(&vec!["a"]), vec!["a"]);
    assert_eq!(extend_to_power2_size(&vec!["a", "b"]), vec!["a", "b"]);
    let v: Vec<String> = (0..17).map(|i| i.to_string()).collect();
    let refs: Vec<&str> = v.iter().map(|s| s.as_str()).collect();
    let out = extend_to_power2_size(&refs);
    assert_eq!(out.len(), 32);
    assert_eq!(out[..17], v[..]);
    assert!(out[17..].iter().all(|s| s == "16"));
}

#[test]
fn power_of_two_check() {
    assert!(is_power_of_2(1));
    assert!(is_power_of_2(2));
    assert!(!is_power_of_2(3));
    assert!(is_power_of_2(4));
    assert!(!is_power_of_2(6));
    assert!(is_power_of_2(1024));
    assert!(!is_power_of_2(1023));
    assert!(is_power_of_2(1usize << 40));
    assert!(!is_power_of_2(usize::MAX));
}

#[test]
fn fixed_tree_of_two_and_one() {
    let tree = Merkle_Tree::new(vec!["x", "y"]);
    assert_eq!(
        *tree.tree(),
        vec![digest(digest("x") + &digest("y")), digest("x"), digest("y")]
    );
    assert_eq!(tree.give_proof(1), vec![digest("y")]);
    let single = Merkle_Tree::new(vec!["z"]);
    assert_eq!(*single.tree(), vec![digest("z")]);
    assert_eq!(single.leaves(), 1);
    assert!(single.give_proof(0).is_empty());
}

#[test]
fn fixed_and_padded_trees_agree_on_powers_of_two() {
    for n in [1usize, 2, 4, 8, 16] {
        let data = blocks(n);
        let refs: Vec<&str> = data.iter().map(|s| s.as_str()).collect();
        let fixed = Merkle_Tree::new(refs.clone());
        let padded = MerkleTree::new(refs);
        assert_eq!(fixed.tree(), padded.tree());
    }
}

#[test]
fn over_long_proof_is_rejected() {
    let tree = MerkleTree::new(vec!["1", "2", "3", "4"]);
    let mut proof = tree.generate_proof(4).unwrap();
    proof.push(digest("extra"));
    assert_eq!(tree.verify(proof, 4), Some(false));
    assert_eq!(tree.verify(vec![digest("1")], 0), Some(false));

    let fixed = Merkle_Tree::new(vec!["1", "2", "3", "4"]);
    let mut proof = fixed.give_proof(5);
    proof.push(digest("extra"));
    assert!(!fixed.verify(proof, 5));
    assert!(!fixed.verify(vec![digest("1")], 0));
}

#[test]
fn last_data_index_names_each_added_block() {
    let mut tree = MerkleTree::new(vec!["a"]);
    for i in 0..40 {
        let block = format!("added{}", i);
        tree.add_node(&block);
        assert_eq!(tree.tree()[tree.last_data_index()], digest(block.as_str()), "i = {}", i);
    }
}
