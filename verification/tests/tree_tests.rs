use merkle_tree::{extend_to_power2_size, MerkleTree};
use sha256::digest;

fn merkle_tree_4_leaves_setup() -> MerkleTree {
    let vector = vec!["1", "2", "3", "4"];
    MerkleTree::new(vector)
}

fn merkle_tree_5_data_8_leaves_setup() -> MerkleTree {
    let vector = vec!["1", "2", "3", "4", "5"];
    MerkleTree::new(vector)
}

fn merkle_tree_8_leaves_setup() -> MerkleTree {
    let vector = vec!["1", "2", "3", "4", "5", "6", "7", "8"];
    MerkleTree::new(vector)
}

#[test]
fn merkle_tree_new_merkle_tree_of_4_leaves() {
    let merkle_tree = merkle_tree_4_leaves_setup();

    let hash1 = digest("1"); //idx 3
    let hash2 = digest("2"); //idx 4
    let hash3 = digest("3"); //idx 5
    let hash4 = digest("4"); //idx 6

    let hash_leaves = vec![hash1, hash2, hash3, hash4];
    assert_eq!(merkle_tree.last_data_index(), 6);
    assert_eq!(merkle_tree.tree()[3..], hash_leaves);
}

#[test]
fn merkle_tree_new_merkle_tree_of_8_leaves() {
    let merkle_tree = merkle_tree_8_leaves_setup();

    let hash1 = digest("1"); //idx 7
    let hash2 = digest("2"); //idx 8
    let hash3 = digest("3"); //idx 9
    let hash4 = digest("4"); //idx 10

    let hash5 = digest("5"); //idx 11
    let hash6 = digest("6"); //idx 12
    let hash7 = digest("7"); //idx 13
    let hash8 = digest("8"); //idx 14

    let hash12 = digest(hash1.clone() + &hash2);
    let hash34 = digest(hash3.clone() + &hash4);
    let hash56 = digest(hash5.clone() + &hash6);
    let hash78 = digest(hash7.clone() + &hash8);

    let hash1234 = digest(hash12.clone() + &hash34);
    let hash5678 = digest(hash56.clone() + &hash78);

    let root = digest(hash1234.clone() + &hash5678);

    let tree = vec![
        root, hash1234, hash5678, hash12, hash34, hash56, hash78, hash1, hash2, hash3, hash4,
        hash5, hash6, hash7, hash8,
    ];
    assert_eq!(merkle_tree.last_data_index(), 14);
    assert_eq!(*merkle_tree.tree(), tree);
}

#[test]
fn new_merkle_tree_of_5_data_8_leaves() {
    let merkle_tree = merkle_tree_5_data_8_leaves_setup();

    let hash1 = digest("1"); //idx 7
    let hash2 = digest("2"); //idx 8
    let hash3 = digest("3"); //idx 9
    let hash4 = digest("4"); //idx 10

    let hash5 = digest("5"); //idx 11..14

    let hash12 = digest(hash1.clone() + &hash2);
    let hash34 = digest(hash3.clone() + &hash4);
    let hash55 = digest(hash5.clone() + &hash5);

    let hash1234 = digest(hash12.clone() + &hash34);
    let hash5555 = digest(hash55.clone() + &hash55);

    let root = digest(hash1234.clone() + &hash5555);

    let tree = vec![
        root,
        hash1234,
        hash5555,
        hash12,
        hash34,
        hash55.clone(),
        hash55.clone(),
        hash1,
        hash2,
        hash3,
        hash4,
        hash5.clone(),
        hash5.clone(),
        hash5.clone(),
        hash5.clone(),
    ];
    assert_eq!(merkle_tree.last_data_index(), 11);
    assert_eq!(*merkle_tree.tree(), tree);
}

#[test]
fn merkle_tree_verify_correct_proof_with_even_leaf_index() {
    let merkle_tree = merkle_tree_4_leaves_setup();

    let hash1 = digest("1"); //idx 3
    let hash3 = digest("3"); //idx 5
    let hash4 = digest("4"); //idx 6

    let hash34 = digest(hash3 + &hash4);
    let proof: Vec<String> = vec![hash1, hash34];
    assert!(merkle_tree.verify(proof, 4).unwrap());
}

#[test]
fn merkle_tree_verify_correct_proof_with_odd_leaf_index() {
    let merkle_tree = merkle_tree_4_leaves_setup();

    let hash1 = digest("1"); //idx 3
    let hash2 = digest("2"); //idx 4
    let hash4 = digest("4"); //idx 6

    let hash12 = digest(hash1 + &hash2);
    let proof: Vec<String> = vec![hash4, hash12];
    assert!(merkle_tree.verify(proof, 5).unwrap());
}

#[test]
fn merkle_tree_verify_incorrect_proof() {
    let merkle_tree = merkle_tree_4_leaves_setup();

    let hash1 = digest("1"); //idx 3
    let hash4 = digest("4"); //idx 6

    let proof: Vec<String> = vec![hash4, hash1];
    assert!(!merkle_tree.verify(proof, 5).unwrap());
}

#[test]
fn merkle_tree_verify_incorrect_proof_with_noise() {
    let merkle_tree = merkle_tree_4_leaves_setup();

    let hash1 = digest("1"); //idx 3
    let hash3 = digest("3"); //idx 5
    let hash4 = digest("4"); //idx 6

    let hash34 = digest(hash3 + &hash4) + &"RUIDO";
    let proof: Vec<String> = vec![hash1, hash34];
    assert!(!merkle_tree.verify(proof, 4).unwrap());
}

#[test]
fn merkle_tree_verify_with_odd_leaf_index_8leaves_tree() {
    let merkle_tree = merkle_tree_8_leaves_setup();

    let hash1 = digest("1"); //idx 7
    let hash2 = digest("2"); //idx 8
    let hash3 = digest("3"); //idx 9
    let hash4 = digest("4"); //idx 10

    let hash12 = digest(hash1 + &hash2);
    let hash34 = digest(hash3 + &hash4);

    let hash1234 = digest(hash12 + &hash34);

    let hash6 = digest("6"); //idx 12

    let hash7 = digest("7"); //idx 13
    let hash8 = digest("8"); //idx 14

    let hash78 = digest(hash7 + &hash8);

    let proof: Vec<String> = vec![hash6, hash78, hash1234];
    assert!(merkle_tree.verify(proof, 11).unwrap());
}

#[test]
fn verify_with_odd_leaf_tree_of_5_data_8_leaves() {
    let merkle_tree = merkle_tree_5_data_8_leaves_setup();

    let hash1 = digest("1"); //idx 7
    let hash2 = digest("2"); //idx 8
    let hash3 = digest("3"); //idx 9
    let hash4 = digest("4"); //idx 10

    let hash5 = digest("5"); //idx 11..14

    let hash12 = digest(hash1.clone() + &hash2);
    let hash34 = digest(hash3.clone() + &hash4);
    let hash55 = digest(hash5.clone() + &hash5);

    let hash1234 = digest(hash12.clone() + &hash34);

    let proof = vec![hash5, hash55, hash1234];
    assert!(merkle_tree.verify(proof, 11).unwrap());
}

#[test]
fn generate_proof_with_even_leaf_index() {
    let merkle_tree = merkle_tree_4_leaves_setup();

    let hash1 = digest("1"); //idx 3
    let hash3 = digest("3"); //idx 5
    let hash4 = digest("4"); //idx 6

    let hash34 = digest(hash3 + &hash4);
    let proof: Vec<String> = vec![hash1, hash34];
    assert_eq!(merkle_tree.generate_proof(4).unwrap(), proof);
}

#[test]
fn generate_proof_with_odd_leaf_index() {
    let merkle_tree = merkle_tree_4_leaves_setup();

    let hash1 = digest("1"); //idx 3
    let hash2 = digest("2"); //idx 4
    let hash4 = digest("4"); //idx 6

    let hash12 = digest(hash1 + &hash2);
    let proof: Vec<String> = vec![hash4, hash12];
    assert_eq!(merkle_tree.generate_proof(5).unwrap(), proof);
}

#[test]
fn generate_proof_with_odd_leaf_index_8leaves_tree() {
    let merkle_tree = merkle_tree_8_leaves_setup();

    let hash1 = digest("1"); //idx 7
    let hash2 = digest("2"); //idx 8
    let hash3 = digest("3"); //idx 9
    let hash4 = digest("4"); //idx 10

    let hash12 = digest(hash1 + &hash2);
    let hash34 = digest(hash3 + &hash4);

    let hash1234 = digest(hash12 + &hash34);

    let hash6 = digest("6"); //idx 12

    let hash7 = digest("7"); //idx 13
    let hash8 = digest("8"); //idx 14

    let hash78 = digest(hash7 + &hash8);

    let proof: Vec<String> = vec![hash6, hash78, hash1234];
    assert_eq!(merkle_tree.generate_proof(11).unwrap(), proof);
}

#[test]
fn generate_proof_with_odd_leaf_tree_of_5_data_8_leaves() {
    let merkle_tree = merkle_tree_5_data_8_leaves_setup();

    let hash1 = digest("1"); //idx 7
    let hash2 = digest("2"); //idx 8
    let hash3 = digest("3"); //idx 9
    let hash4 = digest("4"); //idx 10

    let hash5 = digest("5"); //idx 11..14

    let hash12 = digest(hash1.clone() + &hash2);
    let hash34 = digest(hash3.clone() + &hash4);
    let hash55 = digest(hash5.clone() + &hash5);

    let hash1234 = digest(hash12.clone() + &hash34);

    let proof = vec![hash5, hash55, hash1234];
    assert_eq!(merkle_tree.generate_proof(11).unwrap(), proof);
}

#[test]
fn test_extend_to_power2_size() {
    let vector = vec!["1", "2", "3", "4"];
    let vector_extended = extend_to_power2_size(&vector);
    assert_eq!(vector_extended, vec!["1", "2", "3", "4"]);

    let vector = vec!["1", "2", "3"];
    let vector_extended = extend_to_power2_size(&vector);
    assert_eq!(vector_extended, vec!["1", "2", "3", "3"]);

    let vector = vec!["1", "2", "3", "4", "5"];
    let vector_extended = extend_to_power2_size(&vector);
    assert_eq!(
        vector_extended,
        vec!["1", "2", "3", "4", "5", "5", "5", "5"]
    );
}

#[test]
fn add_node_and_verify_proof_with_odd_leaf_tree_of_5_data_8_leaves() {
    let mut merkle_tree = merkle_tree_4_leaves_setup();
    merkle_tree.add_node("5");
    let hash1 = digest("1"); //idx 7
    let hash2 = digest("2"); //idx 8
    let hash3 = digest("3"); //idx 9
    let hash4 = digest("4"); //idx 10

    let hash5 = digest("5"); //idx 11..14

    let hash12 = digest(hash1.clone() + &hash2);
    let hash34 = digest(hash3.clone() + &hash4);
    let hash55 = digest(hash5.clone() + &hash5);

    let hash1234 = digest(hash12.clone() + &hash34);

    let proof = vec![hash5, hash55, hash1234];
    assert!(merkle_tree.verify(proof, 11).unwrap());
}

#[test]
fn add_node_and_verify_proof_with_even_leaf_tree_of_6_data_8_leaves() {
    let mut merkle_tree = merkle_tree_4_leaves_setup();
    merkle_tree.add_node("5");
    merkle_tree.add_node("6");
    let hash1 = digest("1"); //idx 7
    let hash2 = digest("2"); //idx 8
    let hash3 = digest("3"); //idx 9
    let hash4 = digest("4"); //idx 10

    let hash5 = digest("5"); //idx 11
    let hash6 = digest("6"); //idx 12..14

    let hash12 = digest(hash1.clone() + &hash2);
    let hash34 = digest(hash3.clone() + &hash4);
    let hash66 = digest(hash6.clone() + &hash6);

    let hash1234 = digest(hash12.clone() + &hash34);

    let proof = vec![hash5, hash66, hash1234];
    assert!(merkle_tree.verify(proof, 12).unwrap());
}
