use merkle_tree::hashing;
use merkle_tree::MerkleTree;

fn tree_of(items: &[&str]) -> MerkleTree {
    let transactions: Vec<String> = items.iter().map(|s| s.to_string()).collect();
    MerkleTree::new(transactions)
}

#[test]
fn digest_primitive_exact_values() {
    assert_eq!(hashing::hash_leaf("a"), "a");
    assert_eq!(hashing::hash_leaf(""), "");
    // one 'x' per character of the left operand, the 'g' marker, then both
    // operands in order
    assert_eq!(hashing::concat_and_hash("a", "b"), "xgab");
    assert_eq!(hashing::concat_and_hash("p1", "p2"), "xxgp1p2");
    assert_eq!(hashing::concat_and_hash("", "b"), "gb");
    assert_ne!(
        hashing::concat_and_hash("a", "b"),
        hashing::concat_and_hash("b", "a")
    );
}

#[test]
fn power_of_two_gate_accepts() {
    for n in [1usize, 2, 4, 8, 16] {
        let items: Vec<String> = (0..n).map(|i| format!("t{}", i)).collect();
        let tree = MerkleTree::new(items);
        assert_ne!(tree.get_root_hash(), "");
        // a proof has one entry per level above the leaves: log2(n)
        let expected_len = n.trailing_zeros() as usize;
        assert_eq!(tree.generate_proof("t0").len(), expected_len);
    }
}

#[test]
fn power_of_two_gate_rejects() {
    for n in [3usize, 5, 6, 7, 9, 12] {
        let items: Vec<String> = (0..n).map(|i| format!("t{}", i)).collect();
        let tree = MerkleTree::new(items);
        assert_eq!(tree.get_root_hash(), "");
        assert!(tree.generate_proof("t0").is_empty());
        assert!(!tree.verify_proof("t0", &vec!["junk".to_string()]));
    }
}

#[test]
fn empty_list_gives_empty_root() {
    let tree = MerkleTree::new(Vec::new());
    assert_eq!(tree.get_root_hash(), "");
    assert!(tree.generate_proof("a").is_empty());
    assert!(!tree.verify_proof("a", &Vec::new()));
}

#[test]
fn non_power_of_two_scenario() {
    let tree = tree_of(&["a", "b", "c"]);
    assert_eq!(tree.get_root_hash(), "");
}

#[test]
fn two_leaf_root_exact_value() {
    let tree = tree_of(&["a", "b"]);
    assert_eq!(tree.get_root_hash(), "xgab");
}

#[test]
fn root_determinism() {
    let t1 = tree_of(&["a", "b", "c", "d"]);
    let t2 = tree_of(&["a", "b", "c", "d"]);
    assert_eq!(t1.get_root_hash(), t2.get_root_hash());
}

#[test]
fn order_sensitivity() {
    let t1 = tree_of(&["a", "b"]);
    let t2 = tree_of(&["b", "a"]);
    assert_ne!(t1.get_root_hash(), t2.get_root_hash());
    let t3 = tree_of(&["a", "b", "c", "d"]);
    let t4 = tree_of(&["a", "b", "d", "c"]);
    assert_ne!(t3.get_root_hash(), t4.get_root_hash());
}

#[test]
fn proof_round_trip_all_leaves() {
    let items = ["p1", "p2", "p3", "p4", "p5", "p6", "p7", "p8"];
    let tree = tree_of(&items);
    for item in items {
        let proof = tree.generate_proof(item);
        assert_eq!(proof.len(), 3);
        assert!(tree.verify_proof(item, &proof));
    }
}

#[test]
fn eight_leaf_scenario() {
    let tree = tree_of(&["p1", "p2", "p3", "p4", "p5", "p6", "p7", "p8"]);
    let expected = hashing::concat_and_hash(
        &hashing::concat_and_hash(
            &hashing::concat_and_hash("p1", "p2"),
            &hashing::concat_and_hash("p3", "p4"),
        ),
        &hashing::concat_and_hash(
            &hashing::concat_and_hash("p5", "p6"),
            &hashing::concat_and_hash("p7", "p8"),
        ),
    );
    assert_eq!(tree.get_root_hash(), expected);
    let proof = tree.generate_proof("p3");
    assert_eq!(proof.len(), 3);
    assert!(tree.verify_proof("p3", &proof));
}

#[test]
fn tamper_detection_flipped_digest() {
    let tree = tree_of(&["p1", "p2", "p3", "p4"]);
    let proof = tree.generate_proof("p2");
    assert!(tree.verify_proof("p2", &proof));
    for position in 0..proof.len() {
        let mut tampered = proof.clone();
        let mut flipped: String = tampered[position].clone();
        let last = flipped.pop().unwrap();
        flipped.push(if last == 'x' { 'y' } else { 'x' });
        tampered[position] = flipped;
        assert!(!tree.verify_proof("p2", &tampered));
    }
}

#[test]
fn tamper_detection_substituted_sibling() {
    let tree = tree_of(&["p1", "p2", "p3", "p4"]);
    let proof_p2 = tree.generate_proof("p2");
    let proof_p4 = tree.generate_proof("p4");
    // replace the leaf-level sibling with a valid digest from elsewhere in
    // the tree
    let mut tampered = proof_p2.clone();
    tampered[0] = proof_p4[0].clone();
    assert!(!tree.verify_proof("p2", &tampered));
    // a proof for another leaf never verifies for this one
    assert!(!tree.verify_proof("p2", &proof_p4));
}

#[test]
fn absence_handling() {
    let tree = tree_of(&["p1", "p2", "p3", "p4"]);
    assert!(tree.generate_proof("not-present").is_empty());
    assert!(!tree.verify_proof("not-present", &Vec::new()));
    let valid = tree.generate_proof("p1");
    assert!(!tree.verify_proof("not-present", &valid));
}

#[test]
fn single_leaf_tree_rejects_empty_proof() {
    // a single-leaf tree has a root but its proofs are empty, and the
    // verifier rejects every empty proof
    let tree = tree_of(&["only"]);
    assert_ne!(tree.get_root_hash(), "");
    assert_eq!(tree.get_root_hash(), "only");
    let proof = tree.generate_proof("only");
    assert!(proof.is_empty());
    assert!(!tree.verify_proof("only", &proof));
}

#[test]
fn empty_proof_rejected_for_larger_tree() {
    let tree = tree_of(&["a", "b"]);
    assert!(!tree.verify_proof("a", &Vec::new()));
}
