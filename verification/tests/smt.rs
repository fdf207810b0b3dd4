use std::collections::BTreeSet;

use vanargand::codec::{Decode, Encode};
use vanargand::hash::Digest;
use vanargand::smt::{combine, leaf_hash, SmtLeaf, SmtProof, SparseMerkleTree, DEPTH};

fn key(byte: u8) -> Digest {
    let mut bytes = [0_u8; 32];
    bytes[0] = byte;
    bytes[31] = byte.wrapping_mul(7);
    Digest::from_bytes(bytes)
}

fn value(byte: u8) -> Digest {
    Digest::from_bytes([byte; 32])
}

#[test]
fn an_empty_tree_has_the_zero_root() {
    assert_eq!(SparseMerkleTree::new().root(), Digest::zero());
    assert!(SparseMerkleTree::new().is_empty());
}

#[test]
fn empty_subtrees_cost_nothing() {
    assert_eq!(combine(&Digest::zero(), &Digest::zero()), Digest::zero());
    assert_ne!(combine(&Digest::zero(), &value(1)), Digest::zero());
    assert_ne!(combine(&value(1), &Digest::zero()), Digest::zero());
    assert_ne!(combine(&Digest::zero(), &value(1)), combine(&value(1), &Digest::zero()));
}

#[test]
fn a_leaf_is_not_an_internal_node() {
    let left = value(1);
    let right = value(2);
    assert_ne!(leaf_hash(&left, &right), combine(&left, &right));
}

#[test]
fn the_root_changes_with_every_change() {
    let mut tree = SparseMerkleTree::new();
    let mut roots = BTreeSet::new();
    roots.insert(tree.root());

    for byte in 0..16_u8 {
        tree.insert(key(byte), value(byte));
        assert!(roots.insert(tree.root()), "root repeated after inserting key {byte}");
    }
    tree.insert(key(0), value(200));
    assert!(roots.insert(tree.root()));
    tree.insert(key(0), value(0));
    tree.remove(&key(15));
    let expected = {
        let mut rebuilt = SparseMerkleTree::new();
        for byte in 0..15_u8 {
            rebuilt.insert(key(byte), value(byte));
        }
        rebuilt.root()
    };
    assert_eq!(tree.root(), expected, "removal did not restore the earlier root");
}

#[test]
fn insertion_order_does_not_affect_the_root() {
    let mut forwards = SparseMerkleTree::new();
    for byte in 0..20_u8 {
        forwards.insert(key(byte), value(byte));
    }
    let mut backwards = SparseMerkleTree::new();
    for byte in (0..20_u8).rev() {
        backwards.insert(key(byte), value(byte));
    }
    assert_eq!(forwards.root(), backwards.root());
}

#[test]
fn a_present_key_proves_its_value() {
    let mut tree = SparseMerkleTree::new();
    for byte in 0..25_u8 {
        tree.insert(key(byte), value(byte));
    }
    let root = tree.root();
    for byte in 0..25_u8 {
        let proof = tree.prove(&key(byte));
        assert!(proof.verify(&root, &key(byte), Some(&value(byte))), "inclusion proof failed for key {byte}");
    }
}

#[test]
fn a_present_key_cannot_be_proved_to_hold_another_value() {
    let mut tree = SparseMerkleTree::new();
    for byte in 0..10_u8 {
        tree.insert(key(byte), value(byte));
    }
    let root = tree.root();
    let proof = tree.prove(&key(3));
    assert!(!proof.verify(&root, &key(3), Some(&value(4))));
    assert!(!proof.verify(&root, &key(3), None), "a present key proved absent");
}

#[test]
fn an_absent_key_proves_its_absence() {
    let mut tree = SparseMerkleTree::new();
    for byte in 0..25_u8 {
        tree.insert(key(byte), value(byte));
    }
    let root = tree.root();
    for byte in 25..60_u8 {
        let proof = tree.prove(&key(byte));
        assert!(proof.verify(&root, &key(byte), None), "non-inclusion proof failed for absent key {byte}");
        assert!(!proof.verify(&root, &key(byte), Some(&value(byte))), "an absent key proved present");
    }
}

#[test]
fn absence_in_an_empty_tree_is_provable() {
    let tree = SparseMerkleTree::new();
    let proof = tree.prove(&key(1));
    assert_eq!(proof.siblings.len(), 0);
    assert_eq!(proof.terminal, None);
    assert!(proof.verify(&Digest::zero(), &key(1), None));
}

#[test]
fn absence_in_a_single_entry_tree_is_provable() {
    let mut tree = SparseMerkleTree::new();
    tree.insert(key(1), value(1));
    let root = tree.root();
    let proof = tree.prove(&key(2));
    assert_eq!(proof.terminal, Some(SmtLeaf { key: key(1), value: value(1) }));
    assert!(proof.verify(&root, &key(2), None));
    assert!(proof.verify(&root, &key(1), Some(&value(1))));
}

#[test]
fn a_stolen_leaf_cannot_prove_absence() {
    let mut tree = SparseMerkleTree::new();
    for byte in 0..30_u8 {
        tree.insert(key(byte), value(byte));
    }
    let root = tree.root();
    let target = key(7);
    let honest = tree.prove(&target);
    let elsewhere = tree.prove(&key(20));
    let forged = SmtProof { siblings: honest.siblings.clone(), terminal: elsewhere.terminal };
    assert!(!forged.verify(&root, &target, None), "a leaf from elsewhere in the tree proved a populated key absent");
}

#[test]
fn a_proof_does_not_verify_against_another_root() {
    let mut tree = SparseMerkleTree::new();
    for byte in 0..8_u8 {
        tree.insert(key(byte), value(byte));
    }
    let proof = tree.prove(&key(3));
    let root = tree.root();
    tree.insert(key(100), value(100));
    assert!(proof.verify(&root, &key(3), Some(&value(3))));
    assert!(!proof.verify(&tree.root(), &key(3), Some(&value(3))));
}

#[test]
fn tampering_with_any_sibling_breaks_the_proof() {
    let mut tree = SparseMerkleTree::new();
    for byte in 0..30_u8 {
        tree.insert(key(byte), value(byte));
    }
    let root = tree.root();
    let proof = tree.prove(&key(11));
    assert!(!proof.siblings.is_empty(), "the test needs a proof with siblings");
    for index in 0..proof.siblings.len() {
        let mut tampered = proof.clone();
        if let Some(sibling) = tampered.siblings.get_mut(index) {
            let mut bytes = *sibling.as_bytes();
            bytes[0] ^= 0x01;
            *sibling = Digest::from_bytes(bytes);
        }
        assert!(!tampered.verify(&root, &key(11), Some(&value(11))), "flipping sibling {index} still verified");
    }
}

#[test]
fn a_truncated_proof_does_not_verify() {
    let mut tree = SparseMerkleTree::new();
    for byte in 0..30_u8 {
        tree.insert(key(byte), value(byte));
    }
    let root = tree.root();
    let proof = tree.prove(&key(5));
    for cut in 0..proof.siblings.len() {
        let shortened = SmtProof { siblings: proof.siblings.get(..cut).unwrap_or(&[]).to_vec(), terminal: proof.terminal };
        assert!(!shortened.verify(&root, &key(5), Some(&value(5))), "a proof truncated to {cut} siblings verified");
    }
}

#[test]
fn an_empty_terminal_cannot_prove_presence() {
    let proof = SmtProof { siblings: vec![], terminal: None };
    assert_eq!(proof.compute_root(&key(1), Some(&value(1))), None);
}

#[test]
fn proofs_round_trip_through_the_codec() {
    let mut tree = SparseMerkleTree::new();
    for byte in 0..12_u8 {
        tree.insert(key(byte), value(byte));
    }
    for probe in [key(3), key(200)] {
        let proof = tree.prove(&probe);
        let bytes = proof.to_canonical_bytes();
        assert_eq!(SmtProof::from_canonical_bytes(&bytes), Ok(proof));
    }
}

#[test]
fn an_over_deep_proof_is_rejected_by_the_decoder() {
    let proof = SmtProof { siblings: vec![Digest::zero(); DEPTH + 1], terminal: None };
    let bytes = proof.to_canonical_bytes();
    assert!(SmtProof::from_canonical_bytes(&bytes).is_err());
}

#[test]
fn keys_that_diverge_only_in_their_last_bit_still_work() {
    let mut first = [0_u8; 32];
    let mut second = [0_u8; 32];
    second[31] = 1;
    let (a, b) = (Digest::from_bytes(first), Digest::from_bytes(second));
    first[31] = 2;
    let c = Digest::from_bytes(first);

    let mut tree = SparseMerkleTree::new();
    tree.insert(a, value(1));
    tree.insert(b, value(2));
    let root = tree.root();

    assert!(tree.prove(&a).verify(&root, &a, Some(&value(1))));
    assert!(tree.prove(&b).verify(&root, &b, Some(&value(2))));
    assert!(tree.prove(&c).verify(&root, &c, None));
    assert_eq!(tree.prove(&a).siblings.len(), 256);
    assert_eq!(tree.prove(&c).siblings.len(), 255);
}

#[test]
fn the_tree_reads_back_what_was_written() {
    let mut tree = SparseMerkleTree::new();
    tree.insert(key(2), value(2));
    tree.insert(key(1), value(1));
    assert_eq!(tree.get(&key(1)), Some(value(1)));
    assert_eq!(tree.get(&key(3)), None);
    assert_eq!(tree.len(), 2);
    assert_eq!(tree.iter(), vec![(key(1), value(1)), (key(2), value(2))]);
    assert_eq!(tree.remove(&key(1)), Some(value(1)));
    assert_eq!(tree.remove(&key(1)), None);
    assert_eq!(tree.len(), 1);
}

#[test]
fn a_one_entry_tree_has_the_entry_leaf_as_its_root() {
    let mut tree = SparseMerkleTree::new();
    tree.insert(key(9), value(9));
    assert_eq!(tree.root(), leaf_hash(&key(9), &value(9)));
    let mut material = key(9).as_bytes().to_vec();
    material.extend_from_slice(value(9).as_bytes());
    assert_eq!(leaf_hash(&key(9), &value(9)).as_bytes(), &blake3::derive_key("vanargand v1 smt leaf", &material));
}
