use std::collections::BTreeSet;

use vanargand::hash::Digest;
use vanargand::merkle::{leaf_hash, list_proof, list_root, node_hash, root_from_proof, ProofStep};

fn leaves(count: usize) -> Vec<Digest> {
    (0..count).map(|index| Digest::from_bytes([u8::try_from(index).unwrap_or(0); 32])).collect()
}

#[test]
fn an_empty_list_has_the_zero_root() {
    assert_eq!(list_root(&[]), Digest::zero());
}

#[test]
fn a_single_leaf_root_is_its_leaf_hash_not_the_leaf() {
    let one = leaves(1);
    assert_ne!(list_root(&one), one.first().copied().unwrap_or(Digest::zero()));
    assert_eq!(list_root(&one), leaf_hash(&one[0]));
}

#[test]
fn the_odd_node_is_promoted_and_not_duplicated() {
    let three = leaves(3);
    let mut duplicated = three.clone();
    duplicated.push(three[2]);
    assert_ne!(
        list_root(&three),
        list_root(&duplicated),
        "[a,b,c] and [a,b,c,c] collide; the odd node is being duplicated"
    );
}

#[test]
fn distinct_lists_have_distinct_roots() {
    let mut roots = BTreeSet::new();
    for count in 0..12 {
        assert!(roots.insert(list_root(&leaves(count))), "collision at {count} leaves");
    }
    let forwards = leaves(4);
    let mut backwards = forwards.clone();
    backwards.reverse();
    assert_ne!(list_root(&forwards), list_root(&backwards));
}

#[test]
fn a_three_leaf_root_is_what_the_rule_says_it_is() {
    let items = leaves(3);
    let l0 = leaf_hash(&items[0]);
    let l1 = leaf_hash(&items[1]);
    let l2 = leaf_hash(&items[2]);
    let n01 = node_hash(&l0, &l1);
    let expected = node_hash(&n01, &l2);
    assert_eq!(list_root(&items), expected);
}

#[test]
fn every_leaf_proves_its_own_inclusion() {
    for count in 1..20 {
        let items = leaves(count);
        let root = list_root(&items);
        for index in 0..count {
            let proof = list_proof(&items, index).expect("index in range");
            assert_eq!(
                root_from_proof(&items[index], &proof),
                root,
                "proof failed for leaf {index} of {count}"
            );
        }
    }
}

#[test]
fn a_proof_does_not_verify_for_another_leaf() {
    let items = leaves(7);
    let root = list_root(&items);
    let proof = list_proof(&items, 3).expect("index in range");
    for index in 0..items.len() {
        let computed = root_from_proof(&items[index], &proof);
        if index == 3 {
            assert_eq!(computed, root);
        } else {
            assert_ne!(computed, root, "leaf {index} verified against leaf 3's proof");
        }
    }
}

#[test]
fn a_tampered_proof_does_not_verify() {
    let items = leaves(5);
    let root = list_root(&items);
    let proof = list_proof(&items, 1).expect("index in range");

    for position in 0..proof.steps.len() {
        let mut tampered = proof.clone();
        if let Some(step) = tampered.steps.get_mut(position) {
            *step = match *step {
                ProofStep::Left(hash) => ProofStep::Right(hash),
                ProofStep::Right(hash) => ProofStep::Left(hash),
                ProofStep::Promoted => ProofStep::Right(Digest::zero()),
            };
        }
        assert_ne!(
            root_from_proof(&items[1], &tampered),
            root,
            "swapping step {position} still verified"
        );
    }
}

#[test]
fn an_out_of_range_index_has_no_proof() {
    assert!(list_proof(&leaves(3), 3).is_none());
    assert!(list_proof(&[], 0).is_none());
}

#[test]
fn promotion_appears_in_proofs_for_odd_levels() {
    let proof = list_proof(&leaves(3), 2).expect("index in range");
    assert_eq!(proof.steps.first(), Some(&ProofStep::Promoted));
}

#[test]
fn leaves_and_nodes_hash_under_their_own_domains() {
    let leaf = Digest::from_bytes([9; 32]);
    let expected = blake3::derive_key("vanargand v1 smt leaf", &[9; 32]);
    assert_eq!(leaf_hash(&leaf).as_bytes(), &expected);

    let left = Digest::from_bytes([1; 32]);
    let right = Digest::from_bytes([2; 32]);
    let mut joined = [1_u8; 64];
    joined[32..].copy_from_slice(&[2; 32]);
    let expected = blake3::derive_key("vanargand v1 smt node", &joined);
    assert_eq!(node_hash(&left, &right).as_bytes(), &expected);
}

#[test]
fn a_two_leaf_proof_names_its_sibling() {
    let items = leaves(2);
    let proof = list_proof(&items, 0).expect("index in range");
    assert_eq!(proof.index, 0);
    assert_eq!(proof.steps, vec![ProofStep::Right(leaf_hash(&items[1]))]);
    let proof = list_proof(&items, 1).expect("index in range");
    assert_eq!(proof.steps, vec![ProofStep::Left(leaf_hash(&items[0]))]);
}
