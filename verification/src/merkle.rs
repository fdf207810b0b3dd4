//! The binary Merkle tree over a list, used for a block's transaction root.
//!
//! Leaves and internal nodes hash under different domains, so that an
//! internal node can never be presented as a leaf. An odd node is promoted to
//! the next level unchanged, never duplicated: with duplication the lists
//! `[a, b, c]` and `[a, b, c, c]` would share a root.

use vstd::prelude::*;

use crate::bech32::push_all;
use crate::hash::{blake3_derive_key, domain, hash, zero_digest, Digest};
use crate::smt::digest_views;

verus! {

/// The digest of a list leaf.
pub open spec fn list_leaf(leaf: Seq<u8>) -> Seq<u8> {
    blake3_derive_key(domain::SMT_LEAF@, leaf)
}

/// The digest of two children.
pub open spec fn list_node(left: Seq<u8>, right: Seq<u8>) -> Seq<u8> {
    blake3_derive_key(domain::SMT_NODE@, left + right)
}

/// The next level up: each pair hashed into its parent, a last odd node
/// promoted unchanged.
pub open spec fn next_level(level: Seq<Seq<u8>>) -> Seq<Seq<u8>> {
    Seq::new(
        ((level.len() + 1) / 2) as nat,
        |i: int|
            if 2 * i + 1 < level.len() {
                list_node(level[2 * i], level[2 * i + 1])
            } else {
                level[2 * i]
            },
    )
}

/// The root over a level: the level folded until one node is left.
pub open spec fn level_root(level: Seq<Seq<u8>>) -> Seq<u8>
    decreases level.len(),
{
    if level.len() == 0 {
        zero_digest()
    } else if level.len() == 1 {
        level[0]
    } else {
        level_root(next_level(level))
    }
}

/// The root of the tree over `leaves`, in order; the zero digest for none.
pub open spec fn list_root_of(leaves: Seq<Seq<u8>>) -> Seq<u8> {
    if leaves.len() == 0 {
        zero_digest()
    } else {
        level_root(leaves.map_values(|leaf: Seq<u8>| list_leaf(leaf)))
    }
}

/// One step of an inclusion proof, as a kind and a sibling: 0 for a sibling
/// on the left, 1 for a sibling on the right, 2 for a promotion.
pub open spec fn step_view(step: ProofStep) -> (int, Seq<u8>) {
    match step {
        ProofStep::Left(sibling) => (0, sibling@),
        ProofStep::Right(sibling) => (1, sibling@),
        ProofStep::Promoted => (2, Seq::empty()),
    }
}

/// The views of a list of steps.
pub open spec fn step_views(steps: Seq<ProofStep>) -> Seq<(int, Seq<u8>)> {
    steps.map_values(|step: ProofStep| step_view(step))
}

/// The steps from position `position` of `level` up to the root.
pub open spec fn path_steps(level: Seq<Seq<u8>>, position: nat) -> Seq<(int, Seq<u8>)>
    decreases level.len(),
{
    if level.len() <= 1 {
        Seq::empty()
    } else {
        let step = if position == level.len() - 1 && level.len() % 2 == 1 {
            (2, Seq::empty())
        } else if position % 2 == 0 {
            (1, level[position + 1 as int])
        } else {
            (0, level[position - 1 as int])
        };
        seq![step] + path_steps(next_level(level), position / 2)
    }
}

/// A running value carried through one step.
pub open spec fn apply_step(step: (int, Seq<u8>), running: Seq<u8>) -> Seq<u8> {
    if step.0 == 0 {
        list_node(step.1, running)
    } else if step.0 == 1 {
        list_node(running, step.1)
    } else {
        running
    }
}

/// A running value carried through every step, first to last.
pub open spec fn apply_steps(steps: Seq<(int, Seq<u8>)>, running: Seq<u8>) -> Seq<u8>
    decreases steps.len(),
{
    if steps.len() == 0 {
        running
    } else {
        apply_steps(steps.drop_first(), apply_step(steps[0], running))
    }
}

/// Hashes a leaf into the tree.
pub fn leaf_hash(leaf: &Digest) -> (digest: Digest)
    ensures
        digest@ == list_leaf(leaf@),
{
    hash(domain::SMT_LEAF, leaf.as_bytes())
}

/// Hashes two children into their parent.
pub fn node_hash(left: &Digest, right: &Digest) -> (digest: Digest)
    ensures
        digest@ == list_node(left@, right@),
{
    let mut material: Vec<u8> = Vec::new();
    push_all(&mut material, left.as_bytes());
    push_all(&mut material, right.as_bytes());
    hash(domain::SMT_NODE, material.as_slice())
}

proof fn lemma_views_push(digests: Seq<Digest>, digest: Digest)
    ensures
        digest_views(digests.push(digest)) == digest_views(digests).push(digest@),
{
    assert(digest_views(digests.push(digest)) =~= digest_views(digests).push(digest@));
}

fn leaf_level(leaves: &[Digest]) -> (level: Vec<Digest>)
    ensures
        digest_views(level@) == digest_views(leaves@).map_values(|leaf: Seq<u8>| list_leaf(leaf)),
{
    let mut level: Vec<Digest> = Vec::new();
    let mut index: usize = 0;
    while index < leaves.len()
        invariant
            index <= leaves@.len(),
            digest_views(level@) == digest_views(leaves@.take(index as int)).map_values(
                |leaf: Seq<u8>| list_leaf(leaf),
            ),
        decreases leaves@.len() - index,
    {
        let digest = leaf_hash(&leaves[index]);
        proof {
            lemma_views_push(level@, digest);
            lemma_views_push(leaves@.take(index as int), leaves@[index as int]);
            assert(leaves@.take(index + 1) =~= leaves@.take(index as int).push(leaves@[index as int]));
            assert(digest_views(leaves@.take(index + 1)).map_values(|leaf: Seq<u8>| list_leaf(leaf))
                =~= digest_views(leaves@.take(index as int)).map_values(
                |leaf: Seq<u8>| list_leaf(leaf),
            ).push(digest@));
        }
        level.push(digest);
        index = index + 1;
    }
    assert(leaves@.take(leaves@.len() as int) =~= leaves@);
    level
}

fn fold_level(level: &[Digest]) -> (next: Vec<Digest>)
    ensures
        digest_views(next@) == next_level(digest_views(level@)),
{
    let ghost views = digest_views(level@);
    let ghost target = next_level(views);
    let mut next: Vec<Digest> = Vec::new();
    let mut index: usize = 0;
    while index + 1 < level.len()
        invariant
            index % 2 == 0,
            index <= level@.len(),
            views == digest_views(level@),
            target == next_level(views),
            digest_views(next@) == target.take(index as int / 2),
        decreases level@.len() - index,
    {
        let digest = node_hash(&level[index], &level[index + 1]);
        proof {
            lemma_views_push(next@, digest);
            assert(target.take(index as int / 2 + 1) =~= target.take(index as int / 2).push(
                target[index as int / 2],
            ));
        }
        next.push(digest);
        index = index + 2;
    }
    if index < level.len() {
        proof {
            lemma_views_push(next@, level@[index as int]);
            assert(target.take(index as int / 2 + 1) =~= target.take(index as int / 2).push(
                target[index as int / 2],
            ));
        }
        next.push(level[index]);
    }
    assert(digest_views(next@) =~= target);
    next
}

/// The root of the tree over `leaves`, in the given order. An empty list
/// has the zero digest as its root.
pub fn list_root(leaves: &[Digest]) -> (root: Digest)
    ensures
        root@ == list_root_of(digest_views(leaves@)),
{
    if leaves.len() == 0 {
        return Digest::zero();
    }
    let mut level = leaf_level(leaves);
    let ghost target = level_root(digest_views(level@));
    while level.len() > 1
        invariant
            level@.len() >= 1,
            level_root(digest_views(level@)) == target,
        decreases level@.len(),
    {
        level = fold_level(level.as_slice());
        assert(digest_views(level@).len() == level@.len());
    }
    level[0]
}

/// One step of an inclusion proof.
#[derive(Debug, Clone, Copy, PartialEq, Eq)]
pub enum ProofStep {
    /// The sibling is on the left; the running value goes on the right.
    Left(Digest),
    /// The sibling is on the right; the running value goes on the left.
    Right(Digest),
    /// No sibling: the node was promoted unchanged to the next level.
    Promoted,
}

/// An inclusion proof for one leaf.
#[derive(Debug, Clone, PartialEq, Eq)]
pub struct InclusionProof {
    /// Position of the leaf in the list of leaves.
    pub index: usize,
    /// Steps from the leaf up to the root.
    pub steps: Vec<ProofStep>,
}

/// Builds an inclusion proof for `index`, or `None` if it is out of range.
pub fn list_proof(leaves: &[Digest], index: usize) -> (proof: Option<InclusionProof>)
    ensures
        index >= leaves@.len() ==> proof is None,
        index < leaves@.len() ==> (proof matches Some(p) && p.index == index && step_views(
            p.steps@,
        ) == path_steps(
            digest_views(leaves@).map_values(|leaf: Seq<u8>| list_leaf(leaf)),
            index as nat,
        )),
{
    if index >= leaves.len() {
        return None;
    }
    let mut level = leaf_level(leaves);
    let ghost target = path_steps(digest_views(level@), index as nat);
    let mut position = index;
    let mut steps: Vec<ProofStep> = Vec::new();
    while level.len() > 1
        invariant
            position < level@.len(),
            step_views(steps@) + path_steps(digest_views(level@), position as nat) == target,
        decreases level@.len(),
    {
        let ghost views = digest_views(level@);
        let count = level.len();
        let step = if position == count - 1 && count % 2 == 1 {
            ProofStep::Promoted
        } else if position % 2 == 0 {
            ProofStep::Right(level[position + 1])
        } else {
            ProofStep::Left(level[position - 1])
        };
        let ghost rest = path_steps(next_level(views), (position / 2) as nat);
        assert(path_steps(views, position as nat) == seq![step_view(step)] + rest);
        steps.push(step);
        assert(step_views(steps@) + rest =~= target);
        position = position / 2;
        level = fold_level(level.as_slice());
    }
    assert(step_views(steps@) =~= target);
    Some(InclusionProof { index, steps })
}

/// Recomputes the root implied by `leaf` and `proof`. The caller compares it
/// with the root it trusts.
pub fn root_from_proof(leaf: &Digest, proof: &InclusionProof) -> (root: Digest)
    ensures
        root@ == apply_steps(step_views(proof.steps@), list_leaf(leaf@)),
{
    let ghost views = step_views(proof.steps@);
    let mut running = leaf_hash(leaf);
    let ghost target = apply_steps(views, running@);
    let mut index: usize = 0;
    assert(views.skip(0) =~= views);
    while index < proof.steps.len()
        invariant
            index <= proof.steps@.len(),
            views == step_views(proof.steps@),
            apply_steps(views.skip(index as int), running@) == target,
        decreases proof.steps@.len() - index,
    {
        assert(views.skip(index as int).drop_first() =~= views.skip(index + 1));
        running = match proof.steps[index] {
            ProofStep::Left(sibling) => node_hash(&sibling, &running),
            ProofStep::Right(sibling) => node_hash(&running, &sibling),
            ProofStep::Promoted => running,
        };
        index = index + 1;
    }
    assert(views.skip(index as int) =~= Seq::<(int, Seq<u8>)>::empty());
    running
}

/// Every leaf's proof leads back to the root: for any level and any position
/// in it, the position's node carried through the position's path is the
/// level's root.
pub proof fn lemma_path_reaches_root(level: Seq<Seq<u8>>, position: nat)
    requires
        position < level.len(),
    ensures
        apply_steps(path_steps(level, position), level[position as int]) == level_root(level),
    decreases level.len(),
{
    if level.len() > 1 {
        let next = next_level(level);
        let up = position / 2;
        let step = path_steps(level, position)[0];
        assert(path_steps(level, position).drop_first() =~= path_steps(next, up));
        assert(apply_step(step, level[position as int]) == next[up as int]);
        lemma_path_reaches_root(next, up);
    }
}

/// The proof built for a leaf verifies against the list's root.
pub proof fn lemma_list_proof_verifies(leaves: Seq<Seq<u8>>, index: nat)
    requires
        index < leaves.len(),
    ensures
        apply_steps(
            path_steps(leaves.map_values(|leaf: Seq<u8>| list_leaf(leaf)), index),
            list_leaf(leaves[index as int]),
        ) == list_root_of(leaves),
{
    lemma_path_reaches_root(leaves.map_values(|leaf: Seq<u8>| list_leaf(leaf)), index);
}

} // verus!
