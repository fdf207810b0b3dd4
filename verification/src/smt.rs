//! The sparse Merkle tree that holds state.
//!
//! A map from 32-byte keys to 32-byte value digests, with one 32-byte root
//! that commits to the whole map, and to everything that is not in it: the
//! same proof object shows that a key holds a value or that it holds
//! nothing.
//!
//! Two rules make a tree of depth 256 usable. An empty subtree is the zero
//! digest at every depth, so empty parts cost nothing. A subtree holding
//! exactly one key collapses to that key's leaf hash, which binds the key; a
//! verifier walking upwards must therefore check that a leaf handed to it
//! really lies on the path it was handed.

use vstd::prelude::*;

use crate::codec::{
    begins_with, begins_with_elements, concat_encodings, lemma_begins_with_pieces,
    lemma_concat_encodings_same, lemma_decoded_pieces, varint_bytes, CodecError, Decode, Decoder,
    Encode, Encoder, MAX_NESTING,
};
use crate::hash::{blake3_derive_key, digest_bit, domain, hash, zero_digest, Digest};
use crate::sorted_map::{lemma_entries_map_len, SortKey, SortedMap};

verus! {

/// Depth of the tree: one level per bit of the key.
pub const DEPTH: usize = 256;

/// The leaf digest of a key and a value digest.
pub open spec fn leaf_digest(key: Seq<u8>, value: Seq<u8>) -> Seq<u8> {
    blake3_derive_key(domain::SMT_LEAF@, key + value)
}

/// The digest of an internal node: the zero digest when both children are
/// empty, the node digest of the two children otherwise.
pub open spec fn node_digest(left: Seq<u8>, right: Seq<u8>) -> Seq<u8> {
    if left == zero_digest() && right == zero_digest() {
        zero_digest()
    } else {
        blake3_derive_key(domain::SMT_NODE@, left + right)
    }
}

fn concat_digests(first: &Digest, second: &Digest) -> (material: Vec<u8>)
    ensures
        material@ == first@ + second@,
{
    let mut material: Vec<u8> = Vec::new();
    crate::bech32::push_all(&mut material, first.as_bytes());
    crate::bech32::push_all(&mut material, second.as_bytes());
    material
}

/// Hashes a leaf: the leaf digest of the key followed by the value.
pub fn leaf_hash(key: &Digest, value: &Digest) -> (digest: Digest)
    ensures
        digest@ == leaf_digest(key@, value@),
{
    let material = concat_digests(key, value);
    hash(domain::SMT_LEAF, material.as_slice())
}

/// Combines two children. Two empty children make an empty parent.
pub fn combine(left: &Digest, right: &Digest) -> (digest: Digest)
    ensures
        digest@ == node_digest(left@, right@),
{
    if left.is_zero() && right.is_zero() {
        return Digest::zero();
    }
    let material = concat_digests(left, right);
    hash(domain::SMT_NODE, material.as_slice())
}

/// A key and the digest of its value, as found at the end of a proof path.
#[derive(Debug, Clone, Copy, PartialEq, Eq)]
pub struct SmtLeaf {
    /// The key this leaf holds.
    pub key: Digest,
    /// The digest of its value.
    pub value: Digest,
}

impl View for SmtLeaf {
    type V = (Seq<u8>, Seq<u8>);

    open spec fn view(&self) -> (Seq<u8>, Seq<u8>) {
        (self.key@, self.value@)
    }
}

impl Encode for SmtLeaf {
    open spec fn spec_encode(&self) -> Seq<u8> {
        self.key@ + self.value@
    }

    fn encode(&self, out: &mut Encoder) {
        self.key.encode(out);
        self.value.encode(out);
        assert(out@ =~= old(out)@ + self.spec_encode());
    }
}

impl Decode for SmtLeaf {
    open spec fn decodable(&self, level: nat) -> bool {
        true
    }

    fn decode(input: &mut Decoder<'_>) -> (result: Result<Self, CodecError>) {
        let ghost data = input.data();
        let ghost start = input.pos() as int;
        let ghost s = input.rest();
        proof {
            assert forall|v: SmtLeaf| #[trigger]
                v.decodable(input.level()) && begins_with(s, v) implies s.len() >= 64 && s.take(32)
                == v.key@ && s.skip(32).take(32) == v.value@ by {
                Digest::lemma_len(v.key);
                Digest::lemma_len(v.value);
                lemma_begins_with_pieces(s, v.key@, v.value@);
            }
        }
        let key = Digest::decode(input)?;
        proof {
            Digest::lemma_len(key);
            assert(input.rest() =~= s.skip(32));
        }
        let value = Digest::decode(input)?;
        proof {
            lemma_decoded_pieces(data, start, key.spec_encode(), value.spec_encode());
        }
        Ok(SmtLeaf { key, value })
    }
}

/// Whether two keys agree on their first `bits` bits.
pub open spec fn shares_prefix_spec(a: Seq<u8>, b: Seq<u8>, bits: nat) -> bool {
    forall|i: nat| i < bits && i < 256 ==> #[trigger] digest_bit(a, i) == digest_bit(b, i)
}

/// One step up a path: the node over `current` and its sibling, `current`
/// on the right when the key's bit there is set.
pub open spec fn step_up(sibling: Seq<u8>, current: Seq<u8>, bit: bool) -> Seq<u8> {
    if bit {
        node_digest(sibling, current)
    } else {
        node_digest(current, sibling)
    }
}

/// Walks `current` up through `siblings`, the deepest first; sibling `i`
/// sits at depth `offset + i`, on the side opposite the key's bit there.
pub open spec fn fold_up(siblings: Seq<Seq<u8>>, key: Seq<u8>, offset: nat, current: Seq<u8>) -> Seq<
    u8,
>
    decreases siblings.len(),
{
    if siblings.len() == 0 {
        current
    } else {
        let depth = (siblings.len() - 1) as nat;
        fold_up(
            siblings.drop_last(),
            key,
            offset,
            step_up(siblings.last(), current, digest_bit(key, offset + depth)),
        )
    }
}

/// The root a proof implies for `key` holding `value` (`None` for absence),
/// or `None` when the proof is structurally invalid.
pub open spec fn implied_root(
    siblings: Seq<Seq<u8>>,
    terminal: Option<(Seq<u8>, Seq<u8>)>,
    key: Seq<u8>,
    value: Option<Seq<u8>>,
) -> Option<Seq<u8>> {
    if siblings.len() > DEPTH {
        None
    } else {
        match terminal {
            Some((leaf_key, leaf_value)) => match value {
                Some(expected) => if leaf_key != key || leaf_value != expected {
                    None
                } else {
                    Some(fold_up(siblings, key, 0, leaf_digest(leaf_key, leaf_value)))
                },
                None => if leaf_key == key || !shares_prefix_spec(
                    leaf_key,
                    key,
                    siblings.len(),
                ) {
                    None
                } else {
                    Some(fold_up(siblings, key, 0, leaf_digest(leaf_key, leaf_value)))
                },
            },
            None => match value {
                Some(_) => None,
                None => Some(fold_up(siblings, key, 0, zero_digest())),
            },
        }
    }
}

/// The views of a list of digests.
pub open spec fn digest_views(digests: Seq<Digest>) -> Seq<Seq<u8>> {
    digests.map_values(|d: Digest| d@)
}

/// The view of an optional leaf.
pub open spec fn leaf_view(leaf: Option<SmtLeaf>) -> Option<(Seq<u8>, Seq<u8>)> {
    match leaf {
        Some(leaf) => Some(leaf@),
        None => None,
    }
}

/// The view of an optional owned digest.
pub open spec fn maybe_digest(digest: Option<Digest>) -> Option<Seq<u8>> {
    match digest {
        Some(d) => Some(d@),
        None => None,
    }
}

/// The view of an optional digest.
pub open spec fn digest_option(digest: Option<&Digest>) -> Option<Seq<u8>> {
    match digest {
        Some(d) => Some(d@),
        None => None,
    }
}

fn shares_prefix(a: &Digest, b: &Digest, bits: usize) -> (shared: bool)
    ensures
        shared == shares_prefix_spec(a@, b@, bits as nat),
{
    let limit = if bits < DEPTH {
        bits
    } else {
        DEPTH
    };
    let mut index: usize = 0;
    while index < limit
        invariant
            index <= limit <= DEPTH,
            limit == (if bits < DEPTH { bits } else { DEPTH }),
            forall|i: nat| i < index ==> #[trigger] digest_bit(a@, i) == digest_bit(b@, i),
        decreases limit - index,
    {
        if a.bit(index) != b.bit(index) {
            assert(!(digest_bit(a@, index as nat) == digest_bit(b@, index as nat)));
            return false;
        }
        index = index + 1;
    }
    true
}

/// A proof about one key: that it holds a value, or that it holds nothing.
///
/// The terminal is the key itself when the key is present; a different key
/// occupying the key's position, or nothing, when it is absent.
#[derive(Debug, Clone, PartialEq, Eq)]
pub struct SmtProof {
    /// Sibling digests, from the root downwards.
    pub siblings: Vec<Digest>,
    /// What was found at the end of the path.
    pub terminal: Option<SmtLeaf>,
}

impl SmtProof {
    /// Recomputes the root this proof implies for `key` holding `value`, or
    /// `None` when the proof is structurally invalid.
    pub fn compute_root(&self, key: &Digest, value: Option<&Digest>) -> (root: Option<Digest>)
        ensures
            match implied_root(
                digest_views(self.siblings@),
                leaf_view(self.terminal),
                key@,
                digest_option(value),
            ) {
                Some(r) => root matches Some(d) && d@ == r,
                None => root is None,
            },
    {
        let count = self.siblings.len();
        if count > DEPTH {
            return None;
        }
        let start = match &self.terminal {
            Some(leaf) => match value {
                Some(expected) => {
                    if !leaf.key.same_as(key) || !leaf.value.same_as(expected) {
                        return None;
                    }
                    leaf_hash(&leaf.key, &leaf.value)
                },
                None => {
                    if leaf.key.same_as(key) {
                        return None;
                    }
                    if !shares_prefix(&leaf.key, key, count) {
                        return None;
                    }
                    leaf_hash(&leaf.key, &leaf.value)
                },
            },
            None => match value {
                Some(_) => {
                    return None;
                },
                None => Digest::zero(),
            },
        };
        let ghost siblings = digest_views(self.siblings@);
        let ghost target = fold_up(siblings, key@, 0, start@);
        let mut current = start;
        let mut depth = count;
        proof {
            assert(siblings.take(count as int) =~= siblings);
        }
        while depth > 0
            invariant
                depth <= count,
                count == self.siblings@.len(),
                count <= DEPTH,
                siblings == digest_views(self.siblings@),
                fold_up(siblings.take(depth as int), key@, 0, current@) == target,
            decreases depth,
        {
            depth = depth - 1;
            let sibling = self.siblings[depth];
            proof {
                assert(siblings.take(depth + 1).drop_last() =~= siblings.take(depth as int));
            }
            current = if key.bit(depth) {
                combine(&sibling, &current)
            } else {
                combine(&current, &sibling)
            };
        }
        proof {
            assert(siblings.take(0) =~= Seq::<Seq<u8>>::empty());
        }
        Some(current)
    }

    /// Whether this proof shows `key` holds `value` under `root`.
    pub fn verify(&self, root: &Digest, key: &Digest, value: Option<&Digest>) -> (valid: bool)
        ensures
            valid == (implied_root(
                digest_views(self.siblings@),
                leaf_view(self.terminal),
                key@,
                digest_option(value),
            ) == Some(root@)),
    {
        match self.compute_root(key, value) {
            Some(computed) => computed.same_as(root),
            None => false,
        }
    }
}

impl Encode for SmtProof {
    open spec fn spec_encode(&self) -> Seq<u8> {
        varint_bytes(self.siblings@.len()) + concat_encodings(self.siblings@) + match self.terminal {
            None => seq![0u8],
            Some(leaf) => seq![1u8] + leaf.spec_encode(),
        }
    }

    fn encode(&self, out: &mut Encoder) {
        out.write_seq(self.siblings.as_slice());
        out.write_option(self.terminal.as_ref());
        assert(out@ =~= old(out)@ + self.spec_encode());
    }
}

/// The encodings of a sequence of digests take 32 bytes each.
proof fn lemma_digest_concat_len(digests: Seq<Digest>)
    ensures
        concat_encodings(digests).len() == 32 * digests.len(),
    decreases digests.len(),
{
    if digests.len() > 0 {
        lemma_digest_concat_len(digests.drop_last());
        Digest::lemma_len(digests.last());
    }
}

impl Decode for SmtProof {
    /// At most [`DEPTH`] siblings, and room for one more level of nesting.
    open spec fn decodable(&self, level: nat) -> bool {
        self.siblings@.len() <= DEPTH && level < MAX_NESTING
    }

    fn decode(input: &mut Decoder<'_>) -> (result: Result<Self, CodecError>)
        ensures
            result matches Ok(proof) ==> proof.siblings@.len() <= DEPTH,
    {
        let ghost data = input.data();
        let ghost start = input.pos() as int;
        let ghost s = input.rest();
        let ghost level = input.level();
        proof {
            assert forall|v: SmtProof| #[trigger]
                v.decodable(level) && begins_with(s, v) implies ({
                let head = varint_bytes(v.siblings@.len()) + concat_encodings(v.siblings@);
                let tail = s.skip(head.len() as int);
                &&& begins_with_elements(s, v.siblings@, level, false)
                &&& tail.len() > 0
                &&& v.terminal is None ==> tail[0] == 0
                &&& v.terminal matches Some(leaf) ==> tail[0] == 1 && begins_with(tail.skip(1), leaf)
                    && leaf.decodable((level + 1) as nat)
            }) by {
                let head = varint_bytes(v.siblings@.len()) + concat_encodings(v.siblings@);
                let term = match v.terminal {
                    None => seq![0u8],
                    Some(leaf) => seq![1u8] + leaf.spec_encode(),
                };
                assert(v.spec_encode() == head + term);
                lemma_begins_with_pieces(s, head, term);
                lemma_digest_concat_len(v.siblings@);
                let tail = s.skip(head.len() as int);
                assert(tail[0] == tail.take(term.len() as int)[0]);
                if let Some(leaf) = v.terminal {
                    lemma_begins_with_pieces(tail, seq![1u8], leaf.spec_encode());
                }
            }
        }
        let siblings = input.read_seq::<Digest>()?;
        proof {
            assert forall|v: SmtProof| #[trigger]
                v.decodable(level) && begins_with(s, v) implies siblings@.len() == v.siblings@.len()
                && concat_encodings(siblings@) == concat_encodings(v.siblings@) by {
                assert(begins_with_elements(s, v.siblings@, level, false));
                lemma_concat_encodings_same(siblings@, v.siblings@);
            }
        }
        if siblings.len() > DEPTH {
            return Err(
                CodecError::LimitExceeded {
                    limit: "sparse Merkle proof depth",
                    max: DEPTH,
                    got: siblings.len(),
                },
            );
        }
        let ghost first = varint_bytes(siblings@.len()) + concat_encodings(siblings@);
        let ghost middle = input.pos() as int;
        proof {
            assert(input.rest() =~= s.skip(first.len() as int));
        }
        let terminal = input.read_option::<SmtLeaf>()?;
        let ghost second = match terminal {
            None => seq![0u8],
            Some(leaf) => seq![1u8] + leaf.spec_encode(),
        };
        proof {
            assert(data.skip(start + first.len()) =~= data.skip(middle));
            if terminal is None {
                assert(data.skip(middle).take(1) =~= seq![0u8]);
            }
            lemma_decoded_pieces(data, start, first, second);
        }
        let proof = SmtProof { siblings, terminal };
        assert(first + second =~= proof.spec_encode());
        Ok(proof)
    }
}


/// The views of a list of entries.
pub open spec fn entry_views(entries: Seq<(Digest, Digest)>) -> Seq<(Seq<u8>, Seq<u8>)> {
    entries.map_values(|e: (Digest, Digest)| (e.0@, e.1@))
}

/// The entries whose key has bit `depth` equal to `bit`, in order.
pub open spec fn with_bit(entries: Seq<(Seq<u8>, Seq<u8>)>, depth: nat, bit: bool) -> Seq<
    (Seq<u8>, Seq<u8>),
>
    decreases entries.len(),
{
    if entries.len() == 0 {
        entries
    } else {
        let rest = with_bit(entries.drop_last(), depth, bit);
        if digest_bit(entries.last().0, depth) == bit {
            rest.push(entries.last())
        } else {
            rest
        }
    }
}

/// The root of the subtree holding `entries` at `depth`: zero when empty,
/// the leaf when there is one entry, else the node over the entries whose
/// key's bit at `depth` is clear and those whose bit is set.
pub open spec fn subtree_digest(entries: Seq<(Seq<u8>, Seq<u8>)>, depth: nat) -> Seq<u8>
    decreases 256 - depth,
{
    if entries.len() == 0 {
        zero_digest()
    } else if entries.len() == 1 {
        leaf_digest(entries[0].0, entries[0].1)
    } else if depth >= 256 {
        zero_digest()
    } else {
        node_digest(
            subtree_digest(with_bit(entries, depth, false), depth + 1),
            subtree_digest(with_bit(entries, depth, true), depth + 1),
        )
    }
}

/// The siblings met walking from `depth` towards `key`: at each level the
/// root of the side the key does not take.
pub open spec fn walk_siblings(entries: Seq<(Seq<u8>, Seq<u8>)>, key: Seq<u8>, depth: nat) -> Seq<
    Seq<u8>,
>
    decreases 256 - depth,
{
    if entries.len() <= 1 || depth >= 256 {
        Seq::empty()
    } else {
        let bit = digest_bit(key, depth);
        seq![subtree_digest(with_bit(entries, depth, !bit), depth + 1)] + walk_siblings(
            with_bit(entries, depth, bit),
            key,
            depth + 1,
        )
    }
}

/// What the walk towards `key` finds at its end: the one entry left, or
/// nothing.
pub open spec fn walk_terminal(entries: Seq<(Seq<u8>, Seq<u8>)>, key: Seq<u8>, depth: nat) -> Option<
    (Seq<u8>, Seq<u8>),
>
    decreases 256 - depth,
{
    if entries.len() == 0 {
        None
    } else if entries.len() == 1 {
        Some(entries[0])
    } else if depth >= 256 {
        None
    } else {
        walk_terminal(with_bit(entries, depth, digest_bit(key, depth)), key, depth + 1)
    }
}

fn split_entries(entries: &[(Digest, Digest)], depth: usize) -> (parts: (
    Vec<(Digest, Digest)>,
    Vec<(Digest, Digest)>,
))
    requires
        depth < DEPTH,
    ensures
        entry_views(parts.0@) == with_bit(entry_views(entries@), depth as nat, false),
        entry_views(parts.1@) == with_bit(entry_views(entries@), depth as nat, true),
{
    let mut clear: Vec<(Digest, Digest)> = Vec::new();
    let mut set: Vec<(Digest, Digest)> = Vec::new();
    let mut index: usize = 0;
    while index < entries.len()
        invariant
            index <= entries@.len(),
            depth < DEPTH,
            entry_views(clear@) == with_bit(entry_views(entries@.take(index as int)), depth as nat, false),
            entry_views(set@) == with_bit(entry_views(entries@.take(index as int)), depth as nat, true),
        decreases entries@.len() - index,
    {
        let entry = entries[index];
        let ghost prefix = entry_views(entries@.take(index + 1));
        proof {
            assert(prefix.drop_last() =~= entry_views(entries@.take(index as int)));
            assert(prefix.last() == (entry.0@, entry.1@));
        }
        if entry.0.bit(depth) {
            set.push(entry);
        } else {
            clear.push(entry);
        }
        proof {
            assert(entry_views(clear@) =~= with_bit(prefix, depth as nat, false));
            assert(entry_views(set@) =~= with_bit(prefix, depth as nat, true));
        }
        index = index + 1;
    }
    proof {
        assert(entries@.take(entries@.len() as int) =~= entries@);
    }
    (clear, set)
}

fn subtree_root(entries: &[(Digest, Digest)], depth: usize) -> (root: Digest)
    requires
        depth <= DEPTH,
    ensures
        root@ == subtree_digest(entry_views(entries@), depth as nat),
    decreases 256 - depth,
{
    if entries.len() == 0 {
        return Digest::zero();
    }
    if entries.len() == 1 {
        let (key, value) = entries[0];
        return leaf_hash(&key, &value);
    }
    if depth >= DEPTH {
        return Digest::zero();
    }
    let (clear, set) = split_entries(entries, depth);
    let left = subtree_root(clear.as_slice(), depth + 1);
    let right = subtree_root(set.as_slice(), depth + 1);
    combine(&left, &right)
}

fn walk(entries: &[(Digest, Digest)], key: &Digest, depth: usize, siblings: &mut Vec<Digest>) -> (terminal:
    Option<SmtLeaf>)
    requires
        depth <= DEPTH,
    ensures
        digest_views(final(siblings)@) == digest_views(old(siblings)@) + walk_siblings(
            entry_views(entries@),
            key@,
            depth as nat,
        ),
        leaf_view(terminal) == walk_terminal(entry_views(entries@), key@, depth as nat),
    decreases 256 - depth,
{
    if entries.len() == 0 {
        assert(digest_views(siblings@) =~= digest_views(siblings@) + Seq::<Seq<u8>>::empty());
        return None;
    }
    if entries.len() == 1 {
        assert(digest_views(siblings@) =~= digest_views(siblings@) + Seq::<Seq<u8>>::empty());
        let (leaf_key, leaf_value) = entries[0];
        return Some(SmtLeaf { key: leaf_key, value: leaf_value });
    }
    if depth >= DEPTH {
        assert(digest_views(siblings@) =~= digest_views(siblings@) + Seq::<Seq<u8>>::empty());
        return None;
    }
    let (clear, set) = split_entries(entries, depth);
    let ghost before = digest_views(siblings@);
    if key.bit(depth) {
        let sibling = subtree_root(clear.as_slice(), depth + 1);
        siblings.push(sibling);
        assert(digest_views(siblings@) =~= before.push(sibling@));
        let terminal = walk(set.as_slice(), key, depth + 1, siblings);
        assert(digest_views(siblings@) =~= before + walk_siblings(
            entry_views(entries@),
            key@,
            depth as nat,
        ));
        terminal
    } else {
        let sibling = subtree_root(set.as_slice(), depth + 1);
        siblings.push(sibling);
        assert(digest_views(siblings@) =~= before.push(sibling@));
        let terminal = walk(clear.as_slice(), key, depth + 1, siblings);
        assert(digest_views(siblings@) =~= before + walk_siblings(
            entry_views(entries@),
            key@,
            depth as nat,
        ));
        terminal
    }
}

/// A sparse Merkle tree over 32-byte keys.
#[derive(Debug, Clone, PartialEq, Eq)]
pub struct SparseMerkleTree {
    entries: SortedMap<Digest, Digest>,
}

impl View for SparseMerkleTree {
    type V = Map<Seq<u8>, Seq<u8>>;

    closed spec fn view(&self) -> Map<Seq<u8>, Seq<u8>> {
        self.entries.map().map_values(|d: Digest| d@)
    }
}

impl SparseMerkleTree {
    /// The entries are held in strictly ascending key order.
    pub closed spec fn wf(self) -> bool {
        self.entries.wf()
    }

    /// The entries, as key and value bytes, in ascending key order.
    pub closed spec fn entry_list(self) -> Seq<(Seq<u8>, Seq<u8>)> {
        entry_views(self.entries.entries())
    }

    /// An empty tree. Its root is the zero digest.
    pub fn new() -> (tree: Self)
        ensures
            tree.wf(),
            tree@ == Map::<Seq<u8>, Seq<u8>>::empty(),
            tree.entry_list() == Seq::<(Seq<u8>, Seq<u8>)>::empty(),
    {
        let tree = SparseMerkleTree { entries: SortedMap::new() };
        assert(tree@ =~= Map::<Seq<u8>, Seq<u8>>::empty());
        assert(tree.entry_list() =~= Seq::<(Seq<u8>, Seq<u8>)>::empty());
        tree
    }

    /// Sets `key` to `value`.
    pub fn insert(&mut self, key: Digest, value: Digest)
        requires
            old(self).wf(),
        ensures
            final(self).wf(),
            final(self)@ == old(self)@.insert(key@, value@),
    {
        self.entries.insert(key, value);
        assert(self@ =~= old(self)@.insert(key@, value@));
    }

    /// Removes `key`, returning what it held.
    pub fn remove(&mut self, key: &Digest) -> (previous: Option<Digest>)
        requires
            old(self).wf(),
        ensures
            final(self).wf(),
            final(self)@ == old(self)@.remove(key@),
            final(self).entry_list().len() == old(self).entry_list().len() - (if old(
                self,
            )@.contains_key(key@) {
                1int
            } else {
                0int
            }),
            maybe_digest(previous) == (if old(self)@.contains_key(key@) {
                Some(old(self)@[key@])
            } else {
                None
            }),
    {
        let previous = self.entries.remove(key);
        assert(self@ =~= old(self)@.remove(key@));
        proof {
            Self::lemma_len_is_map_len(*old(self));
            Self::lemma_len_is_map_len(*self);
        }
        previous
    }

    /// What `key` holds, if anything.
    pub fn get(&self, key: &Digest) -> (value: Option<Digest>)
        requires
            self.wf(),
        ensures
            maybe_digest(value) == (if self@.contains_key(key@) {
                Some(self@[key@])
            } else {
                None
            }),
    {
        match self.entries.get(key) {
            Some(value) => Some(*value),
            None => None,
        }
    }

    /// How many keys are populated.
    pub fn len(&self) -> (count: usize)
        ensures
            count == self.entry_list().len(),
            self.wf() ==> count == self@.len(),
    {
        proof {
            if self.wf() {
                Self::lemma_len_is_map_len(*self);
            }
        }
        self.entries.len()
    }

    /// A well-formed tree holds as many entries as its map has keys.
    proof fn lemma_len_is_map_len(tree: Self)
        requires
            tree.wf(),
        ensures
            tree@.dom().finite(),
            tree.entry_list().len() == tree@.len(),
    {
        lemma_entries_map_len(tree.entries.entries());
        assert(tree@.dom() =~= tree.entries.map().dom());
    }

    /// Whether the tree is empty.
    pub fn is_empty(&self) -> (empty: bool)
        ensures
            empty == (self.entry_list().len() == 0),
    {
        self.entries.len() == 0
    }

    /// Every entry, in ascending key order.
    pub fn iter(&self) -> (entries: Vec<(Digest, Digest)>)
        ensures
            entry_views(entries@) == self.entry_list(),
    {
        let slice = self.entries.as_slice();
        let mut out: Vec<(Digest, Digest)> = Vec::new();
        let mut index: usize = 0;
        while index < slice.len()
            invariant
                index <= slice@.len(),
                slice@ == self.entries.entries(),
                out@ == slice@.take(index as int),
            decreases slice@.len() - index,
        {
            out.push(slice[index]);
            index = index + 1;
            assert(out@ =~= slice@.take(index as int));
        }
        assert(out@ =~= slice@);
        out
    }

    /// The root digest.
    pub fn root(&self) -> (root: Digest)
        ensures
            root@ == subtree_digest(self.entry_list(), 0),
    {
        subtree_root(self.entries.as_slice(), 0)
    }

    /// A proof about `key`, whether it is present or absent.
    pub fn prove(&self, key: &Digest) -> (proof: SmtProof)
        ensures
            digest_views(proof.siblings@) == walk_siblings(self.entry_list(), key@, 0),
            leaf_view(proof.terminal) == walk_terminal(self.entry_list(), key@, 0),
    {
        let mut siblings: Vec<Digest> = Vec::new();
        let terminal = walk(self.entries.as_slice(), key, 0, &mut siblings);
        assert(digest_views(siblings@) =~= walk_siblings(self.entry_list(), key@, 0));
        SmtProof { siblings, terminal }
    }
}


/// The digest a walk's terminal stands for.
pub open spec fn terminal_digest(terminal: Option<(Seq<u8>, Seq<u8>)>) -> Seq<u8> {
    match terminal {
        Some((key, value)) => leaf_digest(key, value),
        None => zero_digest(),
    }
}

/// No two entries share a key, and every key is 32 bytes.
pub open spec fn proper_entries(entries: Seq<(Seq<u8>, Seq<u8>)>) -> bool {
    &&& forall|i: int, j: int|
        #![trigger entries[i], entries[j]]
        0 <= i < j < entries.len() ==> entries[i].0 != entries[j].0
    &&& forall|i: int| 0 <= i < entries.len() ==> (#[trigger] entries[i]).0.len() == 32
}

/// Every key agrees with `key` on its first `bits` bits.
pub open spec fn all_share_prefix(entries: Seq<(Seq<u8>, Seq<u8>)>, key: Seq<u8>, bits: nat) -> bool {
    forall|i: int| 0 <= i < entries.len() ==> shares_prefix_spec((#[trigger] entries[i]).0, key, bits)
}

proof fn lemma_with_bit(entries: Seq<(Seq<u8>, Seq<u8>)>, depth: nat, bit: bool)
    ensures
        forall|i: int|
            0 <= i < with_bit(entries, depth, bit).len() ==> entries.contains(
                #[trigger] with_bit(entries, depth, bit)[i],
            ) && digest_bit(with_bit(entries, depth, bit)[i].0, depth) == bit,
        forall|i: int|
            0 <= i < entries.len() && digest_bit((#[trigger] entries[i]).0, depth) == bit
                ==> with_bit(entries, depth, bit).contains(entries[i]),
        proper_entries(entries) ==> proper_entries(with_bit(entries, depth, bit)),
        with_bit(entries, depth, bit).len() + with_bit(entries, depth, !bit).len() == entries.len(),
    decreases entries.len(),
{
    if entries.len() > 0 {
        let shorter = entries.drop_last();
        let last = entries.last();
        lemma_with_bit(shorter, depth, bit);
        lemma_with_bit(shorter, depth, !bit);
        let rest = with_bit(shorter, depth, bit);
        let result = with_bit(entries, depth, bit);
        assert forall|i: int| 0 <= i < result.len() implies entries.contains(#[trigger] result[i])
            && digest_bit(result[i].0, depth) == bit by {
            if i < rest.len() {
                assert(result[i] == rest[i]);
                let j = choose|j: int| 0 <= j < shorter.len() && shorter[j] == rest[i];
                assert(entries[j] == shorter[j]);
            } else {
                assert(result[i] == last);
                assert(entries[entries.len() - 1] == last);
            }
        }
        assert forall|i: int|
            0 <= i < entries.len() && digest_bit((#[trigger] entries[i]).0, depth)
                == bit implies result.contains(entries[i]) by {
            if i < entries.len() - 1 {
                assert(shorter[i] == entries[i]);
                let j = choose|j: int| 0 <= j < rest.len() && rest[j] == shorter[i];
                assert(result[j] == rest[j]);
            } else {
                assert(result[result.len() - 1] == last);
            }
        }
        if proper_entries(entries) {
            assert(proper_entries(shorter)) by {
                assert forall|i: int, j: int|
                    #![trigger shorter[i], shorter[j]]
                    0 <= i < j < shorter.len() implies shorter[i].0 != shorter[j].0 by {
                    assert(shorter[i] == entries[i] && shorter[j] == entries[j]);
                }
                assert forall|i: int| 0 <= i < shorter.len() implies (#[trigger] shorter[i]).0.len()
                    == 32 by {
                    assert(shorter[i] == entries[i]);
                }
            }
            assert forall|i: int, j: int|
                #![trigger result[i], result[j]]
                0 <= i < j < result.len() implies result[i].0 != result[j].0 by {
                if j < rest.len() {
                    assert(result[i] == rest[i] && result[j] == rest[j]);
                } else {
                    assert(result[i] == rest[i]);
                    assert(result[j] == last);
                    let m = choose|m: int| 0 <= m < shorter.len() && shorter[m] == rest[i];
                    assert(entries[m] == shorter[m]);
                    assert(entries[entries.len() - 1] == last);
                }
            }
            assert forall|i: int| 0 <= i < result.len() implies (#[trigger] result[i]).0.len()
                == 32 by {
                let m = choose|m: int| 0 <= m < entries.len() && entries[m] == result[i];
            }
        }
    }
}

/// Two 32-byte keys that agree on all 256 bits are the same key.
proof fn lemma_bits_determine(a: Seq<u8>, b: Seq<u8>)
    requires
        a.len() == 32,
        b.len() == 32,
        shares_prefix_spec(a, b, 256),
    ensures
        a == b,
{
    assert forall|j: int| 0 <= j < 32 implies a[j] == b[j] by {
        let x = a[j];
        let y = b[j];
        assert(((8 * j + 0) as nat) / 8 == j && ((8 * j + 0) as nat) % 8 == 0);
        assert(digest_bit(a, (8 * j + 0) as nat) == digest_bit(b, (8 * j + 0) as nat));
        assert(((8 * j + 1) as nat) / 8 == j && ((8 * j + 1) as nat) % 8 == 1);
        assert(digest_bit(a, (8 * j + 1) as nat) == digest_bit(b, (8 * j + 1) as nat));
        assert(((8 * j + 2) as nat) / 8 == j && ((8 * j + 2) as nat) % 8 == 2);
        assert(digest_bit(a, (8 * j + 2) as nat) == digest_bit(b, (8 * j + 2) as nat));
        assert(((8 * j + 3) as nat) / 8 == j && ((8 * j + 3) as nat) % 8 == 3);
        assert(digest_bit(a, (8 * j + 3) as nat) == digest_bit(b, (8 * j + 3) as nat));
        assert(((8 * j + 4) as nat) / 8 == j && ((8 * j + 4) as nat) % 8 == 4);
        assert(digest_bit(a, (8 * j + 4) as nat) == digest_bit(b, (8 * j + 4) as nat));
        assert(((8 * j + 5) as nat) / 8 == j && ((8 * j + 5) as nat) % 8 == 5);
        assert(digest_bit(a, (8 * j + 5) as nat) == digest_bit(b, (8 * j + 5) as nat));
        assert(((8 * j + 6) as nat) / 8 == j && ((8 * j + 6) as nat) % 8 == 6);
        assert(digest_bit(a, (8 * j + 6) as nat) == digest_bit(b, (8 * j + 6) as nat));
        assert(((8 * j + 7) as nat) / 8 == j && ((8 * j + 7) as nat) % 8 == 7);
        assert(digest_bit(a, (8 * j + 7) as nat) == digest_bit(b, (8 * j + 7) as nat));
        assert(x == y) by (bit_vector)
            requires
                ((x >> 7u8) & 1u8 == 1u8) == ((y >> 7u8) & 1u8 == 1u8),
                ((x >> 6u8) & 1u8 == 1u8) == ((y >> 6u8) & 1u8 == 1u8),
                ((x >> 5u8) & 1u8 == 1u8) == ((y >> 5u8) & 1u8 == 1u8),
                ((x >> 4u8) & 1u8 == 1u8) == ((y >> 4u8) & 1u8 == 1u8),
                ((x >> 3u8) & 1u8 == 1u8) == ((y >> 3u8) & 1u8 == 1u8),
                ((x >> 2u8) & 1u8 == 1u8) == ((y >> 2u8) & 1u8 == 1u8),
                ((x >> 1u8) & 1u8 == 1u8) == ((y >> 1u8) & 1u8 == 1u8),
                ((x >> 0u8) & 1u8 == 1u8) == ((y >> 0u8) & 1u8 == 1u8),
        ;
    }
    assert(a =~= b);
}

proof fn lemma_fold_up_concat(a: Seq<Seq<u8>>, b: Seq<Seq<u8>>, key: Seq<u8>, offset: nat, current: Seq<u8>)
    ensures
        fold_up(a + b, key, offset, current) == fold_up(
            a,
            key,
            offset,
            fold_up(b, key, offset + a.len(), current),
        ),
    decreases b.len(),
{
    if b.len() == 0 {
        assert(a + b =~= a);
    } else {
        assert((a + b).drop_last() =~= a + b.drop_last());
        assert((a + b).last() == b.last());
        let depth = (b.len() - 1) as nat;
        let next = step_up(b.last(), current, digest_bit(key, offset + a.len() + depth));
        assert(((a + b).len() - 1) as nat == a.len() + depth);
        lemma_fold_up_concat(a, b.drop_last(), key, offset, next);
    }
}

/// What walking towards `key` gives, from a subtree whose keys all agree
/// with `key` above `depth`: the siblings and terminal fold back up to the
/// subtree's root; there are at most as many siblings as levels left; the
/// terminal is one of the entries and agrees with `key` down to where the
/// walk stopped; and when `key` is among the entries the terminal is it.
proof fn lemma_walk(entries: Seq<(Seq<u8>, Seq<u8>)>, key: Seq<u8>, depth: nat)
    requires
        proper_entries(entries),
        key.len() == 32,
        depth <= 256,
        all_share_prefix(entries, key, depth),
    ensures
        ({
            let siblings = walk_siblings(entries, key, depth);
            let terminal = walk_terminal(entries, key, depth);
            &&& fold_up(siblings, key, depth, terminal_digest(terminal)) == subtree_digest(
                entries,
                depth,
            )
            &&& siblings.len() + depth <= 256
            &&& terminal matches Some(leaf) ==> entries.contains(leaf) && shares_prefix_spec(
                leaf.0,
                key,
                depth + siblings.len(),
            )
            &&& (exists|i: int| 0 <= i < entries.len() && (#[trigger] entries[i]).0 == key)
                ==> (terminal matches Some(leaf) && leaf.0 == key)
        }),
    decreases 256 - depth,
{
    let siblings = walk_siblings(entries, key, depth);
    let terminal = walk_terminal(entries, key, depth);
    if entries.len() == 0 {
    } else if entries.len() == 1 {
        assert(entries.contains(entries[0]));
        assert(shares_prefix_spec(entries[0].0, key, depth));
    } else if depth >= 256 {
        assert(shares_prefix_spec(entries[0].0, key, 256));
        assert(shares_prefix_spec(entries[1].0, key, 256));
        assert(shares_prefix_spec(entries[0].0, entries[1].0, 256)) by {
            assert forall|i: nat| i < 256 implies #[trigger] digest_bit(entries[0].0, i)
                == digest_bit(entries[1].0, i) by {
                assert(digest_bit(entries[0].0, i) == digest_bit(key, i));
                assert(digest_bit(entries[1].0, i) == digest_bit(key, i));
            }
        }
        lemma_bits_determine(entries[0].0, entries[1].0);
        assert(false);
    } else {
        let bit = digest_bit(key, depth);
        let own = with_bit(entries, depth, bit);
        let other = with_bit(entries, depth, !bit);
        lemma_with_bit(entries, depth, bit);
        lemma_with_bit(entries, depth, !bit);
        assert(all_share_prefix(own, key, depth + 1)) by {
            assert forall|i: int| 0 <= i < own.len() implies shares_prefix_spec(
                (#[trigger] own[i]).0,
                key,
                depth + 1,
            ) by {
                let m = choose|m: int| 0 <= m < entries.len() && entries[m] == own[i];
                assert(shares_prefix_spec(entries[m].0, key, depth));
                assert forall|b: nat| b < depth + 1 && b < 256 implies #[trigger] digest_bit(
                    own[i].0,
                    b,
                ) == digest_bit(key, b) by {
                    if b < depth {
                        assert(digest_bit(entries[m].0, b) == digest_bit(key, b));
                    }
                }
            }
        }
        lemma_walk(own, key, depth + 1);
        let rest = walk_siblings(own, key, depth + 1);
        let sibling = subtree_digest(other, depth + 1);
        assert(siblings == seq![sibling] + rest);
        lemma_fold_up_concat(seq![sibling], rest, key, depth, terminal_digest(terminal));
        assert(seq![sibling].drop_last() =~= Seq::<Seq<u8>>::empty());
        assert(terminal == walk_terminal(own, key, depth + 1));
        let below = fold_up(rest, key, depth + 1, terminal_digest(terminal));
        assert(below == subtree_digest(own, depth + 1));
        assert(fold_up(seq![sibling], key, depth, below) == step_up(sibling, below, bit)) by {
            reveal_with_fuel(fold_up, 2);
        }
        assert(fold_up(siblings, key, depth, terminal_digest(terminal)) == step_up(sibling, below, bit));
        if bit {
            assert(subtree_digest(entries, depth) == node_digest(sibling, subtree_digest(own, depth + 1)));
        } else {
            assert(subtree_digest(entries, depth) == node_digest(subtree_digest(own, depth + 1), sibling));
        }
        if terminal is Some {
            let leaf = terminal->0;
            let m = choose|m: int| 0 <= m < own.len() && own[m] == leaf;
            let n = choose|n: int| 0 <= n < entries.len() && entries[n] == own[m];
            assert(entries.contains(leaf));
        }
        if exists|i: int| 0 <= i < entries.len() && (#[trigger] entries[i]).0 == key {
            let i = choose|i: int| 0 <= i < entries.len() && (#[trigger] entries[i]).0 == key;
            assert(own.contains(entries[i]));
            let m = choose|m: int| 0 <= m < own.len() && own[m] == entries[i];
            assert(own[m].0 == key);
        }
    }
}

/// The views of a tree's entries are proper, and its map is theirs.
proof fn lemma_entry_list(tree: SparseMerkleTree)
    requires
        tree.wf(),
    ensures
        proper_entries(tree.entry_list()),
        forall|key: Seq<u8>|
            #![trigger tree@.contains_key(key)]
            tree@.contains_key(key) <==> exists|i: int|
                0 <= i < tree.entry_list().len() && (#[trigger] tree.entry_list()[i]).0 == key,
        forall|i: int|
            0 <= i < tree.entry_list().len() ==> tree@.contains_key((#[trigger] tree.entry_list()[i]).0)
                && tree@[tree.entry_list()[i].0] == tree.entry_list()[i].1,
{
    let entries = tree.entries.entries();
    let list = tree.entry_list();
    assert forall|i: int, j: int|
        #![trigger list[i], list[j]]
        0 <= i < j < list.len() implies list[i].0 != list[j].0 by {
        assert(crate::codec::bytes_lt(entries[i].0.sort_key(), entries[j].0.sort_key()));
        crate::codec::lemma_bytes_lt_irreflexive(entries[i].0@);
    }
    assert forall|i: int| 0 <= i < list.len() implies (#[trigger] list[i]).0.len() == 32 by {
        Digest::lemma_len(entries[i].0);
    }
    assert forall|i: int| 0 <= i < list.len() implies tree@.contains_key((#[trigger] list[i]).0)
        && tree@[list[i].0] == list[i].1 by {
        crate::sorted_map::lemma_entries_map_at(entries, i);
    }
    assert forall|key: Seq<u8>| tree@.contains_key(key) implies exists|i: int|
        0 <= i < list.len() && (#[trigger] list[i]).0 == key by {
        let i = choose|i: int| 0 <= i < entries.len() && #[trigger] entries[i].0.sort_key() == key;
        assert(list[i].0 == key);
    }
}

/// A proof the tree gives verifies against the tree's root: for any key,
/// with the key's value when the key is present, and with nothing when it is
/// absent.
pub proof fn lemma_proof_verifies(tree: SparseMerkleTree, key: Seq<u8>)
    requires
        tree.wf(),
        key.len() == 32,
    ensures
        implied_root(
            walk_siblings(tree.entry_list(), key, 0),
            walk_terminal(tree.entry_list(), key, 0),
            key,
            if tree@.contains_key(key) {
                Some(tree@[key])
            } else {
                None
            },
        ) == Some(subtree_digest(tree.entry_list(), 0)),
{
    let list = tree.entry_list();
    lemma_entry_list(tree);
    lemma_walk(list, key, 0);
    let terminal = walk_terminal(list, key, 0);
    if tree@.contains_key(key) {
        let i = choose|i: int| 0 <= i < list.len() && (#[trigger] list[i]).0 == key;
        let leaf = terminal->0;
        let m = choose|m: int| 0 <= m < list.len() && list[m] == leaf;
        if m != i {
            if m < i {
                assert(list[m].0 != list[i].0);
            } else {
                assert(list[i].0 != list[m].0);
            }
        }
    } else {
        if terminal is Some {
            let leaf = terminal->0;
            let m = choose|m: int| 0 <= m < list.len() && list[m] == leaf;
            assert(tree@.contains_key(list[m].0));
        }
    }
}

/// The views of a tree's entries are in strictly ascending key order.
proof fn lemma_entry_list_ascending(tree: SparseMerkleTree)
    requires
        tree.wf(),
    ensures
        forall|i: int, j: int|
            #![trigger tree.entry_list()[i], tree.entry_list()[j]]
            0 <= i < j < tree.entry_list().len() ==> crate::codec::bytes_lt(
                tree.entry_list()[i].0,
                tree.entry_list()[j].0,
            ),
{
    let entries = tree.entries.entries();
    let list = tree.entry_list();
    assert forall|i: int, j: int|
        #![trigger list[i], list[j]]
        0 <= i < j < list.len() implies crate::codec::bytes_lt(list[i].0, list[j].0) by {
        assert(crate::codec::bytes_lt(entries[i].0.sort_key(), entries[j].0.sort_key()));
    }
}

/// Two sequences in strictly ascending key order with the same members are
/// the same sequence.
proof fn lemma_sorted_members_equal(s: Seq<(Seq<u8>, Seq<u8>)>, t: Seq<(Seq<u8>, Seq<u8>)>)
    requires
        forall|i: int, j: int|
            #![trigger s[i], s[j]]
            0 <= i < j < s.len() ==> crate::codec::bytes_lt(s[i].0, s[j].0),
        forall|i: int, j: int|
            #![trigger t[i], t[j]]
            0 <= i < j < t.len() ==> crate::codec::bytes_lt(t[i].0, t[j].0),
        forall|e: (Seq<u8>, Seq<u8>)|
            #![trigger s.contains(e)]
            #![trigger t.contains(e)]
            s.contains(e) <==> t.contains(e),
    ensures
        s == t,
    decreases s.len(),
{
    if s.len() == 0 {
        if t.len() > 0 {
            assert(t.contains(t[0]));
        }
        assert(s =~= t);
    } else {
        assert(s.contains(s[0]));
        let j = choose|j: int| 0 <= j < t.len() && t[j] == s[0];
        assert(t.contains(t[0]));
        let i = choose|i: int| 0 <= i < s.len() && s[i] == t[0];
        if j > 0 {
            assert(crate::codec::bytes_lt(t[0].0, t[j].0));
            if i > 0 {
                assert(crate::codec::bytes_lt(s[0].0, s[i].0));
                crate::codec::lemma_bytes_lt_transitive(s[0].0, s[i].0, s[0].0);
            }
            crate::codec::lemma_bytes_lt_irreflexive(s[0].0);
        }
        assert(t[0] == s[0]);
        let s1 = s.drop_first();
        let t1 = t.drop_first();
        assert forall|e: (Seq<u8>, Seq<u8>)|
            #![trigger s1.contains(e)]
            #![trigger t1.contains(e)]
            s1.contains(e) <==> t1.contains(e) by {
            if s1.contains(e) {
                let k = choose|k: int| 0 <= k < s1.len() && s1[k] == e;
                assert(s[k + 1] == e);
                assert(crate::codec::bytes_lt(s[0].0, s[k + 1].0));
                assert(s.contains(e));
                let m = choose|m: int| 0 <= m < t.len() && t[m] == e;
                if m == 0 {
                    crate::codec::lemma_bytes_lt_irreflexive(s[0].0);
                }
                assert(t1[m - 1] == e);
            }
            if t1.contains(e) {
                let k = choose|k: int| 0 <= k < t1.len() && t1[k] == e;
                assert(t[k + 1] == e);
                assert(crate::codec::bytes_lt(t[0].0, t[k + 1].0));
                assert(t.contains(e));
                let m = choose|m: int| 0 <= m < s.len() && s[m] == e;
                if m == 0 {
                    crate::codec::lemma_bytes_lt_irreflexive(t[0].0);
                }
                assert(s1[m - 1] == e);
            }
        }
        assert forall|a: int, b: int|
            #![trigger s1[a], s1[b]]
            0 <= a < b < s1.len() implies crate::codec::bytes_lt(s1[a].0, s1[b].0) by {
            assert(s[a + 1] == s1[a] && s[b + 1] == s1[b]);
        }
        assert forall|a: int, b: int|
            #![trigger t1[a], t1[b]]
            0 <= a < b < t1.len() implies crate::codec::bytes_lt(t1[a].0, t1[b].0) by {
            assert(t[a + 1] == t1[a] && t[b + 1] == t1[b]);
        }
        lemma_sorted_members_equal(s1, t1);
        assert(s =~= seq![s[0]] + s1);
        assert(t =~= seq![t[0]] + t1);
    }
}

/// Two trees that hold the same map hold their entries in the same order,
/// and so have the same root: the root depends on what the tree holds, not
/// on the order in which it was inserted or removed.
pub proof fn lemma_root_depends_on_contents(a: SparseMerkleTree, b: SparseMerkleTree)
    requires
        a.wf(),
        b.wf(),
        a@ == b@,
    ensures
        a.entry_list() == b.entry_list(),
        subtree_digest(a.entry_list(), 0) == subtree_digest(b.entry_list(), 0),
{
    let s = a.entry_list();
    let t = b.entry_list();
    lemma_entry_list(a);
    lemma_entry_list(b);
    lemma_entry_list_ascending(a);
    lemma_entry_list_ascending(b);
    assert forall|e: (Seq<u8>, Seq<u8>)|
        #![trigger s.contains(e)]
        #![trigger t.contains(e)]
        s.contains(e) <==> t.contains(e) by {
        if s.contains(e) {
            let i = choose|i: int| 0 <= i < s.len() && s[i] == e;
            assert(a@.contains_key(s[i].0) && a@[s[i].0] == s[i].1);
            assert(b@.contains_key(e.0));
            let j = choose|j: int| 0 <= j < t.len() && (#[trigger] t[j]).0 == e.0;
            assert(b@[t[j].0] == t[j].1);
            assert(t[j] == e);
        }
        if t.contains(e) {
            let i = choose|i: int| 0 <= i < t.len() && t[i] == e;
            assert(b@.contains_key(t[i].0) && b@[t[i].0] == t[i].1);
            assert(a@.contains_key(e.0));
            let j = choose|j: int| 0 <= j < s.len() && (#[trigger] s[j]).0 == e.0;
            assert(a@[s[j].0] == s[j].1);
            assert(s[j] == e);
        }
    }
    lemma_sorted_members_equal(s, t);
}

/// A tree that holds nothing has the zero digest for its root; a tree that
/// holds one entry has that entry's leaf digest for its root.
pub proof fn lemma_small_roots(tree: SparseMerkleTree, key: Seq<u8>)
    requires
        tree.wf(),
    ensures
        tree@.len() == 0 ==> subtree_digest(tree.entry_list(), 0) == zero_digest(),
        tree@.len() == 1 && tree@.contains_key(key) ==> subtree_digest(tree.entry_list(), 0)
            == leaf_digest(key, tree@[key]),
{
    SparseMerkleTree::lemma_len_is_map_len(tree);
    lemma_entry_list(tree);
    if tree@.len() == 1 && tree@.contains_key(key) {
        let i = choose|i: int| 0 <= i < tree.entry_list().len() && (#[trigger] tree.entry_list()[i]).0 == key;
        assert(i == 0);
    }
}

/// A walk from `depth` meets at most one sibling per level left.
proof fn lemma_walk_siblings_bound(entries: Seq<(Seq<u8>, Seq<u8>)>, key: Seq<u8>, depth: nat)
    ensures
        walk_siblings(entries, key, depth).len() <= if depth <= 256 {
            256 - depth
        } else {
            0
        },
    decreases 256 - depth,
{
    if entries.len() > 1 && depth < 256 {
        let bit = digest_bit(key, depth);
        lemma_walk_siblings_bound(with_bit(entries, depth, bit), key, depth + 1);
    }
}

/// The shape of a proof: at most 256 siblings, one per level of the tree; in
/// an empty tree no siblings and no terminal leaf; in a tree of one entry no
/// siblings and that entry as the terminal leaf, whatever key is proved.
pub proof fn lemma_proof_shape(tree: SparseMerkleTree, key: Seq<u8>)
    requires
        tree.wf(),
    ensures
        walk_siblings(tree.entry_list(), key, 0).len() <= 256,
        tree@.len() == 0 ==> walk_siblings(tree.entry_list(), key, 0).len() == 0 && walk_terminal(
            tree.entry_list(),
            key,
            0,
        ) is None,
        tree@.len() == 1 ==> walk_siblings(tree.entry_list(), key, 0).len() == 0 && exists|
            held: Seq<u8>,
        |
            tree@.contains_key(held) && walk_terminal(tree.entry_list(), key, 0) == Some(
                (held, #[trigger] tree@[held]),
            ),
{
    lemma_walk_siblings_bound(tree.entry_list(), key, 0);
    SparseMerkleTree::lemma_len_is_map_len(tree);
    lemma_entry_list(tree);
    if tree@.len() == 1 {
        let entry = tree.entry_list()[0];
        assert(tree@.contains_key(entry.0) && tree@[entry.0] == entry.1);
    }
}

} // verus!
