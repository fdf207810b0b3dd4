//! Registered names, and the commit-and-reveal that protects them.
//!
//! A registration is two acts. First a sealed commitment, which says nothing
//! about the name; then, once the commitment has settled, the reveal that
//! opens it. A front-runner who sees the reveal has nothing to run in front
//! of. The delay is counted in finalised height, like every other deadline.

use vstd::prelude::*;
use vstd::string::StringExecFns;

use crate::block::params::EPOCH_BLOCKS;
use crate::codec::{
    begins_with, lemma_begins_with_pieces, lemma_begins_with_varint, lemma_decoded_pieces,
    lemma_varint_canonical, parse_varint, varint_bytes, CodecError, Decode, Decoder, Encode,
    Encoder,
};
use crate::digits::{decimal_string, decimal_text};
use crate::hash::{blake3_derive_key, domain, hash, hex_chars, Digest};
use crate::id::AccountId;
use crate::name::{Name, PREMIUM_NAME_LEN};
use crate::smt::digest_views;
use crate::sorted_map::{entries_map, lemma_entries_map_at, SortKey, SortedMap};
use crate::tx::{commitment_of, name_commitment};

verus! {

/// How long a commitment must settle before it may be revealed, in finalised
/// blocks.
pub const MIN_REVEAL_DELAY_FINALIZED_BLOCKS: u64 = 10;

/// How long an unopened commitment survives, in finalised blocks: twelve
/// epochs.
pub const COMMITMENT_EXPIRY_FINALIZED_BLOCKS: u64 = 12 * EPOCH_BLOCKS;

/// `a + b`, or `u64::MAX` when that overflows.
pub open spec fn saturating_sum(a: u64, b: u64) -> u64 {
    if a + b > u64::MAX {
        u64::MAX
    } else {
        (a + b) as u64
    }
}

/// Whether a commitment made at `committed_at` has expired by `now`.
pub open spec fn expired(committed_at: u64, now: u64) -> bool {
    now > saturating_sum(committed_at, COMMITMENT_EXPIRY_FINALIZED_BLOCKS)
}

/// A commitment has expired once the finalised height has gone past its
/// staking height by more than the expiry period; the sum never wraps.
pub proof fn lemma_expiry(committed_at: u64, now: u64)
    ensures
        expired(committed_at, now) <==> now > committed_at + COMMITMENT_EXPIRY_FINALIZED_BLOCKS,
{
}

/// A sealed registration claim.
#[derive(Debug, Clone, Copy, PartialEq, Eq)]
pub struct CommitmentRecord {
    /// Who staked it.
    pub account: AccountId,
    /// The finalised height it was recorded at.
    pub committed_at_finalized: u64,
}

impl View for CommitmentRecord {
    type V = (Seq<u8>, u64);

    open spec fn view(&self) -> (Seq<u8>, u64) {
        (self.account@, self.committed_at_finalized)
    }
}

impl CommitmentRecord {
    /// The digest stored in the state tree: the state-value digest of the
    /// record's canonical encoding.
    pub fn value_hash(&self) -> (digest: Digest)
        ensures
            digest@ == blake3_derive_key(domain::STATE_VALUE@, self.spec_encode()),
    {
        let bytes = self.to_canonical_bytes();
        hash(domain::STATE_VALUE, bytes.as_slice())
    }
}

impl Encode for CommitmentRecord {
    open spec fn spec_encode(&self) -> Seq<u8> {
        self.account@ + varint_bytes(self.committed_at_finalized as nat)
    }

    fn encode(&self, out: &mut Encoder) {
        self.account.encode(out);
        out.write_varint(self.committed_at_finalized);
        assert(out@ =~= old(out)@ + self.spec_encode());
    }
}

impl Decode for CommitmentRecord {
    open spec fn decodable(&self, level: nat) -> bool {
        true
    }

    fn decode(input: &mut Decoder<'_>) -> (result: Result<Self, CodecError>) {
        let ghost data = input.data();
        let ghost start = input.pos() as int;
        let ghost s = input.rest();
        proof {
            assert forall|v: CommitmentRecord| #[trigger]
                v.decodable(input.level()) && begins_with(s, v) implies s.len() >= 32 && s.take(32)
                == v.account@ && parse_varint(s.skip(32)) == Ok::<(nat, nat), CodecError>(
                (
                    v.committed_at_finalized as nat,
                    varint_bytes(v.committed_at_finalized as nat).len(),
                ),
            ) by {
                AccountId::lemma_len(v.account);
                lemma_begins_with_pieces(
                    s,
                    v.account@,
                    varint_bytes(v.committed_at_finalized as nat),
                );
                lemma_begins_with_varint(s.skip(32), v.committed_at_finalized as nat);
            }
        }
        let account = AccountId::decode(input)?;
        proof {
            AccountId::lemma_len(account);
            assert(input.rest() =~= s.skip(32));
            lemma_varint_canonical(input.rest());
        }
        let committed_at_finalized = input.read_varint()?;
        proof {
            lemma_decoded_pieces(
                data,
                start,
                account.spec_encode(),
                committed_at_finalized.spec_encode(),
            );
        }
        Ok(CommitmentRecord { account, committed_at_finalized })
    }
}

/// Why a name operation failed.
#[derive(Debug, Clone, PartialEq, Eq)]
pub enum NameError {
    /// The commitment is already staked.
    CommitmentExists,
    /// No such commitment, or it was staked by somebody else: one error, so
    /// that nobody can probe for other people's pending claims.
    NoSuchCommitment,
    /// The commitment has not settled for long enough.
    TooSoon {
        /// The finalised height it was staked at.
        committed_at: u64,
        /// The finalised height now.
        now: u64,
    },
    /// The commitment expired unopened.
    CommitmentExpired {
        /// The finalised height it was staked at.
        committed_at: u64,
        /// The finalised height now.
        now: u64,
    },
    /// Somebody already holds the name.
    NameTaken {
        /// Who holds it.
        owner: AccountId,
    },
    /// The name is short enough to be auctioned, and auctions do not exist
    /// yet.
    PremiumNotAuctioned {
        /// The name in question.
        name: Name,
    },
}

/// The keys of the commitments in `entries` that have expired by `now`, in
/// order.
pub open spec fn expired_keys(entries: Seq<(Digest, CommitmentRecord)>, now: u64) -> Seq<Seq<u8>>
    decreases entries.len(),
{
    if entries.len() == 0 {
        Seq::empty()
    } else {
        let rest = expired_keys(entries.drop_last(), now);
        if expired(entries.last().1.committed_at_finalized, now) {
            rest.push(entries.last().0@)
        } else {
            rest
        }
    }
}

/// What opening the commitment of `account` to `name` with `salt` at
/// `finalized_height` answers: the refusal, in the order the conditions are
/// checked, or success.
pub open spec fn reveal_result(
    book: (Map<Seq<u8>, Seq<u8>>, Map<Seq<u8>, (Seq<u8>, u64)>),
    name: Name,
    salt: [u8; 32],
    account: AccountId,
    finalized_height: u64,
) -> Result<(), NameError> {
    let key = commitment_of(name.spec_encode(), salt@, account@);
    if name@.len() < PREMIUM_NAME_LEN {
        Err(NameError::PremiumNotAuctioned { name })
    } else if !book.1.contains_key(key) || book.1[key].0 != account@ {
        Err(NameError::NoSuchCommitment)
    } else if finalized_height < saturating_sum(book.1[key].1, MIN_REVEAL_DELAY_FINALIZED_BLOCKS) {
        Err(NameError::TooSoon { committed_at: book.1[key].1, now: finalized_height })
    } else if expired(book.1[key].1, finalized_height) {
        Err(NameError::CommitmentExpired { committed_at: book.1[key].1, now: finalized_height })
    } else if book.0.contains_key(name.sort_key()) {
        Err(NameError::NameTaken { owner: AccountId::from_view(book.0[name.sort_key()]) })
    } else {
        Ok(())
    }
}

/// A name is registered only by opening, in time, the claimant's own
/// commitment: the commitment to this name, salt and claimant must be
/// pending, staked by the claimant, at least the reveal delay old and not
/// past its expiry, and the name must be free and outside the premium range.
pub proof fn lemma_reveal_needs_own_timely_commitment(
    book: (Map<Seq<u8>, Seq<u8>>, Map<Seq<u8>, (Seq<u8>, u64)>),
    name: Name,
    salt: [u8; 32],
    account: AccountId,
    finalized_height: u64,
)
    ensures
        reveal_result(book, name, salt, account, finalized_height) is Ok ==> {
            let key = commitment_of(name.spec_encode(), salt@, account@);
            &&& name@.len() >= PREMIUM_NAME_LEN
            &&& book.1.contains_key(key)
            &&& book.1[key].0 == account@
            &&& book.1[key].1 + MIN_REVEAL_DELAY_FINALIZED_BLOCKS <= finalized_height
                || finalized_height == u64::MAX
            &&& finalized_height <= book.1[key].1 + COMMITMENT_EXPIRY_FINALIZED_BLOCKS
            &&& !book.0.contains_key(name.sort_key())
        },
{
}

/// Registered names and the commitments waiting to become them.
#[derive(Debug, Clone, PartialEq, Eq)]
pub struct NameBook {
    owners: SortedMap<Name, AccountId>,
    commitments: SortedMap<Digest, CommitmentRecord>,
}

impl View for NameBook {
    type V = (Map<Seq<u8>, Seq<u8>>, Map<Seq<u8>, (Seq<u8>, u64)>);

    /// Owners by name bytes, and commitment records by commitment digest.
    closed spec fn view(&self) -> (Map<Seq<u8>, Seq<u8>>, Map<Seq<u8>, (Seq<u8>, u64)>) {
        (
            self.owners.map().map_values(|a: AccountId| a@),
            self.commitments.map().map_values(|r: CommitmentRecord| r@),
        )
    }
}

impl NameBook {
    /// Both maps are held in key order.
    pub closed spec fn wf(self) -> bool {
        self.owners.wf() && self.commitments.wf()
    }

    /// The registered names, in ascending order.
    pub closed spec fn owner_list(self) -> Seq<(Name, AccountId)> {
        self.owners.entries()
    }

    /// The pending commitments, in ascending digest order.
    pub closed spec fn commitment_list(self) -> Seq<(Digest, CommitmentRecord)> {
        self.commitments.entries()
    }

    /// Nothing registered.
    pub fn new() -> (book: Self)
        ensures
            book.wf(),
            book@.0 == Map::<Seq<u8>, Seq<u8>>::empty(),
            book@.1 == Map::<Seq<u8>, (Seq<u8>, u64)>::empty(),
            book.owner_list().len() == 0,
            book.commitment_list().len() == 0,
    {
        let book = NameBook { owners: SortedMap::new(), commitments: SortedMap::new() };
        assert(book@.0 =~= Map::<Seq<u8>, Seq<u8>>::empty());
        assert(book@.1 =~= Map::<Seq<u8>, (Seq<u8>, u64)>::empty());
        book
    }

    /// Who holds a name.
    pub fn owner(&self, name: &Name) -> (owner: Option<AccountId>)
        requires
            self.wf(),
        ensures
            match owner {
                Some(a) => self@.0.contains_key(name.sort_key()) && a@ == self@.0[name.sort_key()],
                None => !self@.0.contains_key(name.sort_key()),
            },
    {
        match self.owners.get(name) {
            Some(owner) => Some(*owner),
            None => None,
        }
    }

    /// How many names are registered.
    pub fn len(&self) -> (count: usize)
        ensures
            count == self.owner_list().len(),
    {
        self.owners.len()
    }

    /// Whether no name is registered.
    pub fn is_empty(&self) -> (empty: bool)
        ensures
            empty == (self.owner_list().len() == 0),
    {
        self.owners.len() == 0
    }

    /// Every registered name, in strictly ascending order.
    pub fn iter(&self) -> (names: &[(Name, AccountId)])
        requires
            self.wf(),
        ensures
            names@ == self.owner_list(),
            crate::sorted_map::ascending(names@),
    {
        self.owners.as_slice()
    }

    /// Every pending commitment, in strictly ascending digest order.
    pub fn commitments(&self) -> (commitments: &[(Digest, CommitmentRecord)])
        requires
            self.wf(),
        ensures
            commitments@ == self.commitment_list(),
            crate::sorted_map::ascending(commitments@),
    {
        self.commitments.as_slice()
    }

    /// Whether a commitment is pending.
    pub(crate) fn has_commitment(&self, commitment: &Digest) -> (pending: bool)
        requires
            self.wf(),
        ensures
            pending == self@.1.contains_key(commitment@),
    {
        self.commitments.contains(commitment)
    }

    /// Whether `account` could open its commitment to `name` with `salt` at
    /// `finalized_height`, without opening it: the refusal `reveal_name`
    /// would give, or success.
    pub(crate) fn check_reveal(&self, name: &Name, salt: &[u8; 32], account: AccountId, finalized_height: u64) -> (result:
        Result<(), NameError>)
        requires
            self.wf(),
        ensures
            result == reveal_result(self@, *name, *salt, account, finalized_height),
    {
        if name.is_premium() {
            return Err(NameError::PremiumNotAuctioned { name: name.clone() });
        }
        let commitment = name_commitment(name, salt, account);
        let record = match self.commitments.get(&commitment) {
            Some(record) => *record,
            None => {
                return Err(NameError::NoSuchCommitment);
            },
        };
        if !record.account.same_as(&account) {
            return Err(NameError::NoSuchCommitment);
        }
        let earliest = record.committed_at_finalized.saturating_add(
            MIN_REVEAL_DELAY_FINALIZED_BLOCKS,
        );
        if finalized_height < earliest {
            return Err(
                NameError::TooSoon {
                    committed_at: record.committed_at_finalized,
                    now: finalized_height,
                },
            );
        }
        let deadline = record.committed_at_finalized.saturating_add(
            COMMITMENT_EXPIRY_FINALIZED_BLOCKS,
        );
        if finalized_height > deadline {
            return Err(
                NameError::CommitmentExpired {
                    committed_at: record.committed_at_finalized,
                    now: finalized_height,
                },
            );
        }
        if let Some(owner) = self.owner(name) {
            proof {
                AccountId::lemma_from_view(owner);
            }
            return Err(NameError::NameTaken { owner });
        }
        Ok(())
    }

    /// Stakes a sealed claim; a duplicate commitment is refused and changes
    /// nothing.
    pub fn commit(&mut self, commitment: Digest, account: AccountId, finalized_height: u64) -> (result:
        Result<(), NameError>)
        requires
            old(self).wf(),
        ensures
            final(self).wf(),
            old(self)@.1.contains_key(commitment@) ==> result == Err::<(), NameError>(
                NameError::CommitmentExists,
            ) && final(self)@ == old(self)@,
            !old(self)@.1.contains_key(commitment@) ==> result is Ok && final(self)@ == (
                old(self)@.0,
                old(self)@.1.insert(commitment@, (account@, finalized_height)),
            ),
    {
        if self.commitments.contains(&commitment) {
            return Err(NameError::CommitmentExists);
        }
        self.commitments.insert(
            commitment,
            CommitmentRecord { account, committed_at_finalized: finalized_height },
        );
        assert(self@.1 =~= old(self)@.1.insert(commitment@, (account@, finalized_height)));
        Ok(())
    }

    /// Opens a commitment and registers the name. The commitment is
    /// recomputed from the name, the salt and the claimant, so a reveal cannot
    /// open somebody else's claim even with their salt. A refused reveal
    /// changes nothing.
    pub fn reveal_name(&mut self, name: &Name, salt: &[u8; 32], account: AccountId, finalized_height: u64) -> (result:
        Result<(), NameError>)
        requires
            old(self).wf(),
        ensures
            final(self).wf(),
            result is Err ==> final(self)@ == old(self)@,
            name@.len() < PREMIUM_NAME_LEN ==> (result matches Err(
                NameError::PremiumNotAuctioned { name: refused },
            ) && refused@ == name@),
            name@.len() >= PREMIUM_NAME_LEN ==> {
                let key = commitment_of(name.spec_encode(), salt@, account@);
                if !old(self)@.1.contains_key(key) || old(self)@.1[key].0 != account@ {
                    result == Err::<(), NameError>(NameError::NoSuchCommitment)
                } else {
                    let at = old(self)@.1[key].1;
                    if finalized_height < saturating_sum(at, MIN_REVEAL_DELAY_FINALIZED_BLOCKS) {
                        result == Err::<(), NameError>(
                            NameError::TooSoon { committed_at: at, now: finalized_height },
                        )
                    } else if expired(at, finalized_height) {
                        result == Err::<(), NameError>(
                            NameError::CommitmentExpired { committed_at: at, now: finalized_height },
                        )
                    } else if old(self)@.0.contains_key(name.sort_key()) {
                        result matches Err(NameError::NameTaken { owner }) && owner@ == old(
                            self,
                        )@.0[name.sort_key()]
                    } else {
                        result is Ok && final(self)@ == (
                            old(self)@.0.insert(name.sort_key(), account@),
                            old(self)@.1.remove(key),
                        )
                    }
                }
            },
    {
        if name.is_premium() {
            return Err(NameError::PremiumNotAuctioned { name: name.clone() });
        }
        let commitment = name_commitment(name, salt, account);
        let record = match self.commitments.get(&commitment) {
            Some(record) => *record,
            None => {
                return Err(NameError::NoSuchCommitment);
            },
        };
        if !record.account.same_as(&account) {
            return Err(NameError::NoSuchCommitment);
        }
        let earliest = record.committed_at_finalized.saturating_add(
            MIN_REVEAL_DELAY_FINALIZED_BLOCKS,
        );
        if finalized_height < earliest {
            return Err(
                NameError::TooSoon {
                    committed_at: record.committed_at_finalized,
                    now: finalized_height,
                },
            );
        }
        let deadline = record.committed_at_finalized.saturating_add(
            COMMITMENT_EXPIRY_FINALIZED_BLOCKS,
        );
        if finalized_height > deadline {
            return Err(
                NameError::CommitmentExpired {
                    committed_at: record.committed_at_finalized,
                    now: finalized_height,
                },
            );
        }
        if let Some(owner) = self.owner(name) {
            return Err(NameError::NameTaken { owner });
        }
        self.commitments.remove(&commitment);
        self.owners.insert(name.clone(), account);
        proof {
            assert(self@.0 =~= old(self)@.0.insert(name.sort_key(), account@));
            assert(self@.1 =~= old(self)@.1.remove(commitment@));
        }
        Ok(())
    }

    /// Drops the commitments that expired unopened, returning how many.
    pub fn prune_expired(&mut self, finalized_height: u64) -> (count: usize)
        requires
            old(self).wf(),
        ensures
            final(self).wf(),
            final(self)@.0 == old(self)@.0,
            final(self)@.1 == Map::new(
                |key: Seq<u8>|
                    old(self)@.1.contains_key(key) && !expired(
                        old(self)@.1[key].1,
                        finalized_height,
                    ),
                |key: Seq<u8>| old(self)@.1[key],
            ),
            count == expired_keys(old(self).commitment_list(), finalized_height).len(),
    {
        let entries = self.commitments.as_slice();
        let ghost list = self.commitments.entries();
        let mut stale: Vec<Digest> = Vec::new();
        let mut index: usize = 0;
        while index < entries.len()
            invariant
                index <= entries@.len(),
                entries@ == list,
                digest_views(stale@) == expired_keys(list.take(index as int), finalized_height),
            decreases entries@.len() - index,
        {
            let (digest, record) = entries[index];
            assert(list.take(index + 1).drop_last() =~= list.take(index as int));
            if finalized_height > record.committed_at_finalized.saturating_add(
                COMMITMENT_EXPIRY_FINALIZED_BLOCKS,
            ) {
                stale.push(digest);
                assert(digest_views(stale@) =~= expired_keys(
                    list.take(index + 1),
                    finalized_height,
                ));
            }
            index = index + 1;
        }
        proof {
            assert(list.take(list.len() as int) =~= list);
            lemma_expired_keys(list, finalized_height);
        }
        let ghost keys = digest_views(stale@);
        let ghost before = old(self)@.1;
        let mut position: usize = 0;
        while position < stale.len()
            invariant
                position <= stale@.len(),
                keys == digest_views(stale@),
                self.wf(),
                self@.0 == old(self)@.0,
                self@.1 == before.remove_keys(keys.take(position as int).to_set()),
            decreases stale@.len() - position,
        {
            let ghost inner = self.commitments.map();
            self.commitments.remove(&stale[position]);
            proof {
                let done = keys.take(position as int);
                let key = keys[position as int];
                assert(stale@[position as int]@ == key);
                assert(keys.take(position + 1) =~= done.push(key));
                done.lemma_push_to_set_commute(key);
                assert(self.commitments.map() == inner.remove(key));
                assert(self@.1 =~= before.remove_keys(done.to_set()).remove(key));
                assert(before.remove_keys(done.to_set()).remove(key) =~= before.remove_keys(
                    done.to_set().insert(key),
                ));
            }
            position = position + 1;
        }
        proof {
            assert(keys.take(keys.len() as int) =~= keys);
            let live = Map::new(
                |key: Seq<u8>| before.contains_key(key) && !expired(before[key].1, finalized_height),
                |key: Seq<u8>| before[key],
            );
            assert forall|key: Seq<u8>| #[trigger] self@.1.contains_key(key) == live.contains_key(key) by {
                if before.contains_key(key) {
                    let i = choose|i: int|
                        0 <= i < list.len() && #[trigger] list[i].0.sort_key() == key;
                    lemma_entries_map_at(list, i);
                    if keys.contains(key) {
                        let j = choose|j: int| 0 <= j < list.len() && list[j].0@ == key && expired(
                            list[j].1.committed_at_finalized,
                            finalized_height,
                        );
                        lemma_entries_map_at(list, j);
                    }
                }
            }
            assert(self@.1 =~= live);
        }
        stale.len()
    }
}

/// The expired keys are exactly the keys of the expired entries.
proof fn lemma_expired_keys(entries: Seq<(Digest, CommitmentRecord)>, now: u64)
    ensures
        forall|key: Seq<u8>| #[trigger]
            expired_keys(entries, now).contains(key) <==> exists|j: int|
                0 <= j < entries.len() && entries[j].0@ == key && expired(
                    entries[j].1.committed_at_finalized,
                    now,
                ),
    decreases entries.len(),
{
    if entries.len() > 0 {
        let shorter = entries.drop_last();
        lemma_expired_keys(shorter, now);
        let rest = expired_keys(shorter, now);
        let last = entries.last();
        assert forall|key: Seq<u8>| #[trigger]
            expired_keys(entries, now).contains(key) <==> exists|j: int|
                0 <= j < entries.len() && entries[j].0@ == key && expired(
                    entries[j].1.committed_at_finalized,
                    now,
                ) by {
            if expired_keys(entries, now).contains(key) {
                if rest.contains(key) {
                    let j = choose|j: int|
                        0 <= j < shorter.len() && shorter[j].0@ == key && expired(
                            shorter[j].1.committed_at_finalized,
                            now,
                        );
                    assert(entries[j] == shorter[j]);
                } else {
                    let k = choose|k: int| 0 <= k < expired_keys(entries, now).len() && expired_keys(entries, now)[k] == key;
                    assert(k == rest.len());
                    assert(entries[entries.len() - 1] == last);
                }
            }
            if exists|j: int|
                0 <= j < entries.len() && entries[j].0@ == key && expired(
                    entries[j].1.committed_at_finalized,
                    now,
                ) {
                let j = choose|j: int|
                    0 <= j < entries.len() && entries[j].0@ == key && expired(
                        entries[j].1.committed_at_finalized,
                        now,
                    );
                if j < entries.len() - 1 {
                    assert(shorter[j] == entries[j]);
                    assert(rest.contains(key));
                    let k = choose|k: int| 0 <= k < rest.len() && rest[k] == key;
                    assert(expired_keys(entries, now)[k] == key);
                } else {
                    assert(expired_keys(entries, now)[rest.len() as int] == key);
                }
            }
        }
    }
}

/// How a name-book error reads.
pub open spec fn name_book_error_text(error: NameError) -> Seq<char> {
    match error {
        NameError::CommitmentExists => "that commitment is already staked"@,
        NameError::NoSuchCommitment => "no such commitment"@,
        NameError::TooSoon { committed_at, now } => "committed at finalised height "@
            + decimal_text(committed_at as nat) + ", now "@ + decimal_text(now as nat) + "; "@
            + decimal_text(MIN_REVEAL_DELAY_FINALIZED_BLOCKS as nat) + " must pass"@,
        NameError::CommitmentExpired { committed_at, now } => "commitment from finalised height "@
            + decimal_text(committed_at as nat) + " expired before "@ + decimal_text(now as nat),
        NameError::NameTaken { owner } => "that name belongs to "@ + hex_chars(owner@),
        NameError::PremiumNotAuctioned { name } => "'"@ + name@
            + "' is short enough to be auctioned, and the auction is not built"@,
    }
}

impl NameError {
    /// The error as it is displayed.
    pub fn to_string(&self) -> (text: String)
        ensures
            text@ == name_book_error_text(*self),
    {
        match self {
            NameError::CommitmentExists => String::from_str("that commitment is already staked"),
            NameError::NoSuchCommitment => String::from_str("no such commitment"),
            NameError::TooSoon { committed_at, now } => {
                let mut text = String::from_str("committed at finalised height ");
                text.append(decimal_string(*committed_at).as_str());
                text.append(", now ");
                text.append(decimal_string(*now).as_str());
                text.append("; ");
                text.append(decimal_string(MIN_REVEAL_DELAY_FINALIZED_BLOCKS).as_str());
                text.append(" must pass");
                text
            },
            NameError::CommitmentExpired { committed_at, now } => {
                let mut text = String::from_str("commitment from finalised height ");
                text.append(decimal_string(*committed_at).as_str());
                text.append(" expired before ");
                text.append(decimal_string(*now).as_str());
                text
            },
            NameError::NameTaken { owner } => {
                let mut text = String::from_str("that name belongs to ");
                text.append(owner.to_hex().as_str());
                text
            },
            NameError::PremiumNotAuctioned { name } => {
                let mut text = String::from_str("'");
                text.append(name.as_str());
                text.append("' is short enough to be auctioned, and the auction is not built");
                text
            },
        }
    }
}

} // verus!
