//! Social recovery: getting an identity back after losing every device.
//!
//! Each guardian sends its own approval naming the same target and the same
//! new root key, and the approvals accumulate. The first approval opens a
//! contestation window counted in finalised height; while it runs, any
//! surviving device of the account can cancel the whole recovery. Completing
//! one needs both the threshold of approvals and the elapsed window.

use vstd::prelude::*;
use vstd::string::StringExecFns;

use crate::block::ContestationWindow;
use crate::block::params::EPOCH_BLOCKS;
use crate::codec::{concat_encodings, varint_bytes, Encode, Encoder};
use crate::digits::{decimal_string, decimal_text};
use crate::hash::{blake3_derive_key, domain, hash, hex_chars, Digest};
use crate::id::AccountId;
use crate::name_book::saturating_sum;
use crate::sign::VerifyingKey;
use crate::sorted_map::{entry_keys, lemma_entries_map_at, lemma_entries_map_len, SortedMap};

verus! {

/// How long a recovery must wait before it can be completed, in finalised
/// blocks: seventy-two epochs.
pub const RECOVERY_WINDOW_FINALIZED_BLOCKS: u64 = 72 * EPOCH_BLOCKS;

/// A recovery in progress, as values: the proposed key, the guardians who
/// have approved, and the window as its opening height and duration.
pub type PendingView = ((u8, Seq<u8>), Set<Seq<u8>>, (u64, u64));

/// A number of approvals as a `u32`, saturating.
pub open spec fn saturating_count(n: nat) -> u32 {
    if n <= u32::MAX {
        n as u32
    } else {
        u32::MAX
    }
}

/// A recovery in progress.
#[derive(Debug, Clone, PartialEq, Eq)]
pub struct PendingRecovery {
    /// The proposed new root key.
    pub new_root_key: VerifyingKey,
    /// Which guardians have approved.
    pub approvals: SortedMap<AccountId, ()>,
    /// The window, in finalised height.
    pub window: ContestationWindow,
}

impl View for PendingRecovery {
    type V = PendingView;

    open spec fn view(&self) -> PendingView {
        (
            self.new_root_key@,
            self.approvals.map().dom(),
            (self.window.opened_at_finalized, self.window.duration),
        )
    }
}

impl PendingRecovery {
    /// The approvals are held in key order.
    pub open spec fn wf(self) -> bool {
        self.approvals.wf()
    }

    /// How many guardians have approved.
    pub fn approval_count(&self) -> (count: u32)
        ensures
            count == saturating_count(self.approvals.entries().len()),
            self.wf() ==> count == saturating_count(self@.1.len()),
    {
        proof {
            if self.wf() {
                lemma_entries_map_len(self.approvals.entries());
            }
        }
        let count = self.approvals.len();
        if count > u32::MAX as usize {
            u32::MAX
        } else {
            count as u32
        }
    }

    /// The digest stored in the state tree.
    pub fn value_hash(&self) -> (digest: Digest)
        ensures
            digest@ == blake3_derive_key(domain::STATE_VALUE@, self.spec_encode()),
    {
        let bytes = self.to_canonical_bytes();
        hash(domain::STATE_VALUE, bytes.as_slice())
    }
}

impl Encode for PendingRecovery {
    open spec fn spec_encode(&self) -> Seq<u8> {
        self.new_root_key.spec_encode() + varint_bytes(self.approvals.entries().len())
            + concat_encodings(entry_keys(self.approvals.entries())) + varint_bytes(
            self.window.opened_at_finalized as nat,
        ) + varint_bytes(self.window.duration as nat)
    }

    fn encode(&self, out: &mut Encoder) {
        self.new_root_key.encode(out);
        out.write_ordered_set(&self.approvals);
        out.write_varint(self.window.opened_at_finalized);
        out.write_varint(self.window.duration);
        assert(out@ =~= old(out)@ + self.spec_encode());
    }
}

/// Why a recovery operation failed.
#[derive(Debug, Clone, PartialEq, Eq)]
pub enum RecoveryError {
    /// The approver is not a guardian of this account.
    NotAGuardian(AccountId),
    /// The account has named no guardians, so nothing can be recovered.
    NoGuardians,
    /// This guardian has already approved.
    AlreadyApproved(AccountId),
    /// A recovery is under way for a different key. Without this refusal a
    /// single rogue guardian approving with its own key would redirect a
    /// recovery the others had already approved.
    ConflictingKey,
    /// No recovery is under way.
    NotRecovering,
    /// The window has not elapsed in finalised height.
    WindowOpen {
        /// The finalised height supplied.
        finalized_height: u64,
        /// When the window closes.
        closes_at: u64,
    },
    /// Not enough guardians have approved.
    BelowThreshold {
        /// How many have.
        approvals: u32,
        /// How many are needed.
        threshold: u32,
    },
}

/// How a recovery error reads.
pub open spec fn recovery_error_text(error: RecoveryError) -> Seq<char> {
    match error {
        RecoveryError::NotAGuardian(account) => hex_chars(account@) + " is not a guardian"@,
        RecoveryError::NoGuardians => "the account has named no guardians"@,
        RecoveryError::AlreadyApproved(account) => hex_chars(account@) + " has already approved"@,
        RecoveryError::ConflictingKey => "a recovery is already under way for a different key"@,
        RecoveryError::NotRecovering => "no recovery is under way"@,
        RecoveryError::WindowOpen { finalized_height, closes_at } =>
            "the window closes at finalised height "@ + decimal_text(closes_at as nat) + ", now "@
            + decimal_text(finalized_height as nat),
        RecoveryError::BelowThreshold { approvals, threshold } => decimal_text(approvals as nat)
            + " of "@ + decimal_text(threshold as nat) + " guardians have approved"@,
    }
}

impl RecoveryError {
    /// The error as it is displayed.
    pub fn to_string(&self) -> (text: String)
        ensures
            text@ == recovery_error_text(*self),
    {
        match self {
            RecoveryError::NotAGuardian(account) => {
                let mut text = account.to_hex();
                text.append(" is not a guardian");
                text
            },
            RecoveryError::NoGuardians => String::from_str("the account has named no guardians"),
            RecoveryError::AlreadyApproved(account) => {
                let mut text = account.to_hex();
                text.append(" has already approved");
                text
            },
            RecoveryError::ConflictingKey => String::from_str(
                "a recovery is already under way for a different key",
            ),
            RecoveryError::NotRecovering => String::from_str("no recovery is under way"),
            RecoveryError::WindowOpen { finalized_height, closes_at } => {
                let mut text = String::from_str("the window closes at finalised height ");
                text.append(decimal_string(*closes_at).as_str());
                text.append(", now ");
                text.append(decimal_string(*finalized_height).as_str());
                text
            },
            RecoveryError::BelowThreshold { approvals, threshold } => {
                let mut text = decimal_string(*approvals as u64);
                text.append(" of ");
                text.append(decimal_string(*threshold as u64).as_str());
                text.append(" guardians have approved");
                text
            },
        }
    }
}

/// What an approval does to the recoveries under way: the refusal, in the
/// order the conditions are checked, or the recoveries afterwards.
pub open spec fn approval_result(
    book: Map<Seq<u8>, PendingView>,
    target: Seq<u8>,
    key: (u8, Seq<u8>),
    guardian: AccountId,
    guardians: Set<Seq<u8>>,
    window: (u64, u64),
) -> Result<Map<Seq<u8>, PendingView>, RecoveryError> {
    if guardians == Set::<Seq<u8>>::empty() {
        Err(RecoveryError::NoGuardians)
    } else if !guardians.contains(guardian@) {
        Err(RecoveryError::NotAGuardian(guardian))
    } else if book.contains_key(target) {
        let pending = book[target];
        if pending.0 != key {
            Err(RecoveryError::ConflictingKey)
        } else if pending.1.contains(guardian@) {
            Err(RecoveryError::AlreadyApproved(guardian))
        } else {
            Ok(book.insert(target, (pending.0, pending.1.insert(guardian@), pending.2)))
        }
    } else {
        Ok(book.insert(target, (key, set![guardian@], window)))
    }
}

/// What completing a recovery gives: the refusal, in the order the
/// conditions are checked, or the key that becomes the account's root.
pub open spec fn finalise_result(
    book: Map<Seq<u8>, PendingView>,
    target: Seq<u8>,
    threshold: u32,
    finalized_height: u64,
) -> Result<(u8, Seq<u8>), RecoveryError> {
    if !book.contains_key(target) {
        Err(RecoveryError::NotRecovering)
    } else {
        let pending = book[target];
        let approvals = saturating_count(pending.1.len());
        let (opened, duration) = pending.2;
        if approvals < threshold {
            Err(RecoveryError::BelowThreshold { approvals, threshold })
        } else if !(opened + duration <= u64::MAX && finalized_height >= opened + duration) {
            Err(
                RecoveryError::WindowOpen {
                    finalized_height,
                    closes_at: saturating_sum(opened, duration),
                },
            )
        } else {
            Ok(pending.0)
        }
    }
}

/// Only a guardian of the account can approve its recovery, and once: an
/// approval adds exactly that guardian to those who approved the same key,
/// so the count of approvals grows by one and never counts anyone twice.
pub proof fn lemma_approval_counts_guardians_once(
    book: Map<Seq<u8>, PendingView>,
    target: Seq<u8>,
    key: (u8, Seq<u8>),
    guardian: AccountId,
    guardians: Set<Seq<u8>>,
    window: (u64, u64),
)
    requires
        book.contains_key(target) ==> book[target].1.finite(),
    ensures
        approval_result(book, target, key, guardian, guardians, window) matches Ok(after) ==> {
            &&& guardians.contains(guardian@)
            &&& after.contains_key(target)
            &&& after[target].0 == key
            &&& after[target].1 == if book.contains_key(target) {
                book[target].1.insert(guardian@)
            } else {
                set![guardian@]
            }
            &&& book.contains_key(target) ==> !book[target].1.contains(guardian@)
                && after[target].1.len() == book[target].1.len() + 1
            &&& !book.contains_key(target) ==> after[target].1.len() == 1
            &&& forall|other: Seq<u8>| other != target ==> after.contains_key(other) == book.contains_key(other)
                && (#[trigger] book.contains_key(other) ==> after[other] == book[other])
        },
        !guardians.contains(guardian@) ==> approval_result(book, target, key, guardian, guardians, window) is Err,
{
    assert(set![guardian@].len() == 1) by {
        assert(set![guardian@] =~= Set::<Seq<u8>>::empty().insert(guardian@));
    }
}

/// A recovery completes only once at least `threshold` distinct guardians
/// have approved it and its window has closed; while fewer have approved,
/// the answer is a refusal that counts them against the threshold.
pub proof fn lemma_finalise_needs_threshold(
    book: Map<Seq<u8>, PendingView>,
    target: Seq<u8>,
    threshold: u32,
    finalized_height: u64,
)
    ensures
        finalise_result(book, target, threshold, finalized_height) is Ok ==> {
            &&& book.contains_key(target)
            &&& book[target].1.len() >= threshold
            &&& book[target].2.0 + book[target].2.1 <= finalized_height
        },
        book.contains_key(target) && book[target].1.len() < threshold ==> finalise_result(
            book,
            target,
            threshold,
            finalized_height,
        ) == Err::<(u8, Seq<u8>), RecoveryError>(
            RecoveryError::BelowThreshold { approvals: book[target].1.len() as u32, threshold },
        ),
{
}

/// Recoveries in progress, by the account being recovered.
#[derive(Debug, Clone, PartialEq, Eq)]
pub struct RecoveryBook {
    pending: SortedMap<AccountId, PendingRecovery>,
}

impl View for RecoveryBook {
    type V = Map<Seq<u8>, PendingView>;

    /// Each recovery under way, by the bytes of the account being recovered.
    closed spec fn view(&self) -> Map<Seq<u8>, PendingView> {
        self.pending.map().map_values(|pending: PendingRecovery| pending@)
    }
}

impl RecoveryBook {
    /// The recoveries are held in account order, each with its approvals in
    /// order.
    pub closed spec fn wf(self) -> bool {
        &&& self.pending.wf()
        &&& forall|key: Seq<u8>| #[trigger]
            self.pending.map().contains_key(key) ==> self.pending.map()[key].wf()
    }

    /// The recoveries under way, in ascending account order.
    pub closed spec fn recovery_list(self) -> Seq<(AccountId, PendingRecovery)> {
        self.pending.entries()
    }

    /// No recoveries under way.
    pub fn new() -> (book: Self)
        ensures
            book.wf(),
            book@ == Map::<Seq<u8>, PendingView>::empty(),
    {
        let book = RecoveryBook { pending: SortedMap::new() };
        assert(book@ =~= Map::<Seq<u8>, PendingView>::empty());
        book
    }

    /// The recovery under way for an account, if any.
    pub fn get(&self, target: &AccountId) -> (pending: Option<&PendingRecovery>)
        requires
            self.wf(),
        ensures
            self@.contains_key(target@) ==> (pending matches Some(p) && p@ == self@[target@]
                && p.wf()),
            !self@.contains_key(target@) ==> pending is None,
    {
        self.pending.get(target)
    }

    /// How many recoveries are under way.
    pub fn len(&self) -> (count: usize)
        requires
            self.wf(),
        ensures
            count == self@.dom().len(),
    {
        proof {
            lemma_entries_map_len(self.pending.entries());
            assert(self@.dom() =~= self.pending.map().dom());
        }
        self.pending.len()
    }

    /// Whether none are.
    pub fn is_empty(&self) -> (empty: bool)
        requires
            self.wf(),
        ensures
            empty == (self@.dom().len() == 0),
    {
        self.len() == 0
    }

    /// Every recovery, in strictly ascending account order.
    pub fn iter(&self) -> (recoveries: &[(AccountId, PendingRecovery)])
        requires
            self.wf(),
        ensures
            recoveries@ == self.recovery_list(),
            crate::sorted_map::ascending(recoveries@),
            forall|i: int|
                0 <= i < recoveries@.len() ==> self@.contains_key(#[trigger] recoveries@[i].0@)
                    && self@[recoveries@[i].0@] == recoveries@[i].1@,
    {
        proof {
            let entries = self.pending.entries();
            assert forall|i: int| 0 <= i < entries.len() implies self@.contains_key(
                #[trigger] entries[i].0@,
            ) && self@[entries[i].0@] == entries[i].1@ by {
                lemma_entries_map_at(entries, i);
            }
        }
        self.pending.as_slice()
    }

    /// Records one guardian's approval, opening the window if it is the
    /// first. Later approvals never restart the clock, and a refused approval
    /// changes nothing.
    ///
    /// `guardians` is the guardian set of the account being recovered.
    pub fn approve(
        &mut self,
        target: AccountId,
        new_root_key: &VerifyingKey,
        guardian: AccountId,
        guardians: &SortedMap<AccountId, ()>,
        window: ContestationWindow,
    ) -> (result: Result<(), RecoveryError>)
        requires
            old(self).wf(),
            guardians.wf(),
        ensures
            final(self).wf(),
            match approval_result(
                old(self)@,
                target@,
                new_root_key@,
                guardian,
                guardians.map().dom(),
                (window.opened_at_finalized, window.duration),
            ) {
                Ok(after) => result is Ok && final(self)@ == after,
                Err(error) => result == Err::<(), RecoveryError>(error) && final(self)@ == old(
                    self,
                )@,
            },
            result is Ok ==> {
                &&& guardians.map().dom().contains(guardian@)
                &&& final(self)@.contains_key(target@)
                &&& old(self)@.contains_key(target@) ==> !old(self)@[target@].1.contains(guardian@)
                    && final(self)@[target@].1 == old(self)@[target@].1.insert(guardian@)
                &&& !old(self)@.contains_key(target@) ==> final(self)@[target@].1 == set![guardian@]
            },
            !guardians.map().dom().contains(guardian@) ==> result is Err && final(self)@ == old(self)@,
    {
        proof {
            lemma_entries_map_len(guardians.entries());
            if guardians.entries().len() == 0 {
                assert(guardians.map().dom() =~= Set::<Seq<u8>>::empty());
            } else {
                lemma_entries_map_at(guardians.entries(), 0);
                assert(guardians.map().dom().contains(guardians.entries()[0].0@));
            }
        }
        if guardians.len() == 0 {
            return Err(RecoveryError::NoGuardians);
        }
        if !guardians.contains(&guardian) {
            return Err(RecoveryError::NotAGuardian(guardian));
        }
        let ghost before = self@;
        match self.pending.get(&target) {
            Some(existing) => {
                if !existing.new_root_key.same_as(new_root_key) {
                    return Err(RecoveryError::ConflictingKey);
                }
                if existing.approvals.contains(&guardian) {
                    return Err(RecoveryError::AlreadyApproved(guardian));
                }
            },
            None => {
                let mut approvals: SortedMap<AccountId, ()> = SortedMap::new();
                approvals.insert(guardian, ());
                let pending = PendingRecovery {
                    new_root_key: new_root_key.clone(),
                    approvals,
                    window,
                };
                let ghost inner = self.pending.map();
                self.pending.insert(target, pending);
                proof {
                    assert(pending@.1 =~= set![guardian@]);
                    assert(self@ =~= before.insert(target@, pending@));
                    assert forall|key: Seq<u8>| #[trigger]
                        self.pending.map().contains_key(key) implies self.pending.map()[key].wf() by {
                        if key != target@ {
                            assert(inner.contains_key(key));
                        }
                    }
                }
                return Ok(());
            },
        }
        let ghost inner = self.pending.map();
        let removed = self.pending.remove(&target);
        match removed {
            Some(mut existing) => {
                let ghost prior = existing@;
                existing.approvals.insert(guardian, ());
                self.pending.insert(target, existing);
                proof {
                    assert(existing@.1 =~= prior.1.insert(guardian@));
                    assert(self@ =~= before.insert(target@, existing@));
                    assert forall|key: Seq<u8>| #[trigger]
                        self.pending.map().contains_key(key) implies self.pending.map()[key].wf() by {
                        if key != target@ {
                            assert(inner.contains_key(key));
                        }
                    }
                }
                Ok(())
            },
            None => {
                proof {
                    assert(false);
                }
                Ok(())
            },
        }
    }

    /// What an approval would answer, read without changing anything.
    pub(crate) fn check_approval(
        &self,
        target: &AccountId,
        new_root_key: &VerifyingKey,
        guardian: AccountId,
        guardians: &SortedMap<AccountId, ()>,
    ) -> (result: Result<(), RecoveryError>)
        requires
            self.wf(),
            guardians.wf(),
        ensures
            forall|window: (u64, u64)|
                match #[trigger] approval_result(
                    self@,
                    target@,
                    new_root_key@,
                    guardian,
                    guardians.map().dom(),
                    window,
                ) {
                    Ok(_) => result is Ok,
                    Err(error) => result == Err::<(), RecoveryError>(error),
                },
    {
        proof {
            lemma_entries_map_len(guardians.entries());
            if guardians.entries().len() == 0 {
                assert(guardians.map().dom() =~= Set::<Seq<u8>>::empty());
            } else {
                lemma_entries_map_at(guardians.entries(), 0);
                assert(guardians.map().dom().contains(guardians.entries()[0].0@));
            }
        }
        if guardians.len() == 0 {
            return Err(RecoveryError::NoGuardians);
        }
        if !guardians.contains(&guardian) {
            return Err(RecoveryError::NotAGuardian(guardian));
        }
        match self.pending.get(target) {
            Some(existing) => {
                if !existing.new_root_key.same_as(new_root_key) {
                    return Err(RecoveryError::ConflictingKey);
                }
                if existing.approvals.contains(&guardian) {
                    return Err(RecoveryError::AlreadyApproved(guardian));
                }
                Ok(())
            },
            None => Ok(()),
        }
    }

    /// Cancels a recovery, handing back what it was. The owner's remedy: the
    /// guardians can start a recovery, and cannot finish one against an
    /// owner who still holds a device.
    pub fn cancel(&mut self, target: &AccountId) -> (result: Result<PendingRecovery, RecoveryError>)
        requires
            old(self).wf(),
        ensures
            final(self).wf(),
            old(self)@.contains_key(target@) ==> (result matches Ok(pending) && pending@ == old(
                self,
            )@[target@] && final(self)@ == old(self)@.remove(target@)),
            !old(self)@.contains_key(target@) ==> result == Err::<PendingRecovery, RecoveryError>(
                RecoveryError::NotRecovering,
            ) && final(self)@ == old(self)@,
    {
        let ghost inner = self.pending.map();
        match self.pending.remove(target) {
            Some(pending) => {
                proof {
                    assert(self@ =~= old(self)@.remove(target@));
                    assert forall|key: Seq<u8>| #[trigger]
                        self.pending.map().contains_key(key) implies self.pending.map()[key].wf() by {
                        assert(inner.contains_key(key));
                    }
                }
                Ok(pending)
            },
            None => {
                proof {
                    assert(self@ =~= old(self)@);
                }
                Err(RecoveryError::NotRecovering)
            },
        }
    }

    /// Whether completing the recovery of `target` would succeed, without
    /// completing it: the refusal `finalise` would give, or success.
    pub(crate) fn check_finalise(&self, target: &AccountId, threshold: u32, finalized_height: u64) -> (result:
        Result<(), RecoveryError>)
        requires
            self.wf(),
        ensures
            match finalise_result(self@, target@, threshold, finalized_height) {
                Ok(_) => result is Ok,
                Err(error) => result == Err::<(), RecoveryError>(error),
            },
            result is Ok ==> self@.contains_key(target@) && self@[target@].1.len() >= threshold,
    {
        proof {
            lemma_finalise_needs_threshold(self@, target@, threshold, finalized_height);
        }
        let pending = match self.pending.get(target) {
            Some(pending) => pending,
            None => {
                return Err(RecoveryError::NotRecovering);
            },
        };
        let approvals = pending.approval_count();
        if approvals < threshold {
            return Err(RecoveryError::BelowThreshold { approvals, threshold });
        }
        if !pending.window.has_elapsed(finalized_height) {
            return Err(
                RecoveryError::WindowOpen {
                    finalized_height,
                    closes_at: pending.window.opened_at_finalized.saturating_add(
                        pending.window.duration,
                    ),
                },
            );
        }
        Ok(())
    }

    /// Completes a recovery, returning the key that becomes the account's
    /// root. Needs both the threshold and the elapsed window; a refusal
    /// changes nothing.
    pub fn finalise(&mut self, target: &AccountId, threshold: u32, finalized_height: u64) -> (result:
        Result<VerifyingKey, RecoveryError>)
        requires
            old(self).wf(),
        ensures
            final(self).wf(),
            match finalise_result(old(self)@, target@, threshold, finalized_height) {
                Ok(key) => result matches Ok(k) && k@ == key && final(self)@ == old(self)@.remove(
                    target@,
                ),
                Err(error) => result == Err::<VerifyingKey, RecoveryError>(error) && final(self)@
                    == old(self)@,
            },
            result is Ok ==> {
                &&& old(self)@.contains_key(target@)
                &&& old(self)@[target@].1.len() >= threshold
                &&& old(self)@[target@].2.0 + old(self)@[target@].2.1 <= finalized_height
                &&& final(self)@ == old(self)@.remove(target@)
            },
            old(self)@.contains_key(target@) && old(self)@[target@].1.len() < threshold ==> result
                == Err::<VerifyingKey, RecoveryError>(
                RecoveryError::BelowThreshold {
                    approvals: old(self)@[target@].1.len() as u32,
                    threshold,
                },
            ) && final(self)@ == old(self)@,
            result is Err ==> final(self)@ == old(self)@,
    {
        proof {
            lemma_finalise_needs_threshold(old(self)@, target@, threshold, finalized_height);
        }
        let pending = match self.pending.get(target) {
            Some(pending) => pending,
            None => {
                return Err(RecoveryError::NotRecovering);
            },
        };
        let approvals = pending.approval_count();
        if approvals < threshold {
            return Err(RecoveryError::BelowThreshold { approvals, threshold });
        }
        if !pending.window.has_elapsed(finalized_height) {
            return Err(
                RecoveryError::WindowOpen {
                    finalized_height,
                    closes_at: pending.window.opened_at_finalized.saturating_add(
                        pending.window.duration,
                    ),
                },
            );
        }
        let key = pending.new_root_key.clone();
        let ghost inner = self.pending.map();
        self.pending.remove(target);
        proof {
            assert(self@ =~= old(self)@.remove(target@));
            assert forall|key: Seq<u8>| #[trigger]
                self.pending.map().contains_key(key) implies self.pending.map()[key].wf() by {
                assert(inner.contains_key(key));
            }
        }
        Ok(key)
    }
}

} // verus!
