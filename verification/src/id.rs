//! The protocol's identifiers.
//!
//! All of them are 32-byte digests, and all of them are distinct types: a
//! function that takes an [`AccountId`] cannot be handed a [`DeviceId`].

use vstd::prelude::*;

use crate::codec::{begins_with, CodecError, Decode, Decoder, Encode, Encoder};
use crate::hash::{blake3_derive_key, domain, hash, parse_hex, zero_digest, Digest};
use crate::sign::VerifyingKey;
use crate::sorted_map::SortKey;

verus! {

/// An account: the state key under which balances, names, devices,
/// guardians and the nomad credit live. Derived from the account's root key,
/// never from a device key, so that revoking every device on an account does
/// not change its address.
#[derive(Debug, Clone, Copy, PartialEq, Eq, PartialOrd, Ord, Default)]
pub struct AccountId(Digest);

impl View for AccountId {
    type V = Seq<u8>;

    closed spec fn view(&self) -> Seq<u8> {
        self.0@
    }
}

impl AccountId {
    /// The identifier whose bytes are `bytes`, in specifications.
    pub open spec fn from_view(bytes: Seq<u8>) -> AccountId {
        choose|id: AccountId| #![trigger id@] id@ == bytes
    }

    /// An identifier is its bytes: two with the same bytes are the same.
    pub proof fn lemma_view_injective(a: AccountId, b: AccountId)
        requires
            a@ == b@,
        ensures
            a == b,
    {
        Digest::lemma_view_injective(a.0, b.0);
    }

    /// An identifier is the one `from_view` names for its bytes.
    pub proof fn lemma_from_view(id: AccountId)
        ensures
            AccountId::from_view(id@) == id,
    {
        let chosen = AccountId::from_view(id@);
        assert(exists|other: AccountId| #![trigger other@] other@ == id@);
        AccountId::lemma_view_injective(chosen, id);
    }
}

impl AccountId {
    /// Derives the account identifier of a root key: the account-id digest
    /// of the key's algorithm identifier followed by the key's bytes.
    pub fn of_root_key(key: &VerifyingKey) -> (id: Self)
        ensures
            id@ == blake3_derive_key(domain::ACCOUNT_ID@, key.spec_encode()),
    {
        let bytes = key.to_canonical_bytes();
        AccountId(hash(domain::ACCOUNT_ID, bytes.as_slice()))
    }

    /// The all-zero identifier: not the identifier of anything, a sentinel.
    pub fn zero() -> (id: Self)
        ensures
            id@ == zero_digest(),
    {
        AccountId(Digest::zero())
    }

    /// Wraps a digest that is already this kind of identifier.
    pub fn from_hash(hash: Digest) -> (id: Self)
        ensures
            id@ == hash@,
    {
        AccountId(hash)
    }

    /// The underlying digest.
    pub fn as_hash(&self) -> (hash: &Digest)
        ensures
            hash@ == self@,
    {
        &self.0
    }

    /// The 32 bytes.
    pub fn as_bytes(&self) -> (bytes: &[u8; 32])
        ensures
            bytes@ == self@,
    {
        self.0.as_bytes()
    }

    /// Whether two identifiers are the same bytes.
    pub fn same_as(&self, other: &Self) -> (same: bool)
        ensures
            same == (self@ == other@),
    {
        self.0.same_as(&other.0)
    }

    /// Lowercase hex, 64 characters.
    pub fn to_hex(&self) -> (text: String)
        ensures
            text@ == crate::hash::hex_bytes(self@).map_values(|b: u8| b as char),
    {
        self.0.to_hex()
    }

    /// Parses 64 hexadecimal digits, in either case.
    pub fn from_hex(text: &str) -> (result: Result<Self, CodecError>)
        ensures
            match parse_hex(text@) {
                Some(bytes) => result matches Ok(id) && id@ == bytes,
                None => result == Err::<Self, CodecError>(
                    CodecError::Invalid { reason: "not a valid AccountId" },
                ),
            },
    {
        match Digest::from_hex(text) {
            Some(hash) => Ok(AccountId(hash)),
            None => Err(CodecError::Invalid { reason: "not a valid AccountId" }),
        }
    }

    /// The identifier has 32 bytes.
    pub proof fn lemma_len(id: Self)
        ensures
            id@.len() == 32,
    {
        Digest::lemma_len(id.0);
    }
}

impl Encode for AccountId {
    open spec fn spec_encode(&self) -> Seq<u8> {
        self@
    }

    fn encode(&self, out: &mut Encoder) {
        self.0.encode(out);
        assert(out@ == old(out)@ + self.0@);
        assert(self@ == self.0@);
        assert(self.spec_encode() == self@);
    }
}

impl Decode for AccountId {
    open spec fn decodable(&self, level: nat) -> bool {
        true
    }

    fn decode(input: &mut Decoder<'_>) -> (result: Result<Self, CodecError>)
        ensures
            old(input).rest().len() >= 32 ==> (result matches Ok(id) && id@ == old(
                input,
            ).rest().take(32)),
            old(input).rest().len() < 32 ==> result == Err::<Self, CodecError>(
                CodecError::UnexpectedEnd { wanted: "fixed-width array" },
            ),
    {
        proof {
            assert forall|v: Self| #[trigger]
                v.decodable(input.level()) && begins_with(input.rest(), v) implies input.rest().len()
                >= 32 && input.rest().take(32) == v@ by {
                Self::lemma_len(v);
            }
        }
        let hash = Digest::decode(input)?;
        Ok(AccountId(hash))
    }
}

impl SortKey for AccountId {
    open spec fn sort_key(&self) -> Seq<u8> {
        self@
    }

    fn sort_bytes(&self) -> (bytes: Vec<u8>) {
        self.0.sort_bytes()
    }
}

/// A device subkey of an account. A device owns a nonce lane and a share
/// of the nomad credit; equivocation is provable within one device subkey.
#[derive(Debug, Clone, Copy, PartialEq, Eq, PartialOrd, Ord, Default)]
pub struct DeviceId(Digest);

impl View for DeviceId {
    type V = Seq<u8>;

    closed spec fn view(&self) -> Seq<u8> {
        self.0@
    }
}

impl DeviceId {
    /// Derives the device identifier of a device subkey: the device-id
    /// digest of the key's algorithm identifier followed by the key's bytes.
    pub fn of_device_key(key: &VerifyingKey) -> (id: Self)
        ensures
            id@ == blake3_derive_key(domain::DEVICE_ID@, key.spec_encode()),
            id == DeviceId::of_key_spec(*key),
    {
        let bytes = key.to_canonical_bytes();
        let id = DeviceId(hash(domain::DEVICE_ID, bytes.as_slice()));
        proof {
            let chosen = DeviceId::of_key_spec(*key);
            assert(id@ == blake3_derive_key(domain::DEVICE_ID@, key.spec_encode()));
            assert(exists|d: DeviceId| #![trigger d@] d@ == blake3_derive_key(domain::DEVICE_ID@, key.spec_encode()));
            assert(chosen@ == blake3_derive_key(domain::DEVICE_ID@, key.spec_encode()));
            Digest::lemma_view_injective(id.0, chosen.0);
        }
        id
    }

    /// The device identifier of a key, in specifications: the identifier
    /// whose bytes are the device-id digest of the key's encoding.
    pub open spec fn of_key_spec(key: VerifyingKey) -> DeviceId {
        choose|id: DeviceId| #![trigger id@] id@ == blake3_derive_key(domain::DEVICE_ID@, key.spec_encode())
    }

    /// The all-zero identifier: not the identifier of anything, a sentinel.
    pub fn zero() -> (id: Self)
        ensures
            id@ == zero_digest(),
    {
        DeviceId(Digest::zero())
    }

    /// Wraps a digest that is already this kind of identifier.
    pub fn from_hash(hash: Digest) -> (id: Self)
        ensures
            id@ == hash@,
    {
        DeviceId(hash)
    }

    /// The underlying digest.
    pub fn as_hash(&self) -> (hash: &Digest)
        ensures
            hash@ == self@,
    {
        &self.0
    }

    /// The 32 bytes.
    pub fn as_bytes(&self) -> (bytes: &[u8; 32])
        ensures
            bytes@ == self@,
    {
        self.0.as_bytes()
    }

    /// Whether two identifiers are the same bytes.
    pub fn same_as(&self, other: &Self) -> (same: bool)
        ensures
            same == (self@ == other@),
    {
        self.0.same_as(&other.0)
    }

    /// Lowercase hex, 64 characters.
    pub fn to_hex(&self) -> (text: String)
        ensures
            text@ == crate::hash::hex_bytes(self@).map_values(|b: u8| b as char),
    {
        self.0.to_hex()
    }

    /// Parses 64 hexadecimal digits, in either case.
    pub fn from_hex(text: &str) -> (result: Result<Self, CodecError>)
        ensures
            match parse_hex(text@) {
                Some(bytes) => result matches Ok(id) && id@ == bytes,
                None => result == Err::<Self, CodecError>(
                    CodecError::Invalid { reason: "not a valid DeviceId" },
                ),
            },
    {
        match Digest::from_hex(text) {
            Some(hash) => Ok(DeviceId(hash)),
            None => Err(CodecError::Invalid { reason: "not a valid DeviceId" }),
        }
    }

    /// The identifier has 32 bytes.
    pub proof fn lemma_len(id: Self)
        ensures
            id@.len() == 32,
    {
        Digest::lemma_len(id.0);
    }
}

impl Encode for DeviceId {
    open spec fn spec_encode(&self) -> Seq<u8> {
        self@
    }

    fn encode(&self, out: &mut Encoder) {
        self.0.encode(out);
        assert(out@ == old(out)@ + self.0@);
        assert(self@ == self.0@);
        assert(self.spec_encode() == self@);
    }
}

impl Decode for DeviceId {
    open spec fn decodable(&self, level: nat) -> bool {
        true
    }

    fn decode(input: &mut Decoder<'_>) -> (result: Result<Self, CodecError>)
        ensures
            old(input).rest().len() >= 32 ==> (result matches Ok(id) && id@ == old(
                input,
            ).rest().take(32)),
            old(input).rest().len() < 32 ==> result == Err::<Self, CodecError>(
                CodecError::UnexpectedEnd { wanted: "fixed-width array" },
            ),
    {
        proof {
            assert forall|v: Self| #[trigger]
                v.decodable(input.level()) && begins_with(input.rest(), v) implies input.rest().len()
                >= 32 && input.rest().take(32) == v@ by {
                Self::lemma_len(v);
            }
        }
        let hash = Digest::decode(input)?;
        Ok(DeviceId(hash))
    }
}

impl SortKey for DeviceId {
    open spec fn sort_key(&self) -> Seq<u8> {
        self@
    }

    fn sort_bytes(&self) -> (bytes: Vec<u8>) {
        self.0.sort_bytes()
    }
}

/// A chain: the hash of its genesis block. Every signature covers it, which
/// makes a transaction signed for one chain invalid everywhere else.
#[derive(Debug, Clone, Copy, PartialEq, Eq, PartialOrd, Ord, Default)]
pub struct ChainId(Digest);

impl View for ChainId {
    type V = Seq<u8>;

    closed spec fn view(&self) -> Seq<u8> {
        self.0@
    }
}

impl ChainId {
    /// The all-zero identifier: not the identifier of anything, a sentinel.
    pub fn zero() -> (id: Self)
        ensures
            id@ == zero_digest(),
    {
        ChainId(Digest::zero())
    }

    /// Wraps a digest that is already this kind of identifier.
    pub fn from_hash(hash: Digest) -> (id: Self)
        ensures
            id@ == hash@,
    {
        ChainId(hash)
    }

    /// The underlying digest.
    pub fn as_hash(&self) -> (hash: &Digest)
        ensures
            hash@ == self@,
    {
        &self.0
    }

    /// The 32 bytes.
    pub fn as_bytes(&self) -> (bytes: &[u8; 32])
        ensures
            bytes@ == self@,
    {
        self.0.as_bytes()
    }

    /// Whether two identifiers are the same bytes.
    pub fn same_as(&self, other: &Self) -> (same: bool)
        ensures
            same == (self@ == other@),
    {
        self.0.same_as(&other.0)
    }

    /// Lowercase hex, 64 characters.
    pub fn to_hex(&self) -> (text: String)
        ensures
            text@ == crate::hash::hex_bytes(self@).map_values(|b: u8| b as char),
    {
        self.0.to_hex()
    }

    /// Parses 64 hexadecimal digits, in either case.
    pub fn from_hex(text: &str) -> (result: Result<Self, CodecError>)
        ensures
            match parse_hex(text@) {
                Some(bytes) => result matches Ok(id) && id@ == bytes,
                None => result == Err::<Self, CodecError>(
                    CodecError::Invalid { reason: "not a valid ChainId" },
                ),
            },
    {
        match Digest::from_hex(text) {
            Some(hash) => Ok(ChainId(hash)),
            None => Err(CodecError::Invalid { reason: "not a valid ChainId" }),
        }
    }

    /// The identifier has 32 bytes.
    pub proof fn lemma_len(id: Self)
        ensures
            id@.len() == 32,
    {
        Digest::lemma_len(id.0);
    }
}

impl Encode for ChainId {
    open spec fn spec_encode(&self) -> Seq<u8> {
        self@
    }

    fn encode(&self, out: &mut Encoder) {
        self.0.encode(out);
        assert(out@ == old(out)@ + self.0@);
        assert(self@ == self.0@);
        assert(self.spec_encode() == self@);
    }
}

impl Decode for ChainId {
    open spec fn decodable(&self, level: nat) -> bool {
        true
    }

    fn decode(input: &mut Decoder<'_>) -> (result: Result<Self, CodecError>)
        ensures
            old(input).rest().len() >= 32 ==> (result matches Ok(id) && id@ == old(
                input,
            ).rest().take(32)),
            old(input).rest().len() < 32 ==> result == Err::<Self, CodecError>(
                CodecError::UnexpectedEnd { wanted: "fixed-width array" },
            ),
    {
        proof {
            assert forall|v: Self| #[trigger]
                v.decodable(input.level()) && begins_with(input.rest(), v) implies input.rest().len()
                >= 32 && input.rest().take(32) == v@ by {
                Self::lemma_len(v);
            }
        }
        let hash = Digest::decode(input)?;
        Ok(ChainId(hash))
    }
}

impl SortKey for ChainId {
    open spec fn sort_key(&self) -> Seq<u8> {
        self@
    }

    fn sort_bytes(&self) -> (bytes: Vec<u8>) {
        self.0.sort_bytes()
    }
}

/// A transaction: the digest of the canonical encoding of its body.
#[derive(Debug, Clone, Copy, PartialEq, Eq, PartialOrd, Ord, Default)]
pub struct TxId(Digest);

impl View for TxId {
    type V = Seq<u8>;

    closed spec fn view(&self) -> Seq<u8> {
        self.0@
    }
}

impl TxId {
    /// The all-zero identifier: not the identifier of anything, a sentinel.
    pub fn zero() -> (id: Self)
        ensures
            id@ == zero_digest(),
    {
        TxId(Digest::zero())
    }

    /// Wraps a digest that is already this kind of identifier.
    pub fn from_hash(hash: Digest) -> (id: Self)
        ensures
            id@ == hash@,
    {
        TxId(hash)
    }

    /// The underlying digest.
    pub fn as_hash(&self) -> (hash: &Digest)
        ensures
            hash@ == self@,
    {
        &self.0
    }

    /// The 32 bytes.
    pub fn as_bytes(&self) -> (bytes: &[u8; 32])
        ensures
            bytes@ == self@,
    {
        self.0.as_bytes()
    }

    /// Whether two identifiers are the same bytes.
    pub fn same_as(&self, other: &Self) -> (same: bool)
        ensures
            same == (self@ == other@),
    {
        self.0.same_as(&other.0)
    }

    /// Lowercase hex, 64 characters.
    pub fn to_hex(&self) -> (text: String)
        ensures
            text@ == crate::hash::hex_bytes(self@).map_values(|b: u8| b as char),
    {
        self.0.to_hex()
    }

    /// Parses 64 hexadecimal digits, in either case.
    pub fn from_hex(text: &str) -> (result: Result<Self, CodecError>)
        ensures
            match parse_hex(text@) {
                Some(bytes) => result matches Ok(id) && id@ == bytes,
                None => result == Err::<Self, CodecError>(
                    CodecError::Invalid { reason: "not a valid TxId" },
                ),
            },
    {
        match Digest::from_hex(text) {
            Some(hash) => Ok(TxId(hash)),
            None => Err(CodecError::Invalid { reason: "not a valid TxId" }),
        }
    }

    /// The identifier has 32 bytes.
    pub proof fn lemma_len(id: Self)
        ensures
            id@.len() == 32,
    {
        Digest::lemma_len(id.0);
    }
}

impl Encode for TxId {
    open spec fn spec_encode(&self) -> Seq<u8> {
        self@
    }

    fn encode(&self, out: &mut Encoder) {
        self.0.encode(out);
        assert(out@ == old(out)@ + self.0@);
        assert(self@ == self.0@);
        assert(self.spec_encode() == self@);
    }
}

impl Decode for TxId {
    open spec fn decodable(&self, level: nat) -> bool {
        true
    }

    fn decode(input: &mut Decoder<'_>) -> (result: Result<Self, CodecError>)
        ensures
            old(input).rest().len() >= 32 ==> (result matches Ok(id) && id@ == old(
                input,
            ).rest().take(32)),
            old(input).rest().len() < 32 ==> result == Err::<Self, CodecError>(
                CodecError::UnexpectedEnd { wanted: "fixed-width array" },
            ),
    {
        proof {
            assert forall|v: Self| #[trigger]
                v.decodable(input.level()) && begins_with(input.rest(), v) implies input.rest().len()
                >= 32 && input.rest().take(32) == v@ by {
                Self::lemma_len(v);
            }
        }
        let hash = Digest::decode(input)?;
        Ok(TxId(hash))
    }
}

impl SortKey for TxId {
    open spec fn sort_key(&self) -> Seq<u8> {
        self@
    }

    fn sort_bytes(&self) -> (bytes: Vec<u8>) {
        self.0.sort_bytes()
    }
}

/// A block: the digest of the canonical encoding of its header.
#[derive(Debug, Clone, Copy, PartialEq, Eq, PartialOrd, Ord, Default)]
pub struct BlockId(Digest);

impl View for BlockId {
    type V = Seq<u8>;

    closed spec fn view(&self) -> Seq<u8> {
        self.0@
    }
}

impl BlockId {
    /// The all-zero identifier: not the identifier of anything, a sentinel.
    pub fn zero() -> (id: Self)
        ensures
            id@ == zero_digest(),
    {
        BlockId(Digest::zero())
    }

    /// Wraps a digest that is already this kind of identifier.
    pub fn from_hash(hash: Digest) -> (id: Self)
        ensures
            id@ == hash@,
    {
        BlockId(hash)
    }

    /// The underlying digest.
    pub fn as_hash(&self) -> (hash: &Digest)
        ensures
            hash@ == self@,
    {
        &self.0
    }

    /// The 32 bytes.
    pub fn as_bytes(&self) -> (bytes: &[u8; 32])
        ensures
            bytes@ == self@,
    {
        self.0.as_bytes()
    }

    /// Whether two identifiers are the same bytes.
    pub fn same_as(&self, other: &Self) -> (same: bool)
        ensures
            same == (self@ == other@),
    {
        self.0.same_as(&other.0)
    }

    /// Lowercase hex, 64 characters.
    pub fn to_hex(&self) -> (text: String)
        ensures
            text@ == crate::hash::hex_bytes(self@).map_values(|b: u8| b as char),
    {
        self.0.to_hex()
    }

    /// Parses 64 hexadecimal digits, in either case.
    pub fn from_hex(text: &str) -> (result: Result<Self, CodecError>)
        ensures
            match parse_hex(text@) {
                Some(bytes) => result matches Ok(id) && id@ == bytes,
                None => result == Err::<Self, CodecError>(
                    CodecError::Invalid { reason: "not a valid BlockId" },
                ),
            },
    {
        match Digest::from_hex(text) {
            Some(hash) => Ok(BlockId(hash)),
            None => Err(CodecError::Invalid { reason: "not a valid BlockId" }),
        }
    }

    /// The identifier has 32 bytes.
    pub proof fn lemma_len(id: Self)
        ensures
            id@.len() == 32,
    {
        Digest::lemma_len(id.0);
    }
}

impl Encode for BlockId {
    open spec fn spec_encode(&self) -> Seq<u8> {
        self@
    }

    fn encode(&self, out: &mut Encoder) {
        self.0.encode(out);
        assert(out@ == old(out)@ + self.0@);
        assert(self@ == self.0@);
        assert(self.spec_encode() == self@);
    }
}

impl Decode for BlockId {
    open spec fn decodable(&self, level: nat) -> bool {
        true
    }

    fn decode(input: &mut Decoder<'_>) -> (result: Result<Self, CodecError>)
        ensures
            old(input).rest().len() >= 32 ==> (result matches Ok(id) && id@ == old(
                input,
            ).rest().take(32)),
            old(input).rest().len() < 32 ==> result == Err::<Self, CodecError>(
                CodecError::UnexpectedEnd { wanted: "fixed-width array" },
            ),
    {
        proof {
            assert forall|v: Self| #[trigger]
                v.decodable(input.level()) && begins_with(input.rest(), v) implies input.rest().len()
                >= 32 && input.rest().take(32) == v@ by {
                Self::lemma_len(v);
            }
        }
        let hash = Digest::decode(input)?;
        Ok(BlockId(hash))
    }
}

impl SortKey for BlockId {
    open spec fn sort_key(&self) -> Seq<u8> {
        self@
    }

    fn sort_bytes(&self) -> (bytes: Vec<u8>) {
        self.0.sort_bytes()
    }
}

/// An asset other than VAN: a festival's closed token, a local currency.
#[derive(Debug, Clone, Copy, PartialEq, Eq, PartialOrd, Ord, Default)]
pub struct AssetId(Digest);

impl View for AssetId {
    type V = Seq<u8>;

    closed spec fn view(&self) -> Seq<u8> {
        self.0@
    }
}

impl AssetId {
    /// The identifier whose bytes are `bytes`, in specifications.
    pub open spec fn from_view(bytes: Seq<u8>) -> AssetId {
        choose|id: AssetId| #![trigger id@] id@ == bytes
    }

    /// An identifier is the one `from_view` names for its bytes.
    pub proof fn lemma_from_view(id: AssetId)
        ensures
            AssetId::from_view(id@) == id,
    {
        let chosen = AssetId::from_view(id@);
        assert(exists|other: AssetId| #![trigger other@] other@ == id@);
        Digest::lemma_view_injective(chosen.0, id.0);
    }
}

impl AssetId {
    /// The all-zero identifier: not the identifier of anything, a sentinel.
    pub fn zero() -> (id: Self)
        ensures
            id@ == zero_digest(),
    {
        AssetId(Digest::zero())
    }

    /// Wraps a digest that is already this kind of identifier.
    pub fn from_hash(hash: Digest) -> (id: Self)
        ensures
            id@ == hash@,
    {
        AssetId(hash)
    }

    /// The underlying digest.
    pub fn as_hash(&self) -> (hash: &Digest)
        ensures
            hash@ == self@,
    {
        &self.0
    }

    /// The 32 bytes.
    pub fn as_bytes(&self) -> (bytes: &[u8; 32])
        ensures
            bytes@ == self@,
    {
        self.0.as_bytes()
    }

    /// Whether two identifiers are the same bytes.
    pub fn same_as(&self, other: &Self) -> (same: bool)
        ensures
            same == (self@ == other@),
    {
        self.0.same_as(&other.0)
    }

    /// Lowercase hex, 64 characters.
    pub fn to_hex(&self) -> (text: String)
        ensures
            text@ == crate::hash::hex_bytes(self@).map_values(|b: u8| b as char),
    {
        self.0.to_hex()
    }

    /// Parses 64 hexadecimal digits, in either case.
    pub fn from_hex(text: &str) -> (result: Result<Self, CodecError>)
        ensures
            match parse_hex(text@) {
                Some(bytes) => result matches Ok(id) && id@ == bytes,
                None => result == Err::<Self, CodecError>(
                    CodecError::Invalid { reason: "not a valid AssetId" },
                ),
            },
    {
        match Digest::from_hex(text) {
            Some(hash) => Ok(AssetId(hash)),
            None => Err(CodecError::Invalid { reason: "not a valid AssetId" }),
        }
    }

    /// The identifier has 32 bytes.
    pub proof fn lemma_len(id: Self)
        ensures
            id@.len() == 32,
    {
        Digest::lemma_len(id.0);
    }
}

impl Encode for AssetId {
    open spec fn spec_encode(&self) -> Seq<u8> {
        self@
    }

    fn encode(&self, out: &mut Encoder) {
        self.0.encode(out);
        assert(out@ == old(out)@ + self.0@);
        assert(self@ == self.0@);
        assert(self.spec_encode() == self@);
    }
}

impl Decode for AssetId {
    open spec fn decodable(&self, level: nat) -> bool {
        true
    }

    fn decode(input: &mut Decoder<'_>) -> (result: Result<Self, CodecError>)
        ensures
            old(input).rest().len() >= 32 ==> (result matches Ok(id) && id@ == old(
                input,
            ).rest().take(32)),
            old(input).rest().len() < 32 ==> result == Err::<Self, CodecError>(
                CodecError::UnexpectedEnd { wanted: "fixed-width array" },
            ),
    {
        proof {
            assert forall|v: Self| #[trigger]
                v.decodable(input.level()) && begins_with(input.rest(), v) implies input.rest().len()
                >= 32 && input.rest().take(32) == v@ by {
                Self::lemma_len(v);
            }
        }
        let hash = Digest::decode(input)?;
        Ok(AssetId(hash))
    }
}

impl SortKey for AssetId {
    open spec fn sort_key(&self) -> Seq<u8> {
        self@
    }

    fn sort_bytes(&self) -> (bytes: Vec<u8>) {
        self.0.sort_bytes()
    }
}

} // verus!
