//! Local assets: the issuance rules, separate from the balances.
//!
//! This module owns issuance: who may mint, whether they may mint again, and
//! what the supply is. It never touches a balance; the ledger moves the
//! money, so that an issuance bug and an accounting bug cannot hide in the
//! same function.

use vstd::prelude::*;
use vstd::string::StringExecFns;
use vstd::utf8::encode_utf8;

use crate::amount::{amount_text, Amount};
use crate::codec::{
    begins_with, lemma_begins_with_pieces, lemma_decoded_pieces, varint_bytes, CodecError, Decode,
    Decoder, Encode, Encoder,
};
use crate::hash::{blake3_derive_key, domain, hash, hex_chars, Digest};
use crate::id::{AccountId, AssetId};
use crate::name::Name;
use crate::sorted_map::{lemma_entries_map_len, SortKey, SortedMap};

verus! {

/// An asset's record as values: issuer, ticker, decimals, whether it is
/// reissuable, and its supply.
pub type RecordView = (Seq<u8>, Seq<char>, u8, bool, u64);

/// An asset's registry record.
#[derive(Debug, PartialEq, Eq)]
pub struct AssetRecord {
    /// The account that created it, and the only one that may mint.
    pub issuer: AccountId,
    /// The ticker, unique across the chain.
    pub ticker: Name,
    /// Decimal places, for display only; the ledger never divides by it.
    pub decimals: u8,
    /// Whether the issuer may mint after creation.
    pub reissuable: bool,
    /// Units in existence.
    pub supply: Amount,
}

impl View for AssetRecord {
    type V = RecordView;

    open spec fn view(&self) -> RecordView {
        (self.issuer@, self.ticker@, self.decimals, self.reissuable, self.supply@)
    }
}

impl Clone for AssetRecord {
    fn clone(&self) -> (copy: Self)
        ensures
            copy@ == self@,
    {
        AssetRecord {
            issuer: self.issuer,
            ticker: self.ticker.clone(),
            decimals: self.decimals,
            reissuable: self.reissuable,
            supply: self.supply,
        }
    }
}

impl AssetRecord {
    /// The digest stored in the state tree: the state-value digest of the
    /// record's canonical encoding.
    pub fn value_hash(&self) -> (digest: Digest)
        ensures
            digest@ == blake3_derive_key(domain::STATE_VALUE@, self.spec_encode()),
    {
        let bytes = self.to_canonical_bytes();
        hash(domain::STATE_VALUE, bytes.as_slice())
    }
}

impl Encode for AssetRecord {
    open spec fn spec_encode(&self) -> Seq<u8> {
        self.issuer@ + self.ticker.spec_encode() + varint_bytes(self.decimals as nat)
            + self.reissuable.spec_encode() + self.supply.spec_encode()
    }

    fn encode(&self, out: &mut Encoder) {
        self.issuer.encode(out);
        self.ticker.encode(out);
        out.write_varint(self.decimals as u64);
        out.write_bool(self.reissuable);
        self.supply.encode(out);
        assert(out@ =~= old(out)@ + self.spec_encode());
    }
}

impl Decode for AssetRecord {
    /// A ticker in the name grammar.
    open spec fn decodable(&self, level: nat) -> bool {
        self.ticker.decodable(level)
    }

    fn decode(input: &mut Decoder<'_>) -> (result: Result<Self, CodecError>) {
        let ghost data = input.data();
        let ghost start = input.pos() as int;
        let ghost s = input.rest();
        let ghost level = input.level();
        proof {
            assert forall|v: AssetRecord| #[trigger]
                v.decodable(level) && begins_with(s, v) implies ({
                let p1 = v.issuer.spec_encode();
                let p2 = p1 + v.ticker.spec_encode();
                let p3 = p2 + v.decimals.spec_encode();
                let p4 = p3 + v.reissuable.spec_encode();
                &&& v.issuer.decodable(level) && begins_with(s, v.issuer)
                &&& v.ticker.decodable(level) && begins_with(s.skip(p1.len() as int), v.ticker)
                &&& v.decimals.decodable(level) && begins_with(s.skip(p2.len() as int), v.decimals)
                &&& v.reissuable.decodable(level) && begins_with(
                    s.skip(p3.len() as int),
                    v.reissuable,
                )
                &&& v.supply.decodable(level) && begins_with(s.skip(p4.len() as int), v.supply)
            }) by {
                let p1 = v.issuer.spec_encode();
                let p2 = p1 + v.ticker.spec_encode();
                let p3 = p2 + v.decimals.spec_encode();
                let p4 = p3 + v.reissuable.spec_encode();
                assert(v.spec_encode() == p4 + v.supply.spec_encode());
                lemma_begins_with_pieces(s, p4, v.supply.spec_encode());
                lemma_begins_with_pieces(s, p3, v.reissuable.spec_encode());
                lemma_begins_with_pieces(s, p2, v.decimals.spec_encode());
                lemma_begins_with_pieces(s, p1, v.ticker.spec_encode());
                assert(s.take(p1.len() as int) == p1);
            }
        }
        let issuer = AccountId::decode(input)?;
        let ghost done = issuer.spec_encode();
        proof {
            assert(input.rest() =~= s.skip(done.len() as int));
        }
        let ticker = Name::decode(input)?;
        proof {
            lemma_decoded_pieces(data, start, done, ticker.spec_encode());
            done = done + ticker.spec_encode();
            assert(input.rest() =~= s.skip(done.len() as int));
            assert forall|v: AssetRecord| #[trigger]
                v.decodable(level) && begins_with(s, v) implies done == v.issuer.spec_encode()
                + v.ticker.spec_encode() by {
                assert(v.issuer.decodable(level) && begins_with(s, v.issuer));
            }
        }
        let decimals = u8::decode(input)?;
        proof {
            lemma_decoded_pieces(data, start, done, decimals.spec_encode());
            done = done + decimals.spec_encode();
            assert(input.rest() =~= s.skip(done.len() as int));
        }
        let reissuable = bool::decode(input)?;
        proof {
            lemma_decoded_pieces(data, start, done, reissuable.spec_encode());
            done = done + reissuable.spec_encode();
            assert(input.rest() =~= s.skip(done.len() as int));
        }
        let supply = Amount::decode(input)?;
        proof {
            lemma_decoded_pieces(data, start, done, supply.spec_encode());
            done = done + supply.spec_encode();
        }
        let record = AssetRecord { issuer, ticker, decimals, reissuable, supply };
        assert(done =~= record.spec_encode());
        Ok(record)
    }
}

/// Why an issuance operation failed.
#[derive(Debug, Clone, PartialEq, Eq)]
pub enum AssetError {
    /// No such asset.
    NoSuchAsset(AssetId),
    /// The ticker is already taken.
    TickerTaken {
        /// Which ticker.
        ticker: Name,
        /// The asset that holds it.
        held_by: AssetId,
    },
    /// The asset identifier is already in use.
    AssetExists(AssetId),
    /// Only the issuer may mint.
    NotTheIssuer {
        /// Who tried.
        caller: AccountId,
        /// Who may.
        issuer: AccountId,
    },
    /// The asset was created with issuance closed.
    NotReissuable(AssetId),
    /// A mint or burn of nothing.
    ZeroAmount,
    /// Burning more than exists.
    SupplyUnderflow {
        /// What was burned.
        amount: Amount,
        /// What existed.
        supply: Amount,
    },
    /// Supply arithmetic overflowed.
    Overflow,
}

/// What creating asset `id` with `ticker` answers: the refusal, in the
/// order the conditions are checked, or success.
pub open spec fn create_result(
    book: (Map<Seq<u8>, RecordView>, Map<Seq<u8>, Seq<u8>>),
    id: AssetId,
    ticker: Name,
) -> Result<(), AssetError> {
    if book.0.contains_key(id@) {
        Err(AssetError::AssetExists(id))
    } else if book.1.contains_key(ticker.sort_key()) {
        Err(
            AssetError::TickerTaken {
                ticker,
                held_by: AssetId::from_view(book.1[ticker.sort_key()]),
            },
        )
    } else {
        Ok(())
    }
}

/// The registry once asset `id` has been created, by `issuer`, with no
/// supply.
pub open spec fn created(
    book: (Map<Seq<u8>, RecordView>, Map<Seq<u8>, Seq<u8>>),
    id: AssetId,
    issuer: AccountId,
    ticker: Name,
    decimals: u8,
    reissuable: bool,
) -> (Map<Seq<u8>, RecordView>, Map<Seq<u8>, Seq<u8>>) {
    (
        book.0.insert(id@, (issuer@, ticker@, decimals, reissuable, 0u64)),
        book.1.insert(ticker.sort_key(), id@),
    )
}

/// What minting `amount` of asset `id` for `caller` answers: the refusal,
/// in the order the conditions are checked, or success.
pub open spec fn mint_result(
    book: (Map<Seq<u8>, RecordView>, Map<Seq<u8>, Seq<u8>>),
    id: AssetId,
    caller: AccountId,
    amount: Amount,
) -> Result<(), AssetError> {
    if amount@ == 0 {
        Err(AssetError::ZeroAmount)
    } else if !book.0.contains_key(id@) {
        Err(AssetError::NoSuchAsset(id))
    } else if book.0[id@].0 != caller@ {
        Err(AssetError::NotTheIssuer { caller, issuer: AccountId::from_view(book.0[id@].0) })
    } else if !book.0[id@].3 && book.0[id@].4 != 0 {
        Err(AssetError::NotReissuable(id))
    } else if book.0[id@].4 + amount@ > u64::MAX {
        Err(AssetError::Overflow)
    } else {
        Ok(())
    }
}

/// The registry once `amount` more of asset `id` has been issued.
pub open spec fn minted(
    book: (Map<Seq<u8>, RecordView>, Map<Seq<u8>, Seq<u8>>),
    id: AssetId,
    amount: Amount,
) -> (Map<Seq<u8>, RecordView>, Map<Seq<u8>, Seq<u8>>) {
    let record = book.0[id@];
    (book.0.insert(id@, (record.0, record.1, record.2, record.3, (record.4 + amount@) as u64)), book.1)
}

/// What burning `amount` of asset `id` answers: the refusal, in the order
/// the conditions are checked, or success.
pub open spec fn burn_result(
    book: (Map<Seq<u8>, RecordView>, Map<Seq<u8>, Seq<u8>>),
    id: AssetId,
    amount: Amount,
) -> Result<(), AssetError> {
    if amount@ == 0 {
        Err(AssetError::ZeroAmount)
    } else if !book.0.contains_key(id@) {
        Err(AssetError::NoSuchAsset(id))
    } else if amount@ > book.0[id@].4 {
        Err(AssetError::SupplyUnderflow { amount, supply: Amount::from_spec(book.0[id@].4) })
    } else {
        Ok(())
    }
}

/// The registry once `amount` of asset `id` has been destroyed.
pub open spec fn burned(
    book: (Map<Seq<u8>, RecordView>, Map<Seq<u8>, Seq<u8>>),
    id: AssetId,
    amount: Amount,
) -> (Map<Seq<u8>, RecordView>, Map<Seq<u8>, Seq<u8>>) {
    let record = book.0[id@];
    (book.0.insert(id@, (record.0, record.1, record.2, record.3, (record.4 - amount@) as u64)), book.1)
}

/// Only the issuer mints, something, into an asset that exists, whose
/// issuance is open or has never been used, without overflowing its supply;
/// a mint raises the supply by the amount and changes nothing else.
pub proof fn lemma_mint_rules(
    book: (Map<Seq<u8>, RecordView>, Map<Seq<u8>, Seq<u8>>),
    id: AssetId,
    caller: AccountId,
    amount: Amount,
)
    ensures
        mint_result(book, id, caller, amount) is Ok <==> {
            &&& amount@ > 0
            &&& book.0.contains_key(id@)
            &&& book.0[id@].0 == caller@
            &&& book.0[id@].3 || book.0[id@].4 == 0
            &&& book.0[id@].4 + amount@ <= u64::MAX
        },
        book.0.contains_key(id@) ==> minted(book, id, amount).0[id@].4 == book.0[id@].4 + amount@
            || book.0[id@].4 + amount@ > u64::MAX,
        forall|other: Seq<u8>| other != id@ ==> #[trigger] minted(book, id, amount).0.contains_key(other)
            == book.0.contains_key(other) && (book.0.contains_key(other) ==> minted(book, id, amount).0[other]
            == book.0[other]),
        minted(book, id, amount).1 == book.1,
{
}

/// A burn destroys something, of an asset that exists, and never more than
/// its supply; it lowers the supply by the amount and changes nothing else.
pub proof fn lemma_burn_rules(
    book: (Map<Seq<u8>, RecordView>, Map<Seq<u8>, Seq<u8>>),
    id: AssetId,
    amount: Amount,
)
    ensures
        burn_result(book, id, amount) is Ok <==> {
            &&& amount@ > 0
            &&& book.0.contains_key(id@)
            &&& amount@ <= book.0[id@].4
        },
        burn_result(book, id, amount) is Ok ==> burned(book, id, amount).0[id@].4 + amount@
            == book.0[id@].4,
        forall|other: Seq<u8>| other != id@ ==> #[trigger] burned(book, id, amount).0.contains_key(other)
            == book.0.contains_key(other) && (book.0.contains_key(other) ==> burned(book, id, amount).0[other]
            == book.0[other]),
        burned(book, id, amount).1 == book.1,
{
}

/// A creation never reuses an identifier or a ticker: it succeeds exactly
/// when both are free, and then the asset has no supply and holds its ticker.
pub proof fn lemma_create_rules(
    book: (Map<Seq<u8>, RecordView>, Map<Seq<u8>, Seq<u8>>),
    id: AssetId,
    issuer: AccountId,
    ticker: Name,
    decimals: u8,
    reissuable: bool,
)
    ensures
        create_result(book, id, ticker) is Ok <==> !book.0.contains_key(id@) && !book.1.contains_key(
            ticker.sort_key(),
        ),
        created(book, id, issuer, ticker, decimals, reissuable).0[id@] == (
            issuer@,
            ticker@,
            decimals,
            reissuable,
            0u64,
        ),
        created(book, id, issuer, ticker, decimals, reissuable).1[ticker.sort_key()] == id@,
{
}

/// Every asset on the chain, and the tickers they hold.
#[derive(Debug, Clone, PartialEq, Eq)]
pub struct AssetRegistry {
    assets: SortedMap<AssetId, AssetRecord>,
    tickers: SortedMap<Name, AssetId>,
}

impl View for AssetRegistry {
    type V = (Map<Seq<u8>, RecordView>, Map<Seq<u8>, Seq<u8>>);

    /// The records by asset identifier, and the asset identifiers by ticker.
    closed spec fn view(&self) -> (Map<Seq<u8>, RecordView>, Map<Seq<u8>, Seq<u8>>) {
        (
            self.assets.map().map_values(|r: AssetRecord| r@),
            self.tickers.map().map_values(|a: AssetId| a@),
        )
    }
}

/// The ticker index and the records agree: every ticker names an asset that
/// holds it, and every asset's ticker names that asset.
pub open spec fn tickers_consistent(
    assets: Map<Seq<u8>, RecordView>,
    tickers: Map<Seq<u8>, Seq<u8>>,
) -> bool {
    &&& forall|t: Seq<u8>| #[trigger]
        tickers.contains_key(t) ==> assets.contains_key(tickers[t]) && encode_utf8(
            assets[tickers[t]].1,
        ) == t
    &&& forall|a: Seq<u8>| #[trigger]
        assets.contains_key(a) ==> tickers.contains_key(encode_utf8(assets[a].1)) && tickers[encode_utf8(
            assets[a].1,
        )] == a
}

impl AssetRegistry {
    /// Both maps are held in key order, and the ticker index agrees with the
    /// records.
    pub closed spec fn wf(self) -> bool {
        &&& self.assets.wf()
        &&& self.tickers.wf()
        &&& tickers_consistent(self@.0, self@.1)
    }

    /// The records, in ascending identifier order.
    pub closed spec fn asset_list(self) -> Seq<(AssetId, AssetRecord)> {
        self.assets.entries()
    }

    /// The ticker reservations, in ascending name order.
    pub closed spec fn ticker_list(self) -> Seq<(Name, AssetId)> {
        self.tickers.entries()
    }

    /// An empty registry.
    pub fn new() -> (registry: Self)
        ensures
            registry.wf(),
            registry@.0 == Map::<Seq<u8>, RecordView>::empty(),
            registry@.1 == Map::<Seq<u8>, Seq<u8>>::empty(),
    {
        let registry = AssetRegistry { assets: SortedMap::new(), tickers: SortedMap::new() };
        assert(registry@.0 =~= Map::<Seq<u8>, RecordView>::empty());
        assert(registry@.1 =~= Map::<Seq<u8>, Seq<u8>>::empty());
        registry
    }

    /// An asset's record.
    pub fn get(&self, id: &AssetId) -> (record: Option<&AssetRecord>)
        requires
            self.wf(),
        ensures
            match record {
                Some(r) => self@.0.contains_key(id@) && r@ == self@.0[id@],
                None => !self@.0.contains_key(id@),
            },
    {
        self.assets.get(id)
    }

    /// The asset holding a ticker, if any.
    pub fn by_ticker(&self, ticker: &Name) -> (asset: Option<AssetId>)
        requires
            self.wf(),
        ensures
            match asset {
                Some(a) => self@.1.contains_key(ticker.sort_key()) && a@ == self@.1[ticker.sort_key()],
                None => !self@.1.contains_key(ticker.sort_key()),
            },
    {
        match self.tickers.get(ticker) {
            Some(asset) => Some(*asset),
            None => None,
        }
    }

    /// How many assets exist.
    pub fn len(&self) -> (count: usize)
        ensures
            count == self.asset_list().len(),
            self.wf() ==> count == self@.0.len(),
    {
        proof {
            if self.wf() {
                Self::lemma_len_is_map_len(*self);
            }
        }
        self.assets.len()
    }

    /// Whether no asset exists.
    pub fn is_empty(&self) -> (empty: bool)
        ensures
            empty == (self.asset_list().len() == 0),
    {
        self.assets.len() == 0
    }

    /// Every asset, in strictly ascending identifier order.
    pub fn iter(&self) -> (assets: &[(AssetId, AssetRecord)])
        requires
            self.wf(),
        ensures
            assets@ == self.asset_list(),
            crate::sorted_map::ascending(assets@),
    {
        self.assets.as_slice()
    }

    /// Every ticker reservation, in strictly ascending name order.
    pub fn tickers(&self) -> (tickers: &[(Name, AssetId)])
        requires
            self.wf(),
        ensures
            tickers@ == self.ticker_list(),
            crate::sorted_map::ascending(tickers@),
    {
        self.tickers.as_slice()
    }

    /// Creates an asset with no supply. Creation and issuance are separate
    /// acts; a refused creation changes nothing.
    pub fn create(
        &mut self,
        id: AssetId,
        issuer: AccountId,
        ticker: Name,
        decimals: u8,
        reissuable: bool,
    ) -> (result: Result<(), AssetError>)
        requires
            old(self).wf(),
        ensures
            final(self).wf(),
            old(self)@.0.contains_key(id@) ==> result == Err::<(), AssetError>(
                AssetError::AssetExists(id),
            ) && final(self)@ == old(self)@,
            !old(self)@.0.contains_key(id@) && old(self)@.1.contains_key(ticker.sort_key()) ==> (
            result matches Err(AssetError::TickerTaken { ticker: taken, held_by }) && taken@
                == ticker@ && held_by@ == old(self)@.1[ticker.sort_key()]) && final(self)@ == old(
                self,
            )@,
            !old(self)@.0.contains_key(id@) && !old(self)@.1.contains_key(ticker.sort_key())
                ==> result is Ok && final(self)@ == (
                old(self)@.0.insert(id@, (issuer@, ticker@, decimals, reissuable, 0u64)),
                old(self)@.1.insert(ticker.sort_key(), id@),
            ),
            result is Ok ==> final(self).asset_list().len() == old(self).asset_list().len() + 1,
    {
        if self.assets.contains(&id) {
            return Err(AssetError::AssetExists(id));
        }
        if let Some(held_by) = self.by_ticker(&ticker) {
            return Err(AssetError::TickerTaken { ticker, held_by });
        }
        let ghost key = ticker.sort_key();
        let ghost record_view: RecordView = (issuer@, ticker@, decimals, reissuable, 0u64);
        let reservation = ticker.clone();
        self.tickers.insert(reservation, id);
        self.assets.insert(
            id,
            AssetRecord { issuer, ticker, decimals, reissuable, supply: Amount::from_ulf(0) },
        );
        proof {
            let assets = self@.0;
            let tickers = self@.1;
            assert(assets =~= old(self)@.0.insert(id@, record_view));
            assert(tickers =~= old(self)@.1.insert(key, id@));
            assert forall|t: Seq<u8>| #[trigger] tickers.contains_key(t) implies assets.contains_key(
                tickers[t],
            ) && encode_utf8(assets[tickers[t]].1) == t by {
                if t != key {
                    assert(old(self)@.1.contains_key(t));
                    if tickers[t] == id@ {
                        assert(old(self)@.0.contains_key(old(self)@.1[t]));
                    }
                }
            }
            assert forall|a: Seq<u8>| #[trigger] assets.contains_key(a) implies tickers.contains_key(
                encode_utf8(assets[a].1),
            ) && tickers[encode_utf8(assets[a].1)] == a by {
                if a != id@ {
                    assert(old(self)@.0.contains_key(a));
                    let t = encode_utf8(old(self)@.0[a].1);
                    assert(old(self)@.1.contains_key(t));
                    assert(t != key);
                }
            }
            Self::lemma_len_is_map_len(*old(self));
            Self::lemma_len_is_map_len(*self);
        }
        Ok(())
    }

    /// A well-formed registry holds as many records as its map has keys.
    proof fn lemma_len_is_map_len(registry: Self)
        requires
            registry.assets.wf(),
        ensures
            registry@.0.dom().finite(),
            registry.asset_list().len() == registry@.0.len(),
    {
        lemma_entries_map_len(registry.assets.entries());
        assert(registry@.0.dom() =~= registry.assets.map().dom());
    }

    /// Whether asset `id` could be created with `ticker`, without creating
    /// it: the refusal `create` would give, or success.
    pub(crate) fn check_create(&self, id: &AssetId, ticker: &Name) -> (result: Result<(), AssetError>)
        requires
            self.wf(),
        ensures
            result == create_result(self@, *id, *ticker),
    {
        if self.assets.contains(id) {
            return Err(AssetError::AssetExists(*id));
        }
        if let Some(held_by) = self.by_ticker(ticker) {
            proof {
                AssetId::lemma_from_view(held_by);
            }
            return Err(AssetError::TickerTaken { ticker: ticker.clone(), held_by });
        }
        Ok(())
    }

    /// Whether `caller` could mint `amount` of asset `id`, without minting:
    /// the refusal `authorise_mint` would give, or success.
    pub(crate) fn check_mint(&self, id: &AssetId, caller: AccountId, amount: Amount) -> (result:
        Result<(), AssetError>)
        requires
            self.wf(),
        ensures
            result == mint_result(self@, *id, caller, amount),
    {
        if amount.is_zero() {
            return Err(AssetError::ZeroAmount);
        }
        let record = match self.assets.get(id) {
            Some(record) => record,
            None => {
                return Err(AssetError::NoSuchAsset(*id));
            },
        };
        if !record.issuer.same_as(&caller) {
            proof {
                AccountId::lemma_from_view(record.issuer);
            }
            return Err(AssetError::NotTheIssuer { caller, issuer: record.issuer });
        }
        if !record.reissuable && !record.supply.is_zero() {
            return Err(AssetError::NotReissuable(*id));
        }
        match record.supply.checked_add(amount) {
            Some(_) => Ok(()),
            None => Err(AssetError::Overflow),
        }
    }

    /// Whether `amount` of asset `id` could be burned, without burning it:
    /// the refusal `record_burn` would give, or success.
    pub(crate) fn check_burn(&self, id: &AssetId, amount: Amount) -> (result: Result<(), AssetError>)
        requires
            self.wf(),
        ensures
            result == burn_result(self@, *id, amount),
    {
        if amount.is_zero() {
            return Err(AssetError::ZeroAmount);
        }
        let record = match self.assets.get(id) {
            Some(record) => record,
            None => {
                return Err(AssetError::NoSuchAsset(*id));
            },
        };
        match record.supply.checked_sub(amount) {
            Some(_) => Ok(()),
            None => {
                proof {
                    Amount::lemma_from_spec(record.supply@);
                }
                Err(AssetError::SupplyUnderflow { amount, supply: record.supply })
            },
        }
    }

    /// Authorises a mint and records the new supply. Only the issuer may
    /// mint, a closed issuance only while its supply is zero; a refused mint
    /// changes nothing.
    pub fn authorise_mint(&mut self, id: &AssetId, caller: AccountId, amount: Amount) -> (result:
        Result<(), AssetError>)
        requires
            old(self).wf(),
        ensures
            final(self).wf(),
            result is Err ==> final(self)@ == old(self)@,
            amount@ == 0 ==> result == Err::<(), AssetError>(AssetError::ZeroAmount),
            amount@ != 0 && !old(self)@.0.contains_key(id@) ==> result == Err::<(), AssetError>(
                AssetError::NoSuchAsset(*id),
            ),
            amount@ != 0 && old(self)@.0.contains_key(id@) ==> {
                let record = old(self)@.0[id@];
                if record.0 != caller@ {
                    result matches Err(AssetError::NotTheIssuer { caller: c, issuer })
                        && c == caller && issuer@ == record.0
                } else if !record.3 && record.4 != 0 {
                    result == Err::<(), AssetError>(AssetError::NotReissuable(*id))
                } else if record.4 + amount@ > u64::MAX {
                    result == Err::<(), AssetError>(AssetError::Overflow)
                } else {
                    result is Ok && final(self)@ == (
                        old(self)@.0.insert(
                            id@,
                            (record.0, record.1, record.2, record.3, (record.4 + amount@) as u64),
                        ),
                        old(self)@.1,
                    )
                }
            },
    {
        if amount.is_zero() {
            return Err(AssetError::ZeroAmount);
        }
        let record = match self.assets.get(id) {
            Some(record) => record,
            None => {
                return Err(AssetError::NoSuchAsset(*id));
            },
        };
        if !record.issuer.same_as(&caller) {
            return Err(AssetError::NotTheIssuer { caller, issuer: record.issuer });
        }
        if !record.reissuable && !record.supply.is_zero() {
            return Err(AssetError::NotReissuable(*id));
        }
        let supply = match record.supply.checked_add(amount) {
            Some(supply) => supply,
            None => {
                return Err(AssetError::Overflow);
            },
        };
        let updated = AssetRecord {
            issuer: record.issuer,
            ticker: record.ticker.clone(),
            decimals: record.decimals,
            reissuable: record.reissuable,
            supply,
        };
        self.replace_record(id, updated);
        Ok(())
    }

    /// Records a burn against the supply; a refused burn changes nothing.
    pub fn record_burn(&mut self, id: &AssetId, amount: Amount) -> (result: Result<(), AssetError>)
        requires
            old(self).wf(),
        ensures
            final(self).wf(),
            result is Err ==> final(self)@ == old(self)@,
            amount@ == 0 ==> result == Err::<(), AssetError>(AssetError::ZeroAmount),
            amount@ != 0 && !old(self)@.0.contains_key(id@) ==> result == Err::<(), AssetError>(
                AssetError::NoSuchAsset(*id),
            ),
            amount@ != 0 && old(self)@.0.contains_key(id@) ==> {
                let record = old(self)@.0[id@];
                if amount@ > record.4 {
                    result matches Err(AssetError::SupplyUnderflow { amount: a, supply })
                        && a == amount && supply@ == record.4
                } else {
                    result is Ok && final(self)@ == (
                        old(self)@.0.insert(
                            id@,
                            (record.0, record.1, record.2, record.3, (record.4 - amount@) as u64),
                        ),
                        old(self)@.1,
                    )
                }
            },
    {
        if amount.is_zero() {
            return Err(AssetError::ZeroAmount);
        }
        let record = match self.assets.get(id) {
            Some(record) => record,
            None => {
                return Err(AssetError::NoSuchAsset(*id));
            },
        };
        let supply = match record.supply.checked_sub(amount) {
            Some(supply) => supply,
            None => {
                return Err(AssetError::SupplyUnderflow { amount, supply: record.supply });
            },
        };
        let updated = AssetRecord {
            issuer: record.issuer,
            ticker: record.ticker.clone(),
            decimals: record.decimals,
            reissuable: record.reissuable,
            supply,
        };
        self.replace_record(id, updated);
        Ok(())
    }

    /// Replaces an existing asset's record by one that differs at most in
    /// its supply.
    fn replace_record(&mut self, id: &AssetId, updated: AssetRecord)
        requires
            old(self).wf(),
            old(self)@.0.contains_key(id@),
            updated@.0 == old(self)@.0[id@].0,
            updated@.1 == old(self)@.0[id@].1,
        ensures
            final(self).wf(),
            final(self)@ == (old(self)@.0.insert(id@, updated@), old(self)@.1),
    {
        let ghost view = updated@;
        self.assets.insert(*id, updated);
        proof {
            let assets = self@.0;
            let tickers = self@.1;
            assert(assets =~= old(self)@.0.insert(id@, view));
            assert(tickers =~= old(self)@.1);
            assert forall|t: Seq<u8>| #[trigger] tickers.contains_key(t) implies assets.contains_key(
                tickers[t],
            ) && encode_utf8(assets[tickers[t]].1) == t by {
                assert(old(self)@.0.contains_key(old(self)@.1[t]));
            }
            assert forall|a: Seq<u8>| #[trigger] assets.contains_key(a) implies tickers.contains_key(
                encode_utf8(assets[a].1),
            ) && tickers[encode_utf8(assets[a].1)] == a by {
                assert(old(self)@.0.contains_key(a));
            }
        }
    }
}

/// How an issuance error reads.
pub open spec fn asset_error_text(error: AssetError) -> Seq<char> {
    match error {
        AssetError::NoSuchAsset(id) => "no such asset "@ + hex_chars(id@),
        AssetError::TickerTaken { ticker, held_by } => "ticker '"@ + ticker@ + "' is held by "@
            + hex_chars(held_by@),
        AssetError::AssetExists(id) => "asset "@ + hex_chars(id@) + " already exists"@,
        AssetError::NotTheIssuer { caller, issuer } => hex_chars(caller@) + " is not the issuer; "@
            + hex_chars(issuer@) + " is"@,
        AssetError::NotReissuable(id) => "asset "@ + hex_chars(id@)
            + " was created with issuance closed"@,
        AssetError::ZeroAmount => "a mint or burn of nothing"@,
        AssetError::SupplyUnderflow { amount, supply } => "burning "@ + amount_text(amount)
            + " of a supply of "@ + amount_text(supply),
        AssetError::Overflow => "supply arithmetic overflowed"@,
    }
}

impl AssetError {
    /// The error as it is displayed.
    pub fn to_string(&self) -> (text: String)
        ensures
            text@ == asset_error_text(*self),
    {
        match self {
            AssetError::NoSuchAsset(id) => {
                let mut text = String::from_str("no such asset ");
                text.append(id.to_hex().as_str());
                text
            },
            AssetError::TickerTaken { ticker, held_by } => {
                let mut text = String::from_str("ticker '");
                text.append(ticker.as_str());
                text.append("' is held by ");
                text.append(held_by.to_hex().as_str());
                text
            },
            AssetError::AssetExists(id) => {
                let mut text = String::from_str("asset ");
                text.append(id.to_hex().as_str());
                text.append(" already exists");
                text
            },
            AssetError::NotTheIssuer { caller, issuer } => {
                let mut text = caller.to_hex();
                text.append(" is not the issuer; ");
                text.append(issuer.to_hex().as_str());
                text.append(" is");
                text
            },
            AssetError::NotReissuable(id) => {
                let mut text = String::from_str("asset ");
                text.append(id.to_hex().as_str());
                text.append(" was created with issuance closed");
                text
            },
            AssetError::ZeroAmount => String::from_str("a mint or burn of nothing"),
            AssetError::SupplyUnderflow { amount, supply } => {
                let mut text = String::from_str("burning ");
                text.append(amount.to_string().as_str());
                text.append(" of a supply of ");
                text.append(supply.to_string().as_str());
                text
            },
            AssetError::Overflow => String::from_str("supply arithmetic overflowed"),
        }
    }
}

} // verus!
