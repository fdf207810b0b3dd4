//! Block headers, the finality ladder, and the clocks that run on it.
//!
//! A header carries no wall-clock time: the only clock is block height.
//! Epochs are a height divided by the epoch length, and every contestation
//! window is counted in finalised height, never in height.

pub mod params;

use vstd::prelude::*;
use vstd::string::StringExecFns;

use crate::amount::{amount_text, Amount, Ratio, MAX_SUPPLY};
use crate::codec::{
    begins_with, lemma_begins_with_pieces, lemma_begins_with_varint, lemma_decoded_pieces,
    lemma_varint_canonical, parse_varint, u16_bytes, varint_bytes, CodecError, Decode, Decoder,
    Encode, Encoder,
};
use crate::digits::{decimal_string, decimal_text};
use crate::hash::{blake3_derive_key, domain, hash, zero_digest, Digest};
use crate::id::{AccountId, BlockId, ChainId};
use crate::sign::Signature;

verus! {

/// The three rungs of the finality ladder.
#[derive(Debug, Clone, Copy, PartialEq, Eq, Structural, PartialOrd, Ord)]
pub enum FinalityRung {
    /// Local finality: a cut-off group keeps producing blocks, honestly
    /// stamped as provisional and replayed on reconnection.
    Provisional,
    /// Chain finality: more than two thirds of the committee's weight signed.
    Chain,
    /// Federal finality, conferred by neighbouring chains after the fact;
    /// never a value a header may claim about itself.
    Federal,
}

/// The discriminant a rung is encoded with.
pub open spec fn rung_number(rung: FinalityRung) -> u64 {
    match rung {
        FinalityRung::Provisional => 1,
        FinalityRung::Chain => 2,
        FinalityRung::Federal => 3,
    }
}

/// Whether a header may claim a rung: Provisional or Chain.
pub open spec fn rung_claimable(rung: FinalityRung) -> bool {
    rung == FinalityRung::Provisional || rung == FinalityRung::Chain
}

impl FinalityRung {
    /// Whether a block header may claim this rung.
    pub fn claimable_by_a_header(self) -> (claimable: bool)
        ensures
            claimable == rung_claimable(self),
    {
        match self {
            FinalityRung::Provisional => true,
            FinalityRung::Chain => true,
            FinalityRung::Federal => false,
        }
    }

    /// The discriminant this rung is encoded with.
    pub fn number(self) -> (number: u64)
        ensures
            number == rung_number(self),
    {
        match self {
            FinalityRung::Provisional => 1,
            FinalityRung::Chain => 2,
            FinalityRung::Federal => 3,
        }
    }
}

impl Encode for FinalityRung {
    open spec fn spec_encode(&self) -> Seq<u8> {
        varint_bytes(rung_number(*self) as nat)
    }

    fn encode(&self, out: &mut Encoder) {
        out.write_varint(self.number());
    }
}

impl Decode for FinalityRung {
    open spec fn decodable(&self, level: nat) -> bool {
        true
    }

    fn decode(input: &mut Decoder<'_>) -> (result: Result<Self, CodecError>)
        ensures
            match crate::codec::parse_varint(old(input).rest()) {
                Ok((value, _)) => if 1 <= value <= 3 {
                    result matches Ok(rung) && rung_number(rung) == value
                } else {
                    result == Err::<Self, CodecError>(
                        CodecError::UnknownVariant {
                            enum_name: "FinalityRung",
                            discriminant: value as u64,
                        },
                    )
                },
                Err(error) => result == Err::<Self, CodecError>(error),
            },
    {
        proof {
            lemma_varint_canonical(input.rest());
            assert forall|v: FinalityRung| #[trigger]
                v.decodable(input.level()) && begins_with(input.rest(), v) implies parse_varint(
                input.rest(),
            ) == Ok::<(nat, nat), CodecError>(
                (rung_number(v) as nat, varint_bytes(rung_number(v) as nat).len()),
            ) by {
                lemma_begins_with_varint(input.rest(), rung_number(v) as nat);
            }
        }
        let value = input.read_varint()?;
        if value == 1 {
            Ok(FinalityRung::Provisional)
        } else if value == 2 {
            Ok(FinalityRung::Chain)
        } else if value == 3 {
            Ok(FinalityRung::Federal)
        } else {
            Err(CodecError::UnknownVariant { enum_name: "FinalityRung", discriminant: value })
        }
    }
}

/// The header version this build writes.
pub const HEADER_VERSION: u16 = 1;

/// A block header. Fields are encoded in declaration order.
#[derive(Debug, Clone, PartialEq, Eq)]
pub struct BlockHeader {
    /// Header format version.
    pub version: u16,
    /// Which chain.
    pub chain: ChainId,
    /// Height above genesis. Genesis is zero.
    pub height: u64,
    /// The previous block; the zero identifier at genesis.
    pub parent: BlockId,
    /// The rung this block claims: Provisional or Chain.
    pub rung: FinalityRung,
    /// The height of the most recent chain-final block this one builds on.
    /// Every contestation clock is counted in this number, never in `height`.
    pub finalized_height: u64,
    /// Root of the sparse Merkle tree of state after this block.
    pub state_root: Digest,
    /// Root of the Merkle tree over this block's transaction identifiers.
    pub tx_root: Digest,
    /// The account that proposed this block.
    pub proposer: AccountId,
    /// The next link of the proposer's commitment chain.
    pub randomness_reveal: Digest,
    /// Commitment to the slice of chain history archived at this height.
    pub archive_commitment: Digest,
    /// Total VAN this chain has ever emitted, in ulf.
    pub emitted_supply: Amount,
    /// The security budget: a third of bonded stake.
    pub security_budget: Amount,
    /// Real fees over emission, as the two integers it was computed from.
    pub fee_emission_ratio: Ratio,
}

/// Why a header or a piece of header evidence was rejected.
#[derive(Debug, Clone, PartialEq, Eq)]
pub enum HeaderError {
    /// The header format version is not one this build understands.
    UnsupportedVersion(u16),
    /// The header claims a rung a header cannot claim.
    UnclaimableRung(FinalityRung),
    /// `finalized_height` is inconsistent with `height`.
    FinalizedAhead {
        /// The claimed finalised height.
        finalized: u64,
        /// This block's height.
        height: u64,
    },
    /// Genesis named a parent.
    GenesisHasParent,
    /// A non-genesis block named no parent.
    MissingParent,
    /// The emitted supply counter exceeds the protocol cap.
    SupplyOverCap(Amount),
    /// The signature did not verify.
    BadSignature,
    /// A key or signature used a test algorithm on a production chain.
    TestAlgorithmOnLiveChain,
    /// Evidence that does not show what it claims to show.
    EvidenceNotEquivocation {
        /// Which requirement failed.
        why: &'static str,
    },
}

/// What the structural checks give: the first rule the header breaks, in
/// the order the rules are checked, or acceptance.
pub open spec fn header_check(header: BlockHeader) -> Result<(), HeaderError> {
    if header.version != HEADER_VERSION {
        Err(HeaderError::UnsupportedVersion(header.version))
    } else if !rung_claimable(header.rung) {
        Err(HeaderError::UnclaimableRung(header.rung))
    } else if header.finalized_height > header.height || (header.rung == FinalityRung::Chain
        && header.finalized_height != header.height) {
        Err(
            HeaderError::FinalizedAhead {
                finalized: header.finalized_height,
                height: header.height,
            },
        )
    } else if header.height == 0 && header.parent@ != zero_digest() {
        Err(HeaderError::GenesisHasParent)
    } else if header.height != 0 && header.parent@ == zero_digest() {
        Err(HeaderError::MissingParent)
    } else if header.emitted_supply@ > MAX_SUPPLY {
        Err(HeaderError::SupplyOverCap(header.emitted_supply))
    } else {
        Ok(())
    }
}

/// A header is well formed exactly when it has the current version, claims
/// the provisional or the chain rung and never the federal one, does not put
/// finality ahead of itself (a chain-final block is final at its own height),
/// has a parent exactly when it is not the genesis block, and has not emitted
/// more than the supply cap.
pub proof fn lemma_header_rules(header: BlockHeader)
    ensures
        header_check(header) is Ok <==> {
            &&& header.version == 1
            &&& !(header.rung is Federal)
            &&& header.finalized_height <= header.height
            &&& header.rung is Chain ==> header.finalized_height == header.height
            &&& header.height == 0 <==> header.parent@ == Seq::new(32, |i: int| 0u8)
            &&& header.emitted_supply@ <= 100_000_000 * crate::amount::ULF_PER_VAN
        },
{
}

/// A header's identifier: the block-id digest of its canonical encoding.
pub open spec fn header_id(header: BlockHeader) -> Seq<u8> {
    blake3_derive_key(domain::BLOCK_ID@, header.spec_encode())
}

impl BlockHeader {
    /// This header's identifier.
    pub fn id(&self) -> (id: BlockId)
        ensures
            id@ == header_id(*self),
    {
        let bytes = self.to_canonical_bytes();
        BlockId::from_hash(hash(domain::BLOCK_ID, bytes.as_slice()))
    }

    /// The digest a proposer signs: the block-signing digest of the chain
    /// identifier followed by the block identifier.
    pub fn signing_digest(&self) -> (digest: Digest)
        ensures
            digest@ == blake3_derive_key(domain::BLOCK_SIGNING@, self.chain@ + header_id(*self)),
    {
        let mut material: Vec<u8> = Vec::new();
        crate::bech32::push_all(&mut material, self.chain.as_bytes());
        let id = self.id();
        crate::bech32::push_all(&mut material, id.as_bytes());
        hash(domain::BLOCK_SIGNING, material.as_slice())
    }

    /// The epoch this height falls in.
    pub fn epoch(&self) -> (epoch: u64)
        ensures
            epoch == self.height / params::EPOCH_BLOCKS,
    {
        self.height / params::EPOCH_BLOCKS
    }

    /// Whether this is the last block of its epoch.
    pub fn is_epoch_boundary(&self) -> (boundary: bool)
        ensures
            boundary == (self.height % params::EPOCH_BLOCKS == params::EPOCH_BLOCKS - 1),
    {
        self.height % params::EPOCH_BLOCKS == params::EPOCH_BLOCKS - 1
    }

    /// Structural checks that need no chain state.
    pub fn check_self_consistent(&self) -> (result: Result<(), HeaderError>)
        ensures
            result == header_check(*self),
    {
        if self.version != HEADER_VERSION {
            return Err(HeaderError::UnsupportedVersion(self.version));
        }
        if !self.rung.claimable_by_a_header() {
            return Err(HeaderError::UnclaimableRung(self.rung));
        }
        if self.finalized_height > self.height {
            return Err(
                HeaderError::FinalizedAhead {
                    finalized: self.finalized_height,
                    height: self.height,
                },
            );
        }
        if self.rung == FinalityRung::Chain && self.finalized_height != self.height {
            return Err(
                HeaderError::FinalizedAhead {
                    finalized: self.finalized_height,
                    height: self.height,
                },
            );
        }
        let parent_is_zero = self.parent.as_hash().is_zero();
        if self.height == 0 && !parent_is_zero {
            return Err(HeaderError::GenesisHasParent);
        }
        if self.height != 0 && parent_is_zero {
            return Err(HeaderError::MissingParent);
        }
        if !self.emitted_supply.within_cap() {
            return Err(HeaderError::SupplyOverCap(self.emitted_supply));
        }
        Ok(())
    }
}

impl Encode for BlockHeader {
    open spec fn spec_encode(&self) -> Seq<u8> {
        u16_bytes(self.version) + self.chain.spec_encode() + varint_bytes(self.height as nat)
            + self.parent.spec_encode() + self.rung.spec_encode() + varint_bytes(
            self.finalized_height as nat,
        ) + self.state_root.spec_encode() + self.tx_root.spec_encode()
            + self.proposer.spec_encode() + self.randomness_reveal.spec_encode()
            + self.archive_commitment.spec_encode() + self.emitted_supply.spec_encode()
            + self.security_budget.spec_encode() + self.fee_emission_ratio.spec_encode()
    }

    fn encode(&self, out: &mut Encoder) {
        out.write_u16(self.version);
        self.chain.encode(out);
        out.write_varint(self.height);
        self.parent.encode(out);
        self.rung.encode(out);
        out.write_varint(self.finalized_height);
        self.state_root.encode(out);
        self.tx_root.encode(out);
        self.proposer.encode(out);
        self.randomness_reveal.encode(out);
        self.archive_commitment.encode(out);
        self.emitted_supply.encode(out);
        self.security_budget.encode(out);
        self.fee_emission_ratio.encode(out);
        assert(out@ =~= old(out)@ + self.spec_encode());
    }
}

impl Decode for BlockHeader {
    open spec fn decodable(&self, level: nat) -> bool {
        true
    }

    #[verifier::spinoff_prover]
    #[verifier::rlimit(100)]
    fn decode(input: &mut Decoder<'_>) -> (result: Result<Self, CodecError>) {
        let ghost data = input.data();
        let ghost start = input.pos() as int;
        let ghost s = input.rest();
        let ghost level = input.level();
        proof {
            assert forall|v: BlockHeader| #[trigger]
                v.decodable(level) && begins_with(s, v) implies ({
                let p1 = v.version.spec_encode();
                let p2 = p1 + v.chain.spec_encode();
                let p3 = p2 + v.height.spec_encode();
                let p4 = p3 + v.parent.spec_encode();
                let p5 = p4 + v.rung.spec_encode();
                let p6 = p5 + v.finalized_height.spec_encode();
                let p7 = p6 + v.state_root.spec_encode();
                let p8 = p7 + v.tx_root.spec_encode();
                let p9 = p8 + v.proposer.spec_encode();
                let p10 = p9 + v.randomness_reveal.spec_encode();
                let p11 = p10 + v.archive_commitment.spec_encode();
                let p12 = p11 + v.emitted_supply.spec_encode();
                let p13 = p12 + v.security_budget.spec_encode();
                &&& v.version.decodable(level) && begins_with(s, v.version)
                &&& v.chain.decodable(level) && begins_with(s.skip(p1.len() as int), v.chain)
                &&& v.height.decodable(level) && begins_with(s.skip(p2.len() as int), v.height)
                &&& v.parent.decodable(level) && begins_with(s.skip(p3.len() as int), v.parent)
                &&& v.rung.decodable(level) && begins_with(s.skip(p4.len() as int), v.rung)
                &&& v.finalized_height.decodable(level) && begins_with(s.skip(p5.len() as int), v.finalized_height)
                &&& v.state_root.decodable(level) && begins_with(s.skip(p6.len() as int), v.state_root)
                &&& v.tx_root.decodable(level) && begins_with(s.skip(p7.len() as int), v.tx_root)
                &&& v.proposer.decodable(level) && begins_with(s.skip(p8.len() as int), v.proposer)
                &&& v.randomness_reveal.decodable(level) && begins_with(s.skip(p9.len() as int), v.randomness_reveal)
                &&& v.archive_commitment.decodable(level) && begins_with(s.skip(p10.len() as int), v.archive_commitment)
                &&& v.emitted_supply.decodable(level) && begins_with(s.skip(p11.len() as int), v.emitted_supply)
                &&& v.security_budget.decodable(level) && begins_with(s.skip(p12.len() as int), v.security_budget)
                &&& v.fee_emission_ratio.decodable(level) && begins_with(s.skip(p13.len() as int), v.fee_emission_ratio)
            }) by {
                let p1 = v.version.spec_encode();
                let p2 = p1 + v.chain.spec_encode();
                let p3 = p2 + v.height.spec_encode();
                let p4 = p3 + v.parent.spec_encode();
                let p5 = p4 + v.rung.spec_encode();
                let p6 = p5 + v.finalized_height.spec_encode();
                let p7 = p6 + v.state_root.spec_encode();
                let p8 = p7 + v.tx_root.spec_encode();
                let p9 = p8 + v.proposer.spec_encode();
                let p10 = p9 + v.randomness_reveal.spec_encode();
                let p11 = p10 + v.archive_commitment.spec_encode();
                let p12 = p11 + v.emitted_supply.spec_encode();
                let p13 = p12 + v.security_budget.spec_encode();
                assert(v.spec_encode() == p13 + v.fee_emission_ratio.spec_encode());
                lemma_begins_with_pieces(s, p13, v.fee_emission_ratio.spec_encode());
                lemma_begins_with_pieces(s, p12, v.security_budget.spec_encode());
                lemma_begins_with_pieces(s, p11, v.emitted_supply.spec_encode());
                lemma_begins_with_pieces(s, p10, v.archive_commitment.spec_encode());
                lemma_begins_with_pieces(s, p9, v.randomness_reveal.spec_encode());
                lemma_begins_with_pieces(s, p8, v.proposer.spec_encode());
                lemma_begins_with_pieces(s, p7, v.tx_root.spec_encode());
                lemma_begins_with_pieces(s, p6, v.state_root.spec_encode());
                lemma_begins_with_pieces(s, p5, v.finalized_height.spec_encode());
                lemma_begins_with_pieces(s, p4, v.rung.spec_encode());
                lemma_begins_with_pieces(s, p3, v.parent.spec_encode());
                lemma_begins_with_pieces(s, p2, v.height.spec_encode());
                lemma_begins_with_pieces(s, p1, v.chain.spec_encode());
                assert(s.take(p1.len() as int) == p1);
            }
        }
        let version = u16::decode(input)?;
        let ghost done = version.spec_encode();
        proof {
            assert(input.rest() =~= s.skip(done.len() as int));
        }
        let chain = ChainId::decode(input)?;
        proof {
            lemma_decoded_pieces(data, start, done, chain.spec_encode());
            done = done + chain.spec_encode();
            assert(input.rest() =~= s.skip(done.len() as int));
            assert forall|v: BlockHeader| #[trigger]
                v.decodable(level) && begins_with(s, v) implies done == v.version.spec_encode() + v.chain.spec_encode() by {
                assert(v.version.decodable(level));
            }
        }
        let height = u64::decode(input)?;
        proof {
            lemma_decoded_pieces(data, start, done, height.spec_encode());
            done = done + height.spec_encode();
            assert(input.rest() =~= s.skip(done.len() as int));
            assert forall|v: BlockHeader| #[trigger]
                v.decodable(level) && begins_with(s, v) implies done == v.version.spec_encode() + v.chain.spec_encode() + v.height.spec_encode() by {
                assert(v.chain.decodable(level));
            }
        }
        let parent = BlockId::decode(input)?;
        proof {
            lemma_decoded_pieces(data, start, done, parent.spec_encode());
            done = done + parent.spec_encode();
            assert(input.rest() =~= s.skip(done.len() as int));
            assert forall|v: BlockHeader| #[trigger]
                v.decodable(level) && begins_with(s, v) implies done == v.version.spec_encode() + v.chain.spec_encode() + v.height.spec_encode() + v.parent.spec_encode() by {
                assert(v.height.decodable(level));
            }
        }
        let rung = FinalityRung::decode(input)?;
        proof {
            lemma_decoded_pieces(data, start, done, rung.spec_encode());
            done = done + rung.spec_encode();
            assert(input.rest() =~= s.skip(done.len() as int));
            assert forall|v: BlockHeader| #[trigger]
                v.decodable(level) && begins_with(s, v) implies done == v.version.spec_encode() + v.chain.spec_encode() + v.height.spec_encode() + v.parent.spec_encode() + v.rung.spec_encode() by {
                assert(v.parent.decodable(level));
            }
        }
        let finalized_height = u64::decode(input)?;
        proof {
            lemma_decoded_pieces(data, start, done, finalized_height.spec_encode());
            done = done + finalized_height.spec_encode();
            assert(input.rest() =~= s.skip(done.len() as int));
            assert forall|v: BlockHeader| #[trigger]
                v.decodable(level) && begins_with(s, v) implies done == v.version.spec_encode() + v.chain.spec_encode() + v.height.spec_encode() + v.parent.spec_encode() + v.rung.spec_encode() + v.finalized_height.spec_encode() by {
                assert(v.rung.decodable(level));
            }
        }
        let state_root = Digest::decode(input)?;
        proof {
            lemma_decoded_pieces(data, start, done, state_root.spec_encode());
            done = done + state_root.spec_encode();
            assert(input.rest() =~= s.skip(done.len() as int));
            assert forall|v: BlockHeader| #[trigger]
                v.decodable(level) && begins_with(s, v) implies done == v.version.spec_encode() + v.chain.spec_encode() + v.height.spec_encode() + v.parent.spec_encode() + v.rung.spec_encode() + v.finalized_height.spec_encode() + v.state_root.spec_encode() by {
                assert(v.finalized_height.decodable(level));
            }
        }
        let tx_root = Digest::decode(input)?;
        proof {
            lemma_decoded_pieces(data, start, done, tx_root.spec_encode());
            done = done + tx_root.spec_encode();
            assert(input.rest() =~= s.skip(done.len() as int));
            assert forall|v: BlockHeader| #[trigger]
                v.decodable(level) && begins_with(s, v) implies done == v.version.spec_encode() + v.chain.spec_encode() + v.height.spec_encode() + v.parent.spec_encode() + v.rung.spec_encode() + v.finalized_height.spec_encode() + v.state_root.spec_encode() + v.tx_root.spec_encode() by {
                assert(v.state_root.decodable(level));
            }
        }
        let proposer = AccountId::decode(input)?;
        proof {
            lemma_decoded_pieces(data, start, done, proposer.spec_encode());
            done = done + proposer.spec_encode();
            assert(input.rest() =~= s.skip(done.len() as int));
            assert forall|v: BlockHeader| #[trigger]
                v.decodable(level) && begins_with(s, v) implies done == v.version.spec_encode() + v.chain.spec_encode() + v.height.spec_encode() + v.parent.spec_encode() + v.rung.spec_encode() + v.finalized_height.spec_encode() + v.state_root.spec_encode() + v.tx_root.spec_encode() + v.proposer.spec_encode() by {
                assert(v.tx_root.decodable(level));
            }
        }
        let randomness_reveal = Digest::decode(input)?;
        proof {
            lemma_decoded_pieces(data, start, done, randomness_reveal.spec_encode());
            done = done + randomness_reveal.spec_encode();
            assert(input.rest() =~= s.skip(done.len() as int));
            assert forall|v: BlockHeader| #[trigger]
                v.decodable(level) && begins_with(s, v) implies done == v.version.spec_encode() + v.chain.spec_encode() + v.height.spec_encode() + v.parent.spec_encode() + v.rung.spec_encode() + v.finalized_height.spec_encode() + v.state_root.spec_encode() + v.tx_root.spec_encode() + v.proposer.spec_encode() + v.randomness_reveal.spec_encode() by {
                assert(v.proposer.decodable(level));
            }
        }
        let archive_commitment = Digest::decode(input)?;
        proof {
            lemma_decoded_pieces(data, start, done, archive_commitment.spec_encode());
            done = done + archive_commitment.spec_encode();
            assert(input.rest() =~= s.skip(done.len() as int));
            assert forall|v: BlockHeader| #[trigger]
                v.decodable(level) && begins_with(s, v) implies done == v.version.spec_encode() + v.chain.spec_encode() + v.height.spec_encode() + v.parent.spec_encode() + v.rung.spec_encode() + v.finalized_height.spec_encode() + v.state_root.spec_encode() + v.tx_root.spec_encode() + v.proposer.spec_encode() + v.randomness_reveal.spec_encode() + v.archive_commitment.spec_encode() by {
                assert(v.randomness_reveal.decodable(level));
            }
        }
        let emitted_supply = Amount::decode(input)?;
        proof {
            lemma_decoded_pieces(data, start, done, emitted_supply.spec_encode());
            done = done + emitted_supply.spec_encode();
            assert(input.rest() =~= s.skip(done.len() as int));
            assert forall|v: BlockHeader| #[trigger]
                v.decodable(level) && begins_with(s, v) implies done == v.version.spec_encode() + v.chain.spec_encode() + v.height.spec_encode() + v.parent.spec_encode() + v.rung.spec_encode() + v.finalized_height.spec_encode() + v.state_root.spec_encode() + v.tx_root.spec_encode() + v.proposer.spec_encode() + v.randomness_reveal.spec_encode() + v.archive_commitment.spec_encode() + v.emitted_supply.spec_encode() by {
                assert(v.archive_commitment.decodable(level));
            }
        }
        let security_budget = Amount::decode(input)?;
        proof {
            lemma_decoded_pieces(data, start, done, security_budget.spec_encode());
            done = done + security_budget.spec_encode();
            assert(input.rest() =~= s.skip(done.len() as int));
            assert forall|v: BlockHeader| #[trigger]
                v.decodable(level) && begins_with(s, v) implies done == v.version.spec_encode() + v.chain.spec_encode() + v.height.spec_encode() + v.parent.spec_encode() + v.rung.spec_encode() + v.finalized_height.spec_encode() + v.state_root.spec_encode() + v.tx_root.spec_encode() + v.proposer.spec_encode() + v.randomness_reveal.spec_encode() + v.archive_commitment.spec_encode() + v.emitted_supply.spec_encode() + v.security_budget.spec_encode() by {
                assert(v.emitted_supply.decodable(level));
            }
        }
        let fee_emission_ratio = Ratio::decode(input)?;
        proof {
            lemma_decoded_pieces(data, start, done, fee_emission_ratio.spec_encode());
            done = done + fee_emission_ratio.spec_encode();
            assert(input.rest() =~= s.skip(done.len() as int));
            assert forall|v: BlockHeader| #[trigger]
                v.decodable(level) && begins_with(s, v) implies done == v.version.spec_encode() + v.chain.spec_encode() + v.height.spec_encode() + v.parent.spec_encode() + v.rung.spec_encode() + v.finalized_height.spec_encode() + v.state_root.spec_encode() + v.tx_root.spec_encode() + v.proposer.spec_encode() + v.randomness_reveal.spec_encode() + v.archive_commitment.spec_encode() + v.emitted_supply.spec_encode() + v.security_budget.spec_encode() + v.fee_emission_ratio.spec_encode() by {
                assert(v.security_budget.decodable(level));
            }
        }
        let header = BlockHeader {
            version,
            chain,
            height,
            parent,
            rung,
            finalized_height,
            state_root,
            tx_root,
            proposer,
            randomness_reveal,
            archive_commitment,
            emitted_supply,
            security_budget,
            fee_emission_ratio,
        };
        assert(done =~= header.spec_encode());
        Ok(header)
    }
}

/// A header with its proposer's signature over the header's signing digest.
#[derive(Debug, Clone, PartialEq, Eq)]
pub struct SignedHeader {
    /// The header.
    pub header: BlockHeader,
    /// The proposer's signature.
    pub signature: Signature,
}

impl Encode for SignedHeader {
    open spec fn spec_encode(&self) -> Seq<u8> {
        self.header.spec_encode() + self.signature.spec_encode()
    }

    fn encode(&self, out: &mut Encoder) {
        self.header.encode(out);
        self.signature.encode(out);
    }
}

/// Evidence that a validator signed two different blocks at one height.
#[derive(Debug, Clone, PartialEq, Eq)]
pub struct ValidatorEquivocation {
    /// The accused validator.
    pub validator: AccountId,
    /// One signed header.
    pub first: SignedHeader,
    /// Another, at the same height.
    pub second: SignedHeader,
}

/// What checking validator equivocation evidence gives: the first reason,
/// in the order they are checked, that it shows no equivocation, then what
/// verifying the two signatures under the accused's key gave.
pub open spec fn validator_evidence_check(
    evidence: ValidatorEquivocation,
    signatures: Result<(), HeaderError>,
) -> Result<(), HeaderError> {
    let first = evidence.first.header;
    let second = evidence.second.header;
    if first.chain@ != second.chain@ {
        Err(HeaderError::EvidenceNotEquivocation { why: "different chains" })
    } else if first.height != second.height {
        Err(HeaderError::EvidenceNotEquivocation { why: "different heights" })
    } else if first.proposer@ != evidence.validator@ || second.proposer@ != evidence.validator@ {
        Err(HeaderError::EvidenceNotEquivocation { why: "not both by the accused" })
    } else if header_id(first) == header_id(second) {
        Err(HeaderError::EvidenceNotEquivocation { why: "the same block twice" })
    } else {
        signatures
    }
}

/// Evidence convicts a validator exactly when it shows two different blocks
/// on one chain at one height, both proposed by the accused, and both
/// signatures verify.
pub proof fn lemma_validator_evidence_convicts(
    evidence: ValidatorEquivocation,
    signatures: Result<(), HeaderError>,
)
    ensures
        validator_evidence_check(evidence, signatures) is Ok <==> {
            &&& evidence.first.header.chain@ == evidence.second.header.chain@
            &&& evidence.first.header.height == evidence.second.header.height
            &&& evidence.first.header.proposer@ == evidence.validator@
            &&& evidence.second.header.proposer@ == evidence.validator@
            &&& header_id(evidence.first.header) != header_id(evidence.second.header)
            &&& signatures is Ok
        },
{
}

impl ValidatorEquivocation {
    /// Checks that this really is equivocation: one chain, one height, the
    /// accused as proposer of both, two different blocks, and then the two
    /// signatures. Verifying a signature is the signature scheme's work:
    /// `signatures` is what verifying the first and then the second under the
    /// accused's key answered, and it is what comes back once the shape holds.
    pub fn check(&self, signatures: Result<(), HeaderError>) -> (result: Result<(), HeaderError>)
        ensures
            result == validator_evidence_check(*self, signatures),
    {
        let first = &self.first.header;
        let second = &self.second.header;
        if !first.chain.same_as(&second.chain) {
            return Err(HeaderError::EvidenceNotEquivocation { why: "different chains" });
        }
        if first.height != second.height {
            return Err(HeaderError::EvidenceNotEquivocation { why: "different heights" });
        }
        if !first.proposer.same_as(&self.validator) || !second.proposer.same_as(&self.validator) {
            return Err(HeaderError::EvidenceNotEquivocation { why: "not both by the accused" });
        }
        if first.id().same_as(&second.id()) {
            return Err(HeaderError::EvidenceNotEquivocation { why: "the same block twice" });
        }
        signatures
    }
}

impl Encode for ValidatorEquivocation {
    open spec fn spec_encode(&self) -> Seq<u8> {
        self.validator@ + self.first.spec_encode() + self.second.spec_encode()
    }

    fn encode(&self, out: &mut Encoder) {
        self.validator.encode(out);
        self.first.encode(out);
        self.second.encode(out);
        assert(out@ =~= old(out)@ + self.spec_encode());
    }
}

/// A contestation window, counted in finalised height only.
#[derive(Debug, Clone, Copy, PartialEq, Eq)]
pub struct ContestationWindow {
    /// The finalised height at which the window opened.
    pub opened_at_finalized: u64,
    /// How many finalised blocks it lasts.
    pub duration: u64,
}

impl ContestationWindow {
    /// Opens a window at a header's finalised height.
    pub fn open(header: &BlockHeader, duration: u64) -> (window: Self)
        ensures
            window.opened_at_finalized == header.finalized_height,
            window.duration == duration,
    {
        ContestationWindow { opened_at_finalized: header.finalized_height, duration }
    }

    /// Whether the window has elapsed as of a finalised height. A window
    /// whose end overflows never elapses: it protects the absent party
    /// forever rather than expiring at once.
    pub fn has_elapsed(&self, current_finalized_height: u64) -> (elapsed: bool)
        ensures
            elapsed == (self.opened_at_finalized + self.duration <= u64::MAX
                && current_finalized_height >= self.opened_at_finalized + self.duration),
    {
        match self.opened_at_finalized.checked_add(self.duration) {
            None => false,
            Some(deadline) => current_finalized_height >= deadline,
        }
    }
}

/// How a finality rung is displayed.
pub open spec fn rung_text(rung: FinalityRung) -> Seq<char> {
    match rung {
        FinalityRung::Provisional => "provisional"@,
        FinalityRung::Chain => "chain"@,
        FinalityRung::Federal => "federal"@,
    }
}

impl FinalityRung {
    /// The rung as it is displayed.
    pub fn to_string(&self) -> (text: String)
        ensures
            text@ == rung_text(*self),
    {
        match self {
            FinalityRung::Provisional => String::from_str("provisional"),
            FinalityRung::Chain => String::from_str("chain"),
            FinalityRung::Federal => String::from_str("federal"),
        }
    }
}

/// How a header error reads.
pub open spec fn header_error_text(error: HeaderError) -> Seq<char> {
    match error {
        HeaderError::UnsupportedVersion(version) => "unsupported header version "@ + decimal_text(
            version as nat,
        ),
        HeaderError::UnclaimableRung(rung) => "a header cannot claim "@ + rung_text(rung)
            + " finality"@,
        HeaderError::FinalizedAhead { finalized, height } => "finalised height "@ + decimal_text(
            finalized as nat,
        ) + " is inconsistent with height "@ + decimal_text(height as nat),
        HeaderError::GenesisHasParent => "the genesis block named a parent"@,
        HeaderError::MissingParent => "a non-genesis block named no parent"@,
        HeaderError::SupplyOverCap(amount) => "emitted supply "@ + amount_text(amount)
            + " exceeds the cap"@,
        HeaderError::BadSignature => "signature verification failed"@,
        HeaderError::TestAlgorithmOnLiveChain => "a test algorithm was used on a production chain"@,
        HeaderError::EvidenceNotEquivocation { why } => "not equivocation: "@ + why@,
    }
}

impl HeaderError {
    /// The error as it is displayed.
    pub fn to_string(&self) -> (text: String)
        ensures
            text@ == header_error_text(*self),
    {
        match self {
            HeaderError::UnsupportedVersion(version) => {
                let mut text = String::from_str("unsupported header version ");
                text.append(decimal_string(*version as u64).as_str());
                text
            },
            HeaderError::UnclaimableRung(rung) => {
                let mut text = String::from_str("a header cannot claim ");
                text.append(rung.to_string().as_str());
                text.append(" finality");
                text
            },
            HeaderError::FinalizedAhead { finalized, height } => {
                let mut text = String::from_str("finalised height ");
                text.append(decimal_string(*finalized).as_str());
                text.append(" is inconsistent with height ");
                text.append(decimal_string(*height).as_str());
                text
            },
            HeaderError::GenesisHasParent => String::from_str("the genesis block named a parent"),
            HeaderError::MissingParent => String::from_str("a non-genesis block named no parent"),
            HeaderError::SupplyOverCap(amount) => {
                let mut text = String::from_str("emitted supply ");
                text.append(amount.to_string().as_str());
                text.append(" exceeds the cap");
                text
            },
            HeaderError::BadSignature => String::from_str("signature verification failed"),
            HeaderError::TestAlgorithmOnLiveChain => String::from_str(
                "a test algorithm was used on a production chain",
            ),
            HeaderError::EvidenceNotEquivocation { why } => {
                let mut text = String::from_str("not equivocation: ");
                text.append(why);
                text
            },
        }
    }
}

} // verus!
