//! Addresses: the text form of an account identifier.
//!
//! An address is the part of the protocol a person reads aloud, types from a
//! screen or photographs, so everything here is strict and fails loudly.

use vstd::prelude::*;
use vstd::string::StrSliceExecFns;
use vstd::string::StringExecFns;
use vstd::string::StringSliceAdditionalSpecFns;

use crate::bech32::{
    bech32_error_text, convert_bits, convert_bits_spec, decode, decode_spec, encode, encode_spec,
    encoded_bytes, lemma_ascii_utf8, lemma_regroup_shape, push_all, regroup, Bech32Error,
};
use crate::digits::{decimal_string, decimal_text};
use crate::hash::Digest;
use crate::id::AccountId;
use crate::std_conv::{array_from_slice, ascii_string};

verus! {

/// The address payload version. Only 0 is defined.
pub const ADDRESS_VERSION: u8 = 0;

/// Which network an address belongs to. The prefixes differ so that a
/// test-network address pasted into a mainnet wallet fails at once.
#[derive(Debug, Clone, Copy, PartialEq, Eq, Structural, PartialOrd, Ord)]
pub enum Network {
    /// The production chain. Prefix `van`.
    Mainnet,
    /// The permanent public test network. Prefix `tvan`.
    Testnet,
}

/// The human-readable part of addresses on a network.
pub open spec fn network_hrp(network: Network) -> Seq<char> {
    match network {
        Network::Mainnet => seq!['v', 'a', 'n'],
        Network::Testnet => seq!['t', 'v', 'a', 'n'],
    }
}

/// The bytes of that human-readable part.
pub open spec fn network_hrp_bytes(network: Network) -> Seq<u8> {
    match network {
        Network::Mainnet => seq![118u8, 97u8, 110u8],
        Network::Testnet => seq![116u8, 118u8, 97u8, 110u8],
    }
}

/// The network whose prefix is `hrp`, if any.
pub open spec fn network_of_hrp(hrp: Seq<char>) -> Option<Network> {
    if hrp == network_hrp(Network::Mainnet) {
        Some(Network::Mainnet)
    } else if hrp == network_hrp(Network::Testnet) {
        Some(Network::Testnet)
    } else {
        None
    }
}

proof fn lemma_network_hrp_bytes(network: Network)
    ensures
        network_hrp_bytes(network).map_values(|b: u8| b as char) == network_hrp(network),
        forall|i: int|
            0 <= i < network_hrp_bytes(network).len() ==> #[trigger] network_hrp_bytes(network)[i]
                < 128,
{
    assert(network_hrp_bytes(network).map_values(|b: u8| b as char) =~= network_hrp(network));
}

impl Network {
    /// The human-readable part used in addresses on this network.
    pub fn hrp(self) -> (hrp: &'static str)
        ensures
            hrp@ == network_hrp(self),
    {
        match self {
            Network::Mainnet => {
                proof {
                    reveal_strlit("van");
                }
                "van"
            },
            Network::Testnet => {
                proof {
                    reveal_strlit("tvan");
                }
                "tvan"
            },
        }
    }

    /// The network with this prefix, if any.
    pub fn from_hrp(hrp: &str) -> (network: Option<Self>)
        ensures
            network == network_of_hrp(hrp@),
    {
        let length = hrp.unicode_len();
        if length == 3 && hrp.get_char(0) == 'v' && hrp.get_char(1) == 'a' && hrp.get_char(2)
            == 'n' {
            assert(hrp@ =~= network_hrp(Network::Mainnet));
            Some(Network::Mainnet)
        } else if length == 4 && hrp.get_char(0) == 't' && hrp.get_char(1) == 'v' && hrp.get_char(
            2,
        ) == 'a' && hrp.get_char(3) == 'n' {
            assert(hrp@ =~= network_hrp(Network::Testnet));
            Some(Network::Testnet)
        } else {
            proof {
                if hrp@ == network_hrp(Network::Mainnet) {
                    assert(hrp@[0] == 'v' && hrp@[1] == 'a' && hrp@[2] == 'n');
                }
                if hrp@ == network_hrp(Network::Testnet) {
                    assert(hrp@[0] == 't' && hrp@[1] == 'v' && hrp@[2] == 'a' && hrp@[3] == 'n');
                }
            }
            None
        }
    }

    /// The prefix as an owned string, as the network is displayed.
    pub fn to_string(self) -> (text: String)
        ensures
            text@ == network_hrp(self),
    {
        let mut bytes: Vec<u8> = Vec::new();
        if let Network::Testnet = self {
            bytes.push(116u8);
        }
        bytes.push(118u8);
        bytes.push(97u8);
        bytes.push(110u8);
        proof {
            lemma_network_hrp_bytes(self);
            assert(bytes@ =~= network_hrp_bytes(self));
        }
        ascii_string(bytes)
    }
}

/// Why an address string was rejected.
#[derive(Debug, Clone, PartialEq, Eq)]
pub enum AddressError {
    /// The Bech32m layer rejected it.
    Bech32(Bech32Error),
    /// The prefix is not one this build knows.
    UnknownNetwork(String),
    /// The prefix names a network other than the one expected.
    WrongNetwork {
        /// The network the caller was working in.
        expected: Network,
        /// The network the address belongs to.
        found: Network,
    },
    /// The version character is not one this protocol defines.
    UnknownVersion(u8),
    /// The data part is empty, so there is no version character.
    MissingVersion,
    /// The payload was not 32 bytes.
    BadPayloadLength(usize),
}

impl From<Bech32Error> for AddressError {
    fn from(error: Bech32Error) -> (converted: Self) {
        AddressError::Bech32(error)
    }
}

impl vstd::std_specs::convert::FromSpecImpl<Bech32Error> for AddressError {
    open spec fn obeys_from_spec() -> bool {
        true
    }

    open spec fn from_spec(error: Bech32Error) -> Self {
        AddressError::Bech32(error)
    }
}

/// An account address: a network and an account identifier.
#[derive(Debug, Clone, Copy, PartialEq, Eq, PartialOrd, Ord)]
pub struct Address {
    network: Network,
    account: AccountId,
}

impl View for Address {
    type V = (Network, Seq<u8>);

    closed spec fn view(&self) -> (Network, Seq<u8>) {
        (self.network, self.account@)
    }
}

/// The five-bit data of an address: the version, then the account's bytes
/// regrouped into five-bit groups.
pub open spec fn address_data(account: Seq<u8>) -> Seq<u8> {
    seq![ADDRESS_VERSION] + convert_bits_spec(account, 8, 5, true)->Ok_0
}

/// The bytes of an address's text.
pub open spec fn address_bytes(network: Network, account: Seq<u8>) -> Seq<u8> {
    encoded_bytes(network_hrp_bytes(network), address_data(account))
}

/// What parsing `text` as an address gives, as a relation to the result:
/// the first failure in the order the layers are checked, or the address.
pub open spec fn parse_address(text: &str, result: Result<Address, AddressError>) -> bool {
    match decode_spec(text) {
        Err(error) => result == Err::<Address, AddressError>(AddressError::Bech32(error)),
        Ok((hrp, data)) => {
            let hrp_chars = hrp.map_values(|b: u8| b as char);
            if network_of_hrp(hrp_chars) is None {
                result matches Err(AddressError::UnknownNetwork(prefix)) && prefix@ == hrp_chars
            } else if data.len() == 0 {
                result == Err::<Address, AddressError>(AddressError::MissingVersion)
            } else if data[0] != ADDRESS_VERSION {
                result == Err::<Address, AddressError>(AddressError::UnknownVersion(data[0]))
            } else {
                match convert_bits_spec(data.skip(1), 5, 8, false) {
                    Err(error) => result == Err::<Address, AddressError>(
                        AddressError::Bech32(error),
                    ),
                    Ok(bytes) => if bytes.len() != 32 {
                        result == Err::<Address, AddressError>(
                            AddressError::BadPayloadLength(bytes.len() as usize),
                        )
                    } else {
                        result matches Ok(address) && address@ == (
                            network_of_hrp(hrp_chars)->0,
                            bytes,
                        )
                    },
                }
            }
        },
    }
}

/// The network and account `text` parses to, if it parses.
pub open spec fn parsed_address(text: &str) -> Option<(Network, Seq<u8>)> {
    match decode_spec(text) {
        Err(_) => None,
        Ok((hrp, data)) => {
            let network = network_of_hrp(hrp.map_values(|b: u8| b as char));
            if network is None || data.len() == 0 || data[0] != ADDRESS_VERSION {
                None
            } else {
                match convert_bits_spec(data.skip(1), 5, 8, false) {
                    Ok(bytes) => if bytes.len() == 32 {
                        Some((network->0, bytes))
                    } else {
                        None
                    },
                    Err(_) => None,
                }
            }
        },
    }
}

/// An address's text always encodes: the prefix is lowercase printable
/// ASCII, the data five-bit groups, and the whole 63 or 64 characters.
proof fn lemma_address_encodes(network: Network, account: Seq<u8>)
    requires
        account.len() == 32,
    ensures
        encode_spec(network_hrp_bytes(network), address_data(account)) == Ok::<
            Seq<u8>,
            Bech32Error,
        >(address_bytes(network, account)),
{
    let hrp = network_hrp_bytes(network);
    let data = address_data(account);
    lemma_regroup_shape(account, 8, 5);
    let state = regroup(account, 8, 5);
    let accumulator = state.0;
    let shift = (5 - state.1) as u32;
    let tail = (accumulator << shift) & crate::bech32::group_mask(5);
    let payload = convert_bits_spec(account, 8, 5, true)->Ok_0;
    assert(crate::bech32::group_mask(5) == 31) by (bit_vector);
    assert(tail <= 31) by (bit_vector)
        requires
            tail == (accumulator << shift) & 31u32,
    ;
    assert(state.2.len() * 5 + state.1 == 256);
    assert(state.1 == 1 && state.2.len() == 51);
    assert(payload.len() == 52);
    assert forall|i: int| 0 <= i < data.len() implies #[trigger] data[i] < 32 by {
        if i > 0 && i < 52 {
            assert(data[i] == state.2[i - 1]);
        }
    }
    crate::bech32::lemma_first_fail_none(hrp, crate::bech32::encodable_hrp());
}

impl Address {
    /// Builds an address for an account on a network.
    pub fn new(network: Network, account: AccountId) -> (address: Self)
        ensures
            address@ == (network, account@),
    {
        Address { network, account }
    }

    /// The network.
    pub fn network(&self) -> (network: Network)
        ensures
            network == self@.0,
    {
        self.network
    }

    /// The account.
    pub fn account(&self) -> (account: AccountId)
        ensures
            account@ == self@.1,
    {
        self.account
    }

    /// The address as text: the network's prefix, then the version and the
    /// account's 32 bytes in Bech32m.
    pub fn to_string(&self) -> (text: String)
        ensures
            text@ == address_bytes(self@.0, self@.1).map_values(|b: u8| b as char),
    {
        proof {
            AccountId::lemma_len(self.account);
            lemma_address_encodes(self.network, self.account@);
        }
        let account = self.account.as_bytes();
        let payload = match convert_bits(account, 8, 5, true) {
            Ok(payload) => payload,
            Err(_) => {
                return String::new();
            },
        };
        let mut data: Vec<u8> = Vec::new();
        data.push(ADDRESS_VERSION);
        push_all(&mut data, payload.as_slice());
        let hrp = self.network.hrp();
        proof {
            lemma_network_hrp_bytes(self.network);
            lemma_ascii_utf8(network_hrp_bytes(self.network));
            assert(hrp.spec_bytes() == network_hrp_bytes(self.network));
            assert(data@ =~= address_data(self.account@));
        }
        match encode(hrp, data.as_slice()) {
            Ok(text) => text,
            Err(_) => String::new(),
        }
    }

    /// Parses an address on any known network.
    pub fn from_str(text: &str) -> (result: Result<Self, AddressError>)
        ensures
            parse_address(text, result),
            result matches Ok(address) ==> parsed_address(text) == Some(address@),
            result is Ok <==> parsed_address(text) is Some,
    {
        let (hrp, data) = match decode(text) {
            Ok(parts) => parts,
            Err(error) => {
                return Err(AddressError::Bech32(error));
            },
        };
        let network = match Network::from_hrp(hrp.as_str()) {
            Some(network) => network,
            None => {
                return Err(AddressError::UnknownNetwork(hrp));
            },
        };
        if data.len() == 0 {
            return Err(AddressError::MissingVersion);
        }
        let version = data[0];
        if version != ADDRESS_VERSION {
            return Err(AddressError::UnknownVersion(version));
        }
        let payload = vstd::slice::slice_subrange(data.as_slice(), 1, data.len());
        assert(payload@ =~= data@.skip(1));
        let bytes = match convert_bits(payload, 5, 8, false) {
            Ok(bytes) => bytes,
            Err(error) => {
                return Err(AddressError::Bech32(error));
            },
        };
        if bytes.len() != 32 {
            return Err(AddressError::BadPayloadLength(bytes.len()));
        }
        let array: [u8; 32] = array_from_slice(bytes.as_slice());
        Ok(Address { network, account: AccountId::from_hash(Digest::from_bytes(array)) })
    }

    /// Parses an address, requiring it to belong to `expected`.
    pub fn parse_on(expected: Network, text: &str) -> (result: Result<Self, AddressError>)
        ensures
            match parsed_address(text) {
                Some((network, account)) => if network == expected {
                    result matches Ok(address) && address@ == (network, account)
                } else {
                    result == Err::<Address, AddressError>(
                        AddressError::WrongNetwork { expected, found: network },
                    )
                },
                None => parse_address(text, result),
            },
    {
        let address = Self::from_str(text)?;
        if address.network == expected {
            Ok(address)
        } else {
            Err(AddressError::WrongNetwork { expected, found: address.network })
        }
    }
}

/// An address's text parses back to the address: for every network and
/// every 32-byte account, the string whose bytes are the address's text
/// gives back that network and that account.
pub proof fn lemma_address_round_trip(text: &str, network: Network, account: Seq<u8>)
    requires
        account.len() == 32,
        text@ == address_bytes(network, account).map_values(|b: u8| b as char),
    ensures
        parsed_address(text) == Some((network, account)),
{
    let hrp = network_hrp_bytes(network);
    let data = address_data(account);
    lemma_address_encodes(network, account);
    crate::bech32::lemma_decode_encode(text, hrp, data);
    lemma_network_hrp_bytes(network);
    crate::bech32::round_trip::lemma_convert_bits_round_trip(account);
    assert(data.skip(1) =~= convert_bits_spec(account, 8, 5, true)->Ok_0);
    assert(network_of_hrp(hrp.map_values(|b: u8| b as char)) == Some(network));
}

/// The two networks never produce the same text: every mainnet address
/// differs from every testnet address.
pub proof fn lemma_networks_never_share_text(mainnet: Seq<u8>, testnet: Seq<u8>)
    ensures
        address_bytes(Network::Mainnet, mainnet) != address_bytes(Network::Testnet, testnet),
{
    assert(address_bytes(Network::Mainnet, mainnet)[0] == 118u8);
    assert(address_bytes(Network::Testnet, testnet)[0] == 116u8);
}

/// How an address error reads.
pub open spec fn address_error_text(error: AddressError) -> Seq<char> {
    match error {
        AddressError::Bech32(inner) => bech32_error_text(inner),
        AddressError::UnknownNetwork(prefix) => "'"@ + prefix@
            + "' is not a Vanargand address prefix"@,
        AddressError::WrongNetwork { expected, found } => "this is a "@ + network_hrp(found)
            + " address; expected "@ + network_hrp(expected),
        AddressError::UnknownVersion(version) => "unknown address version "@ + decimal_text(
            version as nat,
        ),
        AddressError::MissingVersion => "address has no version character"@,
        AddressError::BadPayloadLength(length) => "address payload is "@ + decimal_text(
            length as nat,
        ) + " bytes, expected 32"@,
    }
}

impl AddressError {
    /// The error as it is displayed.
    pub fn to_string(&self) -> (text: String)
        ensures
            text@ == address_error_text(*self),
    {
        match self {
            AddressError::Bech32(inner) => inner.to_string(),
            AddressError::UnknownNetwork(prefix) => {
                let mut text = String::from_str("'");
                text.append(prefix.as_str());
                text.append("' is not a Vanargand address prefix");
                text
            },
            AddressError::WrongNetwork { expected, found } => {
                let mut text = String::from_str("this is a ");
                text.append(found.hrp());
                text.append(" address; expected ");
                text.append(expected.hrp());
                text
            },
            AddressError::UnknownVersion(version) => {
                let mut text = String::from_str("unknown address version ");
                text.append(decimal_string(*version as u64).as_str());
                text
            },
            AddressError::MissingVersion => String::from_str("address has no version character"),
            AddressError::BadPayloadLength(length) => {
                let mut text = String::from_str("address payload is ");
                text.append(decimal_string(*length as u64).as_str());
                text.append(" bytes, expected 32");
                text
            },
        }
    }
}

} // verus!
