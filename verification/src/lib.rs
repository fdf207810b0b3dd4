//! Vanargand's canonical objects and ledger state, verified.

pub mod account;
pub mod address;
pub mod amount;
pub mod asset;
pub mod bech32;
pub mod block;
pub mod codec;
mod digits;
pub mod hash;
pub mod id;
pub mod keys;
pub mod ledger;
pub mod merkle;
pub mod name;
pub mod name_book;
pub mod nonce;
pub mod recovery;
pub mod sign;
pub mod slashing;
pub mod smt;
pub mod sorted_map;
mod std_conv;
pub mod tx;
