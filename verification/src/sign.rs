//! Public keys and signatures as the ledger holds them.
//!
//! Nothing here verifies a signature; the ledger stores keys and signatures,
//! compares them and commits to them. Each is the identifier byte of its
//! algorithm followed by its raw bytes, and that is also its canonical
//! encoding: no length prefix, since the length is a property of the
//! algorithm.

use vstd::prelude::*;

use crate::codec::{Encode, Encoder};

verus! {

/// A signature-verifying public key: its algorithm's identifier byte and its
/// raw bytes.
#[derive(Debug, PartialEq, Eq)]
pub struct VerifyingKey {
    algorithm: u8,
    bytes: Vec<u8>,
}

impl View for VerifyingKey {
    type V = (u8, Seq<u8>);

    closed spec fn view(&self) -> (u8, Seq<u8>) {
        (self.algorithm, self.bytes@)
    }
}

impl VerifyingKey {
    /// A key of `algorithm` with raw bytes `bytes`.
    pub fn new(algorithm: u8, bytes: Vec<u8>) -> (key: Self)
        ensures
            key@ == (algorithm, bytes@),
    {
        VerifyingKey { algorithm, bytes }
    }

    /// The algorithm's identifier byte.
    pub fn algorithm(&self) -> (algorithm: u8)
        ensures
            algorithm == self@.0,
    {
        self.algorithm
    }

    /// The raw key bytes.
    pub fn as_bytes(&self) -> (bytes: &[u8])
        ensures
            bytes@ == self@.1,
    {
        self.bytes.as_slice()
    }

    /// Whether two keys are the same key.
    pub fn same_as(&self, other: &VerifyingKey) -> (same: bool)
        ensures
            same == (self@ == other@),
    {
        self.algorithm == other.algorithm && crate::codec::eq_bytes(
            self.bytes.as_slice(),
            other.bytes.as_slice(),
        )
    }
}

impl Clone for VerifyingKey {
    fn clone(&self) -> (copy: Self)
        ensures
            copy@ == self@,
    {
        VerifyingKey {
            algorithm: self.algorithm,
            bytes: vstd::slice::slice_to_vec(self.bytes.as_slice()),
        }
    }
}

impl Encode for VerifyingKey {
    open spec fn spec_encode(&self) -> Seq<u8> {
        seq![self@.0] + self@.1
    }

    fn encode(&self, out: &mut Encoder) {
        out.write_u8(self.algorithm);
        out.write_raw(self.bytes.as_slice());
        assert(out@ =~= old(out)@ + self.spec_encode());
    }
}

/// A signature: its algorithm's identifier byte and its raw bytes.
#[derive(Debug, PartialEq, Eq)]
pub struct Signature {
    algorithm: u8,
    bytes: Vec<u8>,
}

impl View for Signature {
    type V = (u8, Seq<u8>);

    closed spec fn view(&self) -> (u8, Seq<u8>) {
        (self.algorithm, self.bytes@)
    }
}

impl Signature {
    /// A signature of `algorithm` with raw bytes `bytes`.
    pub fn new(algorithm: u8, bytes: Vec<u8>) -> (signature: Self)
        ensures
            signature@ == (algorithm, bytes@),
    {
        Signature { algorithm, bytes }
    }

    /// The algorithm's identifier byte.
    pub fn algorithm(&self) -> (algorithm: u8)
        ensures
            algorithm == self@.0,
    {
        self.algorithm
    }

    /// The raw signature bytes.
    pub fn as_bytes(&self) -> (bytes: &[u8])
        ensures
            bytes@ == self@.1,
    {
        self.bytes.as_slice()
    }
}

impl Clone for Signature {
    fn clone(&self) -> (copy: Self)
        ensures
            copy@ == self@,
    {
        Signature {
            algorithm: self.algorithm,
            bytes: vstd::slice::slice_to_vec(self.bytes.as_slice()),
        }
    }
}

impl Encode for Signature {
    open spec fn spec_encode(&self) -> Seq<u8> {
        seq![self@.0] + self@.1
    }

    fn encode(&self, out: &mut Encoder) {
        out.write_u8(self.algorithm);
        out.write_raw(self.bytes.as_slice());
        assert(out@ =~= old(out)@ + self.spec_encode());
    }
}

} // verus!
