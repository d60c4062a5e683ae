//! Chain references: which ledger a message comes from or goes to.
//!
//! A `Chain` serialises to a fixed nine-byte big-endian form (one byte of
//! chain type, eight bytes of chain id) that is used both as a lookup-key
//! component and as part of the signed bytes, so it must be bit-exact on
//! every participating ledger.

use vstd::prelude::*;

use crate::bytes::{
    push_u64_be, read_u64_be, spec_u64_from_be_bytes, spec_u64_to_be_bytes,
    lemma_u64_be_bytes_inverse, lemma_u64_be_bytes_round_trip,
};

verus! {

/// The ledger id this deployment stamps on outbound headers.
pub const CHAIN_ID: u64 = 101;

/// The kinds of ledger the bridge can route between.
#[derive(Clone, Copy, Debug, PartialEq, Eq, Structural)]
pub enum ChainType {
    LedgerA,
    LedgerB,
    ThisLedger,
}

impl ChainType {
    /// The wire value of this chain type.
    pub open spec fn spec_u8(self) -> u8 {
        match self {
            ChainType::LedgerA => 0,
            ChainType::LedgerB => 1,
            ChainType::ThisLedger => 2,
        }
    }

    /// The wire value of this chain type.
    pub fn as_u8(self) -> (v: u8)
        ensures
            v == self.spec_u8(),
    {
        match self {
            ChainType::LedgerA => 0,
            ChainType::LedgerB => 1,
            ChainType::ThisLedger => 2,
        }
    }
}

/// A reference to one ledger: its type tag and its 64-bit id. Immutable once
/// embedded in a header.
#[derive(Clone, Copy, Debug, PartialEq, Eq, Structural)]
pub struct Chain {
    pub chain_type: u8,
    pub chain_id: u64,
}

/// The nine-byte big-endian wire form of a chain reference.
pub open spec fn spec_chain_bytes(c: Chain) -> Seq<u8> {
    seq![c.chain_type] + spec_u64_to_be_bytes(c.chain_id)
}

/// The chain reference read back from the first nine bytes of `s`.
pub open spec fn spec_chain_from_bytes(s: Seq<u8>) -> Chain
    recommends
        s.len() >= 9,
{
    Chain { chain_type: s[0], chain_id: spec_u64_from_be_bytes(s.subrange(1, 9)) }
}

/// Decoding the nine-byte form of any chain reference yields the reference
/// again; consequently the encoding is injective.
pub proof fn lemma_chain_bytes_round_trip(c: Chain)
    ensures
        spec_chain_bytes(c).len() == 9,
        spec_chain_from_bytes(spec_chain_bytes(c)) == c,
{
    lemma_u64_be_bytes_round_trip(c.chain_id);
    assert(spec_chain_bytes(c).subrange(1, 9) =~= spec_u64_to_be_bytes(c.chain_id));
}

/// Re-encoding the chain reference read from any nine bytes yields those
/// bytes again: the nine-byte form is a bijection.
pub proof fn lemma_chain_bytes_inverse(s: Seq<u8>)
    requires
        s.len() == 9,
    ensures
        spec_chain_bytes(spec_chain_from_bytes(s)) == s,
{
    lemma_u64_be_bytes_inverse(s.subrange(1, 9));
    assert(spec_chain_bytes(spec_chain_from_bytes(s)) =~= s);
}

impl Chain {
    /// The combined nine-byte big-endian key form of this chain reference:
    /// the type byte followed by the id bytes.
    pub fn combain_chain(&self) -> (r: Vec<u8>)
        ensures
            r@ == spec_chain_bytes(*self),
            r@.len() == 9,
    {
        let mut combined_bytes: Vec<u8> = Vec::new();
        combined_bytes.push(self.chain_type);
        push_u64_be(&mut combined_bytes, self.chain_id);
        proof {
            assert(combined_bytes@ =~= spec_chain_bytes(*self));
        }
        combined_bytes
    }

    /// Reads a chain reference back from the first nine bytes of `bytes`.
    pub fn from_bytes(bytes: &[u8]) -> (c: Self)
        requires
            bytes@.len() >= 9,
        ensures
            c == spec_chain_from_bytes(bytes@),
    {
        let chain_type = bytes[0];
        let chain_id = read_u64_be(bytes, 1);
        Self { chain_type, chain_id }
    }
}

} // verus!
