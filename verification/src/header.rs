//! The message header and its deterministic 107-byte wire form.
//!
//! `to_be_bytes` is the signed-data prefix: every participating ledger must
//! reproduce it byte for byte, since it is the thing validators actually
//! sign. The layout, in order: mtype (1) · nonce (8, big-endian) ·
//! from_chain (9) · from_addr (32) · to_chain (9) · to_addr (32) ·
//! upload_gas_fee (16, big-endian), 107 bytes in all.

use vstd::prelude::*;

use crate::bytes::{
    push_bytes, push_u128_be, push_u64_be, read_bytes32, read_u128_be, read_u64_be,
    spec_u128_to_be_bytes, spec_u64_to_be_bytes, lemma_u128_be_bytes_inverse,
    lemma_u128_be_bytes_round_trip, lemma_u64_be_bytes_inverse, lemma_u64_be_bytes_round_trip,
};
use crate::chain::{
    spec_chain_bytes, Chain, lemma_chain_bytes_inverse, lemma_chain_bytes_round_trip,
};
use crate::errors::ErrorCode;

verus! {

/// Number of bytes in the header wire form.
pub const HEADER_LEN: usize = 107;

/// Routing, sequencing and fee metadata prepended to a message body before
/// hashing and signing. Created once per outbound call and immutable.
#[derive(Clone, Copy, Debug, PartialEq, Eq)]
pub struct MsgHeader {
    pub mtype: u8,
    pub nonce: u64,
    pub from_chain: Chain,
    pub from_addr: [u8; 32],
    pub to_chain: Chain,
    pub to_addr: [u8; 32],
    pub upload_gas_fee: u128,
}

/// The 107-byte big-endian wire form of a header.
pub open spec fn spec_header_bytes(h: MsgHeader) -> Seq<u8> {
    seq![h.mtype] + spec_u64_to_be_bytes(h.nonce) + spec_chain_bytes(h.from_chain)
        + h.from_addr@ + spec_chain_bytes(h.to_chain) + h.to_addr@ + spec_u128_to_be_bytes(
        h.upload_gas_fee,
    )
}

/// Where each field sits inside the wire form.
pub proof fn lemma_header_bytes_layout(h: MsgHeader)
    ensures
        spec_header_bytes(h).len() == 107,
        spec_header_bytes(h)[0] == h.mtype,
        spec_header_bytes(h).subrange(1, 9) == spec_u64_to_be_bytes(h.nonce),
        spec_header_bytes(h).subrange(9, 18) == spec_chain_bytes(h.from_chain),
        spec_header_bytes(h).subrange(18, 50) == h.from_addr@,
        spec_header_bytes(h).subrange(50, 59) == spec_chain_bytes(h.to_chain),
        spec_header_bytes(h).subrange(59, 91) == h.to_addr@,
        spec_header_bytes(h).subrange(91, 107) == spec_u128_to_be_bytes(h.upload_gas_fee),
{
    let s = spec_header_bytes(h);
    assert(s.subrange(1, 9) =~= spec_u64_to_be_bytes(h.nonce));
    assert(s.subrange(9, 18) =~= spec_chain_bytes(h.from_chain));
    assert(s.subrange(18, 50) =~= h.from_addr@);
    assert(s.subrange(50, 59) =~= spec_chain_bytes(h.to_chain));
    assert(s.subrange(59, 91) =~= h.to_addr@);
    assert(s.subrange(91, 107) =~= spec_u128_to_be_bytes(h.upload_gas_fee));
}

/// Two headers with the same wire form are the same header: the encoding is
/// injective over the whole header space.
pub proof fn lemma_header_bytes_injective(h1: MsgHeader, h2: MsgHeader)
    requires
        spec_header_bytes(h1) == spec_header_bytes(h2),
    ensures
        h1 == h2,
{
    lemma_header_bytes_layout(h1);
    lemma_header_bytes_layout(h2);
    lemma_u64_be_bytes_round_trip(h1.nonce);
    lemma_u64_be_bytes_round_trip(h2.nonce);
    lemma_chain_bytes_round_trip(h1.from_chain);
    lemma_chain_bytes_round_trip(h2.from_chain);
    lemma_chain_bytes_round_trip(h1.to_chain);
    lemma_chain_bytes_round_trip(h2.to_chain);
    lemma_u128_be_bytes_round_trip(h1.upload_gas_fee);
    lemma_u128_be_bytes_round_trip(h2.upload_gas_fee);
    assert(h1.from_addr =~= h2.from_addr);
    assert(h1.to_addr =~= h2.to_addr);
}

impl MsgHeader {
    /// Serialises this header to its 107-byte big-endian wire form.
    pub fn to_be_bytes(&self) -> (r: Vec<u8>)
        ensures
            r@ == spec_header_bytes(*self),
            r@.len() == 107,
    {
        let mut r: Vec<u8> = Vec::new();
        r.push(self.mtype);
        push_u64_be(&mut r, self.nonce);
        let from_chain_bytes = self.from_chain.combain_chain();
        push_bytes(&mut r, from_chain_bytes.as_slice());
        push_bytes(&mut r, self.from_addr.as_slice());
        let to_chain_bytes = self.to_chain.combain_chain();
        push_bytes(&mut r, to_chain_bytes.as_slice());
        push_bytes(&mut r, self.to_addr.as_slice());
        push_u128_be(&mut r, self.upload_gas_fee);
        proof {
            assert(r@ =~= spec_header_bytes(*self));
        }
        r
    }

    /// Reads a header back from its wire form. Succeeds exactly on 107-byte
    /// inputs, and decoding the encoding of any header yields that header.
    pub fn from_be_bytes(bytes: &[u8]) -> (r: Result<Self, ErrorCode>)
        ensures
            bytes@.len() == 107 ==> (r matches Ok(h) && spec_header_bytes(h) == bytes@),
            bytes@.len() != 107 ==> r == Err::<Self, ErrorCode>(ErrorCode::DeserializationError),
            forall|h: MsgHeader| bytes@ == spec_header_bytes(h) ==> r == Ok::<Self, ErrorCode>(h),
    {
        if bytes.len() != 107 {
            proof {
                assert forall|h: MsgHeader| bytes@ == spec_header_bytes(h) implies false by {
                    lemma_header_bytes_layout(h);
                }
            }
            return Err(ErrorCode::DeserializationError);
        }
        let mtype = bytes[0];
        let nonce = read_u64_be(bytes, 1);
        let from_chain = Chain::from_bytes(&bytes[9..18]);
        let from_addr = read_bytes32(bytes, 18);
        let to_chain = Chain::from_bytes(&bytes[50..59]);
        let to_addr = read_bytes32(bytes, 59);
        let upload_gas_fee = read_u128_be(bytes, 91);
        let h = MsgHeader { mtype, nonce, from_chain, from_addr, to_chain, to_addr, upload_gas_fee };
        proof {
            lemma_header_bytes_layout(h);
            lemma_u64_be_bytes_inverse(bytes@.subrange(1, 9));
            lemma_chain_bytes_inverse(bytes@.subrange(9, 18));
            lemma_chain_bytes_inverse(bytes@.subrange(50, 59));
            lemma_u128_be_bytes_inverse(bytes@.subrange(91, 107));
            let s = spec_header_bytes(h);
            assert(s.subrange(1, 9) == bytes@.subrange(1, 9));
            assert(s.subrange(9, 18) == bytes@.subrange(9, 18));
            assert(s.subrange(18, 50) == bytes@.subrange(18, 50));
            assert(s.subrange(50, 59) == bytes@.subrange(50, 59));
            assert(s.subrange(59, 91) == bytes@.subrange(59, 91));
            assert(s.subrange(91, 107) == bytes@.subrange(91, 107));
            assert(s =~= bytes@) by {
                assert(forall|i: int| 1 <= i < 9 ==> s[i] == s.subrange(1, 9)[i - 1]);
                assert(forall|i: int| 9 <= i < 18 ==> s[i] == s.subrange(9, 18)[i - 9]);
                assert(forall|i: int| 18 <= i < 50 ==> s[i] == s.subrange(18, 50)[i - 18]);
                assert(forall|i: int| 50 <= i < 59 ==> s[i] == s.subrange(50, 59)[i - 50]);
                assert(forall|i: int| 59 <= i < 91 ==> s[i] == s.subrange(59, 91)[i - 59]);
                assert(forall|i: int| 91 <= i < 107 ==> s[i] == s.subrange(91, 107)[i - 91]);
            }
            assert forall|h2: MsgHeader| bytes@ == spec_header_bytes(h2) implies Ok::<
                Self,
                ErrorCode,
            >(h) == Ok::<Self, ErrorCode>(h2) by {
                lemma_header_bytes_injective(h, h2);
            }
        }
        Ok(h)
    }
}

} // verus!
