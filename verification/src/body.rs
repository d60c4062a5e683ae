//! The token-transfer message body layout shared with the other ledgers.
//!
//! The bridge core itself never interprets a body beyond the receiver
//! binding; this layout is what the token layer above puts on the wire:
//! source_token (32) · all_amount (16, big-endian) · from_who (32) ·
//! to_who (32), 112 bytes in all, with the receiver identity at bytes
//! [80, 112).

use vstd::prelude::*;

use crate::bytes::{
    push_bytes, push_u128_be, read_bytes32, read_u128_be, spec_u128_to_be_bytes,
    lemma_u128_be_bytes_inverse, lemma_u128_be_bytes_round_trip,
};

verus! {

/// How the token layer realises an inbound amount: minting a wrapped token,
/// or paying out of a liquidity pool.
pub enum MintType {
    Mint,
    Lp,
}

impl MintType {
    /// The stored tag value of this mint type.
    pub open spec fn spec_u8(self) -> u8 {
        match self {
            MintType::Mint => 0,
            MintType::Lp => 1,
        }
    }

    /// The stored tag value of this mint type.
    pub fn as_u8(self) -> (v: u8)
        ensures
            v == self.spec_u8(),
    {
        match self {
            MintType::Mint => 0,
            MintType::Lp => 1,
        }
    }
}

/// A token-transfer body: which token, how much, from whom, to whom.
#[derive(Clone, Copy, Debug, PartialEq, Eq)]
pub struct MsgBody {
    pub source_token: [u8; 32],
    pub all_amount: u128,
    pub from_who: [u8; 32],
    pub to_who: [u8; 32],
}

/// The 112-byte wire form of a body.
pub open spec fn spec_body_bytes(b: MsgBody) -> Seq<u8> {
    b.source_token@ + spec_u128_to_be_bytes(b.all_amount) + b.from_who@ + b.to_who@
}

/// Where each field sits inside the wire form; in particular the receiver
/// (`to_who`) occupies bytes [80, 112).
pub proof fn lemma_body_bytes_layout(b: MsgBody)
    ensures
        spec_body_bytes(b).len() == 112,
        spec_body_bytes(b).subrange(0, 32) == b.source_token@,
        spec_body_bytes(b).subrange(32, 48) == spec_u128_to_be_bytes(b.all_amount),
        spec_body_bytes(b).subrange(48, 80) == b.from_who@,
        spec_body_bytes(b).subrange(80, 112) == b.to_who@,
{
    let s = spec_body_bytes(b);
    assert(s.subrange(0, 32) =~= b.source_token@);
    assert(s.subrange(32, 48) =~= spec_u128_to_be_bytes(b.all_amount));
    assert(s.subrange(48, 80) =~= b.from_who@);
    assert(s.subrange(80, 112) =~= b.to_who@);
}

/// Two bodies with the same wire form are the same body.
pub proof fn lemma_body_bytes_injective(b1: MsgBody, b2: MsgBody)
    requires
        spec_body_bytes(b1) == spec_body_bytes(b2),
    ensures
        b1 == b2,
{
    lemma_body_bytes_layout(b1);
    lemma_body_bytes_layout(b2);
    lemma_u128_be_bytes_round_trip(b1.all_amount);
    lemma_u128_be_bytes_round_trip(b2.all_amount);
    assert(b1.source_token =~= b2.source_token);
    assert(b1.from_who =~= b2.from_who);
    assert(b1.to_who =~= b2.to_who);
}

impl MsgBody {
    /// Serialises this body to its 112-byte wire form.
    pub fn to_evm_buffer(&self) -> (r: Vec<u8>)
        ensures
            r@ == spec_body_bytes(*self),
            r@.len() == 112,
    {
        let mut buffer: Vec<u8> = Vec::new();
        push_bytes(&mut buffer, self.source_token.as_slice());
        push_u128_be(&mut buffer, self.all_amount);
        push_bytes(&mut buffer, self.from_who.as_slice());
        push_bytes(&mut buffer, self.to_who.as_slice());
        proof {
            assert(buffer@ =~= spec_body_bytes(*self));
        }
        buffer
    }

    /// Reads a body back from the first 112 bytes of a wire buffer; decoding
    /// the encoding of any body yields that body again.
    pub fn from_evm_buffer(buffer: Vec<u8>) -> (b: MsgBody)
        requires
            buffer@.len() >= 112,
        ensures
            spec_body_bytes(b) == buffer@.subrange(0, 112),
            forall|b2: MsgBody| buffer@.subrange(0, 112) == spec_body_bytes(b2) ==> b == b2,
    {
        let source_token = read_bytes32(buffer.as_slice(), 0);
        let all_amount = read_u128_be(buffer.as_slice(), 32);
        let from_who = read_bytes32(buffer.as_slice(), 48);
        let to_who = read_bytes32(buffer.as_slice(), 80);
        let b = MsgBody { source_token, all_amount, from_who, to_who };
        proof {
            lemma_body_bytes_layout(b);
            lemma_u128_be_bytes_inverse(buffer@.subrange(32, 48));
            let s = spec_body_bytes(b);
            let t = buffer@.subrange(0, 112);
            assert(t.subrange(0, 32) =~= buffer@.subrange(0, 32));
            assert(t.subrange(32, 48) =~= buffer@.subrange(32, 48));
            assert(t.subrange(48, 80) =~= buffer@.subrange(48, 80));
            assert(t.subrange(80, 112) =~= buffer@.subrange(80, 112));
            assert(s =~= t) by {
                assert(forall|i: int| 0 <= i < 32 ==> s[i] == s.subrange(0, 32)[i]);
                assert(forall|i: int| 32 <= i < 48 ==> s[i] == s.subrange(32, 48)[i - 32]);
                assert(forall|i: int| 48 <= i < 80 ==> s[i] == s.subrange(48, 80)[i - 48]);
                assert(forall|i: int| 80 <= i < 112 ==> s[i] == s.subrange(80, 112)[i - 80]);
            }
            assert forall|b2: MsgBody| t == spec_body_bytes(b2) implies b == b2 by {
                lemma_body_bytes_injective(b, b2);
            }
        }
        b
    }
}

} // verus!
