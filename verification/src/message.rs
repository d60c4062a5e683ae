//! Message orchestration: the send and confirm flows.
//!
//! Sending issues the next outbound nonce for the destination, stamps this
//! ledger's own identity on the header, and yields the event record the
//! host emits. Confirming rebuilds the signed bytes from header and body,
//! binds the payload-embedded receiver to the actual receiver, runs the
//! multisignature verifier, admits the nonce through the replay guard, and
//! yields the confirmation record — with no state mutated unless every check
//! has passed.

use vstd::prelude::*;

use crate::bytes::{push_bytes, region_matches32};
use crate::chain::{Chain, ChainType, CHAIN_ID};
use crate::config::ConfigInfo;
use crate::errors::ErrorCode;
use crate::header::{spec_header_bytes, MsgHeader};
use crate::multisig::{ids_view, sigs_view, verify_error, verify_multisig, verify_ok};
use crate::nonce::{
    admit_accepts, admit_error, admit_step, FromChainNonce, ToChainNonce,
};

verus! {

/// An outbound message as handed to the event sink.
#[derive(Debug)]
pub struct SendMessage {
    pub header: MsgHeader,
    pub body: Vec<u8>,
    pub fee: u64,
}

/// A confirmed inbound message as handed to the event sink.
#[derive(Debug)]
pub struct ConfirmMessage {
    pub executor: [u8; 32],
    pub from_chain: Chain,
    pub nonce: u64,
    pub mbody: Vec<u8>,
}

/// The chain reference this deployment stamps on outbound headers.
pub open spec fn spec_current_chain() -> Chain {
    Chain { chain_type: ChainType::ThisLedger.spec_u8(), chain_id: CHAIN_ID }
}

/// This ledger's own chain reference.
pub fn get_current_chain() -> (c: Chain)
    ensures
        c == spec_current_chain(),
{
    Chain { chain_type: ChainType::ThisLedger.as_u8(), chain_id: CHAIN_ID }
}

/// The bytes the validators sign for a message: the header's wire form
/// followed by the raw body.
pub open spec fn spec_signed_bytes(h: MsgHeader, body: Seq<u8>) -> Seq<u8> {
    spec_header_bytes(h) + body
}

/// The payload-embedded receiver binding: a body long enough to carry a
/// receiver identity at bytes [80, 112) must name `receiver` there.
pub open spec fn receiver_bound(body: Seq<u8>, receiver: [u8; 32]) -> bool {
    body.len() >= 112 ==> body.subrange(80, 112) == receiver@
}

/// Sends a message to another chain: issues the next outbound nonce for the
/// destination, builds the header stamped with this ledger's identity, and
/// returns the event record for the sink.
pub fn send_message(
    counter: &mut ToChainNonce,
    to_chain: Chain,
    to_addr: [u8; 32],
    mbody: Vec<u8>,
    mtype: u8,
    upload_fee: u64,
    from_addr: [u8; 32],
) -> (ev: SendMessage)
    requires
        old(counter).max_nonce < u64::MAX,
    ensures
        final(counter).max_nonce == old(counter).max_nonce + 1,
        final(counter).chain == if old(counter).max_nonce == 0 {
            to_chain
        } else {
            old(counter).chain
        },
        ev.header == (MsgHeader {
            mtype,
            nonce: final(counter).max_nonce,
            from_chain: spec_current_chain(),
            from_addr,
            to_chain,
            to_addr,
            upload_gas_fee: upload_fee as u128,
        }),
        ev.body == mbody,
        ev.fee == upload_fee,
{
    let nonce = counter.next(&to_chain);
    let header = MsgHeader {
        mtype,
        nonce,
        from_chain: get_current_chain(),
        from_addr,
        to_chain,
        to_addr,
        upload_gas_fee: upload_fee as u128,
    };
    SendMessage { header, body: mbody, fee: upload_fee }
}

/// Confirms a message of another chain.
///
/// Succeeds exactly when the body's embedded receiver matches the actual
/// receiver, the signatures pass threshold verification over the signed
/// bytes, and the replay guard admits the header's nonce for this (source
/// chain, receiver) record. On the first confirmation the record is stamped
/// with the source chain. Every failure aborts the whole confirmation with
/// the replay record unchanged.
pub fn confirm_message(
    config: &ConfigInfo,
    replay: &mut FromChainNonce,
    receiver: &[u8; 32],
    executor: &[u8; 32],
    msg_header: &MsgHeader,
    msg_body: Vec<u8>,
    signatures: &Vec<[u8; 65]>,
) -> (r: Result<ConfirmMessage, ErrorCode>)
    requires
        old(replay).wf(),
    ensures
        final(replay).wf(),
        r is Ok <==> receiver_bound(msg_body@, *receiver) && verify_ok(
            spec_signed_bytes(*msg_header, msg_body@),
            sigs_view(signatures@),
            ids_view(config.signers@),
            config.threshold,
        ) && admit_accepts(old(replay)@, msg_header.nonce),
        r matches Ok(ev) ==> final(replay)@ == admit_step(old(replay)@, msg_header.nonce)
            && final(replay).chain == (if old(replay)@.window.len() == 0 {
            msg_header.from_chain
        } else {
            old(replay).chain
        }) && ev.executor == *executor && ev.from_chain == msg_header.from_chain && ev.nonce
            == msg_header.nonce && ev.mbody@ == msg_body@,
        r is Err ==> final(replay)@ == old(replay)@ && final(replay).chain == old(replay).chain,
        !receiver_bound(msg_body@, *receiver) ==> r == Err::<ConfirmMessage, ErrorCode>(
            ErrorCode::ReceiverMismatch,
        ),
        receiver_bound(msg_body@, *receiver) && !verify_ok(
            spec_signed_bytes(*msg_header, msg_body@),
            sigs_view(signatures@),
            ids_view(config.signers@),
            config.threshold,
        ) ==> r == Err::<ConfirmMessage, ErrorCode>(
            verify_error(
                spec_signed_bytes(*msg_header, msg_body@),
                sigs_view(signatures@),
                ids_view(config.signers@),
            ),
        ),
        receiver_bound(msg_body@, *receiver) && verify_ok(
            spec_signed_bytes(*msg_header, msg_body@),
            sigs_view(signatures@),
            ids_view(config.signers@),
            config.threshold,
        ) && !admit_accepts(old(replay)@, msg_header.nonce) ==> r == Err::<
            ConfirmMessage,
            ErrorCode,
        >(admit_error(old(replay)@, msg_header.nonce)),
{
    // Bind a body that embeds a receiver identity to the actual receiver.
    if msg_body.len() >= 112 {
        if !region_matches32(msg_body.as_slice(), 80, receiver) {
            return Err(ErrorCode::ReceiverMismatch);
        }
    }
    // Reconstruct the signed bytes and check the threshold multisignature.
    let mut message = msg_header.to_be_bytes();
    push_bytes(&mut message, msg_body.as_slice());
    match verify_multisig(&message, signatures, &config.signers, config.threshold) {
        Ok(()) => {},
        Err(e) => {
            return Err(e);
        },
    }
    // Admit the nonce; stamp the source chain on the first confirmation.
    let fresh = replay_is_fresh(replay);
    match replay.admit_nonce(msg_header.nonce) {
        Ok(()) => {},
        Err(e) => {
            return Err(e);
        },
    }
    if fresh {
        replay.chain = msg_header.from_chain;
    }
    Ok(
        ConfirmMessage {
            executor: *executor,
            from_chain: msg_header.from_chain,
            nonce: msg_header.nonce,
            mbody: msg_body,
        },
    )
}

/// Whether a replay record has never accepted a confirmation.
fn replay_is_fresh(replay: &FromChainNonce) -> (r: bool)
    ensures
        r <==> replay@.window.len() == 0,
{
    replay.window.len() == 0
}

} // verus!
