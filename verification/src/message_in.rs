//! The inbound side of a node: it verifies each incoming message and routes it.
use crate::index::Index;
use crate::message::{verification, Transaction, UnifiedMessage, VerificationError, VerifiedMessage};
use crate::proposal::Proposal;
use crate::subcommittee::AegeriSubcommittee;
use vstd::prelude::*;

verus! {

/// Where an incoming message goes.
#[derive(Debug)]
pub enum Inbound {
    /// A verified transaction, for the transaction buffer.
    Transaction(VerifiedMessage<Transaction>),
    /// The consensus parts of a verified certificate, for the certificate buffer:
    /// its index, its signer as a one-member subcommittee, and its proposal.
    Certificate(Index, AegeriSubcommittee, Proposal),
    /// A message that failed verification, and why.
    Rejected(VerificationError),
}

/// Aegeri inbound message splitter.
///
/// Verifies incoming messages and routes transaction envelopes to the transaction
/// buffer and certificate envelopes to the certificate buffer.
#[derive(Debug)]
pub struct AegeriMessageIn;

impl AegeriMessageIn {
    /// Verifies `message`, given its payload's serialized bytes (none where
    /// serialization failed), and routes it.
    pub fn route(&self, message: UnifiedMessage, payload_bytes: Option<&[u8]>) -> (r: Inbound)
        ensures
            ({
                let b = match payload_bytes {
                    Some(b) => Some(b@),
                    None => None,
                };
                match message {
                    UnifiedMessage::Transaction(m) => match verification(m@, b) {
                        Ok(_) => r matches Inbound::Transaction(v) && v@ == m@,
                        Err(e) => r == Inbound::Rejected(e),
                    },
                    UnifiedMessage::Certificate(m) => match verification(m@, b) {
                        Ok(_) => r matches Inbound::Certificate(i, s, p) && i == m@.payload.index && s@.index
                            == m@.payload.index && s@.members == seq![m@.public_key] && p@ == m@.payload.value,
                        Err(e) => r == Inbound::Rejected(e),
                    },
                }
            }),
    {
        match message {
            UnifiedMessage::Transaction(m) => match m.into_verified(payload_bytes) {
                Ok(verified) => Inbound::Transaction(verified),
                Err(e) => Inbound::Rejected(e),
            },
            UnifiedMessage::Certificate(m) => match m.into_verified(payload_bytes) {
                Ok(verified) => {
                    let (index, subcommittee, proposal) = verified.into_consensus_parts();
                    Inbound::Certificate(index, subcommittee, proposal)
                },
                Err(e) => Inbound::Rejected(e),
            },
        }
    }
}

} // verus!
