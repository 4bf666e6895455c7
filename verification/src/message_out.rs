//! The outbound side of a node: it signs the certificates of its task proposals,
//! each with a fresh nonce.
use crate::crypto::Signer;
use crate::index::Index;
use crate::keys::Nonce;
use crate::message::{signed_message, Certificate, CertificateView, Message, TransactionMessageError, VerificationError, verification};
use crate::proposal::Proposal;
use vstd::prelude::*;

verus! {

/// The eight bytes of `n`, least significant first.
pub open spec fn le_bytes(n: u64) -> Seq<u8> {
    seq![
        n as u8,
        (n >> 8u64) as u8,
        (n >> 16u64) as u8,
        (n >> 24u64) as u8,
        (n >> 32u64) as u8,
        (n >> 40u64) as u8,
        (n >> 48u64) as u8,
        (n >> 56u64) as u8,
    ]
}

/// Distinct counters make distinct nonces, so the certificates signed before the
/// counter saturates all carry different nonces.
pub proof fn lemma_nonces_distinct(a: u64, b: u64)
    requires
        a != b,
    ensures
        le_bytes(a) != le_bytes(b),
{
    if le_bytes(a) == le_bytes(b) {
        assert(le_bytes(a)[0] == le_bytes(b)[0]);
        assert(le_bytes(a)[1] == le_bytes(b)[1]);
        assert(le_bytes(a)[2] == le_bytes(b)[2]);
        assert(le_bytes(a)[3] == le_bytes(b)[3]);
        assert(le_bytes(a)[4] == le_bytes(b)[4]);
        assert(le_bytes(a)[5] == le_bytes(b)[5]);
        assert(le_bytes(a)[6] == le_bytes(b)[6]);
        assert(le_bytes(a)[7] == le_bytes(b)[7]);
        assert(a == b) by (bit_vector)
            requires
                a as u8 == b as u8,
                (a >> 8u64) as u8 == (b >> 8u64) as u8,
                (a >> 16u64) as u8 == (b >> 16u64) as u8,
                (a >> 24u64) as u8 == (b >> 24u64) as u8,
                (a >> 32u64) as u8 == (b >> 32u64) as u8,
                (a >> 40u64) as u8 == (b >> 40u64) as u8,
                (a >> 48u64) as u8 == (b >> 48u64) as u8,
                (a >> 56u64) as u8 == (b >> 56u64) as u8,
        ;
    }
}

/// The view of an outbound signer.
pub ghost struct MessageOutView {
    /// The seed of the signing key.
    pub seed: Seq<u8>,
    /// The counter the next nonce is made of.
    pub nonce_counter: u64,
    /// Whether emitted messages are also looped back in.
    pub loopback: bool,
}

/// Aegeri outbound signer and wrapper for task certificates.
pub struct AegeriMessageOut {
    signer: Signer,
    nonce_counter: u64,
    loopback: bool,
}

impl View for AegeriMessageOut {
    type V = MessageOutView;

    closed spec fn view(&self) -> MessageOutView {
        MessageOutView { seed: self.signer.seed(), nonce_counter: self.nonce_counter, loopback: self.loopback }
    }
}

impl AegeriMessageOut {
    /// An outbound signer with `signer`, the nonce counter at zero and loopback on.
    pub fn new(signer: Signer) -> (r: Self)
        ensures
            r@ == (MessageOutView { seed: signer.seed(), nonce_counter: 0, loopback: true }),
    {
        AegeriMessageOut { signer, nonce_counter: 0, loopback: true }
    }

    pub fn with_signer(self, signer: Signer) -> (r: Self)
        ensures
            r@ == (MessageOutView { seed: signer.seed(), ..self@ }),
    {
        AegeriMessageOut { signer, nonce_counter: self.nonce_counter, loopback: self.loopback }
    }

    pub fn with_nonce_counter(self, nonce_counter: u64) -> (r: Self)
        ensures
            r@ == (MessageOutView { nonce_counter, ..self@ }),
    {
        AegeriMessageOut { signer: self.signer, nonce_counter, loopback: self.loopback }
    }

    pub fn with_loopback(self, loopback: bool) -> (r: Self)
        ensures
            r@ == (MessageOutView { loopback, ..self@ }),
    {
        AegeriMessageOut { signer: self.signer, nonce_counter: self.nonce_counter, loopback }
    }

    /// An outbound signer whose signing key is made from `seed`.
    pub fn from_seed(seed: [u8; 32]) -> (r: Self)
        ensures
            r@ == (MessageOutView { seed: seed@, nonce_counter: 0, loopback: true }),
    {
        AegeriMessageOut { signer: Signer::from_seed(seed), nonce_counter: 0, loopback: true }
    }

    /// Whether emitted messages are also looped back in.
    pub fn loopback(&self) -> (r: bool)
        ensures
            r == self@.loopback,
    {
        self.loopback
    }

    /// The next nonce: the counter's bytes, least significant first; the counter
    /// then moves on by one, staying at its largest value once there.
    fn next_nonce(&mut self) -> (r: Nonce)
        ensures
            r@ == le_bytes(old(self)@.nonce_counter),
            final(self)@ == (MessageOutView {
                nonce_counter: if old(self)@.nonce_counter == u64::MAX {
                    u64::MAX
                } else {
                    (old(self)@.nonce_counter + 1) as u64
                },
                ..old(self)@
            }),
    {
        let n = self.nonce_counter;
        let mut bytes: Vec<u8> = Vec::new();
        bytes.push(n as u8);
        bytes.push((n >> 8u64) as u8);
        bytes.push((n >> 16u64) as u8);
        bytes.push((n >> 24u64) as u8);
        bytes.push((n >> 32u64) as u8);
        bytes.push((n >> 40u64) as u8);
        bytes.push((n >> 48u64) as u8);
        bytes.push((n >> 56u64) as u8);
        assert(bytes@ =~= le_bytes(n));
        self.nonce_counter = self.nonce_counter.saturating_add(1);
        Nonce::new(bytes)
    }

    /// Signs the certificate of `proposal` at `index` with the next nonce (see
    /// `Message::try_new`); `payload_bytes` is the certificate serialized, none
    /// where serialization failed. The nonce is spent either way.
    pub fn certify(&mut self, index: Index, proposal: Proposal, payload_bytes: Option<&[u8]>) -> (r: Result<
        Message<Certificate>,
        TransactionMessageError,
    >)
        ensures
            final(self)@ == (MessageOutView {
                nonce_counter: if old(self)@.nonce_counter == u64::MAX {
                    u64::MAX
                } else {
                    (old(self)@.nonce_counter + 1) as u64
                },
                ..old(self)@
            }),
            ({
                let c = CertificateView { index, value: proposal@ };
                match payload_bytes {
                    None => r == Err::<Message<Certificate>, TransactionMessageError>(
                        TransactionMessageError::PayloadSerializationFailed,
                    ),
                    Some(b) => match signed_message(old(self)@.seed, c, b@, le_bytes(old(self)@.nonce_counter)) {
                        Some(m) => r matches Ok(msg) && msg@ == m && verification(msg@, Some(b@)) == Ok::<
                            (),
                            VerificationError,
                        >(()),
                        None => r == Err::<Message<Certificate>, TransactionMessageError>(
                            TransactionMessageError::SigningFailed,
                        ),
                    },
                }
            }),
    {
        let certificate = Certificate::new(index, proposal);
        let nonce = self.next_nonce();
        Message::<Certificate>::try_new(&self.signer, certificate, payload_bytes, nonce)
    }
}

impl Default for AegeriMessageOut {
    fn default() -> (r: Self)
        ensures
            r@ == (MessageOutView { seed: seq![7u8; 32], nonce_counter: 0, loopback: true }),
    {
        let r = Self::from_seed([7u8; 32]);
        assert(r@.seed =~= seq![7u8; 32]);
        r
    }
}

} // verus!
