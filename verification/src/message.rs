//! Signed messages: transactions and certificates, their identifiers and their
//! verification.
use crate::crypto::{ml_dsa_accepts, ml_dsa_public_key, ml_dsa_signature, ml_dsa_verify, Signer};
use crate::id::{id_bytes, message_id, Id};
use crate::index::Index;
use crate::keys::{copy_bytes, key_views, Nonce, PublicKey, Signature};
use crate::order::lemma_lex_irreflexive;
use crate::proposal::{Proposal, ProposalView};
use crate::subcommittee::{keys_sorted, AegeriSubcommittee};
use vstd::prelude::*;

verus! {

/// The ELF binary of a transaction.
#[derive(Debug)]
pub struct Elf(Vec<u8>);

impl View for Elf {
    type V = Seq<u8>;

    closed spec fn view(&self) -> Seq<u8> {
        self.0@
    }
}

impl Clone for Elf {
    fn clone(&self) -> (r: Self)
        ensures
            r@ == self@,
    {
        Elf(copy_bytes(&self.0))
    }
}

impl Elf {
    /// The ELF binary made of `bytes`.
    pub fn new(bytes: Vec<u8>) -> (r: Self)
        ensures
            r@ == bytes@,
    {
        Elf(bytes)
    }

    /// Borrow the bytes of the binary.
    pub fn as_bytes(&self) -> (r: &[u8])
        ensures
            r@ == self@,
    {
        self.0.as_slice()
    }
}

/// The payload of a transaction.
///
/// Users can either send an ELF binary to execute, or a join or leave intent.
#[derive(Debug)]
pub enum Transaction {
    /// An ELF encoded program to run.
    Elf(Elf),
    /// The intent to join the quorum.
    Join,
    /// The intent to leave the quorum.
    Leave,
}

/// The view of a transaction payload.
pub ghost enum TransactionView {
    Elf(Seq<u8>),
    Join,
    Leave,
}

impl View for Transaction {
    type V = TransactionView;

    open spec fn view(&self) -> TransactionView {
        match self {
            Transaction::Elf(e) => TransactionView::Elf(e@),
            Transaction::Join => TransactionView::Join,
            Transaction::Leave => TransactionView::Leave,
        }
    }
}

impl Clone for Transaction {
    fn clone(&self) -> (r: Self)
        ensures
            r@ == self@,
    {
        match self {
            Transaction::Elf(e) => Transaction::Elf(e.clone()),
            Transaction::Join => Transaction::Join,
            Transaction::Leave => Transaction::Leave,
        }
    }
}

/// Signed certificate payload: a proposal for a consensus index.
#[derive(Debug, PartialEq, Eq, PartialOrd, Ord)]
pub struct Certificate {
    pub(crate) index: Index,
    pub(crate) value: Proposal,
}

/// The view of a certificate.
pub ghost struct CertificateView {
    pub index: Index,
    pub value: ProposalView,
}

impl View for Certificate {
    type V = CertificateView;

    closed spec fn view(&self) -> CertificateView {
        CertificateView { index: self.index, value: self.value@ }
    }
}

impl Clone for Certificate {
    fn clone(&self) -> (r: Self)
        ensures
            r@ == self@,
    {
        Certificate { index: self.index, value: self.value.clone() }
    }
}

impl Certificate {
    pub fn new(index: Index, value: Proposal) -> (r: Self)
        ensures
            r@.index == index,
            r@.value == value@,
    {
        Certificate { index, value }
    }

    pub fn index(&self) -> (r: &Index)
        ensures
            *r == self@.index,
    {
        &self.index
    }

    pub fn value(&self) -> (r: &Proposal)
        ensures
            r@ == self@.value,
    {
        &self.value
    }
}

/// Why a message failed verification.
#[derive(Debug, Clone, Copy, PartialEq, Eq, Structural)]
pub enum VerificationError {
    /// Signature verification failed
    SignatureVerificationFailed,
    /// ID mismatch
    IdMismatch,
    /// Payload serialization failed
    PayloadSerializationFailed,
}

/// Why a message could not be built.
#[derive(Debug, Clone, Copy, PartialEq, Eq, Structural)]
pub enum TransactionMessageError {
    /// Payload serialization failed
    PayloadSerializationFailed,
    /// The signature scheme found no signature for the identifier
    SigningFailed,
}

/// The message itself.
#[derive(Debug)]
pub struct Message<P> {
    id: Id,
    public_key: PublicKey,
    signature: Signature,
    payload: P,
    nonce: Nonce,
}

/// The view of a message.
pub ghost struct MessageView<V> {
    pub id: Id,
    pub public_key: Seq<u8>,
    pub signature: Seq<u8>,
    pub payload: V,
    pub nonce: Seq<u8>,
}

impl<P: View> View for Message<P> {
    type V = MessageView<P::V>;

    closed spec fn view(&self) -> MessageView<P::V> {
        MessageView {
            id: self.id,
            public_key: self.public_key@,
            signature: self.signature@,
            payload: self.payload@,
            nonce: self.nonce@,
        }
    }
}

impl Clone for Message<Transaction> {
    fn clone(&self) -> (r: Self)
        ensures
            r@ == self@,
    {
        Message {
            id: self.id,
            public_key: self.public_key.clone(),
            signature: self.signature.clone(),
            payload: self.payload.clone(),
            nonce: self.nonce.clone(),
        }
    }
}

impl Clone for Message<Certificate> {
    fn clone(&self) -> (r: Self)
        ensures
            r@ == self@,
    {
        Message {
            id: self.id,
            public_key: self.public_key.clone(),
            signature: self.signature.clone(),
            payload: self.payload.clone(),
            nonce: self.nonce.clone(),
        }
    }
}

/// The outcome of verifying the message `m`, given the serialized bytes of its
/// payload (none where serialization failed): the signature must be accepted for
/// the ID under the public key, then the payload must serialize, and then the ID
/// must be that of the serialized payload, the nonce and the key.
pub open spec fn verification<V>(m: MessageView<V>, payload_bytes: Option<Seq<u8>>) -> Result<(), VerificationError> {
    if !ml_dsa_accepts(m.public_key, id_bytes(m.id), m.signature) {
        Err(VerificationError::SignatureVerificationFailed)
    } else {
        match payload_bytes {
            None => Err(VerificationError::PayloadSerializationFailed),
            Some(b) => if message_id(b, m.nonce, m.public_key) == m.id {
                Ok(())
            } else {
                Err(VerificationError::IdMismatch)
            },
        }
    }
}

/// The view of the message that `signer` makes of a payload with view `payload`
/// serialized as `payload_bytes`, with `nonce`: or nothing where the signature
/// scheme finds no signature.
pub open spec fn signed_message<V>(seed: Seq<u8>, payload: V, payload_bytes: Seq<u8>, nonce: Seq<u8>) -> Option<
    MessageView<V>,
> {
    let public_key = ml_dsa_public_key(seed);
    let id = message_id(payload_bytes, nonce, public_key);
    match ml_dsa_signature(seed, id_bytes(id)) {
        Some(signature) => Some(MessageView { id, public_key, signature, payload, nonce }),
        None => None,
    }
}

impl<P: View> Message<P> {
    /// A message from its parts, as received; nothing is checked.
    pub fn from_parts(id: Id, public_key: PublicKey, signature: Signature, payload: P, nonce: Nonce) -> (r: Self)
        ensures
            r@ == (MessageView {
                id,
                public_key: public_key@,
                signature: signature@,
                payload: payload@,
                nonce: nonce@,
            }),
    {
        Message { id, public_key, signature, payload, nonce }
    }

    /// Builds a new message: signed by `signer`, with the ID of the payload's
    /// serialized bytes (none where serialization failed), the nonce and the
    /// signer's public key.
    pub fn try_new(signer: &Signer, payload: P, payload_bytes: Option<&[u8]>, nonce: Nonce) -> (r: Result<
        Self,
        TransactionMessageError,
    >)
        ensures
            match payload_bytes {
                None => r == Err::<Self, TransactionMessageError>(TransactionMessageError::PayloadSerializationFailed),
                Some(b) => match signed_message(signer.seed(), payload@, b@, nonce@) {
                    Some(m) => r matches Ok(msg) && msg@ == m && verification(msg@, Some(b@)) == Ok::<(), VerificationError>(()),
                    None => r == Err::<Self, TransactionMessageError>(TransactionMessageError::SigningFailed),
                },
            },
    {
        let bytes = match payload_bytes {
            Some(b) => b,
            None => return Err(TransactionMessageError::PayloadSerializationFailed),
        };
        let public_key = PublicKey::new(signer);
        let id = Id::new(bytes, &nonce, &public_key);
        match Signature::new(signer, &id) {
            Some(signature) => Ok(Message { id, public_key, signature, payload, nonce }),
            None => Err(TransactionMessageError::SigningFailed),
        }
    }

    pub fn payload(&self) -> (r: &P)
        ensures
            r@ == self@.payload,
    {
        &self.payload
    }

    pub fn nonce(&self) -> (r: &Nonce)
        ensures
            r@ == self@.nonce,
    {
        &self.nonce
    }

    pub fn id(&self) -> (r: &Id)
        ensures
            *r == self@.id,
    {
        &self.id
    }

    pub fn public_key(&self) -> (r: &PublicKey)
        ensures
            r@ == self@.public_key,
    {
        &self.public_key
    }

    pub fn signature(&self) -> (r: &Signature)
        ensures
            r@ == self@.signature,
    {
        &self.signature
    }

    /// The outcome of verifying the message, given whether its public key accepts
    /// its signature for its ID and the ID computed from its serialized payload
    /// (none where serialization failed).
    pub fn verification_outcome(&self, signature_accepted: bool, payload_id: Option<Id>) -> (r: Result<
        (),
        VerificationError,
    >)
        ensures
            r == if !signature_accepted {
                Err(VerificationError::SignatureVerificationFailed)
            } else {
                match payload_id {
                    None => Err(VerificationError::PayloadSerializationFailed),
                    Some(id) => if id == self@.id {
                        Ok(())
                    } else {
                        Err(VerificationError::IdMismatch)
                    },
                }
            },
    {
        if !signature_accepted {
            return Err(VerificationError::SignatureVerificationFailed);
        }
        match payload_id {
            None => Err(VerificationError::PayloadSerializationFailed),
            Some(id) => if id == self.id {
                Ok(())
            } else {
                Err(VerificationError::IdMismatch)
            },
        }
    }

    /// Verifies the message: its signature, then that its ID is the digest of the
    /// serialized payload (none where serialization failed), nonce and signer.
    pub fn verify(&self, payload_bytes: Option<&[u8]>) -> (r: Result<(), VerificationError>)
        ensures
            r == verification(
                self@,
                match payload_bytes {
                    Some(b) => Some(b@),
                    None => None,
                },
            ),
    {
        let id_bytes = self.id.as_bytes();
        let accepted = ml_dsa_verify(self.public_key.as_bytes(), id_bytes.as_slice(), self.signature.as_bytes());
        if !accepted {
            return self.verification_outcome(false, None);
        }
        let payload_id = match payload_bytes {
            Some(b) => Some(Id::new(b, &self.nonce, &self.public_key)),
            None => None,
        };
        self.verification_outcome(accepted, payload_id)
    }

    /// The message as verified, where it verifies (see `verify`).
    pub fn into_verified(self, payload_bytes: Option<&[u8]>) -> (r: Result<VerifiedMessage<P>, VerificationError>)
        ensures
            match verification(
                self@,
                match payload_bytes {
                    Some(b) => Some(b@),
                    None => None,
                },
            ) {
                Ok(_) => r matches Ok(v) && v@ == self@,
                Err(e) => r == Err::<VerifiedMessage<P>, VerificationError>(e),
            },
    {
        match self.verify(payload_bytes) {
            Ok(()) => Ok(VerifiedMessage(self)),
            Err(e) => Err(e),
        }
    }
}

/// A verified instance of a message: its signature is accepted for its ID under
/// its public key.
#[derive(Debug)]
pub struct VerifiedMessage<P>(Message<P>);

impl<P: View> View for VerifiedMessage<P> {
    type V = MessageView<P::V>;

    closed spec fn view(&self) -> MessageView<P::V> {
        self.0@
    }
}

impl<P> VerifiedMessage<P> {
    #[verifier::type_invariant]
    closed spec fn signed(self) -> bool {
        ml_dsa_accepts(self.0.public_key@, id_bytes(self.0.id), self.0.signature@)
    }
}

impl Clone for VerifiedMessage<Transaction> {
    fn clone(&self) -> (r: Self)
        ensures
            r@ == self@,
    {
        proof {
            use_type_invariant(self);
        }
        VerifiedMessage(self.0.clone())
    }
}

impl Clone for VerifiedMessage<Certificate> {
    fn clone(&self) -> (r: Self)
        ensures
            r@ == self@,
    {
        proof {
            use_type_invariant(self);
        }
        VerifiedMessage(self.0.clone())
    }
}

impl<P: View> VerifiedMessage<P> {
    pub fn payload(&self) -> (r: &P)
        ensures
            r@ == self@.payload,
    {
        self.0.payload()
    }

    pub fn nonce(&self) -> (r: &Nonce)
        ensures
            r@ == self@.nonce,
    {
        self.0.nonce()
    }

    pub fn id(&self) -> (r: &Id)
        ensures
            *r == self@.id,
    {
        self.0.id()
    }

    pub fn public_key(&self) -> (r: &PublicKey)
        ensures
            r@ == self@.public_key,
    {
        self.0.public_key()
    }

    /// The signature, which the public key accepts for the ID.
    pub fn signature(&self) -> (r: &Signature)
        ensures
            r@ == self@.signature,
            ml_dsa_accepts(self@.public_key, id_bytes(self@.id), self@.signature),
    {
        proof {
            use_type_invariant(self);
        }
        self.0.signature()
    }
}

/// A strictly ascending key sequence that holds exactly one key is that key alone.
proof fn lemma_single_member(s: Seq<Seq<u8>>, k: Seq<u8>)
    requires
        keys_sorted(s),
        forall|x: Seq<u8>| s.contains(x) <==> x == k,
    ensures
        s == seq![k],
{
    assert(s.contains(k));
    if s.len() > 1 {
        assert(s.contains(s[0]));
        assert(s.contains(s[1]));
        assert(s[0] == s[1]);
        lemma_lex_irreflexive(s[0]);
    }
    assert(s =~= seq![k]);
}

impl VerifiedMessage<Certificate> {
    /// The index, the signer as a one-member subcommittee at that index, and the
    /// proposal of a certificate message.
    ///
    /// When inserting into the buffer, we will often need to extract the index,
    /// subcommittee, and proposal. We don't typically have to do anything similar
    /// for transactions since the entire envelope is what we come to consensus on.
    pub fn into_consensus_parts(self) -> (r: (Index, AegeriSubcommittee, Proposal))
        ensures
            r.0 == self@.payload.index,
            r.1@.index == self@.payload.index,
            r.1@.members == seq![self@.public_key],
            r.2@ == self@.payload.value,
    {
        let VerifiedMessage(message) = self;
        let Message { id: _, public_key, signature: _, payload, nonce: _ } = message;
        let Certificate { index, value: proposal } = payload;
        let ghost key = public_key@;
        let mut members: Vec<PublicKey> = Vec::new();
        members.push(public_key);
        proof {
            assert(key_views(members@) =~= seq![key]);
            assert forall|x: Seq<u8>| key_views(members@).contains(x) <==> x == key by {
                if x == key {
                    assert(key_views(members@)[0] == x);
                }
            }
        }
        let subcommittee = AegeriSubcommittee::new(index).with_members(members);
        proof {
            assert forall|x: Seq<u8>| subcommittee@.members.contains(x) <==> x == key by {}
            lemma_single_member(subcommittee@.members, key);
        }
        (index, subcommittee, proposal)
    }
}

/// A unified message for designs wherein we want to store the certificates and
/// transactions together.
#[derive(Debug)]
pub enum UnifiedMessage {
    Transaction(Message<Transaction>),
    Certificate(Message<Certificate>),
}

impl From<Message<Transaction>> for UnifiedMessage {
    fn from(message: Message<Transaction>) -> (r: Self) {
        UnifiedMessage::Transaction(message)
    }
}

impl vstd::std_specs::convert::FromSpecImpl<Message<Transaction>> for UnifiedMessage {
    open spec fn obeys_from_spec() -> bool {
        true
    }

    open spec fn from_spec(v: Message<Transaction>) -> UnifiedMessage {
        UnifiedMessage::Transaction(v)
    }
}

impl From<Message<Certificate>> for UnifiedMessage {
    fn from(message: Message<Certificate>) -> (r: Self) {
        UnifiedMessage::Certificate(message)
    }
}

impl vstd::std_specs::convert::FromSpecImpl<Message<Certificate>> for UnifiedMessage {
    open spec fn obeys_from_spec() -> bool {
        true
    }

    open spec fn from_spec(v: Message<Certificate>) -> UnifiedMessage {
        UnifiedMessage::Certificate(v)
    }
}

} // verus!
