use aegeri::crypto::Signer;
use aegeri::keys::{Nonce, Signature};
use aegeri::message::{Elf, Message, Transaction, VerificationError};

/// The JSON text of an ELF transaction, as serde_json writes the payload.
fn elf_json(bytes: &[u8]) -> Vec<u8> {
    let array = serde_json::to_string(&bytes.to_vec()).unwrap();
    format!("{{\"Elf\":{}}}", array).into_bytes()
}

fn elf_message(seed: u8, bytes: &[u8]) -> (Message<Transaction>, Vec<u8>) {
    let signer = Signer::from_seed([seed; 32]);
    let transaction = Transaction::Elf(Elf::new(bytes.to_vec()));
    let payload = elf_json(bytes);
    let nonce = Nonce::new(b"nonce".to_vec());
    let message = Message::<Transaction>::try_new(&signer, transaction, Some(payload.as_slice()), nonce).unwrap();
    (message, payload)
}

#[test]
fn test_message_verifies() {
    let (message, payload) = elf_message(1, b"hello, world");
    message.verify(Some(payload.as_slice())).unwrap();
}

#[test]
fn test_message_rejects_invalid_signature() {
    let (message, payload) = elf_message(1, b"hello, world");
    let mut signature = message.signature().as_bytes().to_vec();
    signature[0] = !signature[0];
    let tampered = Message::from_parts(
        *message.id(),
        message.public_key().clone(),
        Signature(signature),
        message.payload().clone(),
        message.nonce().clone(),
    );
    assert!(tampered.verify(Some(payload.as_slice())) == Err(VerificationError::SignatureVerificationFailed));
}

#[test]
fn test_hex_display_for_id_public_key_and_signature() {
    let (message, _payload) = elf_message(7, b"display");

    let id_hex = message.id().to_string();
    let pk_hex = message.public_key().to_string();
    let sig_hex = message.signature().to_string();

    assert_eq!(id_hex.len(), 32);
    assert_eq!(pk_hex.len() % 2, 0);
    assert_eq!(sig_hex.len() % 2, 0);
    assert!(id_hex.chars().all(|c| c.is_ascii_hexdigit() && !c.is_ascii_uppercase()));
    assert!(pk_hex.chars().all(|c| c.is_ascii_hexdigit() && !c.is_ascii_uppercase()));
    assert!(sig_hex.chars().all(|c| c.is_ascii_hexdigit() && !c.is_ascii_uppercase()));
}

#[test]
fn message_rejects_other_payload_bytes() {
    let (message, _payload) = elf_message(3, b"program");
    let other = elf_json(b"another program");
    assert_eq!(message.verify(Some(other.as_slice())), Err(VerificationError::IdMismatch));
}

#[test]
fn message_reports_unserializable_payload() {
    let (message, _payload) = elf_message(3, b"program");
    assert_eq!(message.verify(None), Err(VerificationError::PayloadSerializationFailed));
}

#[test]
fn message_verified_keeps_its_parts() {
    let (message, payload) = elf_message(4, b"keep");
    let id = *message.id();
    let verified = message.into_verified(Some(payload.as_slice())).unwrap();
    assert_eq!(*verified.id(), id);
    match verified.payload() {
        Transaction::Elf(elf) => assert_eq!(elf.as_bytes(), b"keep"),
        other => panic!("unexpected payload {:?}", other),
    }
}

#[test]
fn message_unserializable_payload_is_not_signed() {
    let signer = Signer::from_seed([5; 32]);
    let result = Message::<Transaction>::try_new(&signer, Transaction::Join, None, Nonce::new(b"n".to_vec()));
    assert!(matches!(result, Err(aegeri::message::TransactionMessageError::PayloadSerializationFailed)));
}

#[test]
fn message_ids_differ_by_nonce() {
    let signer = Signer::from_seed([6; 32]);
    let payload: &[u8] = b"\"Join\"";
    let a = Message::<Transaction>::try_new(&signer, Transaction::Join, Some(payload), Nonce::new(b"a".to_vec())).unwrap();
    let b = Message::<Transaction>::try_new(&signer, Transaction::Join, Some(payload), Nonce::new(b"b".to_vec())).unwrap();
    assert_ne!(a.id(), b.id());
    assert_eq!(a.public_key(), b.public_key());
}

#[test]
fn message_verification_outcome_decides_in_order() {
    let (message, _payload) = elf_message(8, b"outcome");
    let id = *message.id();
    let other = aegeri::id::Id(0, 0, 0, 1);
    assert_eq!(message.verification_outcome(false, Some(id)), Err(VerificationError::SignatureVerificationFailed));
    assert_eq!(message.verification_outcome(true, None), Err(VerificationError::PayloadSerializationFailed));
    assert_eq!(message.verification_outcome(true, Some(other)), Err(VerificationError::IdMismatch));
    assert_eq!(message.verification_outcome(true, Some(id)), Ok(()));
}

#[test]
fn message_id_is_the_sha3_digest_of_payload_nonce_and_key() {
    let id = aegeri::id::Id::new(b"ab", &Nonce::new(b"c".to_vec()), &aegeri::keys::PublicKey(Vec::new()));
    // SHA3-256("abc")
    let expected = [
        0x3a, 0x98, 0x5d, 0xa7, 0x4f, 0xe2, 0x25, 0xb2, 0x04, 0x5c, 0x17, 0x2d, 0x6b, 0xd3, 0x90, 0xbd, 0x85, 0x5f,
        0x08, 0x6e, 0x3e, 0x9d, 0x52, 0x5b, 0x46, 0xbf, 0xe2, 0x45, 0x11, 0x43, 0x15, 0x32,
    ];
    assert_eq!(id.as_bytes(), expected.to_vec());
    assert_eq!(id.to_string(), "3a985da74fe225b2045c172d6bd390bd");
}

#[test]
fn signer_keys_and_signatures_have_the_scheme_sizes() {
    let signer = Signer::from_seed([9; 32]);
    let key = aegeri::keys::PublicKey::new(&signer);
    assert_eq!(key.as_bytes().len(), 1312);
    let id = aegeri::id::Id(1, 2, 3, 4);
    let signature = aegeri::keys::Signature::new(&signer, &id).unwrap();
    assert_eq!(signature.as_bytes().len(), 2420);
    assert_eq!(aegeri::keys::Signature::new(&signer, &id).unwrap(), signature);
}
