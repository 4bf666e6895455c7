//! The hash and the signature scheme that messages rest on: SHA3-256 for message
//! identifiers and ML-DSA-44 for signatures, both from their outside crates.
use ml_dsa::signature::{Keypair, Verifier};
use sha3::Digest;
use vstd::prelude::*;

verus! {

/// What SHA3-256 makes of `data`: its 32-byte digest.
pub uninterp spec fn sha3_256_digest(data: Seq<u8>) -> Seq<u8>;

/// The encoded ML-DSA-44 verifying key of the signing key made from `seed`.
pub uninterp spec fn ml_dsa_public_key(seed: Seq<u8>) -> Seq<u8>;

/// What deterministic ML-DSA-44 signing of `msg`, with the signing key made from
/// `seed` and an empty context, gives: the encoded signature, or nothing where the
/// scheme's rejection sampling finds none.
pub uninterp spec fn ml_dsa_signature(seed: Seq<u8>, msg: Seq<u8>) -> Option<Seq<u8>>;

/// Whether ML-DSA-44 accepts `signature` for `msg` under the encoded verifying key
/// `public_key` (both encodings well formed, and the signature valid).
pub uninterp spec fn ml_dsa_accepts(public_key: Seq<u8>, msg: Seq<u8>, signature: Seq<u8>) -> bool;

/// Calls `sha3::Sha3_256::digest`: the SHA3-256 digest of `data`, which is 32 bytes
/// long (the output size of the hash).
#[verifier::external_body]
pub(crate) fn sha3_256(data: &[u8]) -> (r: Vec<u8>)
    ensures
        r@ == sha3_256_digest(data@),
        r@.len() == 32,
{
    sha3::Sha3_256::digest(data).to_vec()
}

/// Calls `ml_dsa::SigningKey::<MlDsa44>::from_seed`, then `verifying_key` and
/// `VerifyingKey::encode`: the encoded verifying key of the key made from `seed`.
#[verifier::external_body]
pub(crate) fn ml_dsa_public_key_of(seed: &[u8; 32]) -> (r: Vec<u8>)
    ensures
        r@ == ml_dsa_public_key(seed@),
{
    let key = ml_dsa::SigningKey::<ml_dsa::MlDsa44>::from_seed(&ml_dsa::B32::from(*seed));
    key.verifying_key().encode().to_vec()
}

/// Calls `Signer::try_sign` on `ml_dsa::SigningKey::<MlDsa44>::from_seed(seed)`, and
/// `Signature::encode` on its result. This signing is the scheme's deterministic
/// variant with an empty context, so the result is a function of `seed` and `msg`;
/// it fails only where rejection sampling finds no signature. A signature it makes
/// is accepted for `msg` under the verifying key of `seed`, as the scheme promises.
#[verifier::external_body]
pub(crate) fn ml_dsa_sign(seed: &[u8; 32], msg: &[u8]) -> (r: Option<Vec<u8>>)
    ensures
        match r {
            Some(s) => ml_dsa_signature(seed@, msg@) == Some(s@) && ml_dsa_accepts(
                ml_dsa_public_key(seed@),
                msg@,
                s@,
            ),
            None => ml_dsa_signature(seed@, msg@) == None::<Seq<u8>>,
        },
{
    let key = ml_dsa::SigningKey::<ml_dsa::MlDsa44>::from_seed(&ml_dsa::B32::from(*seed));
    match ml_dsa::signature::Signer::<ml_dsa::Signature<ml_dsa::MlDsa44>>::try_sign(&key, msg) {
        Ok(signature) => Some(signature.encode().to_vec()),
        Err(_) => None,
    }
}

/// Calls `EncodedVerifyingKey::<MlDsa44>::try_from` and `VerifyingKey::decode` on
/// `public_key`, `Signature::<MlDsa44>::try_from` on `signature`, and then
/// `Verifier::verify`: whether the key and the signature are well encoded and the
/// signature is valid for `msg`.
#[verifier::external_body]
pub(crate) fn ml_dsa_verify(public_key: &[u8], msg: &[u8], signature: &[u8]) -> (r: bool)
    ensures
        r == ml_dsa_accepts(public_key@, msg@, signature@),
{
    let encoded = match ml_dsa::EncodedVerifyingKey::<ml_dsa::MlDsa44>::try_from(public_key) {
        Ok(encoded) => encoded,
        Err(_) => return false,
    };
    let key = ml_dsa::VerifyingKey::<ml_dsa::MlDsa44>::decode(&encoded);
    match ml_dsa::Signature::<ml_dsa::MlDsa44>::try_from(signature) {
        Ok(signature) => key.verify(msg, &signature).is_ok(),
        Err(_) => false,
    }
}

/// An ML-DSA-44 signer, held as the 32-byte seed its signing key is made from.
pub struct Signer {
    seed: [u8; 32],
}

impl Signer {
    /// The signer whose signing key is made from `seed`.
    pub fn from_seed(seed: [u8; 32]) -> (r: Signer)
        ensures
            r.seed() == seed@,
    {
        Signer { seed }
    }

    /// The seed of the signer.
    pub closed spec fn seed(&self) -> Seq<u8> {
        self.seed@
    }

    /// The encoded verifying key of the signer.
    pub fn public_key_bytes(&self) -> (r: Vec<u8>)
        ensures
            r@ == ml_dsa_public_key(self.seed()),
    {
        ml_dsa_public_key_of(&self.seed)
    }

    /// The signature of `msg`, where signing finds one.
    pub fn sign(&self, msg: &[u8]) -> (r: Option<Vec<u8>>)
        ensures
            match r {
                Some(s) => ml_dsa_signature(self.seed(), msg@) == Some(s@) && ml_dsa_accepts(
                    ml_dsa_public_key(self.seed()),
                    msg@,
                    s@,
                ),
                None => ml_dsa_signature(self.seed(), msg@) == None::<Seq<u8>>,
            },
    {
        ml_dsa_sign(&self.seed, msg)
    }
}

impl Clone for Signer {
    fn clone(&self) -> (r: Self)
        ensures
            r.seed() == self.seed(),
    {
        Signer { seed: self.seed }
    }
}

} // verus!
