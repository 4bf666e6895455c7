//! Message identifiers.
use crate::crypto::{sha3_256, sha3_256_digest};
use crate::keys::{hex_chars, hex_text, lower_hex16, Nonce, PublicKey};
use vstd::prelude::*;

verus! {

/// The ID of a message: the SHA3-256 digest of its payload, nonce and signer.
///
/// The 32 digest bytes are held as four 64-bit words, most significant byte
/// first, so that comparing the words in order compares the digest bytes in order.
#[derive(Debug, Clone, Copy, PartialEq, Eq, PartialOrd, Ord, Hash, Structural)]
pub struct Id(pub u64, pub u64, pub u64, pub u64);

/// The strict order of IDs: lexicographic over the four words, which is the
/// lexicographic order of the digest bytes.
pub open spec fn id_lt(a: Id, b: Id) -> bool {
    ||| a.0 < b.0
    ||| (a.0 == b.0 && a.1 < b.1)
    ||| (a.0 == b.0 && a.1 == b.1 && a.2 < b.2)
    ||| (a.0 == b.0 && a.1 == b.1 && a.2 == b.2 && a.3 < b.3)
}

/// Whether `a` comes strictly before `b`.
pub fn id_less(a: &Id, b: &Id) -> (r: bool)
    ensures
        r == id_lt(*a, *b),
{
    if a.0 != b.0 {
        a.0 < b.0
    } else if a.1 != b.1 {
        a.1 < b.1
    } else if a.2 != b.2 {
        a.2 < b.2
    } else {
        a.3 < b.3
    }
}

/// The big-endian word made of eight bytes.
pub open spec fn be_word(s: Seq<u8>, at: int) -> u64 {
    (s[at] as u64) << 56u64 | (s[at + 1] as u64) << 48u64 | (s[at + 2] as u64) << 40u64 | (s[at
        + 3] as u64) << 32u64 | (s[at + 4] as u64) << 24u64 | (s[at + 5] as u64) << 16u64 | (s[at
        + 6] as u64) << 8u64 | (s[at + 7] as u64)
}

/// The eight bytes of a word, most significant first.
pub open spec fn word_be_bytes(w: u64) -> Seq<u8> {
    seq![
        (w >> 56u64) as u8,
        (w >> 48u64) as u8,
        (w >> 40u64) as u8,
        (w >> 32u64) as u8,
        (w >> 24u64) as u8,
        (w >> 16u64) as u8,
        (w >> 8u64) as u8,
        w as u8,
    ]
}

/// The ID whose digest is the 32 bytes `s`.
pub open spec fn digest_to_id(s: Seq<u8>) -> Id {
    Id(be_word(s, 0), be_word(s, 8), be_word(s, 16), be_word(s, 24))
}

/// The 32 digest bytes of an ID.
pub open spec fn id_bytes(id: Id) -> Seq<u8> {
    word_be_bytes(id.0) + word_be_bytes(id.1) + word_be_bytes(id.2) + word_be_bytes(id.3)
}

proof fn lemma_word_roundtrip(b0: u8, b1: u8, b2: u8, b3: u8, b4: u8, b5: u8, b6: u8, b7: u8)
    ensures
        ({
            let w = (b0 as u64) << 56u64 | (b1 as u64) << 48u64 | (b2 as u64) << 40u64 | (b3 as u64)
                << 32u64 | (b4 as u64) << 24u64 | (b5 as u64) << 16u64 | (b6 as u64) << 8u64 | (
            b7 as u64);
            &&& (w >> 56u64) as u8 == b0
            &&& (w >> 48u64) as u8 == b1
            &&& (w >> 40u64) as u8 == b2
            &&& (w >> 32u64) as u8 == b3
            &&& (w >> 24u64) as u8 == b4
            &&& (w >> 16u64) as u8 == b5
            &&& (w >> 8u64) as u8 == b6
            &&& w as u8 == b7
        }),
{
    assert({
        let w = (b0 as u64) << 56u64 | (b1 as u64) << 48u64 | (b2 as u64) << 40u64 | (b3 as u64)
            << 32u64 | (b4 as u64) << 24u64 | (b5 as u64) << 16u64 | (b6 as u64) << 8u64 | (
        b7 as u64);
        &&& (w >> 56u64) as u8 == b0
        &&& (w >> 48u64) as u8 == b1
        &&& (w >> 40u64) as u8 == b2
        &&& (w >> 32u64) as u8 == b3
        &&& (w >> 24u64) as u8 == b4
        &&& (w >> 16u64) as u8 == b5
        &&& (w >> 8u64) as u8 == b6
        &&& w as u8 == b7
    }) by (bit_vector);
}

/// An ID made from a 32-byte digest gives back exactly that digest.
pub proof fn lemma_digest_roundtrip(s: Seq<u8>)
    requires
        s.len() == 32,
    ensures
        id_bytes(digest_to_id(s)) == s,
{
    lemma_word_roundtrip(s[0], s[1], s[2], s[3], s[4], s[5], s[6], s[7]);
    lemma_word_roundtrip(s[8], s[9], s[10], s[11], s[12], s[13], s[14], s[15]);
    lemma_word_roundtrip(s[16], s[17], s[18], s[19], s[20], s[21], s[22], s[23]);
    lemma_word_roundtrip(s[24], s[25], s[26], s[27], s[28], s[29], s[30], s[31]);
    assert(id_bytes(digest_to_id(s)) =~= s);
}

fn read_be_word(d: &[u8], at: usize) -> (w: u64)
    requires
        at + 8 <= d@.len(),
    ensures
        w == be_word(d@, at as int),
{
    (d[at] as u64) << 56u64 | (d[at + 1] as u64) << 48u64 | (d[at + 2] as u64) << 40u64 | (d[at
        + 3] as u64) << 32u64 | (d[at + 4] as u64) << 24u64 | (d[at + 5] as u64) << 16u64 | (d[at
        + 6] as u64) << 8u64 | (d[at + 7] as u64)
}

fn append_bytes(out: &mut Vec<u8>, bytes: &[u8])
    ensures
        final(out)@ == old(out)@ + bytes@,
{
    let mut i: usize = 0;
    while i < bytes.len()
        invariant
            i <= bytes@.len(),
            out@ == old(out)@ + bytes@.subrange(0, i as int),
        decreases bytes@.len() - i,
    {
        out.push(bytes[i]);
        i = i + 1;
        assert(out@ =~= old(out)@ + bytes@.subrange(0, i as int));
    }
    assert(bytes@.subrange(0, i as int) =~= bytes@);
}

fn push_be_word(out: &mut Vec<u8>, w: u64)
    ensures
        final(out)@ == old(out)@ + word_be_bytes(w),
{
    out.push((w >> 56u64) as u8);
    out.push((w >> 48u64) as u8);
    out.push((w >> 40u64) as u8);
    out.push((w >> 32u64) as u8);
    out.push((w >> 24u64) as u8);
    out.push((w >> 16u64) as u8);
    out.push((w >> 8u64) as u8);
    out.push(w as u8);
    assert(final(out)@ =~= old(out)@ + word_be_bytes(w));
}

/// The ID of a message: the SHA3-256 digest of the serialized payload, then the
/// nonce, then the signer's public key.
pub open spec fn message_id(payload: Seq<u8>, nonce: Seq<u8>, public_key: Seq<u8>) -> Id {
    digest_to_id(sha3_256_digest(payload + nonce + public_key))
}

/// Two messages have the same ID exactly when the SHA3-256 digests of their
/// serialized payload, nonce and signer's public key, taken in that order, are
/// the same: the ID depends on all three, the signer included.
pub proof fn lemma_message_id_is_digest(
    p1: Seq<u8>,
    n1: Seq<u8>,
    k1: Seq<u8>,
    p2: Seq<u8>,
    n2: Seq<u8>,
    k2: Seq<u8>,
)
    requires
        sha3_256_digest(p1 + n1 + k1).len() == 32,
        sha3_256_digest(p2 + n2 + k2).len() == 32,
    ensures
        message_id(p1, n1, k1) == message_id(p2, n2, k2) <==> sha3_256_digest(p1 + n1 + k1) == sha3_256_digest(
            p2 + n2 + k2,
        ),
        id_bytes(message_id(p1, n1, k1)) == sha3_256_digest(p1 + n1 + k1),
{
    lemma_digest_roundtrip(sha3_256_digest(p1 + n1 + k1));
    lemma_digest_roundtrip(sha3_256_digest(p2 + n2 + k2));
}

impl Id {
    /// Builds the ID of a message from its serialized payload, nonce and signer.
    pub fn new(payload_bytes: &[u8], nonce: &Nonce, public_key: &PublicKey) -> (id: Id)
        ensures
            id == message_id(payload_bytes@, nonce@, public_key@),
    {
        let mut data: Vec<u8> = Vec::new();
        append_bytes(&mut data, payload_bytes);
        append_bytes(&mut data, nonce.as_bytes());
        append_bytes(&mut data, public_key.as_bytes());
        assert(data@ =~= payload_bytes@ + nonce@ + public_key@);
        let digest = sha3_256(data.as_slice());
        Id::from_digest(digest.as_slice())
    }

    /// The lowercase hexadecimal text of the first sixteen digest bytes.
    pub fn to_string(&self) -> (r: String)
        ensures
            r@ == hex_chars(lower_hex16(id_bytes(*self))),
    {
        let bytes = self.as_bytes();
        hex_text(bytes.as_slice())
    }

    /// The ID whose digest is the given 32 bytes.
    pub fn from_digest(digest: &[u8]) -> (id: Id)
        requires
            digest@.len() == 32,
        ensures
            id == digest_to_id(digest@),
    {
        Id(read_be_word(digest, 0), read_be_word(digest, 8), read_be_word(digest, 16), read_be_word(digest, 24))
    }

    /// The 32 digest bytes of the ID.
    pub fn as_bytes(&self) -> (bytes: Vec<u8>)
        ensures
            bytes@ == id_bytes(*self),
            bytes@.len() == 32,
    {
        let mut out: Vec<u8> = Vec::new();
        push_be_word(&mut out, self.0);
        push_be_word(&mut out, self.1);
        push_be_word(&mut out, self.2);
        push_be_word(&mut out, self.3);
        assert(out@ =~= id_bytes(*self));
        out
    }
}

} // verus!
