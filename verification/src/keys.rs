//! Signer keys, signatures and nonces carried by messages.
use crate::crypto::{ml_dsa_accepts, ml_dsa_public_key, ml_dsa_signature, Signer};
use crate::id::{id_bytes, Id};
use crate::order::{bytes_equal, bytes_precede, lex_precedes, lemma_lex_skip};
use vstd::prelude::*;
use vstd::string::*;

verus! {

/// The signer of a message: the encoded ML-DSA-44 verifying key.
#[derive(Debug, PartialEq, Eq, PartialOrd, Ord, Hash)]
pub struct PublicKey(pub Vec<u8>);

/// The signature of a message for a given signer.
#[derive(Debug, PartialEq, Eq, PartialOrd, Ord)]
pub struct Signature(pub Vec<u8>);

/// The nonce of a message.
#[derive(Debug, PartialEq, Eq, PartialOrd, Ord)]
pub struct Nonce(pub Vec<u8>);

impl View for PublicKey {
    type V = Seq<u8>;

    open spec fn view(&self) -> Seq<u8> {
        self.0@
    }
}

impl View for Signature {
    type V = Seq<u8>;

    open spec fn view(&self) -> Seq<u8> {
        self.0@
    }
}

impl View for Nonce {
    type V = Seq<u8>;

    open spec fn view(&self) -> Seq<u8> {
        self.0@
    }
}

/// A copy of a byte vector.
pub fn copy_bytes(v: &Vec<u8>) -> (r: Vec<u8>)
    ensures
        r@ == v@,
{
    let mut r: Vec<u8> = Vec::new();
    let mut i: usize = 0;
    while i < v.len()
        invariant
            i <= v@.len(),
            r@ == v@.subrange(0, i as int),
        decreases v@.len() - i,
    {
        r.push(v[i]);
        i = i + 1;
        assert(r@ =~= v@.subrange(0, i as int));
    }
    assert(r@ =~= v@);
    r
}

impl Clone for PublicKey {
    fn clone(&self) -> (r: Self)
        ensures
            r@ == self@,
    {
        PublicKey(copy_bytes(&self.0))
    }
}

impl Clone for Signature {
    fn clone(&self) -> (r: Self)
        ensures
            r@ == self@,
    {
        Signature(copy_bytes(&self.0))
    }
}

impl Clone for Nonce {
    fn clone(&self) -> (r: Self)
        ensures
            r@ == self@,
    {
        Nonce(copy_bytes(&self.0))
    }
}

impl PublicKey {
    /// The public key of `signer`: its encoded verifying key.
    pub fn new(signer: &Signer) -> (r: Self)
        ensures
            r@ == ml_dsa_public_key(signer.seed()),
    {
        PublicKey(signer.public_key_bytes())
    }

    /// The public key of the signer made from the seed of 32 bytes `seed`.
    pub fn new_for_test(seed: u8) -> (r: Self)
        ensures
            r@ == ml_dsa_public_key(seq![seed; 32]),
    {
        let signer = Signer::from_seed([seed; 32]);
        proof {
            assert(signer.seed() =~= seq![seed; 32]);
        }
        PublicKey::new(&signer)
    }

    /// The lowercase hexadecimal text of the first sixteen bytes of the key.
    pub fn to_string(&self) -> (r: String)
        requires
            self@.len() >= 16,
        ensures
            r@ == hex_chars(lower_hex16(self@)),
    {
        hex_text(self.0.as_slice())
    }

    /// Borrow the bytes of the key.
    pub fn as_bytes(&self) -> (r: &[u8])
        ensures
            r@ == self@,
    {
        self.0.as_slice()
    }

    /// Whether two keys are the same key.
    pub fn same_as(&self, other: &PublicKey) -> (r: bool)
        ensures
            r == (self@ == other@),
    {
        bytes_equal(self.0.as_slice(), other.0.as_slice())
    }

    /// Whether this key comes strictly before `other` (bytewise order).
    pub fn precedes(&self, other: &PublicKey) -> (r: bool)
        ensures
            r == lex_precedes(self@, other@),
    {
        bytes_precede(self.0.as_slice(), other.0.as_slice())
    }
}

impl Signature {
    /// The signature by `signer` of the identifier `id`, where signing finds one;
    /// it is accepted under the signer's public key.
    pub fn new(signer: &Signer, id: &Id) -> (r: Option<Self>)
        ensures
            match r {
                Some(s) => ml_dsa_signature(signer.seed(), id_bytes(*id)) == Some(s@) && ml_dsa_accepts(
                    ml_dsa_public_key(signer.seed()),
                    id_bytes(*id),
                    s@,
                ),
                None => ml_dsa_signature(signer.seed(), id_bytes(*id)) == None::<Seq<u8>>,
            },
    {
        let bytes = id.as_bytes();
        match signer.sign(bytes.as_slice()) {
            Some(s) => Some(Signature(s)),
            None => None,
        }
    }

    /// The lowercase hexadecimal text of the first sixteen bytes of the signature.
    pub fn to_string(&self) -> (r: String)
        requires
            self@.len() >= 16,
        ensures
            r@ == hex_chars(lower_hex16(self@)),
    {
        hex_text(self.0.as_slice())
    }

    /// Borrow the bytes of the signature.
    pub fn as_bytes(&self) -> (r: &[u8])
        ensures
            r@ == self@,
    {
        self.0.as_slice()
    }
}

impl Nonce {
    /// Builds a nonce from the given bytes.
    pub fn new(nonce: Vec<u8>) -> (r: Self)
        ensures
            r@ == nonce@,
    {
        Nonce(nonce)
    }

    /// Borrow the bytes of the nonce.
    pub fn as_bytes(&self) -> (r: &[u8])
        ensures
            r@ == self@,
    {
        self.0.as_slice()
    }
}

/// The views of a sequence of keys.
pub open spec fn key_views(keys: Seq<PublicKey>) -> Seq<Seq<u8>> {
    keys.map_values(|k: PublicKey| k@)
}

/// Whether two key sequences hold the same keys in the same order.
pub fn keys_equal(a: &Vec<PublicKey>, b: &Vec<PublicKey>) -> (r: bool)
    ensures
        r == (key_views(a@) == key_views(b@)),
{
    if a.len() != b.len() {
        return false;
    }
    let mut i: usize = 0;
    while i < a.len()
        invariant
            i <= a@.len(),
            a@.len() == b@.len(),
            forall|k: int| 0 <= k < i ==> a@[k]@ == b@[k]@,
        decreases a@.len() - i,
    {
        if !a[i].same_as(&b[i]) {
            assert(key_views(a@)[i as int] != key_views(b@)[i as int]);
            return false;
        }
        i = i + 1;
    }
    assert(key_views(a@) =~= key_views(b@));
    true
}

/// Whether the key sequence `a` comes strictly before `b` (lexicographically,
/// keys compared bytewise).
pub fn keys_precede(a: &Vec<PublicKey>, b: &Vec<PublicKey>) -> (r: bool)
    ensures
        r == lex_precedes(key_views(a@), key_views(b@)),
{
    let ghost va = key_views(a@);
    let ghost vb = key_views(b@);
    let mut i: usize = 0;
    assert(va.skip(0) =~= va);
    assert(vb.skip(0) =~= vb);
    while i < a.len() && i < b.len()
        invariant
            i <= a@.len(),
            i <= b@.len(),
            va == key_views(a@),
            vb == key_views(b@),
            lex_precedes(va, vb) == lex_precedes(va.skip(i as int), vb.skip(i as int)),
        decreases a@.len() - i,
    {
        if !a[i].same_as(&b[i]) {
            assert(va.skip(i as int)[0] == va[i as int]);
            assert(vb.skip(i as int)[0] == vb[i as int]);
            return a[i].precedes(&b[i]);
        }
        proof {
            lemma_lex_skip(va, vb, i as int);
        }
        i = i + 1;
    }
    i < b.len()
}

/// A copy of a key sequence.
pub fn copy_keys(v: &Vec<PublicKey>) -> (r: Vec<PublicKey>)
    ensures
        key_views(r@) == key_views(v@),
{
    let mut r: Vec<PublicKey> = Vec::new();
    let mut i: usize = 0;
    while i < v.len()
        invariant
            i <= v@.len(),
            r@.len() == i,
            forall|k: int| 0 <= k < i ==> (#[trigger] r@[k])@ == v@[k]@,
        decreases v@.len() - i,
    {
        r.push(v[i].clone());
        i = i + 1;
    }
    assert(key_views(r@) =~= key_views(v@));
    r
}

/// The lowercase hexadecimal digit for a value below sixteen.
pub open spec fn hex_digit(n: u8) -> u8 {
    if n < 10 {
        (48 + n) as u8
    } else {
        (87 + n) as u8
    }
}

/// The lowercase hexadecimal text of the first sixteen bytes of `bytes`: two
/// digits per byte, high nibble first.
pub open spec fn lower_hex16(bytes: Seq<u8>) -> Seq<u8> {
    Seq::new(32, |i: int| if i % 2 == 0 { hex_digit(bytes[i / 2] / 16) } else { hex_digit(bytes[i / 2] % 16) })
}

/// Writes the lowercase hexadecimal text of the first sixteen bytes of `bytes`.
///
/// This is how IDs, public keys and signatures are displayed.
pub fn write_lower_hex(bytes: &[u8]) -> (r: Vec<u8>)
    requires
        bytes@.len() >= 16,
    ensures
        r@ == lower_hex16(bytes@),
{
    let mut out: Vec<u8> = Vec::new();
    let mut i: usize = 0;
    while i < 16
        invariant
            i <= 16,
            bytes@.len() >= 16,
            out@.len() == 2 * i,
            forall|k: int| 0 <= k < 2 * i ==> out@[k] == lower_hex16(bytes@)[k],
        decreases 16 - i,
    {
        let byte = bytes[i];
        let hi = byte / 16;
        let lo = byte % 16;
        let hi_digit: u8 = if hi < 10 { 48 + hi } else { 87 + hi };
        let lo_digit: u8 = if lo < 10 { 48 + lo } else { 87 + lo };
        out.push(hi_digit);
        out.push(lo_digit);
        proof {
            assert(lower_hex16(bytes@)[2 * i as int] == hex_digit(byte / 16)) by {
                assert((2 * i as int) / 2 == i);
                assert((2 * i as int) % 2 == 0);
            }
            assert(lower_hex16(bytes@)[2 * i + 1] == hex_digit(byte % 16)) by {
                assert((2 * i + 1) / 2 == i as int);
                assert((2 * i + 1) % 2 == 1);
            }
        }
        i = i + 1;
    }
    assert(out@ =~= lower_hex16(bytes@));
    out
}

/// ASCII bytes read as characters.
pub open spec fn hex_chars(text: Seq<u8>) -> Seq<char> {
    text.map_values(|b: u8| b as char)
}

/// The text of one lowercase hexadecimal digit.
fn digit_text(n: u8) -> (r: &'static str)
    requires
        n < 16,
    ensures
        r@ == seq![hex_digit(n) as char],
{
    proof {
        reveal_strlit("0");
        reveal_strlit("1");
        reveal_strlit("2");
        reveal_strlit("3");
        reveal_strlit("4");
        reveal_strlit("5");
        reveal_strlit("6");
        reveal_strlit("7");
        reveal_strlit("8");
        reveal_strlit("9");
        reveal_strlit("a");
        reveal_strlit("b");
        reveal_strlit("c");
        reveal_strlit("d");
        reveal_strlit("e");
        reveal_strlit("f");
    }
    match n {
        0 => "0",
        1 => "1",
        2 => "2",
        3 => "3",
        4 => "4",
        5 => "5",
        6 => "6",
        7 => "7",
        8 => "8",
        9 => "9",
        10 => "a",
        11 => "b",
        12 => "c",
        13 => "d",
        14 => "e",
        _ => "f",
    }
}

/// The lowercase hexadecimal text of the first sixteen bytes of `bytes`, as a string.
pub fn hex_text(bytes: &[u8]) -> (r: String)
    requires
        bytes@.len() >= 16,
    ensures
        r@ == hex_chars(lower_hex16(bytes@)),
{
    let digits = write_lower_hex(bytes);
    let mut out = String::new();
    let mut i: usize = 0;
    while i < 16
        invariant
            i <= 16,
            bytes@.len() >= 16,
            digits@ == lower_hex16(bytes@),
            out@ == hex_chars(lower_hex16(bytes@)).subrange(0, 2 * i as int),
        decreases 16 - i,
    {
        let byte = bytes[i];
        proof {
            assert(lower_hex16(bytes@)[2 * i as int] == hex_digit(byte / 16)) by {
                assert((2 * i as int) / 2 == i);
                assert((2 * i as int) % 2 == 0);
            }
            assert(lower_hex16(bytes@)[2 * i + 1] == hex_digit(byte % 16)) by {
                assert((2 * i + 1) / 2 == i as int);
                assert((2 * i + 1) % 2 == 1);
            }
        }
        out.append(digit_text(byte / 16));
        out.append(digit_text(byte % 16));
        i = i + 1;
        assert(out@ =~= hex_chars(lower_hex16(bytes@)).subrange(0, 2 * i as int));
    }
    assert(out@ =~= hex_chars(lower_hex16(bytes@)));
    out
}

} // verus!
