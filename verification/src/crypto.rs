use crate::wire::{decode_array, encode_array, prefix_of, Wire};
use chacha20::cipher::{KeyIvInit, StreamCipher};
use ed25519_dalek::Signer;
use vstd::prelude::*;

verus! {

/// A symmetric stream-cipher key.
#[derive(Clone, Copy, PartialEq, Eq, Debug)]
pub struct EncKey {
    pub bytes: [u8; 32],
}

/// A stream-cipher nonce, drawn fresh for every encryption.
#[derive(Clone, Copy, PartialEq, Eq, Debug)]
pub struct EncNonce {
    pub bytes: [u8; 12],
}

/// The public half of a short-lived key-exchange keypair.
#[derive(Clone, Copy, PartialEq, Eq, Debug)]
pub struct PubKexKey {
    pub bytes: [u8; 32],
}

/// A peer's long-term identity: the public half of its signing keypair.
#[derive(Clone, Copy, PartialEq, Eq, Debug)]
pub struct PubSigKey {
    pub bytes: [u8; 32],
}

/// The symmetric key derived from a key exchange; it identifies an active
/// connection and authenticates every message between the pair.
#[derive(Clone, Copy, PartialEq, Eq, Debug)]
pub struct MacKey {
    pub bytes: [u8; 32],
}

/// A 32-byte keyed or unkeyed digest.
#[derive(Clone, Copy, PartialEq, Eq, Debug)]
pub struct Mac {
    pub bytes: [u8; 32],
}

/// The digest of a file's plaintext, which names the file.
pub type FileHash = Mac;

/// The digest an evaluator commits to, and later reveals the key of.
pub type DetailHash = Mac;

/// A 64-byte signature.
#[derive(Clone, Copy, PartialEq, Eq, Debug)]
pub struct Signature {
    pub bytes: [u8; 64],
}

/// The secret half of a signing keypair.
#[derive(Clone, Copy, PartialEq, Eq, Debug)]
pub struct SecSigKey {
    pub bytes: [u8; 32],
}

#[verifier::external_type_specification]
#[verifier::external_body]
pub struct ExEphemeralSecret(x25519_dalek::EphemeralSecret);

/// The secret half of a key-exchange keypair, paired with its public half.
/// Both fields are private: values exist only through `kex_generate`, so
/// the public half is always the public key of the secret half.
pub struct KexSecret {
    secret: x25519_dalek::EphemeralSecret,
    public: [u8; 32],
}

impl KexSecret {
    /// The bytes of the public key belonging to the secret.
    pub closed spec fn pub_bytes(&self) -> Seq<u8> {
        self.public@
    }
}

/// The unkeyed blake3 digest of the input bytes.
pub uninterp spec fn blake3_of(data: Seq<u8>) -> Seq<u8>;

/// The keyed blake3 digest under the given 32-byte key.
pub uninterp spec fn keyed_blake3_of(key: Seq<u8>, data: Seq<u8>) -> Seq<u8>;

/// The Ed25519 signature of a message under a secret key.
pub uninterp spec fn ed_sign_of(sk: Seq<u8>, msg: Seq<u8>) -> Seq<u8>;

/// The public key belonging to an Ed25519 secret key.
pub uninterp spec fn ed_pub_of(sk: Seq<u8>) -> Seq<u8>;

/// Whether a signature passes the strict Ed25519 check for a public key
/// and message.
pub uninterp spec fn ed_verify_of(vk: Seq<u8>, msg: Seq<u8>, sig: Seq<u8>) -> bool;

/// The Diffie-Hellman shared secret, as a function of the two public keys.
pub uninterp spec fn dh_shared_of(pub_a: Seq<u8>, pub_b: Seq<u8>) -> Seq<u8>;

/// The ChaCha8 keystream of the given length for a key and nonce.
pub uninterp spec fn chacha8_keystream_of(key: Seq<u8>, nonce: Seq<u8>, len: nat) -> Seq<u8>;

/// Relies on blake3::hash: a 32-byte digest of the input bytes alone.
#[verifier::external_body]
pub fn blake3_hash(data: &[u8]) -> (r: Mac)
    ensures
        r.bytes@ == blake3_of(data@),
{
    Mac { bytes: *blake3::hash(data).as_bytes() }
}

/// Relies on blake3::keyed_hash: a 32-byte digest of the key and input
/// bytes alone.
#[verifier::external_body]
pub fn blake3_keyed(key: &[u8; 32], data: &[u8]) -> (r: Mac)
    ensures
        r.bytes@ == keyed_blake3_of(key@, data@),
{
    Mac { bytes: *blake3::keyed_hash(key, data).as_bytes() }
}

/// Relies on ed25519_dalek::SigningKey::sign, which is deterministic, and
/// on the documented promise that a key's own signatures pass
/// verify_strict under its public key.
#[verifier::external_body]
pub fn ed_sign(sk: &SecSigKey, msg: &[u8]) -> (r: Signature)
    ensures
        r.bytes@ == ed_sign_of(sk.bytes@, msg@),
        ed_verify_of(ed_pub_of(sk.bytes@), msg@, r.bytes@),
{
    let key = ed25519_dalek::SigningKey::from_bytes(&sk.bytes);
    Signature { bytes: key.sign(msg).to_bytes() }
}

/// Relies on ed25519_dalek::SigningKey::verifying_key: the public key is a
/// function of the secret key alone.
#[verifier::external_body]
pub fn ed_public(sk: &SecSigKey) -> (r: PubSigKey)
    ensures
        r.bytes@ == ed_pub_of(sk.bytes@),
{
    let key = ed25519_dalek::SigningKey::from_bytes(&sk.bytes);
    PubSigKey { bytes: key.verifying_key().to_bytes() }
}

/// Relies on ed25519_dalek::VerifyingKey::verify_strict: acceptance is a
/// function of key, message and signature alone. Key bytes that are no
/// curve point verify nothing.
#[verifier::external_body]
pub fn ed_verify(vk: &PubSigKey, msg: &[u8], sig: &Signature) -> (r: bool)
    ensures
        r == ed_verify_of(vk.bytes@, msg@, sig.bytes@),
{
    match ed25519_dalek::VerifyingKey::from_bytes(&vk.bytes) {
        Ok(key) => key.verify_strict(msg, &ed25519_dalek::Signature::from_bytes(&sig.bytes)).is_ok(),
        Err(_) => false,
    }
}

/// Relies on x25519_dalek::EphemeralSecret::random_from_rng: a fresh
/// secret, of which nothing is promised.
#[verifier::external_body]
pub fn kex_generate() -> (r: KexSecret) {
    let secret = x25519_dalek::EphemeralSecret::random_from_rng(rand::thread_rng());
    let public = x25519_dalek::PublicKey::from(&secret).to_bytes();
    KexSecret { secret, public }
}

/// The public half of a key-exchange keypair.
pub fn kex_public(ks: &KexSecret) -> (r: PubKexKey)
    ensures
        r.bytes@ == ks.pub_bytes(),
{
    PubKexKey { bytes: ks.public }
}

/// Relies on x25519_dalek::EphemeralSecret::diffie_hellman: the shared
/// secret is a function of the two public keys alone, and is symmetric in
/// them. The public half is the public key of the secret half because
/// `KexSecret` fields are private and only `kex_generate` constructs the
/// type. The secret is consumed: one key exchange uses it exactly once.
#[verifier::external_body]
pub fn kex_dh(ks: KexSecret, peer: &PubKexKey) -> (r: MacKey)
    ensures
        r.bytes@ == dh_shared_of(ks.pub_bytes(), peer.bytes@),
        r.bytes@ == dh_shared_of(peer.bytes@, ks.pub_bytes()),
{
    let their_public = x25519_dalek::PublicKey::from(peer.bytes);
    MacKey { bytes: ks.secret.diffie_hellman(&their_public).to_bytes() }
}

/// The longest keystream one (key, nonce) pair yields: the cipher counts
/// 64-byte blocks with a 32-bit counter and panics past the last block.
pub const MAX_KEYSTREAM_LEN: u64 = 0x3F_FFFF_FFC0;

/// Relies on chacha20::ChaCha8::apply_keystream: the keystream is a
/// function of key, nonce and length alone. XOR with zero bytes leaves the
/// keystream itself. Past the end of the keystream the cipher panics, so
/// the length stays under it.
#[verifier::external_body]
pub fn chacha8_keystream(key: &EncKey, nonce: &EncNonce, len: usize) -> (r: Vec<u8>)
    requires
        len as int <= MAX_KEYSTREAM_LEN as int,
    ensures
        r@ == chacha8_keystream_of(key.bytes@, nonce.bytes@, len as nat),
        r@.len() == len,
{
    let mut buf = vec![0u8; len];
    let mut cipher = chacha20::ChaCha8::new((&key.bytes).into(), (&nonce.bytes).into());
    cipher.apply_keystream(&mut buf);
    buf
}

/// Relies on rand::random: 32 fresh bytes, of which nothing is promised.
#[verifier::external_body]
pub fn random_bytes_32() -> (r: [u8; 32]) {
    rand::random::<[u8; 32]>()
}

/// Relies on rand::random: 12 fresh bytes, of which nothing is promised.
#[verifier::external_body]
pub fn random_bytes_12() -> (r: [u8; 12]) {
    rand::random::<[u8; 12]>()
}

impl EncKey {
    /// A fresh random key.
    pub fn random() -> (r: Self) {
        EncKey { bytes: random_bytes_32() }
    }
}


/// Byte-for-byte comparison of two fixed-size arrays.
pub fn bytes_eq<const N: usize>(a: &[u8; N], b: &[u8; N]) -> (r: bool)
    ensures
        r <==> a@ == b@,
{
    let mut i: usize = 0;
    while i < N
        invariant
            i <= N,
            forall|j: int| 0 <= j < i ==> a@[j] == b@[j],
        decreases N - i,
    {
        if a[i] != b[i] {
            return false;
        }
        i += 1;
    }
    proof {
        assert(a@ =~= b@);
    }
    true
}

impl Mac {
    /// Whether two digests hold the same bytes.
    pub fn equals(&self, o: &Mac) -> (r: bool)
        ensures
            r <==> *self == *o,
    {
        let r = bytes_eq(&self.bytes, &o.bytes);
        proof {
            if self.bytes@ == o.bytes@ {
                assert(self.bytes =~= o.bytes);
            }
        }
        r
    }
}

impl PubSigKey {
    /// Whether two identities are the same key.
    pub fn equals(&self, o: &PubSigKey) -> (r: bool)
        ensures
            r <==> *self == *o,
    {
        let r = bytes_eq(&self.bytes, &o.bytes);
        proof {
            if self.bytes@ == o.bytes@ {
                assert(self.bytes =~= o.bytes);
            }
        }
        r
    }
}

impl MacKey {
    /// Whether two connection keys hold the same bytes.
    pub fn equals(&self, o: &MacKey) -> (r: bool)
        ensures
            r <==> *self == *o,
    {
        let r = bytes_eq(&self.bytes, &o.bytes);
        proof {
            if self.bytes@ == o.bytes@ {
                assert(self.bytes =~= o.bytes);
            }
        }
        r
    }
}

impl Wire for Mac {
    open spec fn veq(&self, other: &Self) -> bool {
        *self == *other
    }

    open spec fn wire(&self) -> Seq<u8> {
        self.bytes@
    }

    open spec fn wf(&self) -> bool {
        true
    }

    fn encode(&self, out: &mut Vec<u8>) {
        encode_array(&self.bytes, out);
    }

    fn decode(buf: &[u8], pos: usize) -> (r: Option<(Self, usize)>)
        ensures
            forall|v: Self|
                #![trigger v.wire()]
                v.wf() && prefix_of(buf@, pos as int, v.wire()) ==> r == Some(
                    (v, (pos + v.wire().len()) as usize),
                ),
    {
        match decode_array::<32>(buf, pos) {
            Some((a, p)) => {
                proof {
                    assert forall|v: Self| v.wf() && prefix_of(buf@, pos as int, v.wire())
                        implies Some((Mac { bytes: a }, p)) == Some(
                        (v, (pos as int + v.wire().len()) as usize),
                    ) by {
                        assert(v.bytes =~= a);
                    }
                }
                Some((Mac { bytes: a }, p))
            },
            None => None,
        }
    }
}

impl Wire for EncKey {
    open spec fn veq(&self, other: &Self) -> bool {
        *self == *other
    }

    open spec fn wire(&self) -> Seq<u8> {
        self.bytes@
    }

    open spec fn wf(&self) -> bool {
        true
    }

    fn encode(&self, out: &mut Vec<u8>) {
        encode_array(&self.bytes, out);
    }

    fn decode(buf: &[u8], pos: usize) -> (r: Option<(Self, usize)>)
        ensures
            forall|v: Self|
                #![trigger v.wire()]
                v.wf() && prefix_of(buf@, pos as int, v.wire()) ==> r == Some(
                    (v, (pos + v.wire().len()) as usize),
                ),
    {
        match decode_array::<32>(buf, pos) {
            Some((a, p)) => {
                proof {
                    assert forall|v: Self| v.wf() && prefix_of(buf@, pos as int, v.wire())
                        implies Some((EncKey { bytes: a }, p)) == Some(
                        (v, (pos as int + v.wire().len()) as usize),
                    ) by {
                        assert(v.bytes =~= a);
                    }
                }
                Some((EncKey { bytes: a }, p))
            },
            None => None,
        }
    }
}

impl Wire for EncNonce {
    open spec fn veq(&self, other: &Self) -> bool {
        *self == *other
    }

    open spec fn wire(&self) -> Seq<u8> {
        self.bytes@
    }

    open spec fn wf(&self) -> bool {
        true
    }

    fn encode(&self, out: &mut Vec<u8>) {
        encode_array(&self.bytes, out);
    }

    fn decode(buf: &[u8], pos: usize) -> (r: Option<(Self, usize)>)
        ensures
            forall|v: Self|
                #![trigger v.wire()]
                v.wf() && prefix_of(buf@, pos as int, v.wire()) ==> r == Some(
                    (v, (pos + v.wire().len()) as usize),
                ),
    {
        match decode_array::<12>(buf, pos) {
            Some((a, p)) => {
                proof {
                    assert forall|v: Self| v.wf() && prefix_of(buf@, pos as int, v.wire())
                        implies Some((EncNonce { bytes: a }, p)) == Some(
                        (v, (pos as int + v.wire().len()) as usize),
                    ) by {
                        assert(v.bytes =~= a);
                    }
                }
                Some((EncNonce { bytes: a }, p))
            },
            None => None,
        }
    }
}

impl Wire for PubKexKey {
    open spec fn veq(&self, other: &Self) -> bool {
        *self == *other
    }

    open spec fn wire(&self) -> Seq<u8> {
        self.bytes@
    }

    open spec fn wf(&self) -> bool {
        true
    }

    fn encode(&self, out: &mut Vec<u8>) {
        encode_array(&self.bytes, out);
    }

    fn decode(buf: &[u8], pos: usize) -> (r: Option<(Self, usize)>)
        ensures
            forall|v: Self|
                #![trigger v.wire()]
                v.wf() && prefix_of(buf@, pos as int, v.wire()) ==> r == Some(
                    (v, (pos + v.wire().len()) as usize),
                ),
    {
        match decode_array::<32>(buf, pos) {
            Some((a, p)) => {
                proof {
                    assert forall|v: Self| v.wf() && prefix_of(buf@, pos as int, v.wire())
                        implies Some((PubKexKey { bytes: a }, p)) == Some(
                        (v, (pos as int + v.wire().len()) as usize),
                    ) by {
                        assert(v.bytes =~= a);
                    }
                }
                Some((PubKexKey { bytes: a }, p))
            },
            None => None,
        }
    }
}

impl Wire for PubSigKey {
    open spec fn veq(&self, other: &Self) -> bool {
        *self == *other
    }

    open spec fn wire(&self) -> Seq<u8> {
        self.bytes@
    }

    open spec fn wf(&self) -> bool {
        true
    }

    fn encode(&self, out: &mut Vec<u8>) {
        encode_array(&self.bytes, out);
    }

    fn decode(buf: &[u8], pos: usize) -> (r: Option<(Self, usize)>)
        ensures
            forall|v: Self|
                #![trigger v.wire()]
                v.wf() && prefix_of(buf@, pos as int, v.wire()) ==> r == Some(
                    (v, (pos + v.wire().len()) as usize),
                ),
    {
        match decode_array::<32>(buf, pos) {
            Some((a, p)) => {
                proof {
                    assert forall|v: Self| v.wf() && prefix_of(buf@, pos as int, v.wire())
                        implies Some((PubSigKey { bytes: a }, p)) == Some(
                        (v, (pos as int + v.wire().len()) as usize),
                    ) by {
                        assert(v.bytes =~= a);
                    }
                }
                Some((PubSigKey { bytes: a }, p))
            },
            None => None,
        }
    }
}

impl Wire for MacKey {
    open spec fn veq(&self, other: &Self) -> bool {
        *self == *other
    }

    open spec fn wire(&self) -> Seq<u8> {
        self.bytes@
    }

    open spec fn wf(&self) -> bool {
        true
    }

    fn encode(&self, out: &mut Vec<u8>) {
        encode_array(&self.bytes, out);
    }

    fn decode(buf: &[u8], pos: usize) -> (r: Option<(Self, usize)>)
        ensures
            forall|v: Self|
                #![trigger v.wire()]
                v.wf() && prefix_of(buf@, pos as int, v.wire()) ==> r == Some(
                    (v, (pos + v.wire().len()) as usize),
                ),
    {
        match decode_array::<32>(buf, pos) {
            Some((a, p)) => {
                proof {
                    assert forall|v: Self| v.wf() && prefix_of(buf@, pos as int, v.wire())
                        implies Some((MacKey { bytes: a }, p)) == Some(
                        (v, (pos as int + v.wire().len()) as usize),
                    ) by {
                        assert(v.bytes =~= a);
                    }
                }
                Some((MacKey { bytes: a }, p))
            },
            None => None,
        }
    }
}

impl Wire for Signature {
    open spec fn veq(&self, other: &Self) -> bool {
        *self == *other
    }

    open spec fn wire(&self) -> Seq<u8> {
        self.bytes@
    }

    open spec fn wf(&self) -> bool {
        true
    }

    fn encode(&self, out: &mut Vec<u8>) {
        encode_array(&self.bytes, out);
    }

    fn decode(buf: &[u8], pos: usize) -> (r: Option<(Self, usize)>)
        ensures
            forall|v: Self|
                #![trigger v.wire()]
                v.wf() && prefix_of(buf@, pos as int, v.wire()) ==> r == Some(
                    (v, (pos + v.wire().len()) as usize),
                ),
    {
        match decode_array::<64>(buf, pos) {
            Some((a, p)) => {
                proof {
                    assert forall|v: Self| v.wf() && prefix_of(buf@, pos as int, v.wire())
                        implies Some((Signature { bytes: a }, p)) == Some(
                        (v, (pos as int + v.wire().len()) as usize),
                    ) by {
                        assert(v.bytes =~= a);
                    }
                }
                Some((Signature { bytes: a }, p))
            },
            None => None,
        }
    }
}

} // verus!
