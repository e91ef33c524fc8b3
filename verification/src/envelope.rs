use crate::crypto::{
    blake3_keyed, chacha8_keystream, chacha8_keystream_of, ed_pub_of, ed_sign, ed_sign_of,
    ed_verify, ed_verify_of, keyed_blake3_of, random_bytes_12, EncKey, EncNonce, Mac, MacKey,
    PubSigKey, SecSigKey, Signature, MAX_KEYSTREAM_LEN,
};
use crate::wire::{decode_array, encode_array, lemma_concat_split, prefix_of, vec_to_array, Wire};
use vstd::prelude::*;

verus! {

/// Bytewise exclusive or of two equally long byte strings.
pub open spec fn xor_seq(a: Seq<u8>, b: Seq<u8>) -> Seq<u8>
    recommends
        a.len() == b.len(),
{
    Seq::new(a.len(), |i: int| a[i] ^ b[i])
}

/// Masking twice with the same bytes gives the input back.
pub proof fn lemma_xor_involution(a: Seq<u8>, b: Seq<u8>)
    requires
        a.len() == b.len(),
    ensures
        xor_seq(xor_seq(a, b), b) == a,
{
    assert(forall|x: u8, k: u8| #[trigger] ((x ^ k) ^ k) == x) by (bit_vector);
    assert(xor_seq(xor_seq(a, b), b) =~= a);
}

/// The bytewise exclusive or of two equally long byte strings.
pub fn xor_bytes(data: &[u8], mask: &[u8]) -> (r: Vec<u8>)
    requires
        data@.len() == mask@.len(),
    ensures
        r@ == xor_seq(data@, mask@),
{
    let n = data.len();
    let mut r: Vec<u8> = Vec::new();
    let mut i: usize = 0;
    #[verifier::loop_isolation(false)]
    while i < n
        invariant
            i <= n,
            r@ =~= xor_seq(data@, mask@).take(i as int),
        decreases n - i,
    {
        r.push(data[i] ^ mask[i]);
        assert(r@ =~= xor_seq(data@, mask@).take(i + 1 as int));
        i += 1;
    }
    proof {
        assert(xor_seq(data@, mask@).take(n as int) =~= xor_seq(data@, mask@));
    }
    r
}

/// A payload carried with a keyed blake3 digest of its serialization.
#[derive(Clone, Copy, PartialEq, Eq, Debug)]
pub struct Macced<T> {
    pub data: T,
    pub mac: Mac,
}

impl<T: Wire> Macced<T> {
    /// The digest is the keyed blake3 of the payload's serialization under
    /// the given key.
    pub open spec fn valid(self, key: MacKey) -> bool {
        self.mac.bytes@ == keyed_blake3_of(key.bytes@, self.data.wire())
    }

    /// Wraps a payload, computing its digest under the key. The result
    /// always verifies under the same key.
    pub fn new(data: T, key: &MacKey) -> (r: Self)
        requires
            data.wf(),
        ensures
            r.data == data,
            r.valid(*key),
    {
        let mut buf: Vec<u8> = Vec::new();
        data.encode(&mut buf);
        let mac = blake3_keyed(&key.bytes, buf.as_slice());
        Macced { data, mac }
    }

    /// Whether the digest verifies under the key.
    pub fn check(&self, key: &MacKey) -> (r: bool)
        requires
            self.data.wf(),
        ensures
            r == self.valid(*key),
    {
        let mut buf: Vec<u8> = Vec::new();
        self.data.encode(&mut buf);
        let expect = blake3_keyed(&key.bytes, buf.as_slice());
        let r = self.mac.equals(&expect);
        proof {
            if self.mac.bytes@ == expect.bytes@ {
                assert(self.mac.bytes =~= expect.bytes);
            }
        }
        r
    }

    /// The payload, if the digest verifies under the key.
    pub fn inner(self, key: &MacKey) -> (r: Option<T>)
        requires
            self.data.wf(),
        ensures
            r == if self.valid(*key) {
                Some(self.data)
            } else {
                None::<T>
            },
    {
        if self.check(key) {
            Some(self.data)
        } else {
            None
        }
    }
}

impl<T: Wire> Wire for Macced<T> {
    open spec fn veq(&self, other: &Self) -> bool {
        self.data.veq(&other.data) && self.mac == other.mac
    }

    open spec fn wire(&self) -> Seq<u8> {
        self.data.wire() + self.mac.bytes@
    }

    open spec fn wf(&self) -> bool {
        self.data.wf()
    }

    fn encode(&self, out: &mut Vec<u8>) {
        self.data.encode(out);
        encode_array(&self.mac.bytes, out);
        assert(out@ =~= old(out)@ + self.wire());
    }

    fn decode(buf: &[u8], pos: usize) -> (r: Option<(Self, usize)>) {
        proof {
            assert forall|v: Macced<T>| (v.wf() && prefix_of(buf@, pos as int, v.wire())) implies (
            v.data.wf() && prefix_of(buf@, pos as int, v.data.wire())) by {
                lemma_concat_split(buf@, pos as int, v.data.wire(), v.mac.bytes@);
            }
        }
        match T::decode(buf, pos) {
            None => None,
            Some((data, p1)) => {
                proof {
                    assert forall|v: Macced<T>| (v.wf() && prefix_of(
                        buf@,
                        pos as int,
                        v.wire(),
                    )) implies (v.mac.wf() && prefix_of(buf@, p1 as int, v.mac.wire())) by {
                        lemma_concat_split(buf@, pos as int, v.data.wire(), v.mac.bytes@);
                    }
                }
                match Mac::decode(buf, p1) {
                    None => None,
                    Some((mac, p2)) => {
                        proof {
                            assert(buf@.subrange(pos as int, p2 as int) =~= buf@.subrange(
                                pos as int,
                                p1 as int,
                            ) + buf@.subrange(p1 as int, p2 as int));
                            assert forall|v: Macced<T>| (v.wf() && prefix_of(
                                buf@,
                                pos as int,
                                v.wire(),
                            )) implies p2 == pos + v.wire().len() && (Macced {
                                data,
                                mac,
                            }).wire() == v.wire() && v.veq(&(Macced { data, mac })) by {
                                lemma_concat_split(buf@, pos as int, v.data.wire(), v.mac.bytes@);
                                assert(v.data.veq(&data));
                                assert(v.mac == mac);
                            }
                        }
                        Some((Macced { data, mac }, p2))
                    },
                }
            },
        }
    }
}

/// A payload carried with an Ed25519 signature over its serialization and
/// the declared signer's identity, which travels in the message itself.
#[derive(Clone, Copy, PartialEq, Eq, Debug)]
pub struct Signed<T, W> {
    pub body: T,
    pub signer: W,
    pub signature: Signature,
}

impl<T: Wire, W: Wire> Signed<T, W> {
    /// The bytes the signature is taken over: payload, then declared signer.
    pub open spec fn payload_wire(self) -> Seq<u8> {
        self.body.wire() + self.signer.wire()
    }

    /// The signature passes the strict check for the given public key.
    pub open spec fn valid(self, pk: PubSigKey) -> bool {
        ed_verify_of(pk.bytes@, self.payload_wire(), self.signature.bytes@)
    }

    /// Signs a payload. The result always verifies under the public key
    /// belonging to the signing key.
    pub fn new(data: (T, W), sk: &SecSigKey) -> (r: Self)
        requires
            data.0.wf(),
            data.1.wf(),
        ensures
            r.body == data.0,
            r.signer == data.1,
            r.signature.bytes@ == ed_sign_of(sk.bytes@, r.payload_wire()),
            forall|pk: PubSigKey|
                pk.bytes@ == ed_pub_of(sk.bytes@) ==> #[trigger] r.valid(pk),
    {
        let (body, signer) = data;
        let mut buf: Vec<u8> = Vec::new();
        body.encode(&mut buf);
        signer.encode(&mut buf);
        let signature = ed_sign(sk, buf.as_slice());
        Signed { body, signer, signature }
    }

    /// Whether the signature verifies under the given public key.
    pub fn check(&self, pk: &PubSigKey) -> (r: bool)
        requires
            self.body.wf(),
            self.signer.wf(),
        ensures
            r == self.valid(*pk),
    {
        let mut buf: Vec<u8> = Vec::new();
        self.body.encode(&mut buf);
        self.signer.encode(&mut buf);
        ed_verify(pk, buf.as_slice(), &self.signature)
    }

    /// The payload, if the signature verifies under the given public key.
    pub fn inner(self, pk: &PubSigKey) -> (r: Option<(T, W)>)
        requires
            self.body.wf(),
            self.signer.wf(),
        ensures
            r == if self.valid(*pk) {
                Some((self.body, self.signer))
            } else {
                None::<(T, W)>
            },
    {
        if self.check(pk) {
            Some((self.body, self.signer))
        } else {
            None
        }
    }

    /// The identity the message itself declares as its signer.
    pub fn who(&self) -> (r: W) where W: Copy
        ensures
            r == self.signer,
    {
        self.signer
    }
}

impl<T: Wire, W: Wire> Wire for Signed<T, W> {
    open spec fn veq(&self, other: &Self) -> bool {
        self.body.veq(&other.body) && self.signer.veq(&other.signer) && self.signature
            == other.signature
    }

    open spec fn wire(&self) -> Seq<u8> {
        self.body.wire() + self.signer.wire() + self.signature.bytes@
    }

    open spec fn wf(&self) -> bool {
        self.body.wf() && self.signer.wf()
    }

    fn encode(&self, out: &mut Vec<u8>) {
        self.body.encode(out);
        self.signer.encode(out);
        encode_array(&self.signature.bytes, out);
        assert(out@ =~= old(out)@ + self.wire());
    }

    fn decode(buf: &[u8], pos: usize) -> (r: Option<(Self, usize)>) {
        proof {
            assert forall|v: Signed<T, W>| (v.wf() && prefix_of(buf@, pos as int, v.wire())) implies (
            v.body.wf() && prefix_of(buf@, pos as int, v.body.wire())) by {
                lemma_concat_split(
                    buf@,
                    pos as int,
                    v.body.wire() + v.signer.wire(),
                    v.signature.bytes@,
                );
                lemma_concat_split(buf@, pos as int, v.body.wire(), v.signer.wire());
            }
        }
        match T::decode(buf, pos) {
            None => None,
            Some((t, p1)) => {
                proof {
                    assert forall|v: Signed<T, W>| (v.wf() && prefix_of(
                        buf@,
                        pos as int,
                        v.wire(),
                    )) implies (v.signer.wf() && prefix_of(buf@, p1 as int, v.signer.wire())) by {
                        lemma_concat_split(
                            buf@,
                            pos as int,
                            v.body.wire() + v.signer.wire(),
                            v.signature.bytes@,
                        );
                        lemma_concat_split(buf@, pos as int, v.body.wire(), v.signer.wire());
                    }
                }
                match W::decode(buf, p1) {
                    None => None,
                    Some((w, p2)) => {
                        proof {
                            assert forall|v: Signed<T, W>| (v.wf() && prefix_of(
                                buf@,
                                pos as int,
                                v.wire(),
                            )) implies (v.signature.wf() && prefix_of(
                                buf@,
                                p2 as int,
                                v.signature.wire(),
                            )) by {
                                lemma_concat_split(
                                    buf@,
                                    pos as int,
                                    v.body.wire() + v.signer.wire(),
                                    v.signature.bytes@,
                                );
                                lemma_concat_split(
                                    buf@,
                                    pos as int,
                                    v.body.wire(),
                                    v.signer.wire(),
                                );
                            }
                        }
                        match Signature::decode(buf, p2) {
                            None => None,
                            Some((signature, p3)) => {
                                proof {
                                    assert(buf@.subrange(pos as int, p2 as int) =~= buf@.subrange(
                                        pos as int,
                                        p1 as int,
                                    ) + buf@.subrange(p1 as int, p2 as int));
                                    assert(buf@.subrange(pos as int, p3 as int) =~= buf@.subrange(
                                        pos as int,
                                        p2 as int,
                                    ) + buf@.subrange(p2 as int, p3 as int));
                                    assert forall|v: Signed<T, W>| (v.wf() && prefix_of(
                                        buf@,
                                        pos as int,
                                        v.wire(),
                                    )) implies p3 == pos + v.wire().len() && (Signed {
                                        body: t,
                                        signer: w,
                                        signature,
                                    }).wire() == v.wire() && v.veq(
                                        &(Signed { body: t, signer: w, signature }),
                                    ) by {
                                        lemma_concat_split(
                                            buf@,
                                            pos as int,
                                            v.body.wire() + v.signer.wire(),
                                            v.signature.bytes@,
                                        );
                                        lemma_concat_split(
                                            buf@,
                                            pos as int,
                                            v.body.wire(),
                                            v.signer.wire(),
                                        );
                                    }
                                }
                                Some((Signed { body: t, signer: w, signature }, p3))
                            },
                        }
                    },
                }
            },
        }
    }
}

/// A payload stream-encrypted under a key, carried as length-prefixed
/// ciphertext plus the nonce the encryption drew.
#[derive(PartialEq, Eq, Debug)]
pub struct Encrypted<T> {
    pub data: Vec<u8>,
    pub nonce: EncNonce,
    pub marker: core::marker::PhantomData<T>,
}

impl<T: Wire> Encrypted<T> {
    /// The ciphertext, unmasked with the keystream of the given key and
    /// this envelope's nonce, is the serialization of `t`.
    pub open spec fn decrypts_to(self, key: EncKey, t: T) -> bool {
        &&& t.wf()
        &&& t.wire().len() == self.data@.len()
        &&& xor_seq(
            self.data@,
            chacha8_keystream_of(key.bytes@, self.nonce.bytes@, self.data@.len()),
        ) == t.wire()
    }

    /// Encrypts a payload under the key with a fresh random nonce. The
    /// result decrypts to the payload under the same key.
    pub fn new(data: T, key: &EncKey) -> (r: Self)
        requires
            data.wf(),
            data.wire().len() <= MAX_KEYSTREAM_LEN as int,
        ensures
            r.decrypts_to(*key, data),
            r.data@.len() == data.wire().len(),
    {
        let mut buf: Vec<u8> = Vec::new();
        data.encode(&mut buf);
        let nonce = EncNonce { bytes: random_bytes_12() };
        let ks = chacha8_keystream(key, &nonce, buf.len());
        let ct = xor_bytes(buf.as_slice(), ks.as_slice());
        proof {
            lemma_xor_involution(buf@, ks@);
        }
        Encrypted { data: ct, nonce, marker: core::marker::PhantomData }
    }

    /// Decrypts under the key: the unique payload this envelope decrypts
    /// to, if there is one. Whatever the envelope decrypts to has the one
    /// serialization the keystream uncovers, so the result carries it.
    pub fn inner(self, key: &EncKey) -> (r: Option<T>)
        requires
            self.data@.len() <= MAX_KEYSTREAM_LEN as int,
        ensures
            (match r {
                Some(t) => self.decrypts_to(*key, t),
                None => true,
            }),
            forall|t: T|
                #[trigger] self.decrypts_to(*key, t) ==> (r matches Some(t2) && t2.wire()
                    == t.wire() && t.veq(&t2)),
    {
        let ks = chacha8_keystream(key, &self.nonce, self.data.len());
        let pt = xor_bytes(self.data.as_slice(), ks.as_slice());
        proof {
            assert forall|t: T| self.decrypts_to(*key, t) implies (t.wf() && prefix_of(
                pt@,
                0,
                t.wire(),
            )) by {
                assert(pt@.subrange(0, t.wire().len() as int) =~= pt@);
            }
        }
        match T::decode(pt.as_slice(), 0) {
            None => None,
            Some((t, p)) => {
                if p == pt.len() {
                    proof {
                        assert(pt@.subrange(0, p as int) =~= pt@);
                        lemma_xor_involution(self.data@, ks@);
                    }
                    Some(t)
                } else {
                    None
                }
            },
        }
    }
}

/// A payload of fixed serialized size `N`, stream-encrypted under a key,
/// carried as exactly `N` ciphertext bytes plus the nonce: no length tag.
#[derive(PartialEq, Eq, Debug)]
pub struct SizedEncrypted<T, const N: usize> {
    pub data: [u8; N],
    pub nonce: EncNonce,
    pub marker: core::marker::PhantomData<T>,
}

impl<T: Wire, const N: usize> SizedEncrypted<T, N> {
    /// The ciphertext, unmasked with the keystream of the given key and
    /// this envelope's nonce, is the serialization of `t`.
    pub open spec fn decrypts_to(self, key: EncKey, t: T) -> bool {
        &&& t.wf()
        &&& t.wire().len() == N
        &&& xor_seq(self.data@, chacha8_keystream_of(key.bytes@, self.nonce.bytes@, N as nat))
            == t.wire()
    }

    /// Encrypts a payload under the key with a fresh random nonce. The
    /// result decrypts to the payload under the same key.
    pub fn new(data: T, key: &EncKey) -> (r: Self)
        requires
            data.wf(),
            data.wire().len() == N,
            N as int <= MAX_KEYSTREAM_LEN as int,
        ensures
            r.decrypts_to(*key, data),
    {
        let mut buf: Vec<u8> = Vec::new();
        data.encode(&mut buf);
        let nonce = EncNonce { bytes: random_bytes_12() };
        let ks = chacha8_keystream(key, &nonce, buf.len());
        let ct = xor_bytes(buf.as_slice(), ks.as_slice());
        proof {
            lemma_xor_involution(buf@, ks@);
        }
        SizedEncrypted { data: vec_to_array::<N>(&ct), nonce, marker: core::marker::PhantomData }
    }

    /// Decrypts under the key: the unique payload this envelope decrypts
    /// to, if there is one. Whatever the envelope decrypts to has the one
    /// serialization the keystream uncovers, so the result carries it.
    pub fn inner(self, key: &EncKey) -> (r: Option<T>)
        requires
            N as int <= MAX_KEYSTREAM_LEN as int,
        ensures
            (match r {
                Some(t) => self.decrypts_to(*key, t),
                None => true,
            }),
            forall|t: T|
                #[trigger] self.decrypts_to(*key, t) ==> (r matches Some(t2) && t2.wire()
                    == t.wire() && t.veq(&t2)),
    {
        let data_slice = vstd::array::array_as_slice(&self.data);
        let ks = chacha8_keystream(key, &self.nonce, N);
        let pt = xor_bytes(data_slice, ks.as_slice());
        proof {
            assert forall|t: T| self.decrypts_to(*key, t) implies (t.wf() && prefix_of(
                pt@,
                0,
                t.wire(),
            )) by {
                assert(pt@.subrange(0, t.wire().len() as int) =~= pt@);
            }
        }
        match T::decode(pt.as_slice(), 0) {
            None => None,
            Some((t, p)) => {
                if p == pt.len() {
                    proof {
                        assert(pt@.subrange(0, p as int) =~= pt@);
                        lemma_xor_involution(self.data@, ks@);
                    }
                    Some(t)
                } else {
                    None
                }
            },
        }
    }
}


impl<T: Wire, const N: usize> SizedEncrypted<T, N> {
    /// The same ciphertext and nonce as a length-carrying envelope: both
    /// decrypt to exactly the same payloads.
    pub fn into_stream(self) -> (r: Encrypted<T>)
        ensures
            r.data@ == self.data@,
            r.nonce == self.nonce,
            forall|k: EncKey, t: T| #[trigger] r.decrypts_to(k, t) <==> self.decrypts_to(k, t),
    {
        let data = crate::wire::copy_range(vstd::array::array_as_slice(&self.data), 0, N);
        proof {
            assert(data@ =~= self.data@);
        }
        Encrypted { data, nonce: self.nonce, marker: core::marker::PhantomData }
    }
}

impl<T: Wire, const N: usize> Wire for SizedEncrypted<T, N> {
    open spec fn veq(&self, other: &Self) -> bool {
        *self == *other
    }

    open spec fn wire(&self) -> Seq<u8> {
        self.data@ + self.nonce.bytes@
    }

    open spec fn wf(&self) -> bool {
        true
    }

    fn encode(&self, out: &mut Vec<u8>) {
        encode_array(&self.data, out);
        encode_array(&self.nonce.bytes, out);
        assert(out@ =~= old(out)@ + self.wire());
    }

    fn decode(buf: &[u8], pos: usize) -> (r: Option<(Self, usize)>)
        ensures
            forall|v: Self|
                #![trigger v.wire()]
                v.wf() && prefix_of(buf@, pos as int, v.wire()) ==> r == Some(
                    (v, (pos + v.wire().len()) as usize),
                ),
    {
        proof {
            assert forall|v: SizedEncrypted<T, N>| (v.wf() && prefix_of(
                buf@,
                pos as int,
                v.wire(),
            )) implies pos + N + 12 <= buf@.len() && buf@.subrange(pos as int, pos + N) == v.data@
                && (v.nonce.wf() && prefix_of(buf@, pos + N, v.nonce.wire())) by {
                lemma_concat_split(buf@, pos as int, v.data@, v.nonce.bytes@);
            }
        }
        match decode_array::<N>(buf, pos) {
            None => None,
            Some((data, p1)) => {
                match EncNonce::decode(buf, p1) {
                    None => None,
                    Some((nonce, p2)) => {
                        let r = SizedEncrypted { data, nonce, marker: core::marker::PhantomData };
                        proof {
                            assert(buf@.subrange(pos as int, p2 as int) =~= buf@.subrange(
                                pos as int,
                                p1 as int,
                            ) + buf@.subrange(p1 as int, p2 as int));
                            assert forall|v: SizedEncrypted<T, N>| (v.wf() && prefix_of(
                                buf@,
                                pos as int,
                                v.wire(),
                            )) implies Some((r, p2)) == Some(
                                (v, (pos as int + v.wire().len()) as usize),
                            ) by {
                                assert(v.data =~= data);
                                assert(v.nonce.bytes =~= nonce.bytes);
                                assert(v.marker == r.marker);
                            }
                        }
                        Some((r, p2))
                    },
                }
            },
        }
    }
}

} // verus!
