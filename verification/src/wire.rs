use vstd::prelude::*;

verus! {

/// A type with a deterministic little-endian serialization.
///
/// `wire` is the mathematical byte string of a value; `encode` appends
/// exactly those bytes. `decode` is sound (whatever it accepts
/// re-serializes to exactly the bytes it consumed) and complete (wherever
/// the serialization of a well-formed value stands, it accepts, consumes
/// exactly those bytes, and returns a value with that serialization), so
/// every well-formed value round-trips through the codec.
pub trait Wire: Sized {
    /// The serialized bytes of the value.
    spec fn wire(&self) -> Seq<u8>;

    /// The values the codec can represent (length bounds and the like).
    spec fn wf(&self) -> bool;

    /// Equality of everything the codec carries: structural equality,
    /// with variable-length contents compared element by element. For
    /// types without heap-backed fields this is equality itself.
    spec fn veq(&self, other: &Self) -> bool;

    fn encode(&self, out: &mut Vec<u8>)
        requires
            self.wf(),
        ensures
            final(out)@ == old(out)@ + self.wire(),
    ;

    fn decode(buf: &[u8], pos: usize) -> (r: Option<(Self, usize)>)
        requires
            pos <= buf@.len(),
        ensures
            (match r {
                Some((v, p)) => {
                    &&& pos <= p <= buf@.len()
                    &&& v.wf()
                    &&& buf@.subrange(pos as int, p as int) == v.wire()
                },
                None => true,
            }),
            forall|v: Self|
                #![trigger v.wire()]
                v.wf() && prefix_of(buf@, pos as int, v.wire()) ==> {
                    &&& r is Some
                    &&& r.unwrap().1 == pos + v.wire().len()
                    &&& r.unwrap().0.wire() == v.wire()
                    &&& v.veq(&r.unwrap().0)
                },
    ;
}

/// The bytes `w` stand in `buf` at offset `pos`.
pub open spec fn prefix_of(buf: Seq<u8>, pos: int, w: Seq<u8>) -> bool {
    &&& 0 <= pos
    &&& pos + w.len() <= buf.len()
    &&& buf.subrange(pos, pos + w.len()) == w
}

/// Splitting a subrange known to hold a concatenation.
pub proof fn lemma_concat_split(s: Seq<u8>, pos: int, a: Seq<u8>, b: Seq<u8>)
    requires
        0 <= pos,
        pos + a.len() + b.len() <= s.len(),
        s.subrange(pos, pos + a.len() + b.len()) == a + b,
    ensures
        s.subrange(pos, pos + a.len()) == a,
        s.subrange(pos + a.len(), pos + a.len() + b.len()) == b,
{
    let ab = a + b;
    assert(s.subrange(pos, pos + a.len()) =~= a) by {
        assert forall|i: int| 0 <= i < a.len() implies s.subrange(pos, pos + a.len())[i] == a[i] by {
            assert(s.subrange(pos, pos + ab.len())[i] == ab[i]);
        }
    }
    assert(s.subrange(pos + a.len(), pos + a.len() + b.len()) =~= b) by {
        assert forall|i: int| 0 <= i < b.len() implies s.subrange(
            pos + a.len(),
            pos + a.len() + b.len(),
        )[i] == b[i] by {
            assert(s.subrange(pos, pos + ab.len())[a.len() + i] == ab[a.len() + i]);
        }
    }
}

impl Wire for u8 {
    open spec fn veq(&self, other: &Self) -> bool {
        *self == *other
    }

    open spec fn wire(&self) -> Seq<u8> {
        seq![*self]
    }

    open spec fn wf(&self) -> bool {
        true
    }

    fn encode(&self, out: &mut Vec<u8>) {
        out.push(*self);
        assert(out@ =~= old(out)@ + self.wire());
    }

    fn decode(buf: &[u8], pos: usize) -> (r: Option<(Self, usize)>)
        ensures
            forall|v: Self|
                #![trigger v.wire()]
                v.wf() && prefix_of(buf@, pos as int, v.wire()) ==> r == Some(
                    (v, (pos + v.wire().len()) as usize),
                ),
    {
        if pos < buf.len() {
            let b = buf[pos];
            proof {
                assert(buf@.subrange(pos as int, pos + 1) =~= seq![b]);
                assert forall|v: u8| (v.wf() && prefix_of(buf@, pos as int, v.wire())) implies Some(
                    (b, (pos + 1) as usize),
                ) == Some((v, (pos as int + v.wire().len()) as usize)) && v.veq(&b) by {
                    assert(buf@.subrange(pos as int, pos + 1)[0] == v);
                }
            }
            Some((b, pos + 1))
        } else {
            None
        }
    }
}

/// Little-endian bytes of a 16-bit value.
pub open spec fn u16_le(x: u16) -> Seq<u8> {
    seq![(x % 256) as u8, (x / 256) as u8]
}

impl Wire for u16 {
    open spec fn veq(&self, other: &Self) -> bool {
        *self == *other
    }

    open spec fn wire(&self) -> Seq<u8> {
        u16_le(*self)
    }

    open spec fn wf(&self) -> bool {
        true
    }

    fn encode(&self, out: &mut Vec<u8>) {
        let x = *self;
        out.push((x % 256) as u8);
        out.push((x / 256) as u8);
        assert(out@ =~= old(out)@ + self.wire());
    }

    fn decode(buf: &[u8], pos: usize) -> (r: Option<(Self, usize)>)
        ensures
            forall|v: Self|
                #![trigger v.wire()]
                v.wf() && prefix_of(buf@, pos as int, v.wire()) ==> r == Some(
                    (v, (pos + v.wire().len()) as usize),
                ),
    {
        if buf.len() - pos >= 2 {
            let b0 = buf[pos];
            let b1 = buf[pos + 1];
            let v: u16 = (b0 as u16) + 256 * (b1 as u16);
            proof {
                let w = buf@.subrange(pos as int, pos + 2);
                assert(w[0] == b0 && w[1] == b1);
                assert(v % 256 == b0 && v / 256 == b1) by (nonlinear_arith)
                    requires
                        v == b0 + 256 * b1,
                        b0 < 256,
                        b1 < 256,
                ;
                assert(w =~= v.wire());
                assert forall|u: u16| (u.wf() && prefix_of(buf@, pos as int, u.wire())) implies Some(
                    (v, (pos + 2) as usize),
                ) == Some((u, (pos as int + u.wire().len()) as usize)) by {
                    let wu = buf@.subrange(pos as int, pos + 2);
                    assert(wu[0] == u % 256 && wu[1] == u / 256);
                    assert(u == u % 256 + 256 * (u / 256)) by (nonlinear_arith);
                }
            }
            Some((v, pos + 2))
        } else {
            None
        }
    }
}

/// Little-endian bytes of a 32-bit value: low half then high half.
#[verifier::opaque]
pub open spec fn u32_le(x: u32) -> Seq<u8> {
    u16_le((x % 0x10000) as u16) + u16_le((x / 0x10000) as u16)
}

impl Wire for u32 {
    open spec fn veq(&self, other: &Self) -> bool {
        *self == *other
    }

    open spec fn wire(&self) -> Seq<u8> {
        u32_le(*self)
    }

    open spec fn wf(&self) -> bool {
        true
    }

    fn encode(&self, out: &mut Vec<u8>) {
        proof {
            reveal(u32_le);
        }
        let lo: u16 = (*self % 0x10000) as u16;
        let hi: u16 = (*self / 0x10000) as u16;
        lo.encode(out);
        hi.encode(out);
        assert(out@ =~= old(out)@ + self.wire());
    }

    fn decode(buf: &[u8], pos: usize) -> (r: Option<(Self, usize)>)
        ensures
            forall|v: Self|
                #![trigger v.wire()]
                v.wf() && prefix_of(buf@, pos as int, v.wire()) ==> r == Some(
                    (v, (pos + v.wire().len()) as usize),
                ),
    {
        proof {
            reveal(u32_le);
        }
        match u16::decode(buf, pos) {
            None => {
                proof {
                    assert forall|v: u32| (v.wf() && prefix_of(buf@, pos as int, v.wire())) implies false by {
                        let vlo = (v % 0x10000) as u16;
                        let vhi = (v / 0x10000) as u16;
                        lemma_concat_split(buf@, pos as int, u16_le(vlo), u16_le(vhi));
                        assert((vlo.wf() && prefix_of(buf@, pos as int, vlo.wire())));
                    }
                }
                None
            },
            Some((lo, p1)) => match u16::decode(buf, p1) {
                None => {
                    proof {
                        assert forall|v: u32| (v.wf() && prefix_of(buf@, pos as int, v.wire())) implies false by {
                            let vlo = (v % 0x10000) as u16;
                            let vhi = (v / 0x10000) as u16;
                            lemma_concat_split(buf@, pos as int, u16_le(vlo), u16_le(vhi));
                            assert((vlo.wf() && prefix_of(buf@, pos as int, vlo.wire())));
                            assert((vhi.wf() && prefix_of(buf@, p1 as int, vhi.wire())));
                        }
                    }
                    None
                },
                Some((hi, p2)) => {
                    let v: u32 = (lo as u32) + 0x10000 * (hi as u32);
                    proof {
                        assert(v % 0x10000 == lo && v / 0x10000 == hi) by (nonlinear_arith)
                            requires
                                v == lo + 0x10000 * hi,
                                lo < 0x10000,
                                hi < 0x10000,
                        ;
                        assert(buf@.subrange(pos as int, p2 as int) =~= buf@.subrange(
                            pos as int,
                            p1 as int,
                        ) + buf@.subrange(p1 as int, p2 as int));
                        assert forall|u: u32| (u.wf() && prefix_of(buf@, pos as int, u.wire())) implies Some(
                            (v, p2),
                        ) == Some((u, (pos as int + u.wire().len()) as usize)) by {
                            let ulo = (u % 0x10000) as u16;
                            let uhi = (u / 0x10000) as u16;
                            lemma_concat_split(buf@, pos as int, u16_le(ulo), u16_le(uhi));
                            assert((ulo.wf() && prefix_of(buf@, pos as int, ulo.wire())));
                            assert((uhi.wf() && prefix_of(buf@, p1 as int, uhi.wire())));
                            assert(u == u % 0x10000 + 0x10000 * (u / 0x10000)) by (nonlinear_arith);
                        }
                    }
                    Some((v, p2))
                },
            },
        }
    }
}

/// Little-endian bytes of a 64-bit value: low half then high half.
#[verifier::opaque]
pub open spec fn u64_le(x: u64) -> Seq<u8> {
    u32_le((x % 0x1_0000_0000) as u32) + u32_le((x / 0x1_0000_0000) as u32)
}

impl Wire for u64 {
    open spec fn veq(&self, other: &Self) -> bool {
        *self == *other
    }

    open spec fn wire(&self) -> Seq<u8> {
        u64_le(*self)
    }

    open spec fn wf(&self) -> bool {
        true
    }

    fn encode(&self, out: &mut Vec<u8>) {
        proof {
            reveal(u64_le);
        }
        let lo: u32 = (*self % 0x1_0000_0000) as u32;
        let hi: u32 = (*self / 0x1_0000_0000) as u32;
        lo.encode(out);
        hi.encode(out);
        assert(out@ =~= old(out)@ + self.wire());
    }

    fn decode(buf: &[u8], pos: usize) -> (r: Option<(Self, usize)>)
        ensures
            forall|v: Self|
                #![trigger v.wire()]
                v.wf() && prefix_of(buf@, pos as int, v.wire()) ==> r == Some(
                    (v, (pos + v.wire().len()) as usize),
                ),
    {
        proof {
            reveal(u64_le);
        }
        match u32::decode(buf, pos) {
            None => {
                proof {
                    assert forall|v: u64| (v.wf() && prefix_of(buf@, pos as int, v.wire())) implies false by {
                        let vlo = (v % 0x1_0000_0000) as u32;
                        let vhi = (v / 0x1_0000_0000) as u32;
                        lemma_concat_split(buf@, pos as int, u32_le(vlo), u32_le(vhi));
                        assert((vlo.wf() && prefix_of(buf@, pos as int, vlo.wire())));
                    }
                }
                None
            },
            Some((lo, p1)) => match u32::decode(buf, p1) {
                None => {
                    proof {
                        assert forall|v: u64| (v.wf() && prefix_of(buf@, pos as int, v.wire())) implies false by {
                            let vlo = (v % 0x1_0000_0000) as u32;
                            let vhi = (v / 0x1_0000_0000) as u32;
                            lemma_concat_split(buf@, pos as int, u32_le(vlo), u32_le(vhi));
                            assert((vlo.wf() && prefix_of(buf@, pos as int, vlo.wire())));
                            assert((vhi.wf() && prefix_of(buf@, p1 as int, vhi.wire())));
                        }
                    }
                    None
                },
                Some((hi, p2)) => {
                    let v: u64 = (lo as u64) + 0x1_0000_0000 * (hi as u64);
                    proof {
                        assert(v % 0x1_0000_0000 == lo && v / 0x1_0000_0000 == hi)
                            by (nonlinear_arith)
                            requires
                                v == lo + 0x1_0000_0000 * hi,
                                lo < 0x1_0000_0000,
                                hi < 0x1_0000_0000,
                        ;
                        assert(buf@.subrange(pos as int, p2 as int) =~= buf@.subrange(
                            pos as int,
                            p1 as int,
                        ) + buf@.subrange(p1 as int, p2 as int));
                        assert forall|u: u64| (u.wf() && prefix_of(buf@, pos as int, u.wire())) implies Some(
                            (v, p2),
                        ) == Some((u, (pos as int + u.wire().len()) as usize)) by {
                            let ulo = (u % 0x1_0000_0000) as u32;
                            let uhi = (u / 0x1_0000_0000) as u32;
                            lemma_concat_split(buf@, pos as int, u32_le(ulo), u32_le(uhi));
                            assert((ulo.wf() && prefix_of(buf@, pos as int, ulo.wire())));
                            assert((uhi.wf() && prefix_of(buf@, p1 as int, uhi.wire())));
                            assert(u == u % 0x1_0000_0000 + 0x1_0000_0000 * (u / 0x1_0000_0000))
                                by (nonlinear_arith);
                        }
                    }
                    Some((v, p2))
                },
            },
        }
    }
}

/// Little-endian bytes of a 128-bit value: low half then high half.
#[verifier::opaque]
pub open spec fn u128_le(x: u128) -> Seq<u8> {
    u64_le((x % 0x1_0000_0000_0000_0000) as u64) + u64_le((x / 0x1_0000_0000_0000_0000) as u64)
}

impl Wire for u128 {
    open spec fn veq(&self, other: &Self) -> bool {
        *self == *other
    }

    open spec fn wire(&self) -> Seq<u8> {
        u128_le(*self)
    }

    open spec fn wf(&self) -> bool {
        true
    }

    fn encode(&self, out: &mut Vec<u8>) {
        proof {
            reveal(u128_le);
        }
        let lo: u64 = (*self % 0x1_0000_0000_0000_0000) as u64;
        let hi: u64 = (*self / 0x1_0000_0000_0000_0000) as u64;
        lo.encode(out);
        hi.encode(out);
        assert(out@ =~= old(out)@ + self.wire());
    }

    fn decode(buf: &[u8], pos: usize) -> (r: Option<(Self, usize)>)
        ensures
            forall|v: Self|
                #![trigger v.wire()]
                v.wf() && prefix_of(buf@, pos as int, v.wire()) ==> r == Some(
                    (v, (pos + v.wire().len()) as usize),
                ),
    {
        proof {
            reveal(u128_le);
        }
        match u64::decode(buf, pos) {
            None => {
                proof {
                    assert forall|v: u128| (v.wf() && prefix_of(buf@, pos as int, v.wire())) implies false by {
                        let vlo = (v % 0x1_0000_0000_0000_0000) as u64;
                        let vhi = (v / 0x1_0000_0000_0000_0000) as u64;
                        lemma_concat_split(buf@, pos as int, u64_le(vlo), u64_le(vhi));
                        assert((vlo.wf() && prefix_of(buf@, pos as int, vlo.wire())));
                    }
                }
                None
            },
            Some((lo, p1)) => match u64::decode(buf, p1) {
                None => {
                    proof {
                        assert forall|v: u128| (v.wf() && prefix_of(buf@, pos as int, v.wire())) implies false by {
                            let vlo = (v % 0x1_0000_0000_0000_0000) as u64;
                            let vhi = (v / 0x1_0000_0000_0000_0000) as u64;
                            lemma_concat_split(buf@, pos as int, u64_le(vlo), u64_le(vhi));
                            assert((vlo.wf() && prefix_of(buf@, pos as int, vlo.wire())));
                            assert((vhi.wf() && prefix_of(buf@, p1 as int, vhi.wire())));
                        }
                    }
                    None
                },
                Some((hi, p2)) => {
                    let v: u128 = (lo as u128) + 0x1_0000_0000_0000_0000 * (hi as u128);
                    proof {
                        assert(v % 0x1_0000_0000_0000_0000 == lo && v / 0x1_0000_0000_0000_0000
                            == hi) by (nonlinear_arith)
                            requires
                                v == lo + 0x1_0000_0000_0000_0000 * hi,
                                lo < 0x1_0000_0000_0000_0000,
                                hi < 0x1_0000_0000_0000_0000,
                        ;
                        assert(buf@.subrange(pos as int, p2 as int) =~= buf@.subrange(
                            pos as int,
                            p1 as int,
                        ) + buf@.subrange(p1 as int, p2 as int));
                        assert forall|u: u128| (u.wf() && prefix_of(buf@, pos as int, u.wire())) implies Some(
                            (v, p2),
                        ) == Some((u, (pos as int + u.wire().len()) as usize)) by {
                            let ulo = (u % 0x1_0000_0000_0000_0000) as u64;
                            let uhi = (u / 0x1_0000_0000_0000_0000) as u64;
                            lemma_concat_split(buf@, pos as int, u64_le(ulo), u64_le(uhi));
                            assert((ulo.wf() && prefix_of(buf@, pos as int, ulo.wire())));
                            assert((uhi.wf() && prefix_of(buf@, p1 as int, uhi.wire())));
                            assert(u == u % 0x1_0000_0000_0000_0000 + 0x1_0000_0000_0000_0000 * (u
                                / 0x1_0000_0000_0000_0000)) by (nonlinear_arith);
                        }
                    }
                    Some((v, p2))
                },
            },
        }
    }
}

/// A 16-bit value serializes to two bytes.
pub broadcast proof fn lemma_u16_le_len(x: u16)
    ensures
        (#[trigger] u16_le(x)).len() == 2,
{
}

/// A 32-bit value serializes to four bytes.
pub broadcast proof fn lemma_u32_le_len(x: u32)
    ensures
        (#[trigger] u32_le(x)).len() == 4,
{
    reveal(u32_le);
}

/// A 64-bit value serializes to eight bytes.
pub broadcast proof fn lemma_u64_le_len(x: u64)
    ensures
        (#[trigger] u64_le(x)).len() == 8,
{
    reveal(u64_le);
    lemma_u32_le_len((x % 0x1_0000_0000) as u32);
    lemma_u32_le_len((x / 0x1_0000_0000) as u32);
}

/// A 128-bit value serializes to sixteen bytes.
pub broadcast proof fn lemma_u128_le_len(x: u128)
    ensures
        (#[trigger] u128_le(x)).len() == 16,
{
    reveal(u128_le);
    lemma_u64_le_len((x % 0x1_0000_0000_0000_0000) as u64);
    lemma_u64_le_len((x / 0x1_0000_0000_0000_0000) as u64);
}

/// Appends the bytes of a fixed-size array.
pub fn encode_array<const N: usize>(a: &[u8; N], out: &mut Vec<u8>)
    ensures
        final(out)@ == old(out)@ + a@,
{
    let mut i: usize = 0;
    while i < N
        invariant
            i <= N,
            out@ == old(out)@ + a@.take(i as int),
        decreases N - i,
    {
        out.push(a[i]);
        assert(out@ =~= old(out)@ + a@.take(i + 1 as int));
        i += 1;
    }
    assert(a@.take(N as int) =~= a@);
}

/// Reads a fixed-size array: exactly the next `N` bytes, wherever they fit.
#[verifier::loop_isolation(false)]
pub fn decode_array<const N: usize>(buf: &[u8], pos: usize) -> (r: Option<([u8; N], usize)>)
    requires
        pos <= buf@.len(),
    ensures
        (match r {
            Some((a, p)) => p == pos + N && pos + N <= buf@.len() && a@ == buf@.subrange(
                pos as int,
                pos + N,
            ),
            None => pos + N > buf@.len(),
        }),
{
    if buf.len() - pos >= N {
        let mut a = [0u8; N];
        let mut i: usize = 0;
        while i < N
            invariant
                i <= N,
                pos + N <= buf@.len(),
                a@.len() == N,
                forall|j: int| 0 <= j < i ==> a@[j] == buf@[pos + j],
            decreases N - i,
        {
            a[i] = buf[pos + i];
            i += 1;
        }
        assert(a@ =~= buf@.subrange(pos as int, pos + N));
        Some((a, pos + N))
    } else {
        None
    }
}

/// Appends a 32-bit length prefix and the bytes themselves.
pub fn encode_var_bytes(data: &[u8], out: &mut Vec<u8>)
    requires
        data@.len() <= 0xFFFF_FFFF,
    ensures
        final(out)@ == old(out)@ + u32_le(data@.len() as u32) + data@,
{
    proof {
        reveal(u32_le);
    }
    let n: u32 = data.len() as u32;
    n.encode(out);
    let ghost mid = out@;
    let mut i: usize = 0;
    while i < data.len()
        invariant
            i <= data@.len(),
            out@ == mid + data@.take(i as int),
            mid == old(out)@ + u32_le(data@.len() as u32),
        decreases data@.len() - i,
    {
        out.push(data[i]);
        assert(out@ =~= mid + data@.take(i + 1 as int));
        i += 1;
    }
    proof {
        assert(data@.take(data@.len() as int) =~= data@);
        assert(out@ =~= old(out)@ + u32_le(data@.len() as u32) + data@);
    }
}

/// The bytes of `buf` from `start`, `len` of them.
pub fn copy_range(buf: &[u8], start: usize, len: usize) -> (d: Vec<u8>)
    requires
        start + len <= buf@.len(),
    ensures
        d@ == buf@.subrange(start as int, start + len),
{
    let total = buf.len();
    let mut d: Vec<u8> = Vec::new();
    let mut i: usize = 0;
    #[verifier::loop_isolation(false)]
    while i < len
        invariant
            i <= len,
            d@ =~= buf@.subrange(start as int, start + i),
        decreases len - i,
    {
        assert(start + i < total);
        d.push(buf[start + i]);
        assert(d@ =~= buf@.subrange(start as int, start + i + 1));
        i += 1;
    }
    d
}

/// Reads a 32-bit length prefix and that many bytes.
pub fn decode_var_bytes(buf: &[u8], pos: usize) -> (r: Option<(Vec<u8>, usize)>)
    requires
        pos <= buf@.len(),
    ensures
        (match r {
            Some((d, p)) => {
                &&& pos + 4 + d@.len() == p
                &&& p <= buf@.len()
                &&& d@.len() <= 0xFFFF_FFFF
                &&& buf@.subrange(pos as int, p as int) == u32_le(d@.len() as u32) + d@
            },
            None => true,
        }),
        forall|w: Seq<u8>|
            #![trigger u32_le(w.len() as u32)]
            w.len() <= 0xFFFF_FFFF && prefix_of(buf@, pos as int, u32_le(w.len() as u32) + w)
                ==> (match r {
                Some((d, p)) => d@ == w && p == pos + 4 + w.len(),
                None => false,
            }),
{
    proof {
        reveal(u32_le);
    }
    let cr = u32::decode(buf, pos);
    match cr {
        None => {
            proof {
                assert forall|w: Seq<u8>| !(w.len() <= 0xFFFF_FFFF && prefix_of(
                    buf@,
                    pos as int,
                    u32_le(w.len() as u32) + w,
                )) by {
                    if w.len() <= 0xFFFF_FFFF && prefix_of(
                        buf@,
                        pos as int,
                        u32_le(w.len() as u32) + w,
                    ) {
                        lemma_concat_split(buf@, pos as int, u32_le(w.len() as u32), w);
                        assert((w.len() as u32).wf() && prefix_of(
                            buf@,
                            pos as int,
                            (w.len() as u32).wire(),
                        ));
                    }
                }
            }
            None
        },
        Some((count, p1)) => {
            if count as usize > buf.len() - p1 {
                proof {
                    assert forall|w: Seq<u8>| !(w.len() <= 0xFFFF_FFFF && prefix_of(
                        buf@,
                        pos as int,
                        u32_le(w.len() as u32) + w,
                    )) by {
                        if w.len() <= 0xFFFF_FFFF && prefix_of(
                            buf@,
                            pos as int,
                            u32_le(w.len() as u32) + w,
                        ) {
                            lemma_concat_split(buf@, pos as int, u32_le(w.len() as u32), w);
                            assert((w.len() as u32).wf() && prefix_of(
                                buf@,
                                pos as int,
                                (w.len() as u32).wire(),
                            ));
                        }
                    }
                }
                return None;
            }
            let len = count as usize;
            let d = copy_range(buf, p1, len);
            proof {
                assert(buf@.subrange(pos as int, (p1 + len) as int) =~= buf@.subrange(
                    pos as int,
                    p1 as int,
                ) + buf@.subrange(p1 as int, (p1 + len) as int));
                assert forall|w: Seq<u8>|
                    w.len() <= 0xFFFF_FFFF && prefix_of(
                        buf@,
                        pos as int,
                        u32_le(w.len() as u32) + w,
                    ) implies d@ == w && p1 + len == pos + 4 + w.len() by {
                    lemma_concat_split(buf@, pos as int, u32_le(w.len() as u32), w);
                    assert((w.len() as u32).wf() && prefix_of(
                        buf@,
                        pos as int,
                        (w.len() as u32).wire(),
                    ));
                    assert(buf@.subrange(p1 as int, p1 + w.len()) == w);
                    assert(d@ =~= w);
                }
            }
            Some((d, p1 + len))
        },
    }
}

/// The bytes of a vector as a fixed-size array.
pub fn vec_to_array<const N: usize>(v: &Vec<u8>) -> (a: [u8; N])
    requires
        v@.len() == N,
    ensures
        a@ == v@,
{
    let mut a = [0u8; N];
    let mut i: usize = 0;
    #[verifier::loop_isolation(false)]
    while i < N
        invariant
            i <= N,
            a@.len() == N,
            forall|j: int| 0 <= j < i ==> a@[j] == v@[j],
        decreases N - i,
    {
        a[i] = v[i];
        i += 1;
    }
    proof {
        assert(a@ =~= v@);
    }
    a
}

/// The concatenation of the serializations of a sequence of values.
pub open spec fn wire_elems<T: Wire>(s: Seq<T>) -> Seq<u8>
    decreases s.len(),
{
    if s.len() == 0 {
        Seq::empty()
    } else {
        s.first().wire() + wire_elems(s.drop_first())
    }
}

/// Every element of the sequence is well formed.
pub open spec fn elems_wf<T: Wire>(s: Seq<T>) -> bool {
    forall|i: int| 0 <= i < s.len() ==> #[trigger] s[i].wf()
}

/// The serialization of a sequence splits at any index.
pub proof fn lemma_wire_elems_split<T: Wire>(s: Seq<T>, i: int)
    requires
        0 <= i <= s.len(),
    ensures
        wire_elems(s) == wire_elems(s.take(i)) + wire_elems(s.skip(i)),
    decreases i,
{
    if i == 0 {
        assert(s.take(0) =~= Seq::<T>::empty());
        assert(s.skip(0) =~= s);
        assert(wire_elems(s.take(0)) + wire_elems(s) =~= wire_elems(s));
    } else {
        let d = s.drop_first();
        lemma_wire_elems_split(d, i - 1);
        assert(s.take(i).drop_first() =~= d.take(i - 1));
        assert(s.take(i).first() == s.first());
        assert(s.take(i).len() != 0);
        assert(wire_elems(s.take(i)) == s.first().wire() + wire_elems(d.take(i - 1)));
        assert(s.skip(i) =~= d.skip(i - 1));
        assert(wire_elems(s) == s.first().wire() + (wire_elems(d.take(i - 1)) + wire_elems(d.skip(i
            - 1))));
        assert(s.first().wire() + (wire_elems(d.take(i - 1)) + wire_elems(d.skip(i - 1))) =~= (
        s.first().wire() + wire_elems(d.take(i - 1))) + wire_elems(d.skip(i - 1)));
    }
}

/// One more element extends the serialization by that element's bytes.
pub proof fn lemma_wire_elems_take_succ<T: Wire>(s: Seq<T>, i: int)
    requires
        0 <= i < s.len(),
    ensures
        wire_elems(s.take(i + 1)) == wire_elems(s.take(i)) + s[i].wire(),
{
    let t = s.take(i + 1);
    lemma_wire_elems_split(t, i);
    assert(t.take(i) =~= s.take(i));
    assert(t.skip(i) =~= seq![s[i]]);
    let single = seq![s[i]];
    assert(single.len() == 1 && single.first() == s[i]);
    assert(single.drop_first() =~= Seq::<T>::empty());
    assert(wire_elems(single.drop_first()) == Seq::<u8>::empty());
    assert(wire_elems(single) == s[i].wire() + Seq::<u8>::empty());
    assert(s[i].wire() + Seq::<u8>::empty() =~= s[i].wire());
}

/// Appending an element appends its bytes.
pub proof fn lemma_wire_elems_push<T: Wire>(s: Seq<T>, x: T)
    ensures
        wire_elems(s.push(x)) == wire_elems(s) + x.wire(),
{
    let p = s.push(x);
    lemma_wire_elems_take_succ(p, s.len() as int);
    assert(p.take(s.len() as int) =~= s);
    assert(p.take(s.len() as int + 1) =~= p);
}

impl<T: Wire> Wire for Vec<T> {
    open spec fn veq(&self, other: &Self) -> bool {
        self@.len() == other@.len() && (forall|i: int|
            0 <= i < self@.len() ==> #[trigger] self@[i].veq(&other@[i]))
    }

    /// A 32-bit count, then each element in order.
    open spec fn wire(&self) -> Seq<u8> {
        u32_le(self@.len() as u32) + wire_elems(self@)
    }

    open spec fn wf(&self) -> bool {
        self@.len() <= 0xFFFF_FFFF && elems_wf(self@)
    }

    #[verifier::loop_isolation(false)]
    fn encode(&self, out: &mut Vec<u8>) {
        proof {
            reveal(u32_le);
        }
        let n: u32 = self.len() as u32;
        n.encode(out);
        let ghost mid = out@;
        let mut i: usize = 0;
        while i < self.len()
            invariant
                i <= self@.len(),
                out@ == mid + wire_elems(self@.take(i as int)),
            decreases self@.len() - i,
        {
            proof {
                lemma_wire_elems_take_succ(self@, i as int);
            }
            self[i].encode(out);
            i += 1;
        }
        proof {
            assert(self@.take(self@.len() as int) =~= self@);
            assert(out@ =~= old(out)@ + self.wire());
        }
    }

    fn decode(buf: &[u8], pos: usize) -> (r: Option<(Self, usize)>) {
        proof {
            reveal(u32_le);
            assert forall|v: Vec<T>| (v.wf() && prefix_of(buf@, pos as int, v.wire())) implies ((
            v@.len() as u32).wf() && prefix_of(buf@, pos as int, (v@.len() as u32).wire()))
                && prefix_of(buf@, pos as int + 4, wire_elems(v@)) by {
                lemma_concat_split(buf@, pos as int, u32_le(v@.len() as u32), wire_elems(v@));
            }
        }
        let cr = u32::decode(buf, pos);
        match cr {
            None => None,
            Some((count, p1)) => {
                let mut res: Vec<T> = Vec::new();
                let mut cur: usize = p1;
                let mut i: u32 = 0;
                proof {
                    assert(buf@.subrange(p1 as int, p1 as int) =~= wire_elems(res@));
                    assert forall|v: Vec<T>|
                        #![trigger v.wire()]
                        (v.wf() && prefix_of(buf@, pos as int, v.wire())) implies {
                        &&& count == v@.len() as u32
                        &&& prefix_of(buf@, p1 as int, wire_elems(v@))
                        &&& pos + v.wire().len() == p1 + wire_elems(v@).len()
                        &&& wire_elems(res@) == wire_elems(v@.take(0))
                    } by {
                        assert(wire_elems(v@.take(0)) =~= Seq::<u8>::empty());
                        assert(wire_elems(res@) =~= Seq::<u8>::empty());
                    }
                }
                loop
                    invariant
                        i <= count,
                        res@.len() == i,
                        elems_wf(res@),
                        pos <= p1 <= cur <= buf@.len(),
                        buf@.subrange(p1 as int, cur as int) == wire_elems(res@),
                        forall|v: Vec<T>|
                            #![trigger v.wire()]
                            (v.wf() && prefix_of(buf@, pos as int, v.wire())) ==> {
                                &&& count == v@.len() as u32
                                &&& prefix_of(buf@, p1 as int, wire_elems(v@))
                                &&& pos + v.wire().len() == p1 + wire_elems(v@).len()
                                &&& i <= v@.len()
                                &&& wire_elems(res@) == wire_elems(v@.take(i as int))
                                &&& cur == p1 + wire_elems(v@.take(i as int)).len()
                                &&& (forall|j: int|
                                    0 <= j < i ==> #[trigger] v@[j].veq(&res@[j]))
                            },
                    ensures
                        i == count,
                        res@.len() == count,
                        elems_wf(res@),
                        pos <= p1 <= cur <= buf@.len(),
                        buf@.subrange(p1 as int, cur as int) == wire_elems(res@),
                        forall|v: Vec<T>|
                            #![trigger v.wire()]
                            (v.wf() && prefix_of(buf@, pos as int, v.wire())) ==> {
                                &&& wire_elems(res@) == wire_elems(v@)
                                &&& cur == pos + v.wire().len()
                                &&& v@.len() == res@.len()
                                &&& (forall|j: int|
                                    0 <= j < res@.len() ==> #[trigger] v@[j].veq(&res@[j]))
                            },
                    decreases count - i,
                {
                    if i >= count {
                        proof {
                            assert forall|v: Vec<T>| (v.wf() && prefix_of(
                                buf@,
                                pos as int,
                                v.wire(),
                            )) implies {
                                &&& wire_elems(res@) == wire_elems(v@)
                                &&& cur == pos + v.wire().len()
                                &&& v@.len() == res@.len()
                                &&& (forall|j: int|
                                    0 <= j < res@.len() ==> #[trigger] v@[j].veq(&res@[j]))
                            } by {
                                assert(count == v@.len() as u32);
                                assert(v@.take(i as int) =~= v@);
                            }
                        }
                        break ;
                    }
                    proof {
                        assert forall|v: Vec<T>| (v.wf() && prefix_of(
                            buf@,
                            pos as int,
                            v.wire(),
                        )) implies (v@[i as int].wf() && prefix_of(
                            buf@,
                            cur as int,
                            v@[i as int].wire(),
                        )) by {
                            assert(count == v@.len() as u32);
                            lemma_wire_elems_split(v@, i as int);
                            assert(v@.skip(i as int).first() == v@[i as int]);
                            assert(v@.skip(i as int).drop_first() =~= v@.skip(i + 1));
                            assert(wire_elems(v@.skip(i as int)) == v@[i as int].wire()
                                + wire_elems(v@.skip(i + 1)));
                            lemma_concat_split(
                                buf@,
                                p1 as int,
                                wire_elems(v@.take(i as int)),
                                wire_elems(v@.skip(i as int)),
                            );
                            lemma_concat_split(
                                buf@,
                                cur as int,
                                v@[i as int].wire(),
                                wire_elems(v@.skip(i + 1)),
                            );
                            assert(v@[i as int].wf());
                        }
                    }
                    match T::decode(buf, cur) {
                        None => {
                            proof {
                                assert forall|v: Vec<T>| !(v.wf() && prefix_of(
                                    buf@,
                                    pos as int,
                                    v.wire(),
                                )) by {}
                            }
                            return None;
                        },
                        Some((x, np)) => {
                            proof {
                                lemma_wire_elems_push(res@, x);
                                assert(buf@.subrange(p1 as int, np as int) =~= buf@.subrange(
                                    p1 as int,
                                    cur as int,
                                ) + buf@.subrange(cur as int, np as int));
                                assert forall|v: Vec<T>| (v.wf() && prefix_of(
                                    buf@,
                                    pos as int,
                                    v.wire(),
                                )) implies {
                                    &&& i + 1 <= v@.len()
                                    &&& wire_elems(res@.push(x)) == wire_elems(v@.take(i + 1))
                                    &&& np == p1 + wire_elems(v@.take(i + 1)).len()
                                    &&& (forall|j: int|
                                        0 <= j < i + 1 ==> #[trigger] v@[j].veq(
                                            &res@.push(x)[j],
                                        ))
                                } by {
                                    assert(count == v@.len() as u32);
                                    lemma_wire_elems_take_succ(v@, i as int);
                                    assert(x.wire() == v@[i as int].wire());
                                    assert(v@[i as int].veq(&x));
                                    assert forall|j: int| 0 <= j < i + 1 implies #[trigger] v@[j].veq(
                                        &res@.push(x)[j],
                                    ) by {
                                        if j < i {
                                            assert(res@.push(x)[j] == res@[j]);
                                        } else {
                                            assert(res@.push(x)[j] == x);
                                        }
                                    }
                                }
                            }
                            res.push(x);
                            cur = np;
                            i += 1;
                        },
                    }
                }
                proof {
                    assert(buf@.subrange(pos as int, cur as int) =~= buf@.subrange(
                        pos as int,
                        p1 as int,
                    ) + buf@.subrange(p1 as int, cur as int));
                    assert(res@.len() as u32 == count);
                }
                Some((res, cur))
            },
        }
    }
}

} // verus!
