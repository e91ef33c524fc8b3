use crate::crypto::{
    blake3_hash, blake3_of, keyed_blake3_of, DetailHash, EncKey, FileHash, Mac, PubKexKey,
    PubSigKey,
};
use crate::envelope::{Macced, Signed, SizedEncrypted};
use crate::wire::{
    copy_range, decode_array, encode_array, lemma_concat_split, prefix_of, u32_le, u64_le, Wire,
};
use crate::FILE_CHUNK_SIZE;
use vstd::prelude::*;

verus! {

broadcast use crate::wire::lemma_u16_le_len, crate::wire::lemma_u32_le_len, crate::wire::lemma_u64_le_len, crate::wire::lemma_u128_le_len;

/// A 128-bit constant scoping one protocol instance; handshakes that
/// mismatch on it are dropped.
pub type ContestId = u128;

/// A problem's identifier inside one contest.
pub type ProblemId = u32;

/// Position of a message in the server's dense, zero-based queue order.
pub type QueueMessageId = u32;

/// The role a peer plays in a contest.
#[derive(Clone, Copy, PartialEq, Eq, Structural, Debug, Hash)]
pub enum Entity {
    Server,
    Worker,
    Participant,
    Spectator,
}

/// The tag byte of each role.
pub open spec fn entity_tag(v: Entity) -> u8 {
    match v {
        Entity::Server => 0,
        Entity::Worker => 1,
        Entity::Participant => 2,
        Entity::Spectator => 3,
    }
}

impl Wire for Entity {
    open spec fn veq(&self, other: &Self) -> bool {
        *self == *other
    }

    open spec fn wire(&self) -> Seq<u8> {
        seq![entity_tag(*self)]
    }

    open spec fn wf(&self) -> bool {
        true
    }

    fn encode(&self, out: &mut Vec<u8>) {
        let t: u8 = match self {
            Entity::Server => 0,
            Entity::Worker => 1,
            Entity::Participant => 2,
            Entity::Spectator => 3,
        };
        out.push(t);
        assert(out@ =~= old(out)@ + self.wire());
    }

    fn decode(buf: &[u8], pos: usize) -> (r: Option<(Self, usize)>)
        ensures
            forall|v: Self|
                #![trigger v.wire()]
                v.wf() && prefix_of(buf@, pos as int, v.wire()) ==> r == Some(
                    (v, (pos + v.wire().len()) as usize),
                ),
    {
        proof {
            assert forall|v: Entity| (v.wf() && prefix_of(buf@, pos as int, v.wire())) implies (
            entity_tag(v).wf() && prefix_of(buf@, pos as int, entity_tag(v).wire())) by {
                assert(entity_tag(v).wire() =~= seq![entity_tag(v)]);
            }
        }
        match u8::decode(buf, pos) {
            None => None,
            Some((t, p1)) => {
                let e = if t == 0 {
                    Entity::Server
                } else if t == 1 {
                    Entity::Worker
                } else if t == 2 {
                    Entity::Participant
                } else if t == 3 {
                    Entity::Spectator
                } else {
                    return None;
                };
                proof {
                    assert(buf@.subrange(pos as int, p1 as int) =~= seq![t]);
                    assert(e.wire() =~= seq![t]);
                }
                Some((e, p1))
            },
        }
    }
}

/// A point in time: whole seconds and the nanoseconds within the second,
/// both counted since the UNIX epoch.
#[derive(Clone, Copy, PartialEq, Eq, Structural, Debug)]
pub struct Timestamp {
    pub secs: u64,
    pub nanos: u32,
}

/// A timestamp as one count of nanoseconds since the epoch.
pub open spec fn ts_nanos(t: Timestamp) -> int {
    t.secs * 1_000_000_000 + t.nanos
}

/// How far behind the local clock a received timestamp may lie.
pub const TIMESTAMP_PAST_TOLERANCE_NANOS: u64 = 40_000_000_000;

/// How far ahead of the local clock a received timestamp may lie.
pub const TIMESTAMP_FUTURE_TOLERANCE_NANOS: u64 = 20_000_000_000;

/// A received timestamp is accepted against a local clock reading exactly
/// when it lies within forty seconds behind and twenty seconds ahead of it,
/// both bounds included.
pub open spec fn timestamp_valid_at(ts: Timestamp, now: Timestamp) -> bool {
    &&& ts_nanos(now) - TIMESTAMP_PAST_TOLERANCE_NANOS <= ts_nanos(ts)
    &&& ts_nanos(ts) <= ts_nanos(now) + TIMESTAMP_FUTURE_TOLERANCE_NANOS
}

/// Decides acceptance of a received timestamp against a given clock
/// reading: within the window of forty seconds back and twenty forward.
pub fn is_timestamp_valid_at(ts: Timestamp, now: Timestamp) -> (r: bool)
    ensures
        r == timestamp_valid_at(ts, now),
{
    let ts_total: u128 = (ts.secs as u128) * 1_000_000_000 + (ts.nanos as u128);
    let now_total: u128 = (now.secs as u128) * 1_000_000_000 + (now.nanos as u128);
    ts_total + (TIMESTAMP_PAST_TOLERANCE_NANOS as u128) >= now_total && ts_total <= now_total + (
    TIMESTAMP_FUTURE_TOLERANCE_NANOS as u128)
}

/// Relies on std::time::SystemTime::now: the clock reading, of which only
/// the nanosecond field's range is promised. Before the epoch it reads as
/// the epoch itself.
#[verifier::external_body]
pub fn now_timestamp() -> (r: Timestamp)
    ensures
        r.nanos < 1_000_000_000,
{
    let d = std::time::SystemTime::now()
        .duration_since(std::time::SystemTime::UNIX_EPOCH)
        .unwrap_or_default();
    Timestamp { secs: d.as_secs(), nanos: d.subsec_nanos() }
}

/// Decides acceptance of a received timestamp against the local clock.
/// The clock decides, so nothing exact is statable here: the exact window
/// logic, for a given clock reading, is `is_timestamp_valid_at`.
pub fn is_timestamp_valid(timestamp: Timestamp) -> bool {
    let now = now_timestamp();
    is_timestamp_valid_at(timestamp, now)
}


/// An IPv4 or IPv6 address.
#[derive(Clone, Copy, PartialEq, Eq, Debug)]
pub enum Ip {
    V4([u8; 4]),
    V6([u8; 16]),
}

impl Wire for Ip {
    open spec fn veq(&self, other: &Self) -> bool {
        *self == *other
    }

    open spec fn wire(&self) -> Seq<u8> {
        match self {
            Ip::V4(a) => seq![0u8] + a@,
            Ip::V6(a) => seq![1u8] + a@,
        }
    }

    open spec fn wf(&self) -> bool {
        true
    }

    fn encode(&self, out: &mut Vec<u8>) {
        match self {
            Ip::V4(a) => {
                out.push(0);
                encode_array(a, out);
            },
            Ip::V6(a) => {
                out.push(1);
                encode_array(a, out);
            },
        }
        assert(out@ =~= old(out)@ + self.wire());
    }

    fn decode(buf: &[u8], pos: usize) -> (r: Option<(Self, usize)>)
        ensures
            forall|v: Self|
                #![trigger v.wire()]
                v.wf() && prefix_of(buf@, pos as int, v.wire()) ==> r == Some(
                    (v, (pos + v.wire().len()) as usize),
                ),
    {
        proof {
            assert forall|v: Ip| (v.wf() && prefix_of(buf@, pos as int, v.wire())) implies (match v {
                Ip::V4(a) => prefix_of(buf@, pos as int, (0u8).wire()) && prefix_of(
                    buf@,
                    pos as int + 1,
                    a@,
                ),
                Ip::V6(a) => prefix_of(buf@, pos as int, (1u8).wire()) && prefix_of(
                    buf@,
                    pos as int + 1,
                    a@,
                ),
            }) by {
                match v {
                    Ip::V4(a) => {
                        lemma_concat_split(buf@, pos as int, seq![0u8], a@);
                        assert((0u8).wire() =~= seq![0u8]);
                    },
                    Ip::V6(a) => {
                        lemma_concat_split(buf@, pos as int, seq![1u8], a@);
                        assert((1u8).wire() =~= seq![1u8]);
                    },
                }
            }
        }
        match u8::decode(buf, pos) {
            None => None,
            Some((t, p1)) => {
                if t == 0 {
                    match decode_array::<4>(buf, p1) {
                        None => None,
                        Some((a, p2)) => {
                            let built = Ip::V4(a);
                            proof {
                                assert(buf@.subrange(pos as int, p1 as int) =~= seq![0u8]);
                                assert(buf@.subrange(pos as int, p2 as int) =~= buf@.subrange(
                                    pos as int,
                                    p1 as int,
                                ) + buf@.subrange(p1 as int, p2 as int));
                                assert forall|v: Ip| (v.wf() && prefix_of(
                                    buf@,
                                    pos as int,
                                    v.wire(),
                                )) implies Some((built, p2)) == Some(
                                    (v, (pos as int + v.wire().len()) as usize),
                                ) by {
                                    match v {
                                        Ip::V4(b) => {
                                            assert(b =~= a);
                                        },
                                        Ip::V6(b) => {},
                                    }
                                }
                            }
                            Some((built, p2))
                        },
                    }
                } else if t == 1 {
                    match decode_array::<16>(buf, p1) {
                        None => None,
                        Some((a, p2)) => {
                            let built = Ip::V6(a);
                            proof {
                                assert(buf@.subrange(pos as int, p1 as int) =~= seq![1u8]);
                                assert(buf@.subrange(pos as int, p2 as int) =~= buf@.subrange(
                                    pos as int,
                                    p1 as int,
                                ) + buf@.subrange(p1 as int, p2 as int));
                                assert forall|v: Ip| (v.wf() && prefix_of(
                                    buf@,
                                    pos as int,
                                    v.wire(),
                                )) implies Some((built, p2)) == Some(
                                    (v, (pos as int + v.wire().len()) as usize),
                                ) by {
                                    match v {
                                        Ip::V4(b) => {},
                                        Ip::V6(b) => {
                                            assert(b =~= a);
                                        },
                                    }
                                }
                            }
                            Some((built, p2))
                        },
                    }
                } else {
                    None
                }
            },
        }
    }
}

/// A peer's address: an IPv4 or IPv6 address plus a UDP port.
#[derive(Clone, Copy, PartialEq, Eq, Debug)]
pub struct PeerAddr {
    pub ip: Ip,
    pub port: u16,
}

impl PeerAddr {
    /// A peer address from its parts.
    pub fn new(ip: Ip, port: u16) -> (r: Self)
        ensures
            r.ip == ip && r.port == port,
    {
        PeerAddr { ip, port }
    }

    /// Whether two addresses are the same.
    pub fn equals(&self, o: &PeerAddr) -> (r: bool)
        ensures
            r <==> *self == *o,
    {
        let ips = match (&self.ip, &o.ip) {
            (Ip::V4(a), Ip::V4(b)) => crate::crypto::bytes_eq::<4>(a, b),
            (Ip::V6(a), Ip::V6(b)) => crate::crypto::bytes_eq::<16>(a, b),
            _ => false,
        };
        proof {
            match (self.ip, o.ip) {
                (Ip::V4(a), Ip::V4(b)) => {
                    if a@ == b@ {
                        assert(a =~= b);
                    }
                },
                (Ip::V6(a), Ip::V6(b)) => {
                    if a@ == b@ {
                        assert(a =~= b);
                    }
                },
                _ => {},
            }
        }
        ips && self.port == o.port
    }
}


/// The fixed 32-byte pad that masks a serialized peer address on the wire.
/// Masking is no encryption: it only defeats naive wire inspection.
#[verifier::opaque]
pub open spec fn obf_pad() -> Seq<u8> {
    seq![
        185u8, 174u8, 209u8, 69u8, 42u8, 248u8, 31u8, 131u8, 3u8, 22u8, 177u8, 242u8, 148u8,
        120u8, 109u8, 165u8, 163u8, 207u8, 114u8, 158u8, 146u8, 106u8, 82u8, 236u8, 83u8, 188u8,
        149u8, 239u8, 189u8, 232u8, 255u8, 90u8,
    ]
}

/// Bytes masked with the pad, cycled across the input.
pub open spec fn obf_mask(data: Seq<u8>) -> Seq<u8> {
    Seq::new(data.len(), |i: int| data[i] ^ obf_pad()[i % 32])
}

/// Masking twice gives the input back.
pub proof fn lemma_obf_involution(data: Seq<u8>)
    ensures
        obf_mask(obf_mask(data)) == data,
{
    assert(forall|x: u8, k: u8| #[trigger] ((x ^ k) ^ k) == x) by (bit_vector);
    assert(obf_mask(obf_mask(data)) =~= data);
}

/// The pad as bytes.
pub fn obf_pad_bytes() -> (r: Vec<u8>)
    ensures
        r@ == obf_pad(),
{
    let r: Vec<u8> = vec![
        185u8, 174, 209, 69, 42, 248, 31, 131, 3, 22, 177, 242, 148, 120, 109, 165, 163, 207, 114,
        158, 146, 106, 82, 236, 83, 188, 149, 239, 189, 232, 255, 90,
    ];
    proof {
        reveal(obf_pad);
        assert(r@ =~= obf_pad());
    }
    r
}

/// Masks or unmasks bytes with the pad, cycled.
pub fn obf_apply(data: &[u8]) -> (r: Vec<u8>)
    ensures
        r@ == obf_mask(data@),
{
    let pad = obf_pad_bytes();
    proof {
        reveal(obf_pad);
        assert(pad@.len() == 32);
    }
    let n = data.len();
    let mut r: Vec<u8> = Vec::new();
    let mut i: usize = 0;
    #[verifier::loop_isolation(false)]
    while i < n
        invariant
            i <= n,
            r@ =~= obf_mask(data@).take(i as int),
        decreases n - i,
    {
        r.push(data[i] ^ pad[i % 32]);
        assert(r@ =~= obf_mask(data@).take(i + 1 as int));
        i += 1;
    }
    proof {
        assert(obf_mask(data@).take(n as int) =~= obf_mask(data@));
    }
    r
}

/// A peer address masked with the fixed pad, so that passive middleboxes
/// cannot trivially spot structured address fields inside handshakes.
#[derive(Clone, Copy, PartialEq, Eq, Debug)]
pub struct Obfuscated(pub PeerAddr);

impl Obfuscated {
    /// The address inside.
    pub fn inner(self) -> (r: PeerAddr)
        ensures
            r == self.0,
    {
        self.0
    }
}

impl Wire for Obfuscated {
    open spec fn veq(&self, other: &Self) -> bool {
        *self == *other
    }

    open spec fn wire(&self) -> Seq<u8> {
        u32_le(self.0.wire().len() as u32) + obf_mask(self.0.wire())
    }

    open spec fn wf(&self) -> bool {
        true
    }

    fn encode(&self, out: &mut Vec<u8>) {
        let mut inner: Vec<u8> = Vec::new();
        self.0.encode(&mut inner);
        let masked = obf_apply(inner.as_slice());
        crate::wire::encode_var_bytes(masked.as_slice(), out);
        assert(out@ =~= old(out)@ + self.wire());
    }

    #[verifier::rlimit(100)]
    fn decode(buf: &[u8], pos: usize) -> (r: Option<(Self, usize)>)
        ensures
            forall|v: Self|
                #![trigger v.wire()]
                v.wf() && prefix_of(buf@, pos as int, v.wire()) ==> r == Some(
                    (v, (pos + v.wire().len()) as usize),
                ),
    {
        proof {
            assert forall|v: Obfuscated| (v.wf() && prefix_of(buf@, pos as int, v.wire())) implies (
            {
                let w = obf_mask(v.0.wire());
                w.len() <= 0xFFFF_FFFF && prefix_of(buf@, pos as int, u32_le(w.len() as u32) + w)
            }) by {
                assert(obf_mask(v.0.wire()).len() == v.0.wire().len());
            }
        }
        match crate::wire::decode_var_bytes(buf, pos) {
            None => {
                proof {
                    assert forall|v: Obfuscated| !(v.wf() && prefix_of(buf@, pos as int, v.wire()))
                        by {
                        if v.wf() && prefix_of(buf@, pos as int, v.wire()) {
                            assert(obf_mask(v.0.wire()).len() == v.0.wire().len());
                        }
                    }
                }
                None
            },
            Some((data, p1)) => {
                let plain = obf_apply(data.as_slice());
                proof {
                    assert forall|v: Obfuscated| (v.wf() && prefix_of(
                        buf@,
                        pos as int,
                        v.wire(),
                    )) implies (v.0.wf() && prefix_of(plain@, 0, v.0.wire())
                        && v.0.wire().len() == plain@.len()) by {
                        let w = obf_mask(v.0.wire());
                        assert(w.len() == v.0.wire().len());
                        assert(data@ == w);
                        lemma_obf_involution(v.0.wire());
                        assert(plain@ == v.0.wire());
                        assert(plain@.subrange(0, plain@.len() as int) =~= plain@);
                    }
                }
                match PeerAddr::decode(plain.as_slice(), 0) {
                    None => {
                        proof {
                            assert forall|v: Obfuscated| !(v.wf() && prefix_of(
                                buf@,
                                pos as int,
                                v.wire(),
                            )) by {}
                        }
                        None
                    },
                    Some((addr, p2)) => {
                        if p2 == plain.len() {
                            let built = Obfuscated(addr);
                            proof {
                                assert(plain@.subrange(0, p2 as int) =~= plain@);
                                lemma_obf_involution(data@);
                                assert(obf_mask(addr.wire()) == data@);
                                assert forall|v: Obfuscated| (v.wf() && prefix_of(
                                    buf@,
                                    pos as int,
                                    v.wire(),
                                )) implies Some((built, p1)) == Some(
                                    (v, (pos as int + v.wire().len()) as usize),
                                ) by {
                                    assert(addr == v.0);
                                }
                            }
                            Some((built, p1))
                        } else {
                            proof {
                                assert forall|v: Obfuscated| !(v.wf() && prefix_of(
                                    buf@,
                                    pos as int,
                                    v.wire(),
                                )) by {
                                    if v.wf() && prefix_of(buf@, pos as int, v.wire()) {
                                        assert(obf_mask(v.0.wire()).len() == v.0.wire().len());
                                        assert(data@ == obf_mask(v.0.wire()));
                                        lemma_obf_involution(v.0.wire());
                                        assert(plain@ == v.0.wire());
                                        assert(prefix_of(plain@, 0, v.0.wire())) by {
                                            assert(plain@.subrange(0, v.0.wire().len() as int)
                                                =~= plain@);
                                        }
                                        assert(p2 == v.0.wire().len());
                                    }
                                }
                            }
                            None
                        }
                    },
                }
            },
        }
    }
}

impl Wire for () {
    open spec fn veq(&self, other: &Self) -> bool {
        *self == *other
    }

    open spec fn wire(&self) -> Seq<u8> {
        Seq::empty()
    }

    open spec fn wf(&self) -> bool {
        true
    }

    fn encode(&self, out: &mut Vec<u8>) {
        assert(out@ =~= old(out)@ + self.wire());
    }

    fn decode(buf: &[u8], pos: usize) -> (r: Option<(Self, usize)>)
        ensures
            forall|v: Self|
                #![trigger v.wire()]
                v.wf() && prefix_of(buf@, pos as int, v.wire()) ==> r == Some(
                    (v, (pos + v.wire().len()) as usize),
                ),
    {
        Some(((), pos))
    }
}

impl Wire for Option<u32> {
    open spec fn veq(&self, other: &Self) -> bool {
        *self == *other
    }

    open spec fn wire(&self) -> Seq<u8> {
        match self {
            None => seq![0u8],
            Some(x) => seq![1u8] + u32_le(*x),
        }
    }

    open spec fn wf(&self) -> bool {
        true
    }

    fn encode(&self, out: &mut Vec<u8>) {
        match self {
            None => {
                out.push(0);
            },
            Some(x) => {
                out.push(1);
                x.encode(out);
            },
        }
        assert(out@ =~= old(out)@ + self.wire());
    }

    fn decode(buf: &[u8], pos: usize) -> (r: Option<(Self, usize)>)
        ensures
            forall|v: Self|
                #![trigger v.wire()]
                v.wf() && prefix_of(buf@, pos as int, v.wire()) ==> r == Some(
                    (v, (pos + v.wire().len()) as usize),
                ),
    {
        proof {
            assert forall|v: Option<u32>| (v.wf() && prefix_of(buf@, pos as int, v.wire())) implies (
            match v {
                None => prefix_of(buf@, pos as int, (0u8).wire()),
                Some(x) => prefix_of(buf@, pos as int, (1u8).wire()) && (x.wf() && prefix_of(
                    buf@,
                    pos as int + 1,
                    x.wire(),
                )),
            }) by {
                match v {
                    None => {
                        assert((0u8).wire() =~= seq![0u8]);
                        assert(buf@.subrange(pos as int, pos + 1) =~= seq![0u8]);
                    },
                    Some(x) => {
                        lemma_concat_split(buf@, pos as int, seq![1u8], u32_le(x));
                        assert((1u8).wire() =~= seq![1u8]);
                    },
                }
            }
        }
        match u8::decode(buf, pos) {
            None => None,
            Some((t, p1)) => {
                if t == 0 {
                    proof {
                        assert(buf@.subrange(pos as int, p1 as int) =~= seq![0u8]);
                        assert((None::<u32>).wire() =~= seq![0u8]);
                    }
                    Some((None, p1))
                } else if t == 1 {
                    match u32::decode(buf, p1) {
                        None => None,
                        Some((x, p2)) => {
                            let built = Some(x);
                            proof {
                                assert(buf@.subrange(pos as int, p1 as int) =~= seq![1u8]);
                                assert(buf@.subrange(pos as int, p2 as int) =~= buf@.subrange(
                                    pos as int,
                                    p1 as int,
                                ) + buf@.subrange(p1 as int, p2 as int));
                                assert(built.wire() =~= seq![1u8] + u32_le(x));
                            }
                            Some((built, p2))
                        },
                    }
                } else {
                    None
                }
            },
        }
    }
}

impl Wire for (u32, u32) {
    open spec fn veq(&self, other: &Self) -> bool {
        *self == *other
    }

    open spec fn wire(&self) -> Seq<u8> {
        u32_le(self.0) + u32_le(self.1)
    }

    open spec fn wf(&self) -> bool {
        true
    }

    fn encode(&self, out: &mut Vec<u8>) {
        self.0.encode(out);
        self.1.encode(out);
        assert(out@ =~= old(out)@ + self.wire());
    }

    #[verifier::rlimit(100)]
    fn decode(buf: &[u8], pos: usize) -> (r: Option<(Self, usize)>)
        ensures
            forall|v: Self|
                #![trigger v.wire()]
                v.wf() && prefix_of(buf@, pos as int, v.wire()) ==> r == Some(
                    (v, (pos + v.wire().len()) as usize),
                ),
    {
        proof {
            assert forall|v: (u32, u32)| (v.wf() && prefix_of(buf@, pos as int, v.wire())) implies (
            v.0.wf() && prefix_of(buf@, pos as int, v.0.wire()) && v.1.wf()) by {
                lemma_concat_split(buf@, pos as int, v.0.wire(), v.1.wire());
            }
        }
        match u32::decode(buf, pos) {
            None => {
                proof {
                    assert forall|v: (u32, u32)| !(v.wf() && prefix_of(buf@, pos as int, v.wire()))
                        by {
                        if v.wf() && prefix_of(buf@, pos as int, v.wire()) {
                            lemma_concat_split(buf@, pos as int, v.0.wire(), v.1.wire());
                        }
                    }
                }
                None
            },
            Some((a, p1)) => {
                proof {
                    assert forall|v: (u32, u32)| (v.wf() && prefix_of(
                        buf@,
                        pos as int,
                        v.wire(),
                    )) implies (v.1.wf() && prefix_of(buf@, p1 as int, v.1.wire())) by {
                        lemma_concat_split(buf@, pos as int, v.0.wire(), v.1.wire());
                    }
                }
                match u32::decode(buf, p1) {
                    None => {
                        proof {
                            assert forall|v: (u32, u32)| !(v.wf() && prefix_of(
                                buf@,
                                pos as int,
                                v.wire(),
                            )) by {
                                if v.wf() && prefix_of(buf@, pos as int, v.wire()) {
                                    lemma_concat_split(buf@, pos as int, v.0.wire(), v.1.wire());
                                    assert(a == v.0 && p1 == pos + v.0.wire().len());
                                }
                            }
                        }
                        None
                    },
                    Some((b, p2)) => {
                        proof {
                            assert(buf@.subrange(pos as int, p2 as int) =~= buf@.subrange(
                                pos as int,
                                p1 as int,
                            ) + buf@.subrange(p1 as int, p2 as int));
                            assert forall|v: (u32, u32)| (v.wf() && prefix_of(
                                buf@,
                                pos as int,
                                v.wire(),
                            )) implies Some(((a, b), p2)) == Some(
                                (v, (pos as int + v.wire().len()) as usize),
                            ) by {
                                lemma_concat_split(buf@, pos as int, v.0.wire(), v.1.wire());
                                assert(a == v.0 && p1 == pos + v.0.wire().len());
                                assert(prefix_of(buf@, p1 as int, v.1.wire()));
                                assert(b == v.1 && p2 == p1 + v.1.wire().len());
                            }
                        }
                        Some(((a, b), p2))
                    },
                }
            },
        }
    }
}

/// Short text carried with a one-byte length prefix.
#[derive(Clone, PartialEq, Eq, Debug)]
pub struct TextBytes {
    pub bytes: Vec<u8>,
}

impl Wire for TextBytes {
    open spec fn veq(&self, other: &Self) -> bool {
        self.bytes@ == other.bytes@
    }

    open spec fn wire(&self) -> Seq<u8> {
        seq![self.bytes@.len() as u8] + self.bytes@
    }

    open spec fn wf(&self) -> bool {
        self.bytes@.len() <= 255
    }

    fn encode(&self, out: &mut Vec<u8>) {
        let n: u8 = self.bytes.len() as u8;
        n.encode(out);
        let ghost mid = out@;
        let mut i: usize = 0;
        #[verifier::loop_isolation(false)]
        while i < self.bytes.len()
            invariant
                i <= self.bytes@.len(),
                out@ == mid + self.bytes@.take(i as int),
            decreases self.bytes@.len() - i,
        {
            out.push(self.bytes[i]);
            assert(out@ =~= mid + self.bytes@.take(i + 1 as int));
            i += 1;
        }
        proof {
            assert(self.bytes@.take(self.bytes@.len() as int) =~= self.bytes@);
            assert(out@ =~= old(out)@ + self.wire());
        }
    }

    fn decode(buf: &[u8], pos: usize) -> (r: Option<(Self, usize)>) {
        proof {
            assert forall|v: TextBytes| (v.wf() && prefix_of(buf@, pos as int, v.wire())) implies (
            (v.bytes@.len() as u8).wf() && prefix_of(
                buf@,
                pos as int,
                (v.bytes@.len() as u8).wire(),
            ) && prefix_of(buf@, pos as int + 1, v.bytes@)) by {
                lemma_concat_split(buf@, pos as int, seq![v.bytes@.len() as u8], v.bytes@);
                assert((v.bytes@.len() as u8).wire() =~= seq![v.bytes@.len() as u8]);
            }
        }
        match u8::decode(buf, pos) {
            None => None,
            Some((n, p1)) => {
                if n as usize > buf.len() - p1 {
                    return None;
                }
                let d = copy_range(buf, p1, n as usize);
                let built = TextBytes { bytes: d };
                proof {
                    assert(buf@.subrange(pos as int, p1 as int) =~= seq![n]);
                    assert(buf@.subrange(pos as int, (p1 + n as usize) as int) =~= buf@.subrange(
                        pos as int,
                        p1 as int,
                    ) + buf@.subrange(p1 as int, (p1 + n as usize) as int));
                    assert(built.wire() =~= seq![n] + d@);
                    assert forall|v: TextBytes| (v.wf() && prefix_of(
                        buf@,
                        pos as int,
                        v.wire(),
                    )) implies (p1 + n as usize) == pos + v.wire().len() && built.wire()
                        == v.wire() && v.veq(&built) by {
                        assert(n == v.bytes@.len() as u8);
                        assert(d@ =~= v.bytes@);
                    }
                }
                Some((built, p1 + n as usize))
            },
        }
    }
}

/// A submission's score on one test, as the bit pattern of an IEEE 754
/// double-precision number that is finite and lies in the closed interval
/// from zero to one. For such numbers the bit pattern is at most that of
/// 1.0, or is the pattern of negative zero; every not-a-number or
/// out-of-range pattern is excluded.
#[derive(Clone, Copy, PartialEq, Eq, Structural, Debug)]
pub struct SubScore {
    pub bits: u64,
}

/// The bit pattern of 1.0 as a double-precision number.
pub const SCORE_ONE_BITS: u64 = 0x3FF0_0000_0000_0000;

/// The bit pattern of negative zero as a double-precision number.
pub const SCORE_NEG_ZERO_BITS: u64 = 0x8000_0000_0000_0000;

/// Whether a bit pattern is a double in the closed interval zero to one:
/// non-negative doubles order as their bit patterns do, so the pattern must
/// not exceed that of 1.0; negative zero is the one admitted negative.
pub open spec fn score_bits_valid(bits: u64) -> bool {
    bits <= SCORE_ONE_BITS || bits == SCORE_NEG_ZERO_BITS
}

/// A score's worth for comparisons: negative zero counts as zero.
pub open spec fn score_norm(s: SubScore) -> u64 {
    if s.bits == SCORE_NEG_ZERO_BITS {
        0u64
    } else {
        s.bits
    }
}

impl SubScore {
    /// A score from a double's bit pattern, exactly when the pattern lies
    /// in the closed interval zero to one.
    pub fn from_bits(bits: u64) -> (r: Option<SubScore>)
        ensures
            r is Some <==> score_bits_valid(bits),
            r is Some ==> r.unwrap() == (SubScore { bits }),
    {
        if bits <= SCORE_ONE_BITS || bits == SCORE_NEG_ZERO_BITS {
            Some(SubScore { bits })
        } else {
            None
        }
    }

    /// Whether this score is at least the other, ordering as the doubles
    /// the bits stand for: negative zero equals zero.
    pub fn ge(&self, o: &SubScore) -> (r: bool)
        requires
            score_bits_valid(self.bits),
            score_bits_valid(o.bits),
        ensures
            r == (score_norm(*self) >= score_norm(*o)),
    {
        let a = if self.bits == SCORE_NEG_ZERO_BITS {
            0u64
        } else {
            self.bits
        };
        let b = if o.bits == SCORE_NEG_ZERO_BITS {
            0u64
        } else {
            o.bits
        };
        a >= b
    }
}

impl Wire for SubScore {
    open spec fn veq(&self, other: &Self) -> bool {
        *self == *other
    }

    open spec fn wire(&self) -> Seq<u8> {
        u64_le(self.bits)
    }

    open spec fn wf(&self) -> bool {
        score_bits_valid(self.bits)
    }

    fn encode(&self, out: &mut Vec<u8>) {
        self.bits.encode(out);
        assert(out@ =~= old(out)@ + self.wire());
    }

    fn decode(buf: &[u8], pos: usize) -> (r: Option<(Self, usize)>)
        ensures
            forall|v: Self|
                #![trigger v.wire()]
                v.wf() && prefix_of(buf@, pos as int, v.wire()) ==> r == Some(
                    (v, (pos + v.wire().len()) as usize),
                ),
    {
        proof {
            assert forall|v: SubScore| (v.wf() && prefix_of(buf@, pos as int, v.wire())) implies (
            v.bits.wf() && prefix_of(buf@, pos as int, v.bits.wire())) by {
                assert(v.bits.wire() == v.wire());
            }
        }
        match u64::decode(buf, pos) {
            None => {
                proof {
                    assert forall|v: SubScore| !(v.wf() && prefix_of(buf@, pos as int, v.wire()))
                        by {
                        if v.wf() && prefix_of(buf@, pos as int, v.wire()) {
                            assert(v.bits.wire() == v.wire());
                        }
                    }
                }
                None
            },
            Some((bits, p1)) => {
                if bits <= SCORE_ONE_BITS || bits == SCORE_NEG_ZERO_BITS {
                    let built = SubScore { bits };
                    proof {
                        assert forall|v: SubScore| (v.wf() && prefix_of(
                            buf@,
                            pos as int,
                            v.wire(),
                        )) implies Some((built, p1)) == Some(
                            (v, (pos as int + v.wire().len()) as usize),
                        ) by {
                            assert(v.bits.wire() == v.wire());
                            assert(bits == v.bits && p1 == pos + v.bits.wire().len());
                        }
                    }
                    Some((built, p1))
                } else {
                    proof {
                        assert forall|v: SubScore| !(v.wf() && prefix_of(
                            buf@,
                            pos as int,
                            v.wire(),
                        )) by {
                            if v.wf() && prefix_of(buf@, pos as int, v.wire()) {
                                assert(v.bits.wire() == v.wire());
                                assert(bits == v.bits);
                            }
                        }
                    }
                    None
                }
            },
        }
    }
}

/// One fixed-size slice of a file's bytes.
#[derive(Clone, Copy, PartialEq, Eq, Debug)]
pub struct FileChunk(pub [u8; FILE_CHUNK_SIZE]);

impl Wire for FileChunk {
    open spec fn veq(&self, other: &Self) -> bool {
        *self == *other
    }

    open spec fn wire(&self) -> Seq<u8> {
        self.0@
    }

    open spec fn wf(&self) -> bool {
        true
    }

    fn encode(&self, out: &mut Vec<u8>) {
        encode_array(&self.0, out);
    }

    fn decode(buf: &[u8], pos: usize) -> (r: Option<(Self, usize)>)
        ensures
            forall|v: Self|
                #![trigger v.wire()]
                v.wf() && prefix_of(buf@, pos as int, v.wire()) ==> r == Some(
                    (v, (pos + v.wire().len()) as usize),
                ),
    {
        match decode_array::<FILE_CHUNK_SIZE>(buf, pos) {
            Some((a, p)) => {
                proof {
                    assert forall|v: Self| v.wf() && prefix_of(buf@, pos as int, v.wire())
                        implies Some((FileChunk(a), p)) == Some(
                        (v, (pos as int + v.wire().len()) as usize),
                    ) by {
                        assert(v.0 =~= a);
                    }
                }
                Some((FileChunk(a), p))
            },
            None => None,
        }
    }
}

/// What a handshake message signs: the contest, a fresh timestamp, the
/// sender's short-lived key-exchange public key, its masked address, and
/// its declared role.
#[derive(Clone, Copy, PartialEq, Eq, Debug)]
pub struct MerkleData {
    pub contest_id: ContestId,
    pub timestamp: Timestamp,
    pub kex: PubKexKey,
    pub addr: Obfuscated,
    pub entity: Entity,
}

/// The body of a keep-alive: a fresh timestamp.
#[derive(Clone, Copy, PartialEq, Eq, Debug)]
pub struct KeepAliveInner(pub Timestamp);

/// A handshake frame: the signed key exchange, or a keep-alive proving the
/// derived key is shared.
#[derive(Clone, Copy, PartialEq, Eq, Debug)]
pub enum NetMessage {
    Merkle(Signed<MerkleData, PubSigKey>),
    KeepAlive(PubSigKey, Macced<KeepAliveInner>),
}

/// One entry of the server's append-only broadcast log.
#[derive(PartialEq, Eq, Debug)]
pub struct QueueMessage {
    pub id: QueueMessageId,
    pub timestamp: Timestamp,
    pub message: QueueMessageInner,
}

/// What a queue entry carries.
#[derive(PartialEq, Eq, Debug)]
pub enum QueueMessageInner {
    Submission(QSubmission),
    EvaluationRequest(QEvaluationRequest),
    Evaluation(QEvaluation),
    EvaluationProof(QEvaluationProof),
    ProblemDesc(QProblemDesc),
    Announcement(QAnnouncement),
    PublicKey(EncKeyInfo),
    PeerInfo(QPeerInfo),
}

/// A peer's identity, masked address and role, published on the queue.
#[derive(Clone, Copy, PartialEq, Eq, Debug)]
pub struct QPeerInfo {
    pub psk: PubSigKey,
    pub addr: Obfuscated,
    pub entity: Entity,
}

/// An announcement to every participant, optionally about one problem.
#[derive(Clone, PartialEq, Eq, Debug)]
pub struct QAnnouncement {
    pub text: TextBytes,
    pub context: Option<ProblemId>,
}

/// What identifies a submission: who submitted what file to which problem.
#[derive(Clone, Copy, PartialEq, Eq, Debug)]
pub struct SubmissionId {
    pub submitter: PubSigKey,
    pub problem_id: ProblemId,
    pub file_id: FileHash,
}

/// The server's demand that the named evaluators score a submission.
#[derive(Clone, PartialEq, Eq, Debug)]
pub struct QEvaluationRequest {
    pub submission_id: SubmissionId,
    pub evaluators: Vec<PubSigKey>,
}

/// A submission published on the queue.
#[derive(PartialEq, Eq, Debug)]
pub struct QSubmission {
    pub submitter: PubSigKey,
    pub problem_id: ProblemId,
    pub file_desc: QFileDesc,
}

/// One evaluator's assignment to one submission.
#[derive(Clone, Copy, PartialEq, Eq, Debug)]
pub struct EvaluationId {
    pub submission_id: SubmissionId,
    pub evaluator: PubSigKey,
}

/// An evaluator's published score together with its commitment: the keyed
/// digest of its evaluation's public data under its detail hash.
#[derive(Clone, Copy, PartialEq, Eq, Debug)]
pub struct QEvaluation {
    pub evaluation_id: EvaluationId,
    pub score: SubScore,
    pub detailhs_hash: DetailHash,
}

/// An evaluator's reveal: the detail hash that keyed its commitment.
#[derive(Clone, Copy, PartialEq, Eq, Debug)]
pub struct QEvaluationProof {
    pub evaluation_id: EvaluationId,
    pub detailhs: DetailHash,
}

/// Who may hold an encryption key: an algebraic predicate over entitlement.
#[derive(PartialEq, Eq, Debug)]
pub enum EncKeyId {
    CustomPublic(u32),
    IsEntity(Entity),
    IsClient(PubSigKey),
    ProblemSolved(ProblemId),
    Or(Vec<EncKeyId>),
    And(Vec<EncKeyId>),
}

/// An encryption key bound to the policy naming who may hold it.
#[derive(PartialEq, Eq, Debug)]
pub struct EncKeyInfo {
    pub id: EncKeyId,
    pub key: EncKey,
}

/// A problem: its statement, generator and scorer files, and its test
/// count.
#[derive(PartialEq, Eq, Debug)]
pub struct QProblemDesc {
    pub id: ProblemId,
    pub statement: QFileDesc,
    pub generator_file: QFileDesc,
    pub scorer_file: QFileDesc,
    pub n_testcases: u32,
}

/// A file by content hash and size, with the key that encrypts it, itself
/// sealed under the key the policy names.
#[derive(PartialEq, Eq, Debug)]
pub struct QFileDesc {
    pub hash: FileHash,
    pub size: u32,
    pub key_encrypting_key: EncKeyId,
    pub enc_encrypting_key: SizedEncrypted<EncKey, 32>,
}

/// One encrypted chunk of a file in flight, with the file's hash and the
/// chunk's index.
#[derive(PartialEq, Eq, Debug)]
pub struct FileMessage {
    pub hash: FileHash,
    pub piece: u32,
    pub data: SizedEncrypted<FileChunk, FILE_CHUNK_SIZE>,
}

/// A participant's question, optionally about one problem.
#[derive(Clone, PartialEq, Eq, Debug)]
pub struct QuestionMessage {
    pub text: TextBytes,
    pub context: Option<ProblemId>,
}

/// A submission announced to the server: the problem, the file and the key
/// that encrypts it.
#[derive(Clone, Copy, PartialEq, Eq, Debug)]
pub struct SubmissionMessage {
    pub problem_id: ProblemId,
    pub file_id: FileHash,
    pub file_size: u32,
    pub enc_key: EncKey,
}

/// A request for ranges of file chunks, ranges of queue entries, or one
/// encryption key.
#[derive(PartialEq, Eq, Debug)]
pub enum RequestMessage {
    File(Vec<(u32, u32)>),
    Queue(Vec<(u32, u32)>),
    EncKey(EncKeyId),
}

/// Everything that can stand in one datagram.
#[derive(PartialEq, Eq, Debug)]
pub enum Message {
    Net(NetMessage),
    Queue(Macced<Signed<QueueMessage, ()>>),
    File(Macced<FileMessage>),
    EncKey(Macced<EncKeyInfo>),
    Request(Macced<RequestMessage>),
    Submission(Macced<SubmissionMessage>),
    Question(Macced<QuestionMessage>),
}


/// Splits a serialized `Timestamp` standing in a buffer into its parts.
#[verifier::rlimit(100)]
pub proof fn lemma_timestamp_split(buf: Seq<u8>, pos: int, v: Timestamp)
    requires
        prefix_of(buf, pos, v.wire()),
    ensures
        prefix_of(buf, pos, v.secs.wire()),
        prefix_of(buf, pos + v.secs.wire().len(), v.nanos.wire()),
{
    lemma_concat_split(buf, pos, v.secs.wire(), v.nanos.wire());
}

impl Wire for Timestamp {
    open spec fn veq(&self, other: &Self) -> bool {
        *self == *other
    }

    open spec fn wire(&self) -> Seq<u8> {
        self.secs.wire() + self.nanos.wire()
    }

    open spec fn wf(&self) -> bool {
        self.secs.wf() && self.nanos.wf()
    }

    fn encode(&self, out: &mut Vec<u8>) {
        self.secs.encode(out);
        self.nanos.encode(out);
        assert(out@ =~= old(out)@ + self.wire());
    }

    #[verifier::rlimit(100)]
    fn decode(buf: &[u8], pos: usize) -> (r: Option<(Self, usize)>)
        ensures
            forall|v: Self|
                #![trigger v.wire()]
                v.wf() && prefix_of(buf@, pos as int, v.wire()) ==> r == Some(
                    (v, (pos + v.wire().len()) as usize),
                ),
    {
        proof {
            assert forall|v: Timestamp| (v.wf() && prefix_of(buf@, pos as int, v.wire())) implies (v.secs.wf() && prefix_of(buf@, pos as int, v.secs.wire())) by {
                lemma_timestamp_split(buf@, pos as int, v);
            }
        }
        match <u64 as Wire>::decode(buf, pos) {
            None => {
                proof {
                    assert forall|v: Timestamp| !(v.wf() && prefix_of(buf@, pos as int, v.wire())) by {
                        if v.wf() && prefix_of(buf@, pos as int, v.wire()) {
                            lemma_timestamp_split(buf@, pos as int, v);
                        }
                    }
                }
                None
            },
            Some((x1, p1)) => {
                proof {
                    assert forall|v: Timestamp| (v.wf() && prefix_of(buf@, pos as int, v.wire())) implies (v.nanos.wf() && prefix_of(buf@, p1 as int, v.nanos.wire())) by {
                        lemma_timestamp_split(buf@, pos as int, v);
                        assert(p1 == pos + v.secs.wire().len());
                    }
                }
                match <u32 as Wire>::decode(buf, p1) {
                    None => {
                        proof {
                            assert forall|v: Timestamp| !(v.wf() && prefix_of(buf@, pos as int, v.wire())) by {
                                if v.wf() && prefix_of(buf@, pos as int, v.wire()) {
                                    lemma_timestamp_split(buf@, pos as int, v);
                                    assert(p1 == pos + v.secs.wire().len());
                                }
                            }
                        }
                        None
                    },
                    Some((x2, p2)) => {
                        let built = Timestamp { secs: x1, nanos: x2 };
                        proof {
                            assert(buf@.subrange(pos as int, p2 as int) =~= buf@.subrange(pos as int, p1 as int) + buf@.subrange(p1 as int, p2 as int));
                            assert forall|v: Timestamp| (v.wf() && prefix_of(buf@, pos as int, v.wire())) implies p2 == pos + v.wire().len() && built.wire() == v.wire() && built == v by {
                                lemma_timestamp_split(buf@, pos as int, v);
                                assert(p1 == pos + v.secs.wire().len());
                                assert(p2 == pos + v.secs.wire().len() + v.nanos.wire().len());
                            }
                        }
                        Some((built, p2))
                    },
                }
            },
        }
    }
}

/// Splits a serialized `PeerAddr` standing in a buffer into its parts.
#[verifier::rlimit(100)]
pub proof fn lemma_peeraddr_split(buf: Seq<u8>, pos: int, v: PeerAddr)
    requires
        prefix_of(buf, pos, v.wire()),
    ensures
        prefix_of(buf, pos, v.ip.wire()),
        prefix_of(buf, pos + v.ip.wire().len(), v.port.wire()),
{
    lemma_concat_split(buf, pos, v.ip.wire(), v.port.wire());
}

impl Wire for PeerAddr {
    open spec fn veq(&self, other: &Self) -> bool {
        *self == *other
    }

    open spec fn wire(&self) -> Seq<u8> {
        self.ip.wire() + self.port.wire()
    }

    open spec fn wf(&self) -> bool {
        self.ip.wf() && self.port.wf()
    }

    fn encode(&self, out: &mut Vec<u8>) {
        self.ip.encode(out);
        self.port.encode(out);
        assert(out@ =~= old(out)@ + self.wire());
    }

    #[verifier::rlimit(100)]
    fn decode(buf: &[u8], pos: usize) -> (r: Option<(Self, usize)>)
        ensures
            forall|v: Self|
                #![trigger v.wire()]
                v.wf() && prefix_of(buf@, pos as int, v.wire()) ==> r == Some(
                    (v, (pos + v.wire().len()) as usize),
                ),
    {
        proof {
            assert forall|v: PeerAddr| (v.wf() && prefix_of(buf@, pos as int, v.wire())) implies (v.ip.wf() && prefix_of(buf@, pos as int, v.ip.wire())) by {
                lemma_peeraddr_split(buf@, pos as int, v);
            }
        }
        match <Ip as Wire>::decode(buf, pos) {
            None => {
                proof {
                    assert forall|v: PeerAddr| !(v.wf() && prefix_of(buf@, pos as int, v.wire())) by {
                        if v.wf() && prefix_of(buf@, pos as int, v.wire()) {
                            lemma_peeraddr_split(buf@, pos as int, v);
                        }
                    }
                }
                None
            },
            Some((x1, p1)) => {
                proof {
                    assert forall|v: PeerAddr| (v.wf() && prefix_of(buf@, pos as int, v.wire())) implies (v.port.wf() && prefix_of(buf@, p1 as int, v.port.wire())) by {
                        lemma_peeraddr_split(buf@, pos as int, v);
                        assert(p1 == pos + v.ip.wire().len());
                    }
                }
                match <u16 as Wire>::decode(buf, p1) {
                    None => {
                        proof {
                            assert forall|v: PeerAddr| !(v.wf() && prefix_of(buf@, pos as int, v.wire())) by {
                                if v.wf() && prefix_of(buf@, pos as int, v.wire()) {
                                    lemma_peeraddr_split(buf@, pos as int, v);
                                    assert(p1 == pos + v.ip.wire().len());
                                }
                            }
                        }
                        None
                    },
                    Some((x2, p2)) => {
                        let built = PeerAddr { ip: x1, port: x2 };
                        proof {
                            assert(buf@.subrange(pos as int, p2 as int) =~= buf@.subrange(pos as int, p1 as int) + buf@.subrange(p1 as int, p2 as int));
                            assert forall|v: PeerAddr| (v.wf() && prefix_of(buf@, pos as int, v.wire())) implies p2 == pos + v.wire().len() && built.wire() == v.wire() && built == v by {
                                lemma_peeraddr_split(buf@, pos as int, v);
                                assert(p1 == pos + v.ip.wire().len());
                                assert(p2 == pos + v.ip.wire().len() + v.port.wire().len());
                            }
                        }
                        Some((built, p2))
                    },
                }
            },
        }
    }
}

/// Splits a serialized `MerkleData` standing in a buffer into its parts.
#[verifier::rlimit(100)]
pub proof fn lemma_merkledata_split(buf: Seq<u8>, pos: int, v: MerkleData)
    requires
        prefix_of(buf, pos, v.wire()),
    ensures
        prefix_of(buf, pos, v.contest_id.wire()),
        prefix_of(buf, pos + v.contest_id.wire().len(), v.timestamp.wire()),
        prefix_of(buf, pos + v.contest_id.wire().len() + v.timestamp.wire().len(), v.kex.wire()),
        prefix_of(buf, pos + v.contest_id.wire().len() + v.timestamp.wire().len() + v.kex.wire().len(), v.addr.wire()),
        prefix_of(buf, pos + v.contest_id.wire().len() + v.timestamp.wire().len() + v.kex.wire().len() + v.addr.wire().len(), v.entity.wire()),
{
    lemma_concat_split(buf, pos, v.contest_id.wire() + v.timestamp.wire() + v.kex.wire() + v.addr.wire(), v.entity.wire());
    lemma_concat_split(buf, pos, v.contest_id.wire() + v.timestamp.wire() + v.kex.wire(), v.addr.wire());
    lemma_concat_split(buf, pos, v.contest_id.wire() + v.timestamp.wire(), v.kex.wire());
    lemma_concat_split(buf, pos, v.contest_id.wire(), v.timestamp.wire());
}

impl Wire for MerkleData {
    open spec fn veq(&self, other: &Self) -> bool {
        *self == *other
    }

    open spec fn wire(&self) -> Seq<u8> {
        self.contest_id.wire() + self.timestamp.wire() + self.kex.wire() + self.addr.wire() + self.entity.wire()
    }

    open spec fn wf(&self) -> bool {
        self.contest_id.wf() && self.timestamp.wf() && self.kex.wf() && self.addr.wf() && self.entity.wf()
    }

    fn encode(&self, out: &mut Vec<u8>) {
        self.contest_id.encode(out);
        self.timestamp.encode(out);
        self.kex.encode(out);
        self.addr.encode(out);
        self.entity.encode(out);
        assert(out@ =~= old(out)@ + self.wire());
    }

    #[verifier::rlimit(100)]
    fn decode(buf: &[u8], pos: usize) -> (r: Option<(Self, usize)>)
        ensures
            forall|v: Self|
                #![trigger v.wire()]
                v.wf() && prefix_of(buf@, pos as int, v.wire()) ==> r == Some(
                    (v, (pos + v.wire().len()) as usize),
                ),
    {
        proof {
            assert forall|v: MerkleData| (v.wf() && prefix_of(buf@, pos as int, v.wire())) implies (v.contest_id.wf() && prefix_of(buf@, pos as int, v.contest_id.wire())) by {
                lemma_merkledata_split(buf@, pos as int, v);
            }
        }
        match <u128 as Wire>::decode(buf, pos) {
            None => {
                proof {
                    assert forall|v: MerkleData| !(v.wf() && prefix_of(buf@, pos as int, v.wire())) by {
                        if v.wf() && prefix_of(buf@, pos as int, v.wire()) {
                            lemma_merkledata_split(buf@, pos as int, v);
                        }
                    }
                }
                None
            },
            Some((x1, p1)) => {
                proof {
                    assert forall|v: MerkleData| (v.wf() && prefix_of(buf@, pos as int, v.wire())) implies (v.timestamp.wf() && prefix_of(buf@, p1 as int, v.timestamp.wire())) by {
                        lemma_merkledata_split(buf@, pos as int, v);
                        assert(p1 == pos + v.contest_id.wire().len());
                    }
                }
                match <Timestamp as Wire>::decode(buf, p1) {
                    None => {
                        proof {
                            assert forall|v: MerkleData| !(v.wf() && prefix_of(buf@, pos as int, v.wire())) by {
                                if v.wf() && prefix_of(buf@, pos as int, v.wire()) {
                                    lemma_merkledata_split(buf@, pos as int, v);
                                    assert(p1 == pos + v.contest_id.wire().len());
                                }
                            }
                        }
                        None
                    },
                    Some((x2, p2)) => {
                        proof {
                            assert forall|v: MerkleData| (v.wf() && prefix_of(buf@, pos as int, v.wire())) implies (v.kex.wf() && prefix_of(buf@, p2 as int, v.kex.wire())) by {
                                lemma_merkledata_split(buf@, pos as int, v);
                                assert(p1 == pos + v.contest_id.wire().len());
                                assert(p2 == pos + v.contest_id.wire().len() + v.timestamp.wire().len());
                            }
                        }
                        match <PubKexKey as Wire>::decode(buf, p2) {
                            None => {
                                proof {
                                    assert forall|v: MerkleData| !(v.wf() && prefix_of(buf@, pos as int, v.wire())) by {
                                        if v.wf() && prefix_of(buf@, pos as int, v.wire()) {
                                            lemma_merkledata_split(buf@, pos as int, v);
                                            assert(p1 == pos + v.contest_id.wire().len());
                                            assert(p2 == pos + v.contest_id.wire().len() + v.timestamp.wire().len());
                                        }
                                    }
                                }
                                None
                            },
                            Some((x3, p3)) => {
                                proof {
                                    assert forall|v: MerkleData| (v.wf() && prefix_of(buf@, pos as int, v.wire())) implies (v.addr.wf() && prefix_of(buf@, p3 as int, v.addr.wire())) by {
                                        lemma_merkledata_split(buf@, pos as int, v);
                                        assert(p1 == pos + v.contest_id.wire().len());
                                        assert(p2 == pos + v.contest_id.wire().len() + v.timestamp.wire().len());
                                        assert(p3 == pos + v.contest_id.wire().len() + v.timestamp.wire().len() + v.kex.wire().len());
                                    }
                                }
                                match <Obfuscated as Wire>::decode(buf, p3) {
                                    None => {
                                        proof {
                                            assert forall|v: MerkleData| !(v.wf() && prefix_of(buf@, pos as int, v.wire())) by {
                                                if v.wf() && prefix_of(buf@, pos as int, v.wire()) {
                                                    lemma_merkledata_split(buf@, pos as int, v);
                                                    assert(p1 == pos + v.contest_id.wire().len());
                                                    assert(p2 == pos + v.contest_id.wire().len() + v.timestamp.wire().len());
                                                    assert(p3 == pos + v.contest_id.wire().len() + v.timestamp.wire().len() + v.kex.wire().len());
                                                }
                                            }
                                        }
                                        None
                                    },
                                    Some((x4, p4)) => {
                                        proof {
                                            assert forall|v: MerkleData| (v.wf() && prefix_of(buf@, pos as int, v.wire())) implies (v.entity.wf() && prefix_of(buf@, p4 as int, v.entity.wire())) by {
                                                lemma_merkledata_split(buf@, pos as int, v);
                                                assert(p1 == pos + v.contest_id.wire().len());
                                                assert(p2 == pos + v.contest_id.wire().len() + v.timestamp.wire().len());
                                                assert(p3 == pos + v.contest_id.wire().len() + v.timestamp.wire().len() + v.kex.wire().len());
                                                assert(p4 == pos + v.contest_id.wire().len() + v.timestamp.wire().len() + v.kex.wire().len() + v.addr.wire().len());
                                            }
                                        }
                                        match <Entity as Wire>::decode(buf, p4) {
                                            None => {
                                                proof {
                                                    assert forall|v: MerkleData| !(v.wf() && prefix_of(buf@, pos as int, v.wire())) by {
                                                        if v.wf() && prefix_of(buf@, pos as int, v.wire()) {
                                                            lemma_merkledata_split(buf@, pos as int, v);
                                                            assert(p1 == pos + v.contest_id.wire().len());
                                                            assert(p2 == pos + v.contest_id.wire().len() + v.timestamp.wire().len());
                                                            assert(p3 == pos + v.contest_id.wire().len() + v.timestamp.wire().len() + v.kex.wire().len());
                                                            assert(p4 == pos + v.contest_id.wire().len() + v.timestamp.wire().len() + v.kex.wire().len() + v.addr.wire().len());
                                                        }
                                                    }
                                                }
                                                None
                                            },
                                            Some((x5, p5)) => {
                                                let built = MerkleData { contest_id: x1, timestamp: x2, kex: x3, addr: x4, entity: x5 };
                                                proof {
                                                    assert(buf@.subrange(pos as int, p2 as int) =~= buf@.subrange(pos as int, p1 as int) + buf@.subrange(p1 as int, p2 as int));
                                                    assert(buf@.subrange(pos as int, p3 as int) =~= buf@.subrange(pos as int, p2 as int) + buf@.subrange(p2 as int, p3 as int));
                                                    assert(buf@.subrange(pos as int, p4 as int) =~= buf@.subrange(pos as int, p3 as int) + buf@.subrange(p3 as int, p4 as int));
                                                    assert(buf@.subrange(pos as int, p5 as int) =~= buf@.subrange(pos as int, p4 as int) + buf@.subrange(p4 as int, p5 as int));
                                                    assert forall|v: MerkleData| (v.wf() && prefix_of(buf@, pos as int, v.wire())) implies p5 == pos + v.wire().len() && built.wire() == v.wire() && built == v by {
                                                        lemma_merkledata_split(buf@, pos as int, v);
                                                        assert(p1 == pos + v.contest_id.wire().len());
                                                        assert(p2 == pos + v.contest_id.wire().len() + v.timestamp.wire().len());
                                                        assert(p3 == pos + v.contest_id.wire().len() + v.timestamp.wire().len() + v.kex.wire().len());
                                                        assert(p4 == pos + v.contest_id.wire().len() + v.timestamp.wire().len() + v.kex.wire().len() + v.addr.wire().len());
                                                        assert(p5 == pos + v.contest_id.wire().len() + v.timestamp.wire().len() + v.kex.wire().len() + v.addr.wire().len() + v.entity.wire().len());
                                                    }
                                                }
                                                Some((built, p5))
                                            },
                                        }
                                    },
                                }
                            },
                        }
                    },
                }
            },
        }
    }
}

/// Splits a serialized `QueueMessage` standing in a buffer into its parts.
#[verifier::rlimit(100)]
pub proof fn lemma_queuemessage_split(buf: Seq<u8>, pos: int, v: QueueMessage)
    requires
        prefix_of(buf, pos, v.wire()),
    ensures
        prefix_of(buf, pos, v.id.wire()),
        prefix_of(buf, pos + v.id.wire().len(), v.timestamp.wire()),
        prefix_of(buf, pos + v.id.wire().len() + v.timestamp.wire().len(), v.message.wire()),
{
    lemma_concat_split(buf, pos, v.id.wire() + v.timestamp.wire(), v.message.wire());
    lemma_concat_split(buf, pos, v.id.wire(), v.timestamp.wire());
}

impl Wire for QueueMessage {
    open spec fn veq(&self, other: &Self) -> bool {
        self.id.veq(&other.id) && self.timestamp.veq(&other.timestamp) && self.message.veq(&other.message)
    }

    open spec fn wire(&self) -> Seq<u8> {
        self.id.wire() + self.timestamp.wire() + self.message.wire()
    }

    open spec fn wf(&self) -> bool {
        self.id.wf() && self.timestamp.wf() && self.message.wf()
    }

    fn encode(&self, out: &mut Vec<u8>) {
        self.id.encode(out);
        self.timestamp.encode(out);
        self.message.encode(out);
        assert(out@ =~= old(out)@ + self.wire());
    }

    #[verifier::rlimit(100)]
    fn decode(buf: &[u8], pos: usize) -> (r: Option<(Self, usize)>) {
        proof {
            assert forall|v: QueueMessage| (v.wf() && prefix_of(buf@, pos as int, v.wire())) implies (v.id.wf() && prefix_of(buf@, pos as int, v.id.wire())) by {
                lemma_queuemessage_split(buf@, pos as int, v);
            }
        }
        match <u32 as Wire>::decode(buf, pos) {
            None => {
                proof {
                    assert forall|v: QueueMessage| !(v.wf() && prefix_of(buf@, pos as int, v.wire())) by {
                        if v.wf() && prefix_of(buf@, pos as int, v.wire()) {
                            lemma_queuemessage_split(buf@, pos as int, v);
                        }
                    }
                }
                None
            },
            Some((x1, p1)) => {
                proof {
                    assert forall|v: QueueMessage| (v.wf() && prefix_of(buf@, pos as int, v.wire())) implies (v.timestamp.wf() && prefix_of(buf@, p1 as int, v.timestamp.wire())) by {
                        lemma_queuemessage_split(buf@, pos as int, v);
                        assert(p1 == pos + v.id.wire().len());
                    }
                }
                match <Timestamp as Wire>::decode(buf, p1) {
                    None => {
                        proof {
                            assert forall|v: QueueMessage| !(v.wf() && prefix_of(buf@, pos as int, v.wire())) by {
                                if v.wf() && prefix_of(buf@, pos as int, v.wire()) {
                                    lemma_queuemessage_split(buf@, pos as int, v);
                                    assert(p1 == pos + v.id.wire().len());
                                }
                            }
                        }
                        None
                    },
                    Some((x2, p2)) => {
                        proof {
                            assert forall|v: QueueMessage| (v.wf() && prefix_of(buf@, pos as int, v.wire())) implies (v.message.wf() && prefix_of(buf@, p2 as int, v.message.wire())) by {
                                lemma_queuemessage_split(buf@, pos as int, v);
                                assert(p1 == pos + v.id.wire().len());
                                assert(p2 == pos + v.id.wire().len() + v.timestamp.wire().len());
                            }
                        }
                        match <QueueMessageInner as Wire>::decode(buf, p2) {
                            None => {
                                proof {
                                    assert forall|v: QueueMessage| !(v.wf() && prefix_of(buf@, pos as int, v.wire())) by {
                                        if v.wf() && prefix_of(buf@, pos as int, v.wire()) {
                                            lemma_queuemessage_split(buf@, pos as int, v);
                                            assert(p1 == pos + v.id.wire().len());
                                            assert(p2 == pos + v.id.wire().len() + v.timestamp.wire().len());
                                        }
                                    }
                                }
                                None
                            },
                            Some((x3, p3)) => {
                                let built = QueueMessage { id: x1, timestamp: x2, message: x3 };
                                proof {
                                    assert(buf@.subrange(pos as int, p2 as int) =~= buf@.subrange(pos as int, p1 as int) + buf@.subrange(p1 as int, p2 as int));
                                    assert(buf@.subrange(pos as int, p3 as int) =~= buf@.subrange(pos as int, p2 as int) + buf@.subrange(p2 as int, p3 as int));
                                    assert forall|v: QueueMessage| (v.wf() && prefix_of(buf@, pos as int, v.wire())) implies p3 == pos + v.wire().len() && built.wire() == v.wire() && v.veq(&built) by {
                                        lemma_queuemessage_split(buf@, pos as int, v);
                                        assert(p1 == pos + v.id.wire().len());
                                        assert(p2 == pos + v.id.wire().len() + v.timestamp.wire().len());
                                        assert(p3 == pos + v.id.wire().len() + v.timestamp.wire().len() + v.message.wire().len());
                                    }
                                }
                                Some((built, p3))
                            },
                        }
                    },
                }
            },
        }
    }
}

/// Splits a serialized `QPeerInfo` standing in a buffer into its parts.
#[verifier::rlimit(100)]
pub proof fn lemma_qpeerinfo_split(buf: Seq<u8>, pos: int, v: QPeerInfo)
    requires
        prefix_of(buf, pos, v.wire()),
    ensures
        prefix_of(buf, pos, v.psk.wire()),
        prefix_of(buf, pos + v.psk.wire().len(), v.addr.wire()),
        prefix_of(buf, pos + v.psk.wire().len() + v.addr.wire().len(), v.entity.wire()),
{
    lemma_concat_split(buf, pos, v.psk.wire() + v.addr.wire(), v.entity.wire());
    lemma_concat_split(buf, pos, v.psk.wire(), v.addr.wire());
}

impl Wire for QPeerInfo {
    open spec fn veq(&self, other: &Self) -> bool {
        *self == *other
    }

    open spec fn wire(&self) -> Seq<u8> {
        self.psk.wire() + self.addr.wire() + self.entity.wire()
    }

    open spec fn wf(&self) -> bool {
        self.psk.wf() && self.addr.wf() && self.entity.wf()
    }

    fn encode(&self, out: &mut Vec<u8>) {
        self.psk.encode(out);
        self.addr.encode(out);
        self.entity.encode(out);
        assert(out@ =~= old(out)@ + self.wire());
    }

    #[verifier::rlimit(100)]
    fn decode(buf: &[u8], pos: usize) -> (r: Option<(Self, usize)>)
        ensures
            forall|v: Self|
                #![trigger v.wire()]
                v.wf() && prefix_of(buf@, pos as int, v.wire()) ==> r == Some(
                    (v, (pos + v.wire().len()) as usize),
                ),
    {
        proof {
            assert forall|v: QPeerInfo| (v.wf() && prefix_of(buf@, pos as int, v.wire())) implies (v.psk.wf() && prefix_of(buf@, pos as int, v.psk.wire())) by {
                lemma_qpeerinfo_split(buf@, pos as int, v);
            }
        }
        match <PubSigKey as Wire>::decode(buf, pos) {
            None => {
                proof {
                    assert forall|v: QPeerInfo| !(v.wf() && prefix_of(buf@, pos as int, v.wire())) by {
                        if v.wf() && prefix_of(buf@, pos as int, v.wire()) {
                            lemma_qpeerinfo_split(buf@, pos as int, v);
                        }
                    }
                }
                None
            },
            Some((x1, p1)) => {
                proof {
                    assert forall|v: QPeerInfo| (v.wf() && prefix_of(buf@, pos as int, v.wire())) implies (v.addr.wf() && prefix_of(buf@, p1 as int, v.addr.wire())) by {
                        lemma_qpeerinfo_split(buf@, pos as int, v);
                        assert(p1 == pos + v.psk.wire().len());
                    }
                }
                match <Obfuscated as Wire>::decode(buf, p1) {
                    None => {
                        proof {
                            assert forall|v: QPeerInfo| !(v.wf() && prefix_of(buf@, pos as int, v.wire())) by {
                                if v.wf() && prefix_of(buf@, pos as int, v.wire()) {
                                    lemma_qpeerinfo_split(buf@, pos as int, v);
                                    assert(p1 == pos + v.psk.wire().len());
                                }
                            }
                        }
                        None
                    },
                    Some((x2, p2)) => {
                        proof {
                            assert forall|v: QPeerInfo| (v.wf() && prefix_of(buf@, pos as int, v.wire())) implies (v.entity.wf() && prefix_of(buf@, p2 as int, v.entity.wire())) by {
                                lemma_qpeerinfo_split(buf@, pos as int, v);
                                assert(p1 == pos + v.psk.wire().len());
                                assert(p2 == pos + v.psk.wire().len() + v.addr.wire().len());
                            }
                        }
                        match <Entity as Wire>::decode(buf, p2) {
                            None => {
                                proof {
                                    assert forall|v: QPeerInfo| !(v.wf() && prefix_of(buf@, pos as int, v.wire())) by {
                                        if v.wf() && prefix_of(buf@, pos as int, v.wire()) {
                                            lemma_qpeerinfo_split(buf@, pos as int, v);
                                            assert(p1 == pos + v.psk.wire().len());
                                            assert(p2 == pos + v.psk.wire().len() + v.addr.wire().len());
                                        }
                                    }
                                }
                                None
                            },
                            Some((x3, p3)) => {
                                let built = QPeerInfo { psk: x1, addr: x2, entity: x3 };
                                proof {
                                    assert(buf@.subrange(pos as int, p2 as int) =~= buf@.subrange(pos as int, p1 as int) + buf@.subrange(p1 as int, p2 as int));
                                    assert(buf@.subrange(pos as int, p3 as int) =~= buf@.subrange(pos as int, p2 as int) + buf@.subrange(p2 as int, p3 as int));
                                    assert forall|v: QPeerInfo| (v.wf() && prefix_of(buf@, pos as int, v.wire())) implies p3 == pos + v.wire().len() && built.wire() == v.wire() && built == v by {
                                        lemma_qpeerinfo_split(buf@, pos as int, v);
                                        assert(p1 == pos + v.psk.wire().len());
                                        assert(p2 == pos + v.psk.wire().len() + v.addr.wire().len());
                                        assert(p3 == pos + v.psk.wire().len() + v.addr.wire().len() + v.entity.wire().len());
                                    }
                                }
                                Some((built, p3))
                            },
                        }
                    },
                }
            },
        }
    }
}

/// Splits a serialized `QAnnouncement` standing in a buffer into its parts.
#[verifier::rlimit(100)]
pub proof fn lemma_qannouncement_split(buf: Seq<u8>, pos: int, v: QAnnouncement)
    requires
        prefix_of(buf, pos, v.wire()),
    ensures
        prefix_of(buf, pos, v.text.wire()),
        prefix_of(buf, pos + v.text.wire().len(), v.context.wire()),
{
    lemma_concat_split(buf, pos, v.text.wire(), v.context.wire());
}

impl Wire for QAnnouncement {
    open spec fn veq(&self, other: &Self) -> bool {
        self.text.veq(&other.text) && self.context.veq(&other.context)
    }

    open spec fn wire(&self) -> Seq<u8> {
        self.text.wire() + self.context.wire()
    }

    open spec fn wf(&self) -> bool {
        self.text.wf() && self.context.wf()
    }

    fn encode(&self, out: &mut Vec<u8>) {
        self.text.encode(out);
        self.context.encode(out);
        assert(out@ =~= old(out)@ + self.wire());
    }

    #[verifier::rlimit(100)]
    fn decode(buf: &[u8], pos: usize) -> (r: Option<(Self, usize)>) {
        proof {
            assert forall|v: QAnnouncement| (v.wf() && prefix_of(buf@, pos as int, v.wire())) implies (v.text.wf() && prefix_of(buf@, pos as int, v.text.wire())) by {
                lemma_qannouncement_split(buf@, pos as int, v);
            }
        }
        match <TextBytes as Wire>::decode(buf, pos) {
            None => {
                proof {
                    assert forall|v: QAnnouncement| !(v.wf() && prefix_of(buf@, pos as int, v.wire())) by {
                        if v.wf() && prefix_of(buf@, pos as int, v.wire()) {
                            lemma_qannouncement_split(buf@, pos as int, v);
                        }
                    }
                }
                None
            },
            Some((x1, p1)) => {
                proof {
                    assert forall|v: QAnnouncement| (v.wf() && prefix_of(buf@, pos as int, v.wire())) implies (v.context.wf() && prefix_of(buf@, p1 as int, v.context.wire())) by {
                        lemma_qannouncement_split(buf@, pos as int, v);
                        assert(p1 == pos + v.text.wire().len());
                    }
                }
                match <Option<u32> as Wire>::decode(buf, p1) {
                    None => {
                        proof {
                            assert forall|v: QAnnouncement| !(v.wf() && prefix_of(buf@, pos as int, v.wire())) by {
                                if v.wf() && prefix_of(buf@, pos as int, v.wire()) {
                                    lemma_qannouncement_split(buf@, pos as int, v);
                                    assert(p1 == pos + v.text.wire().len());
                                }
                            }
                        }
                        None
                    },
                    Some((x2, p2)) => {
                        let built = QAnnouncement { text: x1, context: x2 };
                        proof {
                            assert(buf@.subrange(pos as int, p2 as int) =~= buf@.subrange(pos as int, p1 as int) + buf@.subrange(p1 as int, p2 as int));
                            assert forall|v: QAnnouncement| (v.wf() && prefix_of(buf@, pos as int, v.wire())) implies p2 == pos + v.wire().len() && built.wire() == v.wire() && v.veq(&built) by {
                                lemma_qannouncement_split(buf@, pos as int, v);
                                assert(p1 == pos + v.text.wire().len());
                                assert(p2 == pos + v.text.wire().len() + v.context.wire().len());
                            }
                        }
                        Some((built, p2))
                    },
                }
            },
        }
    }
}

/// Splits a serialized `SubmissionId` standing in a buffer into its parts.
#[verifier::rlimit(100)]
pub proof fn lemma_submissionid_split(buf: Seq<u8>, pos: int, v: SubmissionId)
    requires
        prefix_of(buf, pos, v.wire()),
    ensures
        prefix_of(buf, pos, v.submitter.wire()),
        prefix_of(buf, pos + v.submitter.wire().len(), v.problem_id.wire()),
        prefix_of(buf, pos + v.submitter.wire().len() + v.problem_id.wire().len(), v.file_id.wire()),
{
    lemma_concat_split(buf, pos, v.submitter.wire() + v.problem_id.wire(), v.file_id.wire());
    lemma_concat_split(buf, pos, v.submitter.wire(), v.problem_id.wire());
}

impl Wire for SubmissionId {
    open spec fn veq(&self, other: &Self) -> bool {
        *self == *other
    }

    open spec fn wire(&self) -> Seq<u8> {
        self.submitter.wire() + self.problem_id.wire() + self.file_id.wire()
    }

    open spec fn wf(&self) -> bool {
        self.submitter.wf() && self.problem_id.wf() && self.file_id.wf()
    }

    fn encode(&self, out: &mut Vec<u8>) {
        self.submitter.encode(out);
        self.problem_id.encode(out);
        self.file_id.encode(out);
        assert(out@ =~= old(out)@ + self.wire());
    }

    #[verifier::rlimit(100)]
    fn decode(buf: &[u8], pos: usize) -> (r: Option<(Self, usize)>)
        ensures
            forall|v: Self|
                #![trigger v.wire()]
                v.wf() && prefix_of(buf@, pos as int, v.wire()) ==> r == Some(
                    (v, (pos + v.wire().len()) as usize),
                ),
    {
        proof {
            assert forall|v: SubmissionId| (v.wf() && prefix_of(buf@, pos as int, v.wire())) implies (v.submitter.wf() && prefix_of(buf@, pos as int, v.submitter.wire())) by {
                lemma_submissionid_split(buf@, pos as int, v);
            }
        }
        match <PubSigKey as Wire>::decode(buf, pos) {
            None => {
                proof {
                    assert forall|v: SubmissionId| !(v.wf() && prefix_of(buf@, pos as int, v.wire())) by {
                        if v.wf() && prefix_of(buf@, pos as int, v.wire()) {
                            lemma_submissionid_split(buf@, pos as int, v);
                        }
                    }
                }
                None
            },
            Some((x1, p1)) => {
                proof {
                    assert forall|v: SubmissionId| (v.wf() && prefix_of(buf@, pos as int, v.wire())) implies (v.problem_id.wf() && prefix_of(buf@, p1 as int, v.problem_id.wire())) by {
                        lemma_submissionid_split(buf@, pos as int, v);
                        assert(p1 == pos + v.submitter.wire().len());
                    }
                }
                match <u32 as Wire>::decode(buf, p1) {
                    None => {
                        proof {
                            assert forall|v: SubmissionId| !(v.wf() && prefix_of(buf@, pos as int, v.wire())) by {
                                if v.wf() && prefix_of(buf@, pos as int, v.wire()) {
                                    lemma_submissionid_split(buf@, pos as int, v);
                                    assert(p1 == pos + v.submitter.wire().len());
                                }
                            }
                        }
                        None
                    },
                    Some((x2, p2)) => {
                        proof {
                            assert forall|v: SubmissionId| (v.wf() && prefix_of(buf@, pos as int, v.wire())) implies (v.file_id.wf() && prefix_of(buf@, p2 as int, v.file_id.wire())) by {
                                lemma_submissionid_split(buf@, pos as int, v);
                                assert(p1 == pos + v.submitter.wire().len());
                                assert(p2 == pos + v.submitter.wire().len() + v.problem_id.wire().len());
                            }
                        }
                        match <Mac as Wire>::decode(buf, p2) {
                            None => {
                                proof {
                                    assert forall|v: SubmissionId| !(v.wf() && prefix_of(buf@, pos as int, v.wire())) by {
                                        if v.wf() && prefix_of(buf@, pos as int, v.wire()) {
                                            lemma_submissionid_split(buf@, pos as int, v);
                                            assert(p1 == pos + v.submitter.wire().len());
                                            assert(p2 == pos + v.submitter.wire().len() + v.problem_id.wire().len());
                                        }
                                    }
                                }
                                None
                            },
                            Some((x3, p3)) => {
                                let built = SubmissionId { submitter: x1, problem_id: x2, file_id: x3 };
                                proof {
                                    assert(buf@.subrange(pos as int, p2 as int) =~= buf@.subrange(pos as int, p1 as int) + buf@.subrange(p1 as int, p2 as int));
                                    assert(buf@.subrange(pos as int, p3 as int) =~= buf@.subrange(pos as int, p2 as int) + buf@.subrange(p2 as int, p3 as int));
                                    assert forall|v: SubmissionId| (v.wf() && prefix_of(buf@, pos as int, v.wire())) implies p3 == pos + v.wire().len() && built.wire() == v.wire() && built == v by {
                                        lemma_submissionid_split(buf@, pos as int, v);
                                        assert(p1 == pos + v.submitter.wire().len());
                                        assert(p2 == pos + v.submitter.wire().len() + v.problem_id.wire().len());
                                        assert(p3 == pos + v.submitter.wire().len() + v.problem_id.wire().len() + v.file_id.wire().len());
                                    }
                                }
                                Some((built, p3))
                            },
                        }
                    },
                }
            },
        }
    }
}

/// Splits a serialized `QEvaluationRequest` standing in a buffer into its parts.
#[verifier::rlimit(100)]
pub proof fn lemma_qevaluationrequest_split(buf: Seq<u8>, pos: int, v: QEvaluationRequest)
    requires
        prefix_of(buf, pos, v.wire()),
    ensures
        prefix_of(buf, pos, v.submission_id.wire()),
        prefix_of(buf, pos + v.submission_id.wire().len(), v.evaluators.wire()),
{
    lemma_concat_split(buf, pos, v.submission_id.wire(), v.evaluators.wire());
}

impl Wire for QEvaluationRequest {
    open spec fn veq(&self, other: &Self) -> bool {
        self.submission_id.veq(&other.submission_id) && self.evaluators.veq(&other.evaluators)
    }

    open spec fn wire(&self) -> Seq<u8> {
        self.submission_id.wire() + self.evaluators.wire()
    }

    open spec fn wf(&self) -> bool {
        self.submission_id.wf() && self.evaluators.wf()
    }

    fn encode(&self, out: &mut Vec<u8>) {
        self.submission_id.encode(out);
        self.evaluators.encode(out);
        assert(out@ =~= old(out)@ + self.wire());
    }

    #[verifier::rlimit(100)]
    fn decode(buf: &[u8], pos: usize) -> (r: Option<(Self, usize)>) {
        proof {
            assert forall|v: QEvaluationRequest| (v.wf() && prefix_of(buf@, pos as int, v.wire())) implies (v.submission_id.wf() && prefix_of(buf@, pos as int, v.submission_id.wire())) by {
                lemma_qevaluationrequest_split(buf@, pos as int, v);
            }
        }
        match <SubmissionId as Wire>::decode(buf, pos) {
            None => {
                proof {
                    assert forall|v: QEvaluationRequest| !(v.wf() && prefix_of(buf@, pos as int, v.wire())) by {
                        if v.wf() && prefix_of(buf@, pos as int, v.wire()) {
                            lemma_qevaluationrequest_split(buf@, pos as int, v);
                        }
                    }
                }
                None
            },
            Some((x1, p1)) => {
                proof {
                    assert forall|v: QEvaluationRequest| (v.wf() && prefix_of(buf@, pos as int, v.wire())) implies (v.evaluators.wf() && prefix_of(buf@, p1 as int, v.evaluators.wire())) by {
                        lemma_qevaluationrequest_split(buf@, pos as int, v);
                        assert(p1 == pos + v.submission_id.wire().len());
                    }
                }
                match <Vec<PubSigKey> as Wire>::decode(buf, p1) {
                    None => {
                        proof {
                            assert forall|v: QEvaluationRequest| !(v.wf() && prefix_of(buf@, pos as int, v.wire())) by {
                                if v.wf() && prefix_of(buf@, pos as int, v.wire()) {
                                    lemma_qevaluationrequest_split(buf@, pos as int, v);
                                    assert(p1 == pos + v.submission_id.wire().len());
                                }
                            }
                        }
                        None
                    },
                    Some((x2, p2)) => {
                        let built = QEvaluationRequest { submission_id: x1, evaluators: x2 };
                        proof {
                            assert(buf@.subrange(pos as int, p2 as int) =~= buf@.subrange(pos as int, p1 as int) + buf@.subrange(p1 as int, p2 as int));
                            assert forall|v: QEvaluationRequest| (v.wf() && prefix_of(buf@, pos as int, v.wire())) implies p2 == pos + v.wire().len() && built.wire() == v.wire() && v.veq(&built) by {
                                lemma_qevaluationrequest_split(buf@, pos as int, v);
                                assert(p1 == pos + v.submission_id.wire().len());
                                assert(p2 == pos + v.submission_id.wire().len() + v.evaluators.wire().len());
                            }
                        }
                        Some((built, p2))
                    },
                }
            },
        }
    }
}

/// Splits a serialized `QSubmission` standing in a buffer into its parts.
#[verifier::rlimit(100)]
pub proof fn lemma_qsubmission_split(buf: Seq<u8>, pos: int, v: QSubmission)
    requires
        prefix_of(buf, pos, v.wire()),
    ensures
        prefix_of(buf, pos, v.submitter.wire()),
        prefix_of(buf, pos + v.submitter.wire().len(), v.problem_id.wire()),
        prefix_of(buf, pos + v.submitter.wire().len() + v.problem_id.wire().len(), v.file_desc.wire()),
{
    lemma_concat_split(buf, pos, v.submitter.wire() + v.problem_id.wire(), v.file_desc.wire());
    lemma_concat_split(buf, pos, v.submitter.wire(), v.problem_id.wire());
}

impl Wire for QSubmission {
    open spec fn veq(&self, other: &Self) -> bool {
        self.submitter.veq(&other.submitter) && self.problem_id.veq(&other.problem_id) && self.file_desc.veq(&other.file_desc)
    }

    open spec fn wire(&self) -> Seq<u8> {
        self.submitter.wire() + self.problem_id.wire() + self.file_desc.wire()
    }

    open spec fn wf(&self) -> bool {
        self.submitter.wf() && self.problem_id.wf() && self.file_desc.wf()
    }

    fn encode(&self, out: &mut Vec<u8>) {
        self.submitter.encode(out);
        self.problem_id.encode(out);
        self.file_desc.encode(out);
        assert(out@ =~= old(out)@ + self.wire());
    }

    #[verifier::rlimit(100)]
    fn decode(buf: &[u8], pos: usize) -> (r: Option<(Self, usize)>) {
        proof {
            assert forall|v: QSubmission| (v.wf() && prefix_of(buf@, pos as int, v.wire())) implies (v.submitter.wf() && prefix_of(buf@, pos as int, v.submitter.wire())) by {
                lemma_qsubmission_split(buf@, pos as int, v);
            }
        }
        match <PubSigKey as Wire>::decode(buf, pos) {
            None => {
                proof {
                    assert forall|v: QSubmission| !(v.wf() && prefix_of(buf@, pos as int, v.wire())) by {
                        if v.wf() && prefix_of(buf@, pos as int, v.wire()) {
                            lemma_qsubmission_split(buf@, pos as int, v);
                        }
                    }
                }
                None
            },
            Some((x1, p1)) => {
                proof {
                    assert forall|v: QSubmission| (v.wf() && prefix_of(buf@, pos as int, v.wire())) implies (v.problem_id.wf() && prefix_of(buf@, p1 as int, v.problem_id.wire())) by {
                        lemma_qsubmission_split(buf@, pos as int, v);
                        assert(p1 == pos + v.submitter.wire().len());
                    }
                }
                match <u32 as Wire>::decode(buf, p1) {
                    None => {
                        proof {
                            assert forall|v: QSubmission| !(v.wf() && prefix_of(buf@, pos as int, v.wire())) by {
                                if v.wf() && prefix_of(buf@, pos as int, v.wire()) {
                                    lemma_qsubmission_split(buf@, pos as int, v);
                                    assert(p1 == pos + v.submitter.wire().len());
                                }
                            }
                        }
                        None
                    },
                    Some((x2, p2)) => {
                        proof {
                            assert forall|v: QSubmission| (v.wf() && prefix_of(buf@, pos as int, v.wire())) implies (v.file_desc.wf() && prefix_of(buf@, p2 as int, v.file_desc.wire())) by {
                                lemma_qsubmission_split(buf@, pos as int, v);
                                assert(p1 == pos + v.submitter.wire().len());
                                assert(p2 == pos + v.submitter.wire().len() + v.problem_id.wire().len());
                            }
                        }
                        match <QFileDesc as Wire>::decode(buf, p2) {
                            None => {
                                proof {
                                    assert forall|v: QSubmission| !(v.wf() && prefix_of(buf@, pos as int, v.wire())) by {
                                        if v.wf() && prefix_of(buf@, pos as int, v.wire()) {
                                            lemma_qsubmission_split(buf@, pos as int, v);
                                            assert(p1 == pos + v.submitter.wire().len());
                                            assert(p2 == pos + v.submitter.wire().len() + v.problem_id.wire().len());
                                        }
                                    }
                                }
                                None
                            },
                            Some((x3, p3)) => {
                                let built = QSubmission { submitter: x1, problem_id: x2, file_desc: x3 };
                                proof {
                                    assert(buf@.subrange(pos as int, p2 as int) =~= buf@.subrange(pos as int, p1 as int) + buf@.subrange(p1 as int, p2 as int));
                                    assert(buf@.subrange(pos as int, p3 as int) =~= buf@.subrange(pos as int, p2 as int) + buf@.subrange(p2 as int, p3 as int));
                                    assert forall|v: QSubmission| (v.wf() && prefix_of(buf@, pos as int, v.wire())) implies p3 == pos + v.wire().len() && built.wire() == v.wire() && v.veq(&built) by {
                                        lemma_qsubmission_split(buf@, pos as int, v);
                                        assert(p1 == pos + v.submitter.wire().len());
                                        assert(p2 == pos + v.submitter.wire().len() + v.problem_id.wire().len());
                                        assert(p3 == pos + v.submitter.wire().len() + v.problem_id.wire().len() + v.file_desc.wire().len());
                                    }
                                }
                                Some((built, p3))
                            },
                        }
                    },
                }
            },
        }
    }
}

/// Splits a serialized `EvaluationId` standing in a buffer into its parts.
#[verifier::rlimit(100)]
pub proof fn lemma_evaluationid_split(buf: Seq<u8>, pos: int, v: EvaluationId)
    requires
        prefix_of(buf, pos, v.wire()),
    ensures
        prefix_of(buf, pos, v.submission_id.wire()),
        prefix_of(buf, pos + v.submission_id.wire().len(), v.evaluator.wire()),
{
    lemma_concat_split(buf, pos, v.submission_id.wire(), v.evaluator.wire());
}

impl Wire for EvaluationId {
    open spec fn veq(&self, other: &Self) -> bool {
        *self == *other
    }

    open spec fn wire(&self) -> Seq<u8> {
        self.submission_id.wire() + self.evaluator.wire()
    }

    open spec fn wf(&self) -> bool {
        self.submission_id.wf() && self.evaluator.wf()
    }

    fn encode(&self, out: &mut Vec<u8>) {
        self.submission_id.encode(out);
        self.evaluator.encode(out);
        assert(out@ =~= old(out)@ + self.wire());
    }

    #[verifier::rlimit(100)]
    fn decode(buf: &[u8], pos: usize) -> (r: Option<(Self, usize)>)
        ensures
            forall|v: Self|
                #![trigger v.wire()]
                v.wf() && prefix_of(buf@, pos as int, v.wire()) ==> r == Some(
                    (v, (pos + v.wire().len()) as usize),
                ),
    {
        proof {
            assert forall|v: EvaluationId| (v.wf() && prefix_of(buf@, pos as int, v.wire())) implies (v.submission_id.wf() && prefix_of(buf@, pos as int, v.submission_id.wire())) by {
                lemma_evaluationid_split(buf@, pos as int, v);
            }
        }
        match <SubmissionId as Wire>::decode(buf, pos) {
            None => {
                proof {
                    assert forall|v: EvaluationId| !(v.wf() && prefix_of(buf@, pos as int, v.wire())) by {
                        if v.wf() && prefix_of(buf@, pos as int, v.wire()) {
                            lemma_evaluationid_split(buf@, pos as int, v);
                        }
                    }
                }
                None
            },
            Some((x1, p1)) => {
                proof {
                    assert forall|v: EvaluationId| (v.wf() && prefix_of(buf@, pos as int, v.wire())) implies (v.evaluator.wf() && prefix_of(buf@, p1 as int, v.evaluator.wire())) by {
                        lemma_evaluationid_split(buf@, pos as int, v);
                        assert(p1 == pos + v.submission_id.wire().len());
                    }
                }
                match <PubSigKey as Wire>::decode(buf, p1) {
                    None => {
                        proof {
                            assert forall|v: EvaluationId| !(v.wf() && prefix_of(buf@, pos as int, v.wire())) by {
                                if v.wf() && prefix_of(buf@, pos as int, v.wire()) {
                                    lemma_evaluationid_split(buf@, pos as int, v);
                                    assert(p1 == pos + v.submission_id.wire().len());
                                }
                            }
                        }
                        None
                    },
                    Some((x2, p2)) => {
                        let built = EvaluationId { submission_id: x1, evaluator: x2 };
                        proof {
                            assert(buf@.subrange(pos as int, p2 as int) =~= buf@.subrange(pos as int, p1 as int) + buf@.subrange(p1 as int, p2 as int));
                            assert forall|v: EvaluationId| (v.wf() && prefix_of(buf@, pos as int, v.wire())) implies p2 == pos + v.wire().len() && built.wire() == v.wire() && built == v by {
                                lemma_evaluationid_split(buf@, pos as int, v);
                                assert(p1 == pos + v.submission_id.wire().len());
                                assert(p2 == pos + v.submission_id.wire().len() + v.evaluator.wire().len());
                            }
                        }
                        Some((built, p2))
                    },
                }
            },
        }
    }
}

/// Splits a serialized `QEvaluation` standing in a buffer into its parts.
#[verifier::rlimit(100)]
pub proof fn lemma_qevaluation_split(buf: Seq<u8>, pos: int, v: QEvaluation)
    requires
        prefix_of(buf, pos, v.wire()),
    ensures
        prefix_of(buf, pos, v.evaluation_id.wire()),
        prefix_of(buf, pos + v.evaluation_id.wire().len(), v.score.wire()),
        prefix_of(buf, pos + v.evaluation_id.wire().len() + v.score.wire().len(), v.detailhs_hash.wire()),
{
    lemma_concat_split(buf, pos, v.evaluation_id.wire() + v.score.wire(), v.detailhs_hash.wire());
    lemma_concat_split(buf, pos, v.evaluation_id.wire(), v.score.wire());
}

impl Wire for QEvaluation {
    open spec fn veq(&self, other: &Self) -> bool {
        *self == *other
    }

    open spec fn wire(&self) -> Seq<u8> {
        self.evaluation_id.wire() + self.score.wire() + self.detailhs_hash.wire()
    }

    open spec fn wf(&self) -> bool {
        self.evaluation_id.wf() && self.score.wf() && self.detailhs_hash.wf()
    }

    fn encode(&self, out: &mut Vec<u8>) {
        self.evaluation_id.encode(out);
        self.score.encode(out);
        self.detailhs_hash.encode(out);
        assert(out@ =~= old(out)@ + self.wire());
    }

    #[verifier::rlimit(100)]
    fn decode(buf: &[u8], pos: usize) -> (r: Option<(Self, usize)>)
        ensures
            forall|v: Self|
                #![trigger v.wire()]
                v.wf() && prefix_of(buf@, pos as int, v.wire()) ==> r == Some(
                    (v, (pos + v.wire().len()) as usize),
                ),
    {
        proof {
            assert forall|v: QEvaluation| (v.wf() && prefix_of(buf@, pos as int, v.wire())) implies (v.evaluation_id.wf() && prefix_of(buf@, pos as int, v.evaluation_id.wire())) by {
                lemma_qevaluation_split(buf@, pos as int, v);
            }
        }
        match <EvaluationId as Wire>::decode(buf, pos) {
            None => {
                proof {
                    assert forall|v: QEvaluation| !(v.wf() && prefix_of(buf@, pos as int, v.wire())) by {
                        if v.wf() && prefix_of(buf@, pos as int, v.wire()) {
                            lemma_qevaluation_split(buf@, pos as int, v);
                        }
                    }
                }
                None
            },
            Some((x1, p1)) => {
                proof {
                    assert forall|v: QEvaluation| (v.wf() && prefix_of(buf@, pos as int, v.wire())) implies (v.score.wf() && prefix_of(buf@, p1 as int, v.score.wire())) by {
                        lemma_qevaluation_split(buf@, pos as int, v);
                        assert(p1 == pos + v.evaluation_id.wire().len());
                    }
                }
                match <SubScore as Wire>::decode(buf, p1) {
                    None => {
                        proof {
                            assert forall|v: QEvaluation| !(v.wf() && prefix_of(buf@, pos as int, v.wire())) by {
                                if v.wf() && prefix_of(buf@, pos as int, v.wire()) {
                                    lemma_qevaluation_split(buf@, pos as int, v);
                                    assert(p1 == pos + v.evaluation_id.wire().len());
                                }
                            }
                        }
                        None
                    },
                    Some((x2, p2)) => {
                        proof {
                            assert forall|v: QEvaluation| (v.wf() && prefix_of(buf@, pos as int, v.wire())) implies (v.detailhs_hash.wf() && prefix_of(buf@, p2 as int, v.detailhs_hash.wire())) by {
                                lemma_qevaluation_split(buf@, pos as int, v);
                                assert(p1 == pos + v.evaluation_id.wire().len());
                                assert(p2 == pos + v.evaluation_id.wire().len() + v.score.wire().len());
                            }
                        }
                        match <Mac as Wire>::decode(buf, p2) {
                            None => {
                                proof {
                                    assert forall|v: QEvaluation| !(v.wf() && prefix_of(buf@, pos as int, v.wire())) by {
                                        if v.wf() && prefix_of(buf@, pos as int, v.wire()) {
                                            lemma_qevaluation_split(buf@, pos as int, v);
                                            assert(p1 == pos + v.evaluation_id.wire().len());
                                            assert(p2 == pos + v.evaluation_id.wire().len() + v.score.wire().len());
                                        }
                                    }
                                }
                                None
                            },
                            Some((x3, p3)) => {
                                let built = QEvaluation { evaluation_id: x1, score: x2, detailhs_hash: x3 };
                                proof {
                                    assert(buf@.subrange(pos as int, p2 as int) =~= buf@.subrange(pos as int, p1 as int) + buf@.subrange(p1 as int, p2 as int));
                                    assert(buf@.subrange(pos as int, p3 as int) =~= buf@.subrange(pos as int, p2 as int) + buf@.subrange(p2 as int, p3 as int));
                                    assert forall|v: QEvaluation| (v.wf() && prefix_of(buf@, pos as int, v.wire())) implies p3 == pos + v.wire().len() && built.wire() == v.wire() && built == v by {
                                        lemma_qevaluation_split(buf@, pos as int, v);
                                        assert(p1 == pos + v.evaluation_id.wire().len());
                                        assert(p2 == pos + v.evaluation_id.wire().len() + v.score.wire().len());
                                        assert(p3 == pos + v.evaluation_id.wire().len() + v.score.wire().len() + v.detailhs_hash.wire().len());
                                    }
                                }
                                Some((built, p3))
                            },
                        }
                    },
                }
            },
        }
    }
}

/// Splits a serialized `QEvaluationProof` standing in a buffer into its parts.
#[verifier::rlimit(100)]
pub proof fn lemma_qevaluationproof_split(buf: Seq<u8>, pos: int, v: QEvaluationProof)
    requires
        prefix_of(buf, pos, v.wire()),
    ensures
        prefix_of(buf, pos, v.evaluation_id.wire()),
        prefix_of(buf, pos + v.evaluation_id.wire().len(), v.detailhs.wire()),
{
    lemma_concat_split(buf, pos, v.evaluation_id.wire(), v.detailhs.wire());
}

impl Wire for QEvaluationProof {
    open spec fn veq(&self, other: &Self) -> bool {
        *self == *other
    }

    open spec fn wire(&self) -> Seq<u8> {
        self.evaluation_id.wire() + self.detailhs.wire()
    }

    open spec fn wf(&self) -> bool {
        self.evaluation_id.wf() && self.detailhs.wf()
    }

    fn encode(&self, out: &mut Vec<u8>) {
        self.evaluation_id.encode(out);
        self.detailhs.encode(out);
        assert(out@ =~= old(out)@ + self.wire());
    }

    #[verifier::rlimit(100)]
    fn decode(buf: &[u8], pos: usize) -> (r: Option<(Self, usize)>)
        ensures
            forall|v: Self|
                #![trigger v.wire()]
                v.wf() && prefix_of(buf@, pos as int, v.wire()) ==> r == Some(
                    (v, (pos + v.wire().len()) as usize),
                ),
    {
        proof {
            assert forall|v: QEvaluationProof| (v.wf() && prefix_of(buf@, pos as int, v.wire())) implies (v.evaluation_id.wf() && prefix_of(buf@, pos as int, v.evaluation_id.wire())) by {
                lemma_qevaluationproof_split(buf@, pos as int, v);
            }
        }
        match <EvaluationId as Wire>::decode(buf, pos) {
            None => {
                proof {
                    assert forall|v: QEvaluationProof| !(v.wf() && prefix_of(buf@, pos as int, v.wire())) by {
                        if v.wf() && prefix_of(buf@, pos as int, v.wire()) {
                            lemma_qevaluationproof_split(buf@, pos as int, v);
                        }
                    }
                }
                None
            },
            Some((x1, p1)) => {
                proof {
                    assert forall|v: QEvaluationProof| (v.wf() && prefix_of(buf@, pos as int, v.wire())) implies (v.detailhs.wf() && prefix_of(buf@, p1 as int, v.detailhs.wire())) by {
                        lemma_qevaluationproof_split(buf@, pos as int, v);
                        assert(p1 == pos + v.evaluation_id.wire().len());
                    }
                }
                match <Mac as Wire>::decode(buf, p1) {
                    None => {
                        proof {
                            assert forall|v: QEvaluationProof| !(v.wf() && prefix_of(buf@, pos as int, v.wire())) by {
                                if v.wf() && prefix_of(buf@, pos as int, v.wire()) {
                                    lemma_qevaluationproof_split(buf@, pos as int, v);
                                    assert(p1 == pos + v.evaluation_id.wire().len());
                                }
                            }
                        }
                        None
                    },
                    Some((x2, p2)) => {
                        let built = QEvaluationProof { evaluation_id: x1, detailhs: x2 };
                        proof {
                            assert(buf@.subrange(pos as int, p2 as int) =~= buf@.subrange(pos as int, p1 as int) + buf@.subrange(p1 as int, p2 as int));
                            assert forall|v: QEvaluationProof| (v.wf() && prefix_of(buf@, pos as int, v.wire())) implies p2 == pos + v.wire().len() && built.wire() == v.wire() && built == v by {
                                lemma_qevaluationproof_split(buf@, pos as int, v);
                                assert(p1 == pos + v.evaluation_id.wire().len());
                                assert(p2 == pos + v.evaluation_id.wire().len() + v.detailhs.wire().len());
                            }
                        }
                        Some((built, p2))
                    },
                }
            },
        }
    }
}

/// Splits a serialized `EncKeyInfo` standing in a buffer into its parts.
#[verifier::rlimit(100)]
pub proof fn lemma_enckeyinfo_split(buf: Seq<u8>, pos: int, v: EncKeyInfo)
    requires
        prefix_of(buf, pos, v.wire()),
    ensures
        prefix_of(buf, pos, v.id.wire()),
        prefix_of(buf, pos + v.id.wire().len(), v.key.wire()),
{
    lemma_concat_split(buf, pos, v.id.wire(), v.key.wire());
}

impl Wire for EncKeyInfo {
    open spec fn veq(&self, other: &Self) -> bool {
        self.id.veq(&other.id) && self.key.veq(&other.key)
    }

    open spec fn wire(&self) -> Seq<u8> {
        self.id.wire() + self.key.wire()
    }

    open spec fn wf(&self) -> bool {
        self.id.wf() && self.key.wf()
    }

    fn encode(&self, out: &mut Vec<u8>) {
        self.id.encode(out);
        self.key.encode(out);
        assert(out@ =~= old(out)@ + self.wire());
    }

    #[verifier::rlimit(100)]
    fn decode(buf: &[u8], pos: usize) -> (r: Option<(Self, usize)>) {
        proof {
            assert forall|v: EncKeyInfo| (v.wf() && prefix_of(buf@, pos as int, v.wire())) implies (v.id.wf() && prefix_of(buf@, pos as int, v.id.wire())) by {
                lemma_enckeyinfo_split(buf@, pos as int, v);
            }
        }
        match <EncKeyId as Wire>::decode(buf, pos) {
            None => {
                proof {
                    assert forall|v: EncKeyInfo| !(v.wf() && prefix_of(buf@, pos as int, v.wire())) by {
                        if v.wf() && prefix_of(buf@, pos as int, v.wire()) {
                            lemma_enckeyinfo_split(buf@, pos as int, v);
                        }
                    }
                }
                None
            },
            Some((x1, p1)) => {
                proof {
                    assert forall|v: EncKeyInfo| (v.wf() && prefix_of(buf@, pos as int, v.wire())) implies (v.key.wf() && prefix_of(buf@, p1 as int, v.key.wire())) by {
                        lemma_enckeyinfo_split(buf@, pos as int, v);
                        assert(p1 == pos + v.id.wire().len());
                    }
                }
                match <EncKey as Wire>::decode(buf, p1) {
                    None => {
                        proof {
                            assert forall|v: EncKeyInfo| !(v.wf() && prefix_of(buf@, pos as int, v.wire())) by {
                                if v.wf() && prefix_of(buf@, pos as int, v.wire()) {
                                    lemma_enckeyinfo_split(buf@, pos as int, v);
                                    assert(p1 == pos + v.id.wire().len());
                                }
                            }
                        }
                        None
                    },
                    Some((x2, p2)) => {
                        let built = EncKeyInfo { id: x1, key: x2 };
                        proof {
                            assert(buf@.subrange(pos as int, p2 as int) =~= buf@.subrange(pos as int, p1 as int) + buf@.subrange(p1 as int, p2 as int));
                            assert forall|v: EncKeyInfo| (v.wf() && prefix_of(buf@, pos as int, v.wire())) implies p2 == pos + v.wire().len() && built.wire() == v.wire() && v.veq(&built) by {
                                lemma_enckeyinfo_split(buf@, pos as int, v);
                                assert(p1 == pos + v.id.wire().len());
                                assert(p2 == pos + v.id.wire().len() + v.key.wire().len());
                            }
                        }
                        Some((built, p2))
                    },
                }
            },
        }
    }
}

/// Splits a serialized `QProblemDesc` standing in a buffer into its parts.
#[verifier::rlimit(100)]
pub proof fn lemma_qproblemdesc_split(buf: Seq<u8>, pos: int, v: QProblemDesc)
    requires
        prefix_of(buf, pos, v.wire()),
    ensures
        prefix_of(buf, pos, v.id.wire()),
        prefix_of(buf, pos + v.id.wire().len(), v.statement.wire()),
        prefix_of(buf, pos + v.id.wire().len() + v.statement.wire().len(), v.generator_file.wire()),
        prefix_of(buf, pos + v.id.wire().len() + v.statement.wire().len() + v.generator_file.wire().len(), v.scorer_file.wire()),
        prefix_of(buf, pos + v.id.wire().len() + v.statement.wire().len() + v.generator_file.wire().len() + v.scorer_file.wire().len(), v.n_testcases.wire()),
{
    lemma_concat_split(buf, pos, v.id.wire() + v.statement.wire() + v.generator_file.wire() + v.scorer_file.wire(), v.n_testcases.wire());
    lemma_concat_split(buf, pos, v.id.wire() + v.statement.wire() + v.generator_file.wire(), v.scorer_file.wire());
    lemma_concat_split(buf, pos, v.id.wire() + v.statement.wire(), v.generator_file.wire());
    lemma_concat_split(buf, pos, v.id.wire(), v.statement.wire());
}

impl Wire for QProblemDesc {
    open spec fn veq(&self, other: &Self) -> bool {
        self.id.veq(&other.id) && self.statement.veq(&other.statement) && self.generator_file.veq(&other.generator_file) && self.scorer_file.veq(&other.scorer_file) && self.n_testcases.veq(&other.n_testcases)
    }

    open spec fn wire(&self) -> Seq<u8> {
        self.id.wire() + self.statement.wire() + self.generator_file.wire() + self.scorer_file.wire() + self.n_testcases.wire()
    }

    open spec fn wf(&self) -> bool {
        self.id.wf() && self.statement.wf() && self.generator_file.wf() && self.scorer_file.wf() && self.n_testcases.wf()
    }

    fn encode(&self, out: &mut Vec<u8>) {
        self.id.encode(out);
        self.statement.encode(out);
        self.generator_file.encode(out);
        self.scorer_file.encode(out);
        self.n_testcases.encode(out);
        assert(out@ =~= old(out)@ + self.wire());
    }

    #[verifier::rlimit(100)]
    fn decode(buf: &[u8], pos: usize) -> (r: Option<(Self, usize)>) {
        proof {
            assert forall|v: QProblemDesc| (v.wf() && prefix_of(buf@, pos as int, v.wire())) implies (v.id.wf() && prefix_of(buf@, pos as int, v.id.wire())) by {
                lemma_qproblemdesc_split(buf@, pos as int, v);
            }
        }
        match <u32 as Wire>::decode(buf, pos) {
            None => {
                proof {
                    assert forall|v: QProblemDesc| !(v.wf() && prefix_of(buf@, pos as int, v.wire())) by {
                        if v.wf() && prefix_of(buf@, pos as int, v.wire()) {
                            lemma_qproblemdesc_split(buf@, pos as int, v);
                        }
                    }
                }
                None
            },
            Some((x1, p1)) => {
                proof {
                    assert forall|v: QProblemDesc| (v.wf() && prefix_of(buf@, pos as int, v.wire())) implies (v.statement.wf() && prefix_of(buf@, p1 as int, v.statement.wire())) by {
                        lemma_qproblemdesc_split(buf@, pos as int, v);
                        assert(p1 == pos + v.id.wire().len());
                    }
                }
                match <QFileDesc as Wire>::decode(buf, p1) {
                    None => {
                        proof {
                            assert forall|v: QProblemDesc| !(v.wf() && prefix_of(buf@, pos as int, v.wire())) by {
                                if v.wf() && prefix_of(buf@, pos as int, v.wire()) {
                                    lemma_qproblemdesc_split(buf@, pos as int, v);
                                    assert(p1 == pos + v.id.wire().len());
                                }
                            }
                        }
                        None
                    },
                    Some((x2, p2)) => {
                        proof {
                            assert forall|v: QProblemDesc| (v.wf() && prefix_of(buf@, pos as int, v.wire())) implies (v.generator_file.wf() && prefix_of(buf@, p2 as int, v.generator_file.wire())) by {
                                lemma_qproblemdesc_split(buf@, pos as int, v);
                                assert(p1 == pos + v.id.wire().len());
                                assert(p2 == pos + v.id.wire().len() + v.statement.wire().len());
                            }
                        }
                        match <QFileDesc as Wire>::decode(buf, p2) {
                            None => {
                                proof {
                                    assert forall|v: QProblemDesc| !(v.wf() && prefix_of(buf@, pos as int, v.wire())) by {
                                        if v.wf() && prefix_of(buf@, pos as int, v.wire()) {
                                            lemma_qproblemdesc_split(buf@, pos as int, v);
                                            assert(p1 == pos + v.id.wire().len());
                                            assert(p2 == pos + v.id.wire().len() + v.statement.wire().len());
                                        }
                                    }
                                }
                                None
                            },
                            Some((x3, p3)) => {
                                proof {
                                    assert forall|v: QProblemDesc| (v.wf() && prefix_of(buf@, pos as int, v.wire())) implies (v.scorer_file.wf() && prefix_of(buf@, p3 as int, v.scorer_file.wire())) by {
                                        lemma_qproblemdesc_split(buf@, pos as int, v);
                                        assert(p1 == pos + v.id.wire().len());
                                        assert(p2 == pos + v.id.wire().len() + v.statement.wire().len());
                                        assert(p3 == pos + v.id.wire().len() + v.statement.wire().len() + v.generator_file.wire().len());
                                    }
                                }
                                match <QFileDesc as Wire>::decode(buf, p3) {
                                    None => {
                                        proof {
                                            assert forall|v: QProblemDesc| !(v.wf() && prefix_of(buf@, pos as int, v.wire())) by {
                                                if v.wf() && prefix_of(buf@, pos as int, v.wire()) {
                                                    lemma_qproblemdesc_split(buf@, pos as int, v);
                                                    assert(p1 == pos + v.id.wire().len());
                                                    assert(p2 == pos + v.id.wire().len() + v.statement.wire().len());
                                                    assert(p3 == pos + v.id.wire().len() + v.statement.wire().len() + v.generator_file.wire().len());
                                                }
                                            }
                                        }
                                        None
                                    },
                                    Some((x4, p4)) => {
                                        proof {
                                            assert forall|v: QProblemDesc| (v.wf() && prefix_of(buf@, pos as int, v.wire())) implies (v.n_testcases.wf() && prefix_of(buf@, p4 as int, v.n_testcases.wire())) by {
                                                lemma_qproblemdesc_split(buf@, pos as int, v);
                                                assert(p1 == pos + v.id.wire().len());
                                                assert(p2 == pos + v.id.wire().len() + v.statement.wire().len());
                                                assert(p3 == pos + v.id.wire().len() + v.statement.wire().len() + v.generator_file.wire().len());
                                                assert(p4 == pos + v.id.wire().len() + v.statement.wire().len() + v.generator_file.wire().len() + v.scorer_file.wire().len());
                                            }
                                        }
                                        match <u32 as Wire>::decode(buf, p4) {
                                            None => {
                                                proof {
                                                    assert forall|v: QProblemDesc| !(v.wf() && prefix_of(buf@, pos as int, v.wire())) by {
                                                        if v.wf() && prefix_of(buf@, pos as int, v.wire()) {
                                                            lemma_qproblemdesc_split(buf@, pos as int, v);
                                                            assert(p1 == pos + v.id.wire().len());
                                                            assert(p2 == pos + v.id.wire().len() + v.statement.wire().len());
                                                            assert(p3 == pos + v.id.wire().len() + v.statement.wire().len() + v.generator_file.wire().len());
                                                            assert(p4 == pos + v.id.wire().len() + v.statement.wire().len() + v.generator_file.wire().len() + v.scorer_file.wire().len());
                                                        }
                                                    }
                                                }
                                                None
                                            },
                                            Some((x5, p5)) => {
                                                let built = QProblemDesc { id: x1, statement: x2, generator_file: x3, scorer_file: x4, n_testcases: x5 };
                                                proof {
                                                    assert(buf@.subrange(pos as int, p2 as int) =~= buf@.subrange(pos as int, p1 as int) + buf@.subrange(p1 as int, p2 as int));
                                                    assert(buf@.subrange(pos as int, p3 as int) =~= buf@.subrange(pos as int, p2 as int) + buf@.subrange(p2 as int, p3 as int));
                                                    assert(buf@.subrange(pos as int, p4 as int) =~= buf@.subrange(pos as int, p3 as int) + buf@.subrange(p3 as int, p4 as int));
                                                    assert(buf@.subrange(pos as int, p5 as int) =~= buf@.subrange(pos as int, p4 as int) + buf@.subrange(p4 as int, p5 as int));
                                                    assert forall|v: QProblemDesc| (v.wf() && prefix_of(buf@, pos as int, v.wire())) implies p5 == pos + v.wire().len() && built.wire() == v.wire() && v.veq(&built) by {
                                                        lemma_qproblemdesc_split(buf@, pos as int, v);
                                                        assert(p1 == pos + v.id.wire().len());
                                                        assert(p2 == pos + v.id.wire().len() + v.statement.wire().len());
                                                        assert(p3 == pos + v.id.wire().len() + v.statement.wire().len() + v.generator_file.wire().len());
                                                        assert(p4 == pos + v.id.wire().len() + v.statement.wire().len() + v.generator_file.wire().len() + v.scorer_file.wire().len());
                                                        assert(p5 == pos + v.id.wire().len() + v.statement.wire().len() + v.generator_file.wire().len() + v.scorer_file.wire().len() + v.n_testcases.wire().len());
                                                    }
                                                }
                                                Some((built, p5))
                                            },
                                        }
                                    },
                                }
                            },
                        }
                    },
                }
            },
        }
    }
}

/// Splits a serialized `QFileDesc` standing in a buffer into its parts.
#[verifier::rlimit(100)]
pub proof fn lemma_qfiledesc_split(buf: Seq<u8>, pos: int, v: QFileDesc)
    requires
        prefix_of(buf, pos, v.wire()),
    ensures
        prefix_of(buf, pos, v.hash.wire()),
        prefix_of(buf, pos + v.hash.wire().len(), v.size.wire()),
        prefix_of(buf, pos + v.hash.wire().len() + v.size.wire().len(), v.key_encrypting_key.wire()),
        prefix_of(buf, pos + v.hash.wire().len() + v.size.wire().len() + v.key_encrypting_key.wire().len(), v.enc_encrypting_key.wire()),
{
    lemma_concat_split(buf, pos, v.hash.wire() + v.size.wire() + v.key_encrypting_key.wire(), v.enc_encrypting_key.wire());
    lemma_concat_split(buf, pos, v.hash.wire() + v.size.wire(), v.key_encrypting_key.wire());
    lemma_concat_split(buf, pos, v.hash.wire(), v.size.wire());
}

impl Wire for QFileDesc {
    open spec fn veq(&self, other: &Self) -> bool {
        self.hash.veq(&other.hash) && self.size.veq(&other.size) && self.key_encrypting_key.veq(&other.key_encrypting_key) && self.enc_encrypting_key.veq(&other.enc_encrypting_key)
    }

    open spec fn wire(&self) -> Seq<u8> {
        self.hash.wire() + self.size.wire() + self.key_encrypting_key.wire() + self.enc_encrypting_key.wire()
    }

    open spec fn wf(&self) -> bool {
        self.hash.wf() && self.size.wf() && self.key_encrypting_key.wf() && self.enc_encrypting_key.wf()
    }

    fn encode(&self, out: &mut Vec<u8>) {
        self.hash.encode(out);
        self.size.encode(out);
        self.key_encrypting_key.encode(out);
        self.enc_encrypting_key.encode(out);
        assert(out@ =~= old(out)@ + self.wire());
    }

    #[verifier::rlimit(100)]
    fn decode(buf: &[u8], pos: usize) -> (r: Option<(Self, usize)>) {
        proof {
            assert forall|v: QFileDesc| (v.wf() && prefix_of(buf@, pos as int, v.wire())) implies (v.hash.wf() && prefix_of(buf@, pos as int, v.hash.wire())) by {
                lemma_qfiledesc_split(buf@, pos as int, v);
            }
        }
        match <Mac as Wire>::decode(buf, pos) {
            None => {
                proof {
                    assert forall|v: QFileDesc| !(v.wf() && prefix_of(buf@, pos as int, v.wire())) by {
                        if v.wf() && prefix_of(buf@, pos as int, v.wire()) {
                            lemma_qfiledesc_split(buf@, pos as int, v);
                        }
                    }
                }
                None
            },
            Some((x1, p1)) => {
                proof {
                    assert forall|v: QFileDesc| (v.wf() && prefix_of(buf@, pos as int, v.wire())) implies (v.size.wf() && prefix_of(buf@, p1 as int, v.size.wire())) by {
                        lemma_qfiledesc_split(buf@, pos as int, v);
                        assert(p1 == pos + v.hash.wire().len());
                    }
                }
                match <u32 as Wire>::decode(buf, p1) {
                    None => {
                        proof {
                            assert forall|v: QFileDesc| !(v.wf() && prefix_of(buf@, pos as int, v.wire())) by {
                                if v.wf() && prefix_of(buf@, pos as int, v.wire()) {
                                    lemma_qfiledesc_split(buf@, pos as int, v);
                                    assert(p1 == pos + v.hash.wire().len());
                                }
                            }
                        }
                        None
                    },
                    Some((x2, p2)) => {
                        proof {
                            assert forall|v: QFileDesc| (v.wf() && prefix_of(buf@, pos as int, v.wire())) implies (v.key_encrypting_key.wf() && prefix_of(buf@, p2 as int, v.key_encrypting_key.wire())) by {
                                lemma_qfiledesc_split(buf@, pos as int, v);
                                assert(p1 == pos + v.hash.wire().len());
                                assert(p2 == pos + v.hash.wire().len() + v.size.wire().len());
                            }
                        }
                        match <EncKeyId as Wire>::decode(buf, p2) {
                            None => {
                                proof {
                                    assert forall|v: QFileDesc| !(v.wf() && prefix_of(buf@, pos as int, v.wire())) by {
                                        if v.wf() && prefix_of(buf@, pos as int, v.wire()) {
                                            lemma_qfiledesc_split(buf@, pos as int, v);
                                            assert(p1 == pos + v.hash.wire().len());
                                            assert(p2 == pos + v.hash.wire().len() + v.size.wire().len());
                                        }
                                    }
                                }
                                None
                            },
                            Some((x3, p3)) => {
                                proof {
                                    assert forall|v: QFileDesc| (v.wf() && prefix_of(buf@, pos as int, v.wire())) implies (v.enc_encrypting_key.wf() && prefix_of(buf@, p3 as int, v.enc_encrypting_key.wire())) by {
                                        lemma_qfiledesc_split(buf@, pos as int, v);
                                        assert(p1 == pos + v.hash.wire().len());
                                        assert(p2 == pos + v.hash.wire().len() + v.size.wire().len());
                                        assert(p3 == pos + v.hash.wire().len() + v.size.wire().len() + v.key_encrypting_key.wire().len());
                                    }
                                }
                                match <SizedEncrypted<EncKey, 32> as Wire>::decode(buf, p3) {
                                    None => {
                                        proof {
                                            assert forall|v: QFileDesc| !(v.wf() && prefix_of(buf@, pos as int, v.wire())) by {
                                                if v.wf() && prefix_of(buf@, pos as int, v.wire()) {
                                                    lemma_qfiledesc_split(buf@, pos as int, v);
                                                    assert(p1 == pos + v.hash.wire().len());
                                                    assert(p2 == pos + v.hash.wire().len() + v.size.wire().len());
                                                    assert(p3 == pos + v.hash.wire().len() + v.size.wire().len() + v.key_encrypting_key.wire().len());
                                                }
                                            }
                                        }
                                        None
                                    },
                                    Some((x4, p4)) => {
                                        let built = QFileDesc { hash: x1, size: x2, key_encrypting_key: x3, enc_encrypting_key: x4 };
                                        proof {
                                            assert(buf@.subrange(pos as int, p2 as int) =~= buf@.subrange(pos as int, p1 as int) + buf@.subrange(p1 as int, p2 as int));
                                            assert(buf@.subrange(pos as int, p3 as int) =~= buf@.subrange(pos as int, p2 as int) + buf@.subrange(p2 as int, p3 as int));
                                            assert(buf@.subrange(pos as int, p4 as int) =~= buf@.subrange(pos as int, p3 as int) + buf@.subrange(p3 as int, p4 as int));
                                            assert forall|v: QFileDesc| (v.wf() && prefix_of(buf@, pos as int, v.wire())) implies p4 == pos + v.wire().len() && built.wire() == v.wire() && v.veq(&built) by {
                                                lemma_qfiledesc_split(buf@, pos as int, v);
                                                assert(p1 == pos + v.hash.wire().len());
                                                assert(p2 == pos + v.hash.wire().len() + v.size.wire().len());
                                                assert(p3 == pos + v.hash.wire().len() + v.size.wire().len() + v.key_encrypting_key.wire().len());
                                                assert(p4 == pos + v.hash.wire().len() + v.size.wire().len() + v.key_encrypting_key.wire().len() + v.enc_encrypting_key.wire().len());
                                            }
                                        }
                                        Some((built, p4))
                                    },
                                }
                            },
                        }
                    },
                }
            },
        }
    }
}

/// Splits a serialized `FileMessage` standing in a buffer into its parts.
#[verifier::rlimit(100)]
pub proof fn lemma_filemessage_split(buf: Seq<u8>, pos: int, v: FileMessage)
    requires
        prefix_of(buf, pos, v.wire()),
    ensures
        prefix_of(buf, pos, v.hash.wire()),
        prefix_of(buf, pos + v.hash.wire().len(), v.piece.wire()),
        prefix_of(buf, pos + v.hash.wire().len() + v.piece.wire().len(), v.data.wire()),
{
    lemma_concat_split(buf, pos, v.hash.wire() + v.piece.wire(), v.data.wire());
    lemma_concat_split(buf, pos, v.hash.wire(), v.piece.wire());
}

impl Wire for FileMessage {
    open spec fn veq(&self, other: &Self) -> bool {
        *self == *other
    }

    open spec fn wire(&self) -> Seq<u8> {
        self.hash.wire() + self.piece.wire() + self.data.wire()
    }

    open spec fn wf(&self) -> bool {
        self.hash.wf() && self.piece.wf() && self.data.wf()
    }

    fn encode(&self, out: &mut Vec<u8>) {
        self.hash.encode(out);
        self.piece.encode(out);
        self.data.encode(out);
        assert(out@ =~= old(out)@ + self.wire());
    }

    #[verifier::rlimit(100)]
    fn decode(buf: &[u8], pos: usize) -> (r: Option<(Self, usize)>)
        ensures
            forall|v: Self|
                #![trigger v.wire()]
                v.wf() && prefix_of(buf@, pos as int, v.wire()) ==> r == Some(
                    (v, (pos + v.wire().len()) as usize),
                ),
    {
        proof {
            assert forall|v: FileMessage| (v.wf() && prefix_of(buf@, pos as int, v.wire())) implies (v.hash.wf() && prefix_of(buf@, pos as int, v.hash.wire())) by {
                lemma_filemessage_split(buf@, pos as int, v);
            }
        }
        match <Mac as Wire>::decode(buf, pos) {
            None => {
                proof {
                    assert forall|v: FileMessage| !(v.wf() && prefix_of(buf@, pos as int, v.wire())) by {
                        if v.wf() && prefix_of(buf@, pos as int, v.wire()) {
                            lemma_filemessage_split(buf@, pos as int, v);
                        }
                    }
                }
                None
            },
            Some((x1, p1)) => {
                proof {
                    assert forall|v: FileMessage| (v.wf() && prefix_of(buf@, pos as int, v.wire())) implies (v.piece.wf() && prefix_of(buf@, p1 as int, v.piece.wire())) by {
                        lemma_filemessage_split(buf@, pos as int, v);
                        assert(p1 == pos + v.hash.wire().len());
                    }
                }
                match <u32 as Wire>::decode(buf, p1) {
                    None => {
                        proof {
                            assert forall|v: FileMessage| !(v.wf() && prefix_of(buf@, pos as int, v.wire())) by {
                                if v.wf() && prefix_of(buf@, pos as int, v.wire()) {
                                    lemma_filemessage_split(buf@, pos as int, v);
                                    assert(p1 == pos + v.hash.wire().len());
                                }
                            }
                        }
                        None
                    },
                    Some((x2, p2)) => {
                        proof {
                            assert forall|v: FileMessage| (v.wf() && prefix_of(buf@, pos as int, v.wire())) implies (v.data.wf() && prefix_of(buf@, p2 as int, v.data.wire())) by {
                                lemma_filemessage_split(buf@, pos as int, v);
                                assert(p1 == pos + v.hash.wire().len());
                                assert(p2 == pos + v.hash.wire().len() + v.piece.wire().len());
                            }
                        }
                        match <SizedEncrypted<FileChunk, FILE_CHUNK_SIZE> as Wire>::decode(buf, p2) {
                            None => {
                                proof {
                                    assert forall|v: FileMessage| !(v.wf() && prefix_of(buf@, pos as int, v.wire())) by {
                                        if v.wf() && prefix_of(buf@, pos as int, v.wire()) {
                                            lemma_filemessage_split(buf@, pos as int, v);
                                            assert(p1 == pos + v.hash.wire().len());
                                            assert(p2 == pos + v.hash.wire().len() + v.piece.wire().len());
                                        }
                                    }
                                }
                                None
                            },
                            Some((x3, p3)) => {
                                let built = FileMessage { hash: x1, piece: x2, data: x3 };
                                proof {
                                    assert(buf@.subrange(pos as int, p2 as int) =~= buf@.subrange(pos as int, p1 as int) + buf@.subrange(p1 as int, p2 as int));
                                    assert(buf@.subrange(pos as int, p3 as int) =~= buf@.subrange(pos as int, p2 as int) + buf@.subrange(p2 as int, p3 as int));
                                    assert forall|v: FileMessage| (v.wf() && prefix_of(buf@, pos as int, v.wire())) implies p3 == pos + v.wire().len() && built.wire() == v.wire() && built == v by {
                                        lemma_filemessage_split(buf@, pos as int, v);
                                        assert(p1 == pos + v.hash.wire().len());
                                        assert(p2 == pos + v.hash.wire().len() + v.piece.wire().len());
                                        assert(p3 == pos + v.hash.wire().len() + v.piece.wire().len() + v.data.wire().len());
                                    }
                                }
                                Some((built, p3))
                            },
                        }
                    },
                }
            },
        }
    }
}

/// Splits a serialized `QuestionMessage` standing in a buffer into its parts.
#[verifier::rlimit(100)]
pub proof fn lemma_questionmessage_split(buf: Seq<u8>, pos: int, v: QuestionMessage)
    requires
        prefix_of(buf, pos, v.wire()),
    ensures
        prefix_of(buf, pos, v.text.wire()),
        prefix_of(buf, pos + v.text.wire().len(), v.context.wire()),
{
    lemma_concat_split(buf, pos, v.text.wire(), v.context.wire());
}

impl Wire for QuestionMessage {
    open spec fn veq(&self, other: &Self) -> bool {
        self.text.veq(&other.text) && self.context.veq(&other.context)
    }

    open spec fn wire(&self) -> Seq<u8> {
        self.text.wire() + self.context.wire()
    }

    open spec fn wf(&self) -> bool {
        self.text.wf() && self.context.wf()
    }

    fn encode(&self, out: &mut Vec<u8>) {
        self.text.encode(out);
        self.context.encode(out);
        assert(out@ =~= old(out)@ + self.wire());
    }

    #[verifier::rlimit(100)]
    fn decode(buf: &[u8], pos: usize) -> (r: Option<(Self, usize)>) {
        proof {
            assert forall|v: QuestionMessage| (v.wf() && prefix_of(buf@, pos as int, v.wire())) implies (v.text.wf() && prefix_of(buf@, pos as int, v.text.wire())) by {
                lemma_questionmessage_split(buf@, pos as int, v);
            }
        }
        match <TextBytes as Wire>::decode(buf, pos) {
            None => {
                proof {
                    assert forall|v: QuestionMessage| !(v.wf() && prefix_of(buf@, pos as int, v.wire())) by {
                        if v.wf() && prefix_of(buf@, pos as int, v.wire()) {
                            lemma_questionmessage_split(buf@, pos as int, v);
                        }
                    }
                }
                None
            },
            Some((x1, p1)) => {
                proof {
                    assert forall|v: QuestionMessage| (v.wf() && prefix_of(buf@, pos as int, v.wire())) implies (v.context.wf() && prefix_of(buf@, p1 as int, v.context.wire())) by {
                        lemma_questionmessage_split(buf@, pos as int, v);
                        assert(p1 == pos + v.text.wire().len());
                    }
                }
                match <Option<u32> as Wire>::decode(buf, p1) {
                    None => {
                        proof {
                            assert forall|v: QuestionMessage| !(v.wf() && prefix_of(buf@, pos as int, v.wire())) by {
                                if v.wf() && prefix_of(buf@, pos as int, v.wire()) {
                                    lemma_questionmessage_split(buf@, pos as int, v);
                                    assert(p1 == pos + v.text.wire().len());
                                }
                            }
                        }
                        None
                    },
                    Some((x2, p2)) => {
                        let built = QuestionMessage { text: x1, context: x2 };
                        proof {
                            assert(buf@.subrange(pos as int, p2 as int) =~= buf@.subrange(pos as int, p1 as int) + buf@.subrange(p1 as int, p2 as int));
                            assert forall|v: QuestionMessage| (v.wf() && prefix_of(buf@, pos as int, v.wire())) implies p2 == pos + v.wire().len() && built.wire() == v.wire() && v.veq(&built) by {
                                lemma_questionmessage_split(buf@, pos as int, v);
                                assert(p1 == pos + v.text.wire().len());
                                assert(p2 == pos + v.text.wire().len() + v.context.wire().len());
                            }
                        }
                        Some((built, p2))
                    },
                }
            },
        }
    }
}

/// Splits a serialized `SubmissionMessage` standing in a buffer into its parts.
#[verifier::rlimit(100)]
pub proof fn lemma_submissionmessage_split(buf: Seq<u8>, pos: int, v: SubmissionMessage)
    requires
        prefix_of(buf, pos, v.wire()),
    ensures
        prefix_of(buf, pos, v.problem_id.wire()),
        prefix_of(buf, pos + v.problem_id.wire().len(), v.file_id.wire()),
        prefix_of(buf, pos + v.problem_id.wire().len() + v.file_id.wire().len(), v.file_size.wire()),
        prefix_of(buf, pos + v.problem_id.wire().len() + v.file_id.wire().len() + v.file_size.wire().len(), v.enc_key.wire()),
{
    lemma_concat_split(buf, pos, v.problem_id.wire() + v.file_id.wire() + v.file_size.wire(), v.enc_key.wire());
    lemma_concat_split(buf, pos, v.problem_id.wire() + v.file_id.wire(), v.file_size.wire());
    lemma_concat_split(buf, pos, v.problem_id.wire(), v.file_id.wire());
}

impl Wire for SubmissionMessage {
    open spec fn veq(&self, other: &Self) -> bool {
        *self == *other
    }

    open spec fn wire(&self) -> Seq<u8> {
        self.problem_id.wire() + self.file_id.wire() + self.file_size.wire() + self.enc_key.wire()
    }

    open spec fn wf(&self) -> bool {
        self.problem_id.wf() && self.file_id.wf() && self.file_size.wf() && self.enc_key.wf()
    }

    fn encode(&self, out: &mut Vec<u8>) {
        self.problem_id.encode(out);
        self.file_id.encode(out);
        self.file_size.encode(out);
        self.enc_key.encode(out);
        assert(out@ =~= old(out)@ + self.wire());
    }

    #[verifier::rlimit(100)]
    fn decode(buf: &[u8], pos: usize) -> (r: Option<(Self, usize)>)
        ensures
            forall|v: Self|
                #![trigger v.wire()]
                v.wf() && prefix_of(buf@, pos as int, v.wire()) ==> r == Some(
                    (v, (pos + v.wire().len()) as usize),
                ),
    {
        proof {
            assert forall|v: SubmissionMessage| (v.wf() && prefix_of(buf@, pos as int, v.wire())) implies (v.problem_id.wf() && prefix_of(buf@, pos as int, v.problem_id.wire())) by {
                lemma_submissionmessage_split(buf@, pos as int, v);
            }
        }
        match <u32 as Wire>::decode(buf, pos) {
            None => {
                proof {
                    assert forall|v: SubmissionMessage| !(v.wf() && prefix_of(buf@, pos as int, v.wire())) by {
                        if v.wf() && prefix_of(buf@, pos as int, v.wire()) {
                            lemma_submissionmessage_split(buf@, pos as int, v);
                        }
                    }
                }
                None
            },
            Some((x1, p1)) => {
                proof {
                    assert forall|v: SubmissionMessage| (v.wf() && prefix_of(buf@, pos as int, v.wire())) implies (v.file_id.wf() && prefix_of(buf@, p1 as int, v.file_id.wire())) by {
                        lemma_submissionmessage_split(buf@, pos as int, v);
                        assert(p1 == pos + v.problem_id.wire().len());
                    }
                }
                match <Mac as Wire>::decode(buf, p1) {
                    None => {
                        proof {
                            assert forall|v: SubmissionMessage| !(v.wf() && prefix_of(buf@, pos as int, v.wire())) by {
                                if v.wf() && prefix_of(buf@, pos as int, v.wire()) {
                                    lemma_submissionmessage_split(buf@, pos as int, v);
                                    assert(p1 == pos + v.problem_id.wire().len());
                                }
                            }
                        }
                        None
                    },
                    Some((x2, p2)) => {
                        proof {
                            assert forall|v: SubmissionMessage| (v.wf() && prefix_of(buf@, pos as int, v.wire())) implies (v.file_size.wf() && prefix_of(buf@, p2 as int, v.file_size.wire())) by {
                                lemma_submissionmessage_split(buf@, pos as int, v);
                                assert(p1 == pos + v.problem_id.wire().len());
                                assert(p2 == pos + v.problem_id.wire().len() + v.file_id.wire().len());
                            }
                        }
                        match <u32 as Wire>::decode(buf, p2) {
                            None => {
                                proof {
                                    assert forall|v: SubmissionMessage| !(v.wf() && prefix_of(buf@, pos as int, v.wire())) by {
                                        if v.wf() && prefix_of(buf@, pos as int, v.wire()) {
                                            lemma_submissionmessage_split(buf@, pos as int, v);
                                            assert(p1 == pos + v.problem_id.wire().len());
                                            assert(p2 == pos + v.problem_id.wire().len() + v.file_id.wire().len());
                                        }
                                    }
                                }
                                None
                            },
                            Some((x3, p3)) => {
                                proof {
                                    assert forall|v: SubmissionMessage| (v.wf() && prefix_of(buf@, pos as int, v.wire())) implies (v.enc_key.wf() && prefix_of(buf@, p3 as int, v.enc_key.wire())) by {
                                        lemma_submissionmessage_split(buf@, pos as int, v);
                                        assert(p1 == pos + v.problem_id.wire().len());
                                        assert(p2 == pos + v.problem_id.wire().len() + v.file_id.wire().len());
                                        assert(p3 == pos + v.problem_id.wire().len() + v.file_id.wire().len() + v.file_size.wire().len());
                                    }
                                }
                                match <EncKey as Wire>::decode(buf, p3) {
                                    None => {
                                        proof {
                                            assert forall|v: SubmissionMessage| !(v.wf() && prefix_of(buf@, pos as int, v.wire())) by {
                                                if v.wf() && prefix_of(buf@, pos as int, v.wire()) {
                                                    lemma_submissionmessage_split(buf@, pos as int, v);
                                                    assert(p1 == pos + v.problem_id.wire().len());
                                                    assert(p2 == pos + v.problem_id.wire().len() + v.file_id.wire().len());
                                                    assert(p3 == pos + v.problem_id.wire().len() + v.file_id.wire().len() + v.file_size.wire().len());
                                                }
                                            }
                                        }
                                        None
                                    },
                                    Some((x4, p4)) => {
                                        let built = SubmissionMessage { problem_id: x1, file_id: x2, file_size: x3, enc_key: x4 };
                                        proof {
                                            assert(buf@.subrange(pos as int, p2 as int) =~= buf@.subrange(pos as int, p1 as int) + buf@.subrange(p1 as int, p2 as int));
                                            assert(buf@.subrange(pos as int, p3 as int) =~= buf@.subrange(pos as int, p2 as int) + buf@.subrange(p2 as int, p3 as int));
                                            assert(buf@.subrange(pos as int, p4 as int) =~= buf@.subrange(pos as int, p3 as int) + buf@.subrange(p3 as int, p4 as int));
                                            assert forall|v: SubmissionMessage| (v.wf() && prefix_of(buf@, pos as int, v.wire())) implies p4 == pos + v.wire().len() && built.wire() == v.wire() && built == v by {
                                                lemma_submissionmessage_split(buf@, pos as int, v);
                                                assert(p1 == pos + v.problem_id.wire().len());
                                                assert(p2 == pos + v.problem_id.wire().len() + v.file_id.wire().len());
                                                assert(p3 == pos + v.problem_id.wire().len() + v.file_id.wire().len() + v.file_size.wire().len());
                                                assert(p4 == pos + v.problem_id.wire().len() + v.file_id.wire().len() + v.file_size.wire().len() + v.enc_key.wire().len());
                                            }
                                        }
                                        Some((built, p4))
                                    },
                                }
                            },
                        }
                    },
                }
            },
        }
    }
}

/// Splits a serialized `KeepAliveInner` standing in a buffer into its parts.
#[verifier::rlimit(100)]
pub proof fn lemma_keepaliveinner_split(buf: Seq<u8>, pos: int, v: KeepAliveInner)
    requires
        prefix_of(buf, pos, v.wire()),
    ensures
        prefix_of(buf, pos, v.0.wire()),
{
}

impl Wire for KeepAliveInner {
    open spec fn veq(&self, other: &Self) -> bool {
        *self == *other
    }

    open spec fn wire(&self) -> Seq<u8> {
        self.0.wire()
    }

    open spec fn wf(&self) -> bool {
        self.0.wf()
    }

    fn encode(&self, out: &mut Vec<u8>) {
        self.0.encode(out);
        assert(out@ =~= old(out)@ + self.wire());
    }

    #[verifier::rlimit(100)]
    fn decode(buf: &[u8], pos: usize) -> (r: Option<(Self, usize)>)
        ensures
            forall|v: Self|
                #![trigger v.wire()]
                v.wf() && prefix_of(buf@, pos as int, v.wire()) ==> r == Some(
                    (v, (pos + v.wire().len()) as usize),
                ),
    {
        proof {
            assert forall|v: KeepAliveInner| (v.wf() && prefix_of(buf@, pos as int, v.wire())) implies (v.0.wf() && prefix_of(buf@, pos as int, v.0.wire())) by {
                lemma_keepaliveinner_split(buf@, pos as int, v);
            }
        }
        match <Timestamp as Wire>::decode(buf, pos) {
            None => {
                proof {
                    assert forall|v: KeepAliveInner| !(v.wf() && prefix_of(buf@, pos as int, v.wire())) by {
                        if v.wf() && prefix_of(buf@, pos as int, v.wire()) {
                            lemma_keepaliveinner_split(buf@, pos as int, v);
                        }
                    }
                }
                None
            },
            Some((x1, p1)) => {
                let built = KeepAliveInner(x1);
                proof {
                    assert forall|v: KeepAliveInner| (v.wf() && prefix_of(buf@, pos as int, v.wire())) implies p1 == pos + v.wire().len() && built.wire() == v.wire() && built == v by {
                        lemma_keepaliveinner_split(buf@, pos as int, v);
                        assert(p1 == pos + v.0.wire().len());
                    }
                }
                Some((built, p1))
            },
        }
    }
}

/// The tag byte of each variant of `NetMessage`.
pub open spec fn netmessage_tag(v: NetMessage) -> u8 {
    match v {
        NetMessage::Merkle(_) => 0,
        NetMessage::KeepAlive(_, _) => 1,
    }
}

/// Splits a serialized `NetMessage` standing in a buffer into its parts.
#[verifier::rlimit(100)]
pub proof fn lemma_netmessage_split(buf: Seq<u8>, pos: int, v: NetMessage)
    requires
        prefix_of(buf, pos, v.wire()),
    ensures
        prefix_of(buf, pos, netmessage_tag(v).wire()),
        buf.subrange(pos, pos + 1) == seq![netmessage_tag(v)],
        (match v {
            NetMessage::Merkle(c0) => prefix_of(buf, pos + 1, c0.wire()),
            NetMessage::KeepAlive(c0, c1) => prefix_of(buf, pos + 1, c0.wire()) && prefix_of(buf, pos + 1 + c0.wire().len(), c1.wire()),
        }),
{
    match v {
        NetMessage::Merkle(c0) => {
            lemma_concat_split(buf, pos, seq![0u8], c0.wire());
            assert((0u8).wire() =~= seq![0u8]);
            assert(buf.subrange(pos, pos + 1) =~= seq![0u8]);
        },
        NetMessage::KeepAlive(c0, c1) => {
            lemma_concat_split(buf, pos, seq![1u8] + c0.wire(), c1.wire());
            lemma_concat_split(buf, pos, seq![1u8], c0.wire());
            assert((1u8).wire() =~= seq![1u8]);
            assert(buf.subrange(pos, pos + 1) =~= seq![1u8]);
        },
    }
}

impl Wire for NetMessage {
    open spec fn veq(&self, other: &Self) -> bool {
        match (self, other) {
            (NetMessage::Merkle(a0), NetMessage::Merkle(b0)) => a0.veq(b0),
            (NetMessage::KeepAlive(a0, a1), NetMessage::KeepAlive(b0, b1)) => a0.veq(b0) && a1.veq(b1),
            _ => false,
        }
    }

    open spec fn wire(&self) -> Seq<u8> {
        match self {
            NetMessage::Merkle(c0) => seq![0u8] + c0.wire(),
            NetMessage::KeepAlive(c0, c1) => seq![1u8] + c0.wire() + c1.wire(),
        }
    }

    open spec fn wf(&self) -> bool {
        match self {
            NetMessage::Merkle(c0) => c0.wf(),
            NetMessage::KeepAlive(c0, c1) => c0.wf() && c1.wf(),
        }
    }

    fn encode(&self, out: &mut Vec<u8>) {
        match self {
            NetMessage::Merkle(c0) => {
                out.push(0);
                c0.encode(out);
            },
            NetMessage::KeepAlive(c0, c1) => {
                out.push(1);
                c0.encode(out);
                c1.encode(out);
            },
        }
        assert(out@ =~= old(out)@ + self.wire());
    }

    #[verifier::rlimit(100)]
    fn decode(buf: &[u8], pos: usize) -> (r: Option<(Self, usize)>) {
        proof {
            assert forall|v: NetMessage| (v.wf() && prefix_of(buf@, pos as int, v.wire())) implies prefix_of(buf@, pos as int, netmessage_tag(v).wire()) && netmessage_tag(v).wf() by {
                lemma_netmessage_split(buf@, pos as int, v);
            }
        }
        match u8::decode(buf, pos) {
            None => {
                proof {
                    assert forall|v: NetMessage| !(v.wf() && prefix_of(buf@, pos as int, v.wire())) by {
                        if v.wf() && prefix_of(buf@, pos as int, v.wire()) {
                            lemma_netmessage_split(buf@, pos as int, v);
                        }
                    }
                }
                None
            },
            Some((tag, p1)) => {
                if tag == 0 {
                    proof {
                        assert forall|v: NetMessage| (v.wf() && prefix_of(buf@, pos as int, v.wire())) implies (v matches NetMessage::Merkle(c0) && c0.wf() && prefix_of(buf@, p1 as int, c0.wire())) by {
                            lemma_netmessage_split(buf@, pos as int, v);
                            match v {
                                NetMessage::Merkle(c0) => {
                                    assert(p1 == pos + 1);
                                },
                                _ => {},
                            }
                        }
                    }
                    match <Signed<MerkleData, PubSigKey> as Wire>::decode(buf, p1) {
                        None => {
                            proof {
                                assert forall|v: NetMessage| !(v.wf() && prefix_of(buf@, pos as int, v.wire())) by {
                                    if v.wf() && prefix_of(buf@, pos as int, v.wire()) {
                                        lemma_netmessage_split(buf@, pos as int, v);
                                        match v {
                                            NetMessage::Merkle(c0) => {
                                                assert(p1 == pos + 1);
                                            },
                                            _ => {},
                                        }
                                    }
                                }
                            }
                            None
                        },
                        Some((x0, q2)) => {
                            let built = NetMessage::Merkle(x0);
                            proof {
                                assert(buf@.subrange(pos as int, p1 as int) =~= seq![0u8]);
                                assert(buf@.subrange(pos as int, q2 as int) =~= buf@.subrange(pos as int, p1 as int) + buf@.subrange(p1 as int, q2 as int));
                                assert forall|v: NetMessage| (v.wf() && prefix_of(buf@, pos as int, v.wire())) implies q2 == pos + v.wire().len() && built.wire() == v.wire() && v.veq(&built) by {
                                    lemma_netmessage_split(buf@, pos as int, v);
                                    match v {
                                        NetMessage::Merkle(c0) => {
                                            assert(p1 == pos + 1);
                                            assert(q2 == pos + 1 + c0.wire().len());
                                        },
                                        _ => {},
                                    }
                                }
                            }
                            Some((built, q2))
                        },
                    }
                } else if tag == 1 {
                    proof {
                        assert forall|v: NetMessage| (v.wf() && prefix_of(buf@, pos as int, v.wire())) implies (v matches NetMessage::KeepAlive(c0, c1) && c0.wf() && prefix_of(buf@, p1 as int, c0.wire())) by {
                            lemma_netmessage_split(buf@, pos as int, v);
                            match v {
                                NetMessage::KeepAlive(c0, c1) => {
                                    assert(p1 == pos + 1);
                                },
                                _ => {},
                            }
                        }
                    }
                    match <PubSigKey as Wire>::decode(buf, p1) {
                        None => {
                            proof {
                                assert forall|v: NetMessage| !(v.wf() && prefix_of(buf@, pos as int, v.wire())) by {
                                    if v.wf() && prefix_of(buf@, pos as int, v.wire()) {
                                        lemma_netmessage_split(buf@, pos as int, v);
                                        match v {
                                            NetMessage::KeepAlive(c0, c1) => {
                                                assert(p1 == pos + 1);
                                            },
                                            _ => {},
                                        }
                                    }
                                }
                            }
                            None
                        },
                        Some((x0, q2)) => {
                            proof {
                                assert forall|v: NetMessage| (v.wf() && prefix_of(buf@, pos as int, v.wire())) implies (v matches NetMessage::KeepAlive(c0, c1) && c1.wf() && prefix_of(buf@, q2 as int, c1.wire())) by {
                                    lemma_netmessage_split(buf@, pos as int, v);
                                    match v {
                                        NetMessage::KeepAlive(c0, c1) => {
                                            assert(p1 == pos + 1);
                                            assert(q2 == pos + 1 + c0.wire().len());
                                        },
                                        _ => {},
                                    }
                                }
                            }
                            match <Macced<KeepAliveInner> as Wire>::decode(buf, q2) {
                                None => {
                                    proof {
                                        assert forall|v: NetMessage| !(v.wf() && prefix_of(buf@, pos as int, v.wire())) by {
                                            if v.wf() && prefix_of(buf@, pos as int, v.wire()) {
                                                lemma_netmessage_split(buf@, pos as int, v);
                                                match v {
                                                    NetMessage::KeepAlive(c0, c1) => {
                                                        assert(p1 == pos + 1);
                                                        assert(q2 == pos + 1 + c0.wire().len());
                                                    },
                                                    _ => {},
                                                }
                                            }
                                        }
                                    }
                                    None
                                },
                                Some((x1, q3)) => {
                                    let built = NetMessage::KeepAlive(x0, x1);
                                    proof {
                                        assert(buf@.subrange(pos as int, p1 as int) =~= seq![1u8]);
                                        assert(buf@.subrange(pos as int, q2 as int) =~= buf@.subrange(pos as int, p1 as int) + buf@.subrange(p1 as int, q2 as int));
                                        assert(buf@.subrange(pos as int, q3 as int) =~= buf@.subrange(pos as int, q2 as int) + buf@.subrange(q2 as int, q3 as int));
                                        assert forall|v: NetMessage| (v.wf() && prefix_of(buf@, pos as int, v.wire())) implies q3 == pos + v.wire().len() && built.wire() == v.wire() && v.veq(&built) by {
                                            lemma_netmessage_split(buf@, pos as int, v);
                                            match v {
                                                NetMessage::KeepAlive(c0, c1) => {
                                                    assert(p1 == pos + 1);
                                                    assert(q2 == pos + 1 + c0.wire().len());
                                                    assert(q3 == pos + 1 + c0.wire().len() + c1.wire().len());
                                                },
                                                _ => {},
                                            }
                                        }
                                    }
                                    Some((built, q3))
                                },
                            }
                        },
                    }
                } else {
                    proof {
                        assert forall|v: NetMessage| !(v.wf() && prefix_of(buf@, pos as int, v.wire())) by {
                            if v.wf() && prefix_of(buf@, pos as int, v.wire()) {
                                lemma_netmessage_split(buf@, pos as int, v);
                            }
                        }
                    }
                    None
                }
            },
        }
    }
}

/// The tag byte of each variant of `QueueMessageInner`.
pub open spec fn queuemessageinner_tag(v: QueueMessageInner) -> u8 {
    match v {
        QueueMessageInner::Submission(_) => 0,
        QueueMessageInner::EvaluationRequest(_) => 1,
        QueueMessageInner::Evaluation(_) => 2,
        QueueMessageInner::EvaluationProof(_) => 3,
        QueueMessageInner::ProblemDesc(_) => 4,
        QueueMessageInner::Announcement(_) => 5,
        QueueMessageInner::PublicKey(_) => 6,
        QueueMessageInner::PeerInfo(_) => 7,
    }
}

/// Splits a serialized `QueueMessageInner` standing in a buffer into its parts.
#[verifier::rlimit(100)]
pub proof fn lemma_queuemessageinner_split(buf: Seq<u8>, pos: int, v: QueueMessageInner)
    requires
        prefix_of(buf, pos, v.wire()),
    ensures
        prefix_of(buf, pos, queuemessageinner_tag(v).wire()),
        buf.subrange(pos, pos + 1) == seq![queuemessageinner_tag(v)],
        (match v {
            QueueMessageInner::Submission(c0) => prefix_of(buf, pos + 1, c0.wire()),
            QueueMessageInner::EvaluationRequest(c0) => prefix_of(buf, pos + 1, c0.wire()),
            QueueMessageInner::Evaluation(c0) => prefix_of(buf, pos + 1, c0.wire()),
            QueueMessageInner::EvaluationProof(c0) => prefix_of(buf, pos + 1, c0.wire()),
            QueueMessageInner::ProblemDesc(c0) => prefix_of(buf, pos + 1, c0.wire()),
            QueueMessageInner::Announcement(c0) => prefix_of(buf, pos + 1, c0.wire()),
            QueueMessageInner::PublicKey(c0) => prefix_of(buf, pos + 1, c0.wire()),
            QueueMessageInner::PeerInfo(c0) => prefix_of(buf, pos + 1, c0.wire()),
        }),
{
    match v {
        QueueMessageInner::Submission(c0) => {
            lemma_concat_split(buf, pos, seq![0u8], c0.wire());
            assert((0u8).wire() =~= seq![0u8]);
            assert(buf.subrange(pos, pos + 1) =~= seq![0u8]);
        },
        QueueMessageInner::EvaluationRequest(c0) => {
            lemma_concat_split(buf, pos, seq![1u8], c0.wire());
            assert((1u8).wire() =~= seq![1u8]);
            assert(buf.subrange(pos, pos + 1) =~= seq![1u8]);
        },
        QueueMessageInner::Evaluation(c0) => {
            lemma_concat_split(buf, pos, seq![2u8], c0.wire());
            assert((2u8).wire() =~= seq![2u8]);
            assert(buf.subrange(pos, pos + 1) =~= seq![2u8]);
        },
        QueueMessageInner::EvaluationProof(c0) => {
            lemma_concat_split(buf, pos, seq![3u8], c0.wire());
            assert((3u8).wire() =~= seq![3u8]);
            assert(buf.subrange(pos, pos + 1) =~= seq![3u8]);
        },
        QueueMessageInner::ProblemDesc(c0) => {
            lemma_concat_split(buf, pos, seq![4u8], c0.wire());
            assert((4u8).wire() =~= seq![4u8]);
            assert(buf.subrange(pos, pos + 1) =~= seq![4u8]);
        },
        QueueMessageInner::Announcement(c0) => {
            lemma_concat_split(buf, pos, seq![5u8], c0.wire());
            assert((5u8).wire() =~= seq![5u8]);
            assert(buf.subrange(pos, pos + 1) =~= seq![5u8]);
        },
        QueueMessageInner::PublicKey(c0) => {
            lemma_concat_split(buf, pos, seq![6u8], c0.wire());
            assert((6u8).wire() =~= seq![6u8]);
            assert(buf.subrange(pos, pos + 1) =~= seq![6u8]);
        },
        QueueMessageInner::PeerInfo(c0) => {
            lemma_concat_split(buf, pos, seq![7u8], c0.wire());
            assert((7u8).wire() =~= seq![7u8]);
            assert(buf.subrange(pos, pos + 1) =~= seq![7u8]);
        },
    }
}

impl Wire for QueueMessageInner {
    open spec fn veq(&self, other: &Self) -> bool {
        match (self, other) {
            (QueueMessageInner::Submission(a0), QueueMessageInner::Submission(b0)) => a0.veq(b0),
            (QueueMessageInner::EvaluationRequest(a0), QueueMessageInner::EvaluationRequest(b0)) => a0.veq(b0),
            (QueueMessageInner::Evaluation(a0), QueueMessageInner::Evaluation(b0)) => a0.veq(b0),
            (QueueMessageInner::EvaluationProof(a0), QueueMessageInner::EvaluationProof(b0)) => a0.veq(b0),
            (QueueMessageInner::ProblemDesc(a0), QueueMessageInner::ProblemDesc(b0)) => a0.veq(b0),
            (QueueMessageInner::Announcement(a0), QueueMessageInner::Announcement(b0)) => a0.veq(b0),
            (QueueMessageInner::PublicKey(a0), QueueMessageInner::PublicKey(b0)) => a0.veq(b0),
            (QueueMessageInner::PeerInfo(a0), QueueMessageInner::PeerInfo(b0)) => a0.veq(b0),
            _ => false,
        }
    }

    open spec fn wire(&self) -> Seq<u8> {
        match self {
            QueueMessageInner::Submission(c0) => seq![0u8] + c0.wire(),
            QueueMessageInner::EvaluationRequest(c0) => seq![1u8] + c0.wire(),
            QueueMessageInner::Evaluation(c0) => seq![2u8] + c0.wire(),
            QueueMessageInner::EvaluationProof(c0) => seq![3u8] + c0.wire(),
            QueueMessageInner::ProblemDesc(c0) => seq![4u8] + c0.wire(),
            QueueMessageInner::Announcement(c0) => seq![5u8] + c0.wire(),
            QueueMessageInner::PublicKey(c0) => seq![6u8] + c0.wire(),
            QueueMessageInner::PeerInfo(c0) => seq![7u8] + c0.wire(),
        }
    }

    open spec fn wf(&self) -> bool {
        match self {
            QueueMessageInner::Submission(c0) => c0.wf(),
            QueueMessageInner::EvaluationRequest(c0) => c0.wf(),
            QueueMessageInner::Evaluation(c0) => c0.wf(),
            QueueMessageInner::EvaluationProof(c0) => c0.wf(),
            QueueMessageInner::ProblemDesc(c0) => c0.wf(),
            QueueMessageInner::Announcement(c0) => c0.wf(),
            QueueMessageInner::PublicKey(c0) => c0.wf(),
            QueueMessageInner::PeerInfo(c0) => c0.wf(),
        }
    }

    fn encode(&self, out: &mut Vec<u8>) {
        match self {
            QueueMessageInner::Submission(c0) => {
                out.push(0);
                c0.encode(out);
            },
            QueueMessageInner::EvaluationRequest(c0) => {
                out.push(1);
                c0.encode(out);
            },
            QueueMessageInner::Evaluation(c0) => {
                out.push(2);
                c0.encode(out);
            },
            QueueMessageInner::EvaluationProof(c0) => {
                out.push(3);
                c0.encode(out);
            },
            QueueMessageInner::ProblemDesc(c0) => {
                out.push(4);
                c0.encode(out);
            },
            QueueMessageInner::Announcement(c0) => {
                out.push(5);
                c0.encode(out);
            },
            QueueMessageInner::PublicKey(c0) => {
                out.push(6);
                c0.encode(out);
            },
            QueueMessageInner::PeerInfo(c0) => {
                out.push(7);
                c0.encode(out);
            },
        }
        assert(out@ =~= old(out)@ + self.wire());
    }

    #[verifier::rlimit(100)]
    fn decode(buf: &[u8], pos: usize) -> (r: Option<(Self, usize)>) {
        proof {
            assert forall|v: QueueMessageInner| (v.wf() && prefix_of(buf@, pos as int, v.wire())) implies prefix_of(buf@, pos as int, queuemessageinner_tag(v).wire()) && queuemessageinner_tag(v).wf() by {
                lemma_queuemessageinner_split(buf@, pos as int, v);
            }
        }
        match u8::decode(buf, pos) {
            None => {
                proof {
                    assert forall|v: QueueMessageInner| !(v.wf() && prefix_of(buf@, pos as int, v.wire())) by {
                        if v.wf() && prefix_of(buf@, pos as int, v.wire()) {
                            lemma_queuemessageinner_split(buf@, pos as int, v);
                        }
                    }
                }
                None
            },
            Some((tag, p1)) => {
                if tag == 0 {
                    proof {
                        assert forall|v: QueueMessageInner| (v.wf() && prefix_of(buf@, pos as int, v.wire())) implies (v matches QueueMessageInner::Submission(c0) && c0.wf() && prefix_of(buf@, p1 as int, c0.wire())) by {
                            lemma_queuemessageinner_split(buf@, pos as int, v);
                            match v {
                                QueueMessageInner::Submission(c0) => {
                                    assert(p1 == pos + 1);
                                },
                                _ => {},
                            }
                        }
                    }
                    match <QSubmission as Wire>::decode(buf, p1) {
                        None => {
                            proof {
                                assert forall|v: QueueMessageInner| !(v.wf() && prefix_of(buf@, pos as int, v.wire())) by {
                                    if v.wf() && prefix_of(buf@, pos as int, v.wire()) {
                                        lemma_queuemessageinner_split(buf@, pos as int, v);
                                        match v {
                                            QueueMessageInner::Submission(c0) => {
                                                assert(p1 == pos + 1);
                                            },
                                            _ => {},
                                        }
                                    }
                                }
                            }
                            None
                        },
                        Some((x0, q2)) => {
                            let built = QueueMessageInner::Submission(x0);
                            proof {
                                assert(buf@.subrange(pos as int, p1 as int) =~= seq![0u8]);
                                assert(buf@.subrange(pos as int, q2 as int) =~= buf@.subrange(pos as int, p1 as int) + buf@.subrange(p1 as int, q2 as int));
                                assert forall|v: QueueMessageInner| (v.wf() && prefix_of(buf@, pos as int, v.wire())) implies q2 == pos + v.wire().len() && built.wire() == v.wire() && v.veq(&built) by {
                                    lemma_queuemessageinner_split(buf@, pos as int, v);
                                    match v {
                                        QueueMessageInner::Submission(c0) => {
                                            assert(p1 == pos + 1);
                                            assert(q2 == pos + 1 + c0.wire().len());
                                        },
                                        _ => {},
                                    }
                                }
                            }
                            Some((built, q2))
                        },
                    }
                } else if tag == 1 {
                    proof {
                        assert forall|v: QueueMessageInner| (v.wf() && prefix_of(buf@, pos as int, v.wire())) implies (v matches QueueMessageInner::EvaluationRequest(c0) && c0.wf() && prefix_of(buf@, p1 as int, c0.wire())) by {
                            lemma_queuemessageinner_split(buf@, pos as int, v);
                            match v {
                                QueueMessageInner::EvaluationRequest(c0) => {
                                    assert(p1 == pos + 1);
                                },
                                _ => {},
                            }
                        }
                    }
                    match <QEvaluationRequest as Wire>::decode(buf, p1) {
                        None => {
                            proof {
                                assert forall|v: QueueMessageInner| !(v.wf() && prefix_of(buf@, pos as int, v.wire())) by {
                                    if v.wf() && prefix_of(buf@, pos as int, v.wire()) {
                                        lemma_queuemessageinner_split(buf@, pos as int, v);
                                        match v {
                                            QueueMessageInner::EvaluationRequest(c0) => {
                                                assert(p1 == pos + 1);
                                            },
                                            _ => {},
                                        }
                                    }
                                }
                            }
                            None
                        },
                        Some((x0, q2)) => {
                            let built = QueueMessageInner::EvaluationRequest(x0);
                            proof {
                                assert(buf@.subrange(pos as int, p1 as int) =~= seq![1u8]);
                                assert(buf@.subrange(pos as int, q2 as int) =~= buf@.subrange(pos as int, p1 as int) + buf@.subrange(p1 as int, q2 as int));
                                assert forall|v: QueueMessageInner| (v.wf() && prefix_of(buf@, pos as int, v.wire())) implies q2 == pos + v.wire().len() && built.wire() == v.wire() && v.veq(&built) by {
                                    lemma_queuemessageinner_split(buf@, pos as int, v);
                                    match v {
                                        QueueMessageInner::EvaluationRequest(c0) => {
                                            assert(p1 == pos + 1);
                                            assert(q2 == pos + 1 + c0.wire().len());
                                        },
                                        _ => {},
                                    }
                                }
                            }
                            Some((built, q2))
                        },
                    }
                } else if tag == 2 {
                    proof {
                        assert forall|v: QueueMessageInner| (v.wf() && prefix_of(buf@, pos as int, v.wire())) implies (v matches QueueMessageInner::Evaluation(c0) && c0.wf() && prefix_of(buf@, p1 as int, c0.wire())) by {
                            lemma_queuemessageinner_split(buf@, pos as int, v);
                            match v {
                                QueueMessageInner::Evaluation(c0) => {
                                    assert(p1 == pos + 1);
                                },
                                _ => {},
                            }
                        }
                    }
                    match <QEvaluation as Wire>::decode(buf, p1) {
                        None => {
                            proof {
                                assert forall|v: QueueMessageInner| !(v.wf() && prefix_of(buf@, pos as int, v.wire())) by {
                                    if v.wf() && prefix_of(buf@, pos as int, v.wire()) {
                                        lemma_queuemessageinner_split(buf@, pos as int, v);
                                        match v {
                                            QueueMessageInner::Evaluation(c0) => {
                                                assert(p1 == pos + 1);
                                            },
                                            _ => {},
                                        }
                                    }
                                }
                            }
                            None
                        },
                        Some((x0, q2)) => {
                            let built = QueueMessageInner::Evaluation(x0);
                            proof {
                                assert(buf@.subrange(pos as int, p1 as int) =~= seq![2u8]);
                                assert(buf@.subrange(pos as int, q2 as int) =~= buf@.subrange(pos as int, p1 as int) + buf@.subrange(p1 as int, q2 as int));
                                assert forall|v: QueueMessageInner| (v.wf() && prefix_of(buf@, pos as int, v.wire())) implies q2 == pos + v.wire().len() && built.wire() == v.wire() && v.veq(&built) by {
                                    lemma_queuemessageinner_split(buf@, pos as int, v);
                                    match v {
                                        QueueMessageInner::Evaluation(c0) => {
                                            assert(p1 == pos + 1);
                                            assert(q2 == pos + 1 + c0.wire().len());
                                        },
                                        _ => {},
                                    }
                                }
                            }
                            Some((built, q2))
                        },
                    }
                } else if tag == 3 {
                    proof {
                        assert forall|v: QueueMessageInner| (v.wf() && prefix_of(buf@, pos as int, v.wire())) implies (v matches QueueMessageInner::EvaluationProof(c0) && c0.wf() && prefix_of(buf@, p1 as int, c0.wire())) by {
                            lemma_queuemessageinner_split(buf@, pos as int, v);
                            match v {
                                QueueMessageInner::EvaluationProof(c0) => {
                                    assert(p1 == pos + 1);
                                },
                                _ => {},
                            }
                        }
                    }
                    match <QEvaluationProof as Wire>::decode(buf, p1) {
                        None => {
                            proof {
                                assert forall|v: QueueMessageInner| !(v.wf() && prefix_of(buf@, pos as int, v.wire())) by {
                                    if v.wf() && prefix_of(buf@, pos as int, v.wire()) {
                                        lemma_queuemessageinner_split(buf@, pos as int, v);
                                        match v {
                                            QueueMessageInner::EvaluationProof(c0) => {
                                                assert(p1 == pos + 1);
                                            },
                                            _ => {},
                                        }
                                    }
                                }
                            }
                            None
                        },
                        Some((x0, q2)) => {
                            let built = QueueMessageInner::EvaluationProof(x0);
                            proof {
                                assert(buf@.subrange(pos as int, p1 as int) =~= seq![3u8]);
                                assert(buf@.subrange(pos as int, q2 as int) =~= buf@.subrange(pos as int, p1 as int) + buf@.subrange(p1 as int, q2 as int));
                                assert forall|v: QueueMessageInner| (v.wf() && prefix_of(buf@, pos as int, v.wire())) implies q2 == pos + v.wire().len() && built.wire() == v.wire() && v.veq(&built) by {
                                    lemma_queuemessageinner_split(buf@, pos as int, v);
                                    match v {
                                        QueueMessageInner::EvaluationProof(c0) => {
                                            assert(p1 == pos + 1);
                                            assert(q2 == pos + 1 + c0.wire().len());
                                        },
                                        _ => {},
                                    }
                                }
                            }
                            Some((built, q2))
                        },
                    }
                } else if tag == 4 {
                    proof {
                        assert forall|v: QueueMessageInner| (v.wf() && prefix_of(buf@, pos as int, v.wire())) implies (v matches QueueMessageInner::ProblemDesc(c0) && c0.wf() && prefix_of(buf@, p1 as int, c0.wire())) by {
                            lemma_queuemessageinner_split(buf@, pos as int, v);
                            match v {
                                QueueMessageInner::ProblemDesc(c0) => {
                                    assert(p1 == pos + 1);
                                },
                                _ => {},
                            }
                        }
                    }
                    match <QProblemDesc as Wire>::decode(buf, p1) {
                        None => {
                            proof {
                                assert forall|v: QueueMessageInner| !(v.wf() && prefix_of(buf@, pos as int, v.wire())) by {
                                    if v.wf() && prefix_of(buf@, pos as int, v.wire()) {
                                        lemma_queuemessageinner_split(buf@, pos as int, v);
                                        match v {
                                            QueueMessageInner::ProblemDesc(c0) => {
                                                assert(p1 == pos + 1);
                                            },
                                            _ => {},
                                        }
                                    }
                                }
                            }
                            None
                        },
                        Some((x0, q2)) => {
                            let built = QueueMessageInner::ProblemDesc(x0);
                            proof {
                                assert(buf@.subrange(pos as int, p1 as int) =~= seq![4u8]);
                                assert(buf@.subrange(pos as int, q2 as int) =~= buf@.subrange(pos as int, p1 as int) + buf@.subrange(p1 as int, q2 as int));
                                assert forall|v: QueueMessageInner| (v.wf() && prefix_of(buf@, pos as int, v.wire())) implies q2 == pos + v.wire().len() && built.wire() == v.wire() && v.veq(&built) by {
                                    lemma_queuemessageinner_split(buf@, pos as int, v);
                                    match v {
                                        QueueMessageInner::ProblemDesc(c0) => {
                                            assert(p1 == pos + 1);
                                            assert(q2 == pos + 1 + c0.wire().len());
                                        },
                                        _ => {},
                                    }
                                }
                            }
                            Some((built, q2))
                        },
                    }
                } else if tag == 5 {
                    proof {
                        assert forall|v: QueueMessageInner| (v.wf() && prefix_of(buf@, pos as int, v.wire())) implies (v matches QueueMessageInner::Announcement(c0) && c0.wf() && prefix_of(buf@, p1 as int, c0.wire())) by {
                            lemma_queuemessageinner_split(buf@, pos as int, v);
                            match v {
                                QueueMessageInner::Announcement(c0) => {
                                    assert(p1 == pos + 1);
                                },
                                _ => {},
                            }
                        }
                    }
                    match <QAnnouncement as Wire>::decode(buf, p1) {
                        None => {
                            proof {
                                assert forall|v: QueueMessageInner| !(v.wf() && prefix_of(buf@, pos as int, v.wire())) by {
                                    if v.wf() && prefix_of(buf@, pos as int, v.wire()) {
                                        lemma_queuemessageinner_split(buf@, pos as int, v);
                                        match v {
                                            QueueMessageInner::Announcement(c0) => {
                                                assert(p1 == pos + 1);
                                            },
                                            _ => {},
                                        }
                                    }
                                }
                            }
                            None
                        },
                        Some((x0, q2)) => {
                            let built = QueueMessageInner::Announcement(x0);
                            proof {
                                assert(buf@.subrange(pos as int, p1 as int) =~= seq![5u8]);
                                assert(buf@.subrange(pos as int, q2 as int) =~= buf@.subrange(pos as int, p1 as int) + buf@.subrange(p1 as int, q2 as int));
                                assert forall|v: QueueMessageInner| (v.wf() && prefix_of(buf@, pos as int, v.wire())) implies q2 == pos + v.wire().len() && built.wire() == v.wire() && v.veq(&built) by {
                                    lemma_queuemessageinner_split(buf@, pos as int, v);
                                    match v {
                                        QueueMessageInner::Announcement(c0) => {
                                            assert(p1 == pos + 1);
                                            assert(q2 == pos + 1 + c0.wire().len());
                                        },
                                        _ => {},
                                    }
                                }
                            }
                            Some((built, q2))
                        },
                    }
                } else if tag == 6 {
                    proof {
                        assert forall|v: QueueMessageInner| (v.wf() && prefix_of(buf@, pos as int, v.wire())) implies (v matches QueueMessageInner::PublicKey(c0) && c0.wf() && prefix_of(buf@, p1 as int, c0.wire())) by {
                            lemma_queuemessageinner_split(buf@, pos as int, v);
                            match v {
                                QueueMessageInner::PublicKey(c0) => {
                                    assert(p1 == pos + 1);
                                },
                                _ => {},
                            }
                        }
                    }
                    match <EncKeyInfo as Wire>::decode(buf, p1) {
                        None => {
                            proof {
                                assert forall|v: QueueMessageInner| !(v.wf() && prefix_of(buf@, pos as int, v.wire())) by {
                                    if v.wf() && prefix_of(buf@, pos as int, v.wire()) {
                                        lemma_queuemessageinner_split(buf@, pos as int, v);
                                        match v {
                                            QueueMessageInner::PublicKey(c0) => {
                                                assert(p1 == pos + 1);
                                            },
                                            _ => {},
                                        }
                                    }
                                }
                            }
                            None
                        },
                        Some((x0, q2)) => {
                            let built = QueueMessageInner::PublicKey(x0);
                            proof {
                                assert(buf@.subrange(pos as int, p1 as int) =~= seq![6u8]);
                                assert(buf@.subrange(pos as int, q2 as int) =~= buf@.subrange(pos as int, p1 as int) + buf@.subrange(p1 as int, q2 as int));
                                assert forall|v: QueueMessageInner| (v.wf() && prefix_of(buf@, pos as int, v.wire())) implies q2 == pos + v.wire().len() && built.wire() == v.wire() && v.veq(&built) by {
                                    lemma_queuemessageinner_split(buf@, pos as int, v);
                                    match v {
                                        QueueMessageInner::PublicKey(c0) => {
                                            assert(p1 == pos + 1);
                                            assert(q2 == pos + 1 + c0.wire().len());
                                        },
                                        _ => {},
                                    }
                                }
                            }
                            Some((built, q2))
                        },
                    }
                } else if tag == 7 {
                    proof {
                        assert forall|v: QueueMessageInner| (v.wf() && prefix_of(buf@, pos as int, v.wire())) implies (v matches QueueMessageInner::PeerInfo(c0) && c0.wf() && prefix_of(buf@, p1 as int, c0.wire())) by {
                            lemma_queuemessageinner_split(buf@, pos as int, v);
                            match v {
                                QueueMessageInner::PeerInfo(c0) => {
                                    assert(p1 == pos + 1);
                                },
                                _ => {},
                            }
                        }
                    }
                    match <QPeerInfo as Wire>::decode(buf, p1) {
                        None => {
                            proof {
                                assert forall|v: QueueMessageInner| !(v.wf() && prefix_of(buf@, pos as int, v.wire())) by {
                                    if v.wf() && prefix_of(buf@, pos as int, v.wire()) {
                                        lemma_queuemessageinner_split(buf@, pos as int, v);
                                        match v {
                                            QueueMessageInner::PeerInfo(c0) => {
                                                assert(p1 == pos + 1);
                                            },
                                            _ => {},
                                        }
                                    }
                                }
                            }
                            None
                        },
                        Some((x0, q2)) => {
                            let built = QueueMessageInner::PeerInfo(x0);
                            proof {
                                assert(buf@.subrange(pos as int, p1 as int) =~= seq![7u8]);
                                assert(buf@.subrange(pos as int, q2 as int) =~= buf@.subrange(pos as int, p1 as int) + buf@.subrange(p1 as int, q2 as int));
                                assert forall|v: QueueMessageInner| (v.wf() && prefix_of(buf@, pos as int, v.wire())) implies q2 == pos + v.wire().len() && built.wire() == v.wire() && v.veq(&built) by {
                                    lemma_queuemessageinner_split(buf@, pos as int, v);
                                    match v {
                                        QueueMessageInner::PeerInfo(c0) => {
                                            assert(p1 == pos + 1);
                                            assert(q2 == pos + 1 + c0.wire().len());
                                        },
                                        _ => {},
                                    }
                                }
                            }
                            Some((built, q2))
                        },
                    }
                } else {
                    proof {
                        assert forall|v: QueueMessageInner| !(v.wf() && prefix_of(buf@, pos as int, v.wire())) by {
                            if v.wf() && prefix_of(buf@, pos as int, v.wire()) {
                                lemma_queuemessageinner_split(buf@, pos as int, v);
                            }
                        }
                    }
                    None
                }
            },
        }
    }
}

/// The tag byte of each variant of `RequestMessage`.
pub open spec fn requestmessage_tag(v: RequestMessage) -> u8 {
    match v {
        RequestMessage::File(_) => 0,
        RequestMessage::Queue(_) => 1,
        RequestMessage::EncKey(_) => 2,
    }
}

/// Splits a serialized `RequestMessage` standing in a buffer into its parts.
#[verifier::rlimit(100)]
pub proof fn lemma_requestmessage_split(buf: Seq<u8>, pos: int, v: RequestMessage)
    requires
        prefix_of(buf, pos, v.wire()),
    ensures
        prefix_of(buf, pos, requestmessage_tag(v).wire()),
        buf.subrange(pos, pos + 1) == seq![requestmessage_tag(v)],
        (match v {
            RequestMessage::File(c0) => prefix_of(buf, pos + 1, c0.wire()),
            RequestMessage::Queue(c0) => prefix_of(buf, pos + 1, c0.wire()),
            RequestMessage::EncKey(c0) => prefix_of(buf, pos + 1, c0.wire()),
        }),
{
    match v {
        RequestMessage::File(c0) => {
            lemma_concat_split(buf, pos, seq![0u8], c0.wire());
            assert((0u8).wire() =~= seq![0u8]);
            assert(buf.subrange(pos, pos + 1) =~= seq![0u8]);
        },
        RequestMessage::Queue(c0) => {
            lemma_concat_split(buf, pos, seq![1u8], c0.wire());
            assert((1u8).wire() =~= seq![1u8]);
            assert(buf.subrange(pos, pos + 1) =~= seq![1u8]);
        },
        RequestMessage::EncKey(c0) => {
            lemma_concat_split(buf, pos, seq![2u8], c0.wire());
            assert((2u8).wire() =~= seq![2u8]);
            assert(buf.subrange(pos, pos + 1) =~= seq![2u8]);
        },
    }
}

impl Wire for RequestMessage {
    open spec fn veq(&self, other: &Self) -> bool {
        match (self, other) {
            (RequestMessage::File(a0), RequestMessage::File(b0)) => a0.veq(b0),
            (RequestMessage::Queue(a0), RequestMessage::Queue(b0)) => a0.veq(b0),
            (RequestMessage::EncKey(a0), RequestMessage::EncKey(b0)) => a0.veq(b0),
            _ => false,
        }
    }

    open spec fn wire(&self) -> Seq<u8> {
        match self {
            RequestMessage::File(c0) => seq![0u8] + c0.wire(),
            RequestMessage::Queue(c0) => seq![1u8] + c0.wire(),
            RequestMessage::EncKey(c0) => seq![2u8] + c0.wire(),
        }
    }

    open spec fn wf(&self) -> bool {
        match self {
            RequestMessage::File(c0) => c0.wf(),
            RequestMessage::Queue(c0) => c0.wf(),
            RequestMessage::EncKey(c0) => c0.wf(),
        }
    }

    fn encode(&self, out: &mut Vec<u8>) {
        match self {
            RequestMessage::File(c0) => {
                out.push(0);
                c0.encode(out);
            },
            RequestMessage::Queue(c0) => {
                out.push(1);
                c0.encode(out);
            },
            RequestMessage::EncKey(c0) => {
                out.push(2);
                c0.encode(out);
            },
        }
        assert(out@ =~= old(out)@ + self.wire());
    }

    #[verifier::rlimit(100)]
    fn decode(buf: &[u8], pos: usize) -> (r: Option<(Self, usize)>) {
        proof {
            assert forall|v: RequestMessage| (v.wf() && prefix_of(buf@, pos as int, v.wire())) implies prefix_of(buf@, pos as int, requestmessage_tag(v).wire()) && requestmessage_tag(v).wf() by {
                lemma_requestmessage_split(buf@, pos as int, v);
            }
        }
        match u8::decode(buf, pos) {
            None => {
                proof {
                    assert forall|v: RequestMessage| !(v.wf() && prefix_of(buf@, pos as int, v.wire())) by {
                        if v.wf() && prefix_of(buf@, pos as int, v.wire()) {
                            lemma_requestmessage_split(buf@, pos as int, v);
                        }
                    }
                }
                None
            },
            Some((tag, p1)) => {
                if tag == 0 {
                    proof {
                        assert forall|v: RequestMessage| (v.wf() && prefix_of(buf@, pos as int, v.wire())) implies (v matches RequestMessage::File(c0) && c0.wf() && prefix_of(buf@, p1 as int, c0.wire())) by {
                            lemma_requestmessage_split(buf@, pos as int, v);
                            match v {
                                RequestMessage::File(c0) => {
                                    assert(p1 == pos + 1);
                                },
                                _ => {},
                            }
                        }
                    }
                    match <Vec<(u32, u32)> as Wire>::decode(buf, p1) {
                        None => {
                            proof {
                                assert forall|v: RequestMessage| !(v.wf() && prefix_of(buf@, pos as int, v.wire())) by {
                                    if v.wf() && prefix_of(buf@, pos as int, v.wire()) {
                                        lemma_requestmessage_split(buf@, pos as int, v);
                                        match v {
                                            RequestMessage::File(c0) => {
                                                assert(p1 == pos + 1);
                                            },
                                            _ => {},
                                        }
                                    }
                                }
                            }
                            None
                        },
                        Some((x0, q2)) => {
                            let built = RequestMessage::File(x0);
                            proof {
                                assert(buf@.subrange(pos as int, p1 as int) =~= seq![0u8]);
                                assert(buf@.subrange(pos as int, q2 as int) =~= buf@.subrange(pos as int, p1 as int) + buf@.subrange(p1 as int, q2 as int));
                                assert forall|v: RequestMessage| (v.wf() && prefix_of(buf@, pos as int, v.wire())) implies q2 == pos + v.wire().len() && built.wire() == v.wire() && v.veq(&built) by {
                                    lemma_requestmessage_split(buf@, pos as int, v);
                                    match v {
                                        RequestMessage::File(c0) => {
                                            assert(p1 == pos + 1);
                                            assert(q2 == pos + 1 + c0.wire().len());
                                        },
                                        _ => {},
                                    }
                                }
                            }
                            Some((built, q2))
                        },
                    }
                } else if tag == 1 {
                    proof {
                        assert forall|v: RequestMessage| (v.wf() && prefix_of(buf@, pos as int, v.wire())) implies (v matches RequestMessage::Queue(c0) && c0.wf() && prefix_of(buf@, p1 as int, c0.wire())) by {
                            lemma_requestmessage_split(buf@, pos as int, v);
                            match v {
                                RequestMessage::Queue(c0) => {
                                    assert(p1 == pos + 1);
                                },
                                _ => {},
                            }
                        }
                    }
                    match <Vec<(u32, u32)> as Wire>::decode(buf, p1) {
                        None => {
                            proof {
                                assert forall|v: RequestMessage| !(v.wf() && prefix_of(buf@, pos as int, v.wire())) by {
                                    if v.wf() && prefix_of(buf@, pos as int, v.wire()) {
                                        lemma_requestmessage_split(buf@, pos as int, v);
                                        match v {
                                            RequestMessage::Queue(c0) => {
                                                assert(p1 == pos + 1);
                                            },
                                            _ => {},
                                        }
                                    }
                                }
                            }
                            None
                        },
                        Some((x0, q2)) => {
                            let built = RequestMessage::Queue(x0);
                            proof {
                                assert(buf@.subrange(pos as int, p1 as int) =~= seq![1u8]);
                                assert(buf@.subrange(pos as int, q2 as int) =~= buf@.subrange(pos as int, p1 as int) + buf@.subrange(p1 as int, q2 as int));
                                assert forall|v: RequestMessage| (v.wf() && prefix_of(buf@, pos as int, v.wire())) implies q2 == pos + v.wire().len() && built.wire() == v.wire() && v.veq(&built) by {
                                    lemma_requestmessage_split(buf@, pos as int, v);
                                    match v {
                                        RequestMessage::Queue(c0) => {
                                            assert(p1 == pos + 1);
                                            assert(q2 == pos + 1 + c0.wire().len());
                                        },
                                        _ => {},
                                    }
                                }
                            }
                            Some((built, q2))
                        },
                    }
                } else if tag == 2 {
                    proof {
                        assert forall|v: RequestMessage| (v.wf() && prefix_of(buf@, pos as int, v.wire())) implies (v matches RequestMessage::EncKey(c0) && c0.wf() && prefix_of(buf@, p1 as int, c0.wire())) by {
                            lemma_requestmessage_split(buf@, pos as int, v);
                            match v {
                                RequestMessage::EncKey(c0) => {
                                    assert(p1 == pos + 1);
                                },
                                _ => {},
                            }
                        }
                    }
                    match <EncKeyId as Wire>::decode(buf, p1) {
                        None => {
                            proof {
                                assert forall|v: RequestMessage| !(v.wf() && prefix_of(buf@, pos as int, v.wire())) by {
                                    if v.wf() && prefix_of(buf@, pos as int, v.wire()) {
                                        lemma_requestmessage_split(buf@, pos as int, v);
                                        match v {
                                            RequestMessage::EncKey(c0) => {
                                                assert(p1 == pos + 1);
                                            },
                                            _ => {},
                                        }
                                    }
                                }
                            }
                            None
                        },
                        Some((x0, q2)) => {
                            let built = RequestMessage::EncKey(x0);
                            proof {
                                assert(buf@.subrange(pos as int, p1 as int) =~= seq![2u8]);
                                assert(buf@.subrange(pos as int, q2 as int) =~= buf@.subrange(pos as int, p1 as int) + buf@.subrange(p1 as int, q2 as int));
                                assert forall|v: RequestMessage| (v.wf() && prefix_of(buf@, pos as int, v.wire())) implies q2 == pos + v.wire().len() && built.wire() == v.wire() && v.veq(&built) by {
                                    lemma_requestmessage_split(buf@, pos as int, v);
                                    match v {
                                        RequestMessage::EncKey(c0) => {
                                            assert(p1 == pos + 1);
                                            assert(q2 == pos + 1 + c0.wire().len());
                                        },
                                        _ => {},
                                    }
                                }
                            }
                            Some((built, q2))
                        },
                    }
                } else {
                    proof {
                        assert forall|v: RequestMessage| !(v.wf() && prefix_of(buf@, pos as int, v.wire())) by {
                            if v.wf() && prefix_of(buf@, pos as int, v.wire()) {
                                lemma_requestmessage_split(buf@, pos as int, v);
                            }
                        }
                    }
                    None
                }
            },
        }
    }
}

/// The tag byte of each variant of `Message`.
pub open spec fn message_tag(v: Message) -> u8 {
    match v {
        Message::Net(_) => 0,
        Message::Queue(_) => 1,
        Message::File(_) => 2,
        Message::EncKey(_) => 3,
        Message::Request(_) => 4,
        Message::Submission(_) => 5,
        Message::Question(_) => 6,
    }
}

/// Splits a serialized `Message` standing in a buffer into its parts.
#[verifier::rlimit(100)]
pub proof fn lemma_message_split(buf: Seq<u8>, pos: int, v: Message)
    requires
        prefix_of(buf, pos, v.wire()),
    ensures
        prefix_of(buf, pos, message_tag(v).wire()),
        buf.subrange(pos, pos + 1) == seq![message_tag(v)],
        (match v {
            Message::Net(c0) => prefix_of(buf, pos + 1, c0.wire()),
            Message::Queue(c0) => prefix_of(buf, pos + 1, c0.wire()),
            Message::File(c0) => prefix_of(buf, pos + 1, c0.wire()),
            Message::EncKey(c0) => prefix_of(buf, pos + 1, c0.wire()),
            Message::Request(c0) => prefix_of(buf, pos + 1, c0.wire()),
            Message::Submission(c0) => prefix_of(buf, pos + 1, c0.wire()),
            Message::Question(c0) => prefix_of(buf, pos + 1, c0.wire()),
        }),
{
    match v {
        Message::Net(c0) => {
            lemma_concat_split(buf, pos, seq![0u8], c0.wire());
            assert((0u8).wire() =~= seq![0u8]);
            assert(buf.subrange(pos, pos + 1) =~= seq![0u8]);
        },
        Message::Queue(c0) => {
            lemma_concat_split(buf, pos, seq![1u8], c0.wire());
            assert((1u8).wire() =~= seq![1u8]);
            assert(buf.subrange(pos, pos + 1) =~= seq![1u8]);
        },
        Message::File(c0) => {
            lemma_concat_split(buf, pos, seq![2u8], c0.wire());
            assert((2u8).wire() =~= seq![2u8]);
            assert(buf.subrange(pos, pos + 1) =~= seq![2u8]);
        },
        Message::EncKey(c0) => {
            lemma_concat_split(buf, pos, seq![3u8], c0.wire());
            assert((3u8).wire() =~= seq![3u8]);
            assert(buf.subrange(pos, pos + 1) =~= seq![3u8]);
        },
        Message::Request(c0) => {
            lemma_concat_split(buf, pos, seq![4u8], c0.wire());
            assert((4u8).wire() =~= seq![4u8]);
            assert(buf.subrange(pos, pos + 1) =~= seq![4u8]);
        },
        Message::Submission(c0) => {
            lemma_concat_split(buf, pos, seq![5u8], c0.wire());
            assert((5u8).wire() =~= seq![5u8]);
            assert(buf.subrange(pos, pos + 1) =~= seq![5u8]);
        },
        Message::Question(c0) => {
            lemma_concat_split(buf, pos, seq![6u8], c0.wire());
            assert((6u8).wire() =~= seq![6u8]);
            assert(buf.subrange(pos, pos + 1) =~= seq![6u8]);
        },
    }
}

impl Wire for Message {
    open spec fn veq(&self, other: &Self) -> bool {
        match (self, other) {
            (Message::Net(a0), Message::Net(b0)) => a0.veq(b0),
            (Message::Queue(a0), Message::Queue(b0)) => a0.veq(b0),
            (Message::File(a0), Message::File(b0)) => a0.veq(b0),
            (Message::EncKey(a0), Message::EncKey(b0)) => a0.veq(b0),
            (Message::Request(a0), Message::Request(b0)) => a0.veq(b0),
            (Message::Submission(a0), Message::Submission(b0)) => a0.veq(b0),
            (Message::Question(a0), Message::Question(b0)) => a0.veq(b0),
            _ => false,
        }
    }

    open spec fn wire(&self) -> Seq<u8> {
        match self {
            Message::Net(c0) => seq![0u8] + c0.wire(),
            Message::Queue(c0) => seq![1u8] + c0.wire(),
            Message::File(c0) => seq![2u8] + c0.wire(),
            Message::EncKey(c0) => seq![3u8] + c0.wire(),
            Message::Request(c0) => seq![4u8] + c0.wire(),
            Message::Submission(c0) => seq![5u8] + c0.wire(),
            Message::Question(c0) => seq![6u8] + c0.wire(),
        }
    }

    open spec fn wf(&self) -> bool {
        match self {
            Message::Net(c0) => c0.wf(),
            Message::Queue(c0) => c0.wf(),
            Message::File(c0) => c0.wf(),
            Message::EncKey(c0) => c0.wf(),
            Message::Request(c0) => c0.wf(),
            Message::Submission(c0) => c0.wf(),
            Message::Question(c0) => c0.wf(),
        }
    }

    fn encode(&self, out: &mut Vec<u8>) {
        match self {
            Message::Net(c0) => {
                out.push(0);
                c0.encode(out);
            },
            Message::Queue(c0) => {
                out.push(1);
                c0.encode(out);
            },
            Message::File(c0) => {
                out.push(2);
                c0.encode(out);
            },
            Message::EncKey(c0) => {
                out.push(3);
                c0.encode(out);
            },
            Message::Request(c0) => {
                out.push(4);
                c0.encode(out);
            },
            Message::Submission(c0) => {
                out.push(5);
                c0.encode(out);
            },
            Message::Question(c0) => {
                out.push(6);
                c0.encode(out);
            },
        }
        assert(out@ =~= old(out)@ + self.wire());
    }

    #[verifier::rlimit(100)]
    fn decode(buf: &[u8], pos: usize) -> (r: Option<(Self, usize)>) {
        proof {
            assert forall|v: Message| (v.wf() && prefix_of(buf@, pos as int, v.wire())) implies prefix_of(buf@, pos as int, message_tag(v).wire()) && message_tag(v).wf() by {
                lemma_message_split(buf@, pos as int, v);
            }
        }
        match u8::decode(buf, pos) {
            None => {
                proof {
                    assert forall|v: Message| !(v.wf() && prefix_of(buf@, pos as int, v.wire())) by {
                        if v.wf() && prefix_of(buf@, pos as int, v.wire()) {
                            lemma_message_split(buf@, pos as int, v);
                        }
                    }
                }
                None
            },
            Some((tag, p1)) => {
                if tag == 0 {
                    proof {
                        assert forall|v: Message| (v.wf() && prefix_of(buf@, pos as int, v.wire())) implies (v matches Message::Net(c0) && c0.wf() && prefix_of(buf@, p1 as int, c0.wire())) by {
                            lemma_message_split(buf@, pos as int, v);
                            match v {
                                Message::Net(c0) => {
                                    assert(p1 == pos + 1);
                                },
                                _ => {},
                            }
                        }
                    }
                    match <NetMessage as Wire>::decode(buf, p1) {
                        None => {
                            proof {
                                assert forall|v: Message| !(v.wf() && prefix_of(buf@, pos as int, v.wire())) by {
                                    if v.wf() && prefix_of(buf@, pos as int, v.wire()) {
                                        lemma_message_split(buf@, pos as int, v);
                                        match v {
                                            Message::Net(c0) => {
                                                assert(p1 == pos + 1);
                                            },
                                            _ => {},
                                        }
                                    }
                                }
                            }
                            None
                        },
                        Some((x0, q2)) => {
                            let built = Message::Net(x0);
                            proof {
                                assert(buf@.subrange(pos as int, p1 as int) =~= seq![0u8]);
                                assert(buf@.subrange(pos as int, q2 as int) =~= buf@.subrange(pos as int, p1 as int) + buf@.subrange(p1 as int, q2 as int));
                                assert forall|v: Message| (v.wf() && prefix_of(buf@, pos as int, v.wire())) implies q2 == pos + v.wire().len() && built.wire() == v.wire() && v.veq(&built) by {
                                    lemma_message_split(buf@, pos as int, v);
                                    match v {
                                        Message::Net(c0) => {
                                            assert(p1 == pos + 1);
                                            assert(q2 == pos + 1 + c0.wire().len());
                                        },
                                        _ => {},
                                    }
                                }
                            }
                            Some((built, q2))
                        },
                    }
                } else if tag == 1 {
                    proof {
                        assert forall|v: Message| (v.wf() && prefix_of(buf@, pos as int, v.wire())) implies (v matches Message::Queue(c0) && c0.wf() && prefix_of(buf@, p1 as int, c0.wire())) by {
                            lemma_message_split(buf@, pos as int, v);
                            match v {
                                Message::Queue(c0) => {
                                    assert(p1 == pos + 1);
                                },
                                _ => {},
                            }
                        }
                    }
                    match <Macced<Signed<QueueMessage, ()>> as Wire>::decode(buf, p1) {
                        None => {
                            proof {
                                assert forall|v: Message| !(v.wf() && prefix_of(buf@, pos as int, v.wire())) by {
                                    if v.wf() && prefix_of(buf@, pos as int, v.wire()) {
                                        lemma_message_split(buf@, pos as int, v);
                                        match v {
                                            Message::Queue(c0) => {
                                                assert(p1 == pos + 1);
                                            },
                                            _ => {},
                                        }
                                    }
                                }
                            }
                            None
                        },
                        Some((x0, q2)) => {
                            let built = Message::Queue(x0);
                            proof {
                                assert(buf@.subrange(pos as int, p1 as int) =~= seq![1u8]);
                                assert(buf@.subrange(pos as int, q2 as int) =~= buf@.subrange(pos as int, p1 as int) + buf@.subrange(p1 as int, q2 as int));
                                assert forall|v: Message| (v.wf() && prefix_of(buf@, pos as int, v.wire())) implies q2 == pos + v.wire().len() && built.wire() == v.wire() && v.veq(&built) by {
                                    lemma_message_split(buf@, pos as int, v);
                                    match v {
                                        Message::Queue(c0) => {
                                            assert(p1 == pos + 1);
                                            assert(q2 == pos + 1 + c0.wire().len());
                                        },
                                        _ => {},
                                    }
                                }
                            }
                            Some((built, q2))
                        },
                    }
                } else if tag == 2 {
                    proof {
                        assert forall|v: Message| (v.wf() && prefix_of(buf@, pos as int, v.wire())) implies (v matches Message::File(c0) && c0.wf() && prefix_of(buf@, p1 as int, c0.wire())) by {
                            lemma_message_split(buf@, pos as int, v);
                            match v {
                                Message::File(c0) => {
                                    assert(p1 == pos + 1);
                                },
                                _ => {},
                            }
                        }
                    }
                    match <Macced<FileMessage> as Wire>::decode(buf, p1) {
                        None => {
                            proof {
                                assert forall|v: Message| !(v.wf() && prefix_of(buf@, pos as int, v.wire())) by {
                                    if v.wf() && prefix_of(buf@, pos as int, v.wire()) {
                                        lemma_message_split(buf@, pos as int, v);
                                        match v {
                                            Message::File(c0) => {
                                                assert(p1 == pos + 1);
                                            },
                                            _ => {},
                                        }
                                    }
                                }
                            }
                            None
                        },
                        Some((x0, q2)) => {
                            let built = Message::File(x0);
                            proof {
                                assert(buf@.subrange(pos as int, p1 as int) =~= seq![2u8]);
                                assert(buf@.subrange(pos as int, q2 as int) =~= buf@.subrange(pos as int, p1 as int) + buf@.subrange(p1 as int, q2 as int));
                                assert forall|v: Message| (v.wf() && prefix_of(buf@, pos as int, v.wire())) implies q2 == pos + v.wire().len() && built.wire() == v.wire() && v.veq(&built) by {
                                    lemma_message_split(buf@, pos as int, v);
                                    match v {
                                        Message::File(c0) => {
                                            assert(p1 == pos + 1);
                                            assert(q2 == pos + 1 + c0.wire().len());
                                        },
                                        _ => {},
                                    }
                                }
                            }
                            Some((built, q2))
                        },
                    }
                } else if tag == 3 {
                    proof {
                        assert forall|v: Message| (v.wf() && prefix_of(buf@, pos as int, v.wire())) implies (v matches Message::EncKey(c0) && c0.wf() && prefix_of(buf@, p1 as int, c0.wire())) by {
                            lemma_message_split(buf@, pos as int, v);
                            match v {
                                Message::EncKey(c0) => {
                                    assert(p1 == pos + 1);
                                },
                                _ => {},
                            }
                        }
                    }
                    match <Macced<EncKeyInfo> as Wire>::decode(buf, p1) {
                        None => {
                            proof {
                                assert forall|v: Message| !(v.wf() && prefix_of(buf@, pos as int, v.wire())) by {
                                    if v.wf() && prefix_of(buf@, pos as int, v.wire()) {
                                        lemma_message_split(buf@, pos as int, v);
                                        match v {
                                            Message::EncKey(c0) => {
                                                assert(p1 == pos + 1);
                                            },
                                            _ => {},
                                        }
                                    }
                                }
                            }
                            None
                        },
                        Some((x0, q2)) => {
                            let built = Message::EncKey(x0);
                            proof {
                                assert(buf@.subrange(pos as int, p1 as int) =~= seq![3u8]);
                                assert(buf@.subrange(pos as int, q2 as int) =~= buf@.subrange(pos as int, p1 as int) + buf@.subrange(p1 as int, q2 as int));
                                assert forall|v: Message| (v.wf() && prefix_of(buf@, pos as int, v.wire())) implies q2 == pos + v.wire().len() && built.wire() == v.wire() && v.veq(&built) by {
                                    lemma_message_split(buf@, pos as int, v);
                                    match v {
                                        Message::EncKey(c0) => {
                                            assert(p1 == pos + 1);
                                            assert(q2 == pos + 1 + c0.wire().len());
                                        },
                                        _ => {},
                                    }
                                }
                            }
                            Some((built, q2))
                        },
                    }
                } else if tag == 4 {
                    proof {
                        assert forall|v: Message| (v.wf() && prefix_of(buf@, pos as int, v.wire())) implies (v matches Message::Request(c0) && c0.wf() && prefix_of(buf@, p1 as int, c0.wire())) by {
                            lemma_message_split(buf@, pos as int, v);
                            match v {
                                Message::Request(c0) => {
                                    assert(p1 == pos + 1);
                                },
                                _ => {},
                            }
                        }
                    }
                    match <Macced<RequestMessage> as Wire>::decode(buf, p1) {
                        None => {
                            proof {
                                assert forall|v: Message| !(v.wf() && prefix_of(buf@, pos as int, v.wire())) by {
                                    if v.wf() && prefix_of(buf@, pos as int, v.wire()) {
                                        lemma_message_split(buf@, pos as int, v);
                                        match v {
                                            Message::Request(c0) => {
                                                assert(p1 == pos + 1);
                                            },
                                            _ => {},
                                        }
                                    }
                                }
                            }
                            None
                        },
                        Some((x0, q2)) => {
                            let built = Message::Request(x0);
                            proof {
                                assert(buf@.subrange(pos as int, p1 as int) =~= seq![4u8]);
                                assert(buf@.subrange(pos as int, q2 as int) =~= buf@.subrange(pos as int, p1 as int) + buf@.subrange(p1 as int, q2 as int));
                                assert forall|v: Message| (v.wf() && prefix_of(buf@, pos as int, v.wire())) implies q2 == pos + v.wire().len() && built.wire() == v.wire() && v.veq(&built) by {
                                    lemma_message_split(buf@, pos as int, v);
                                    match v {
                                        Message::Request(c0) => {
                                            assert(p1 == pos + 1);
                                            assert(q2 == pos + 1 + c0.wire().len());
                                        },
                                        _ => {},
                                    }
                                }
                            }
                            Some((built, q2))
                        },
                    }
                } else if tag == 5 {
                    proof {
                        assert forall|v: Message| (v.wf() && prefix_of(buf@, pos as int, v.wire())) implies (v matches Message::Submission(c0) && c0.wf() && prefix_of(buf@, p1 as int, c0.wire())) by {
                            lemma_message_split(buf@, pos as int, v);
                            match v {
                                Message::Submission(c0) => {
                                    assert(p1 == pos + 1);
                                },
                                _ => {},
                            }
                        }
                    }
                    match <Macced<SubmissionMessage> as Wire>::decode(buf, p1) {
                        None => {
                            proof {
                                assert forall|v: Message| !(v.wf() && prefix_of(buf@, pos as int, v.wire())) by {
                                    if v.wf() && prefix_of(buf@, pos as int, v.wire()) {
                                        lemma_message_split(buf@, pos as int, v);
                                        match v {
                                            Message::Submission(c0) => {
                                                assert(p1 == pos + 1);
                                            },
                                            _ => {},
                                        }
                                    }
                                }
                            }
                            None
                        },
                        Some((x0, q2)) => {
                            let built = Message::Submission(x0);
                            proof {
                                assert(buf@.subrange(pos as int, p1 as int) =~= seq![5u8]);
                                assert(buf@.subrange(pos as int, q2 as int) =~= buf@.subrange(pos as int, p1 as int) + buf@.subrange(p1 as int, q2 as int));
                                assert forall|v: Message| (v.wf() && prefix_of(buf@, pos as int, v.wire())) implies q2 == pos + v.wire().len() && built.wire() == v.wire() && v.veq(&built) by {
                                    lemma_message_split(buf@, pos as int, v);
                                    match v {
                                        Message::Submission(c0) => {
                                            assert(p1 == pos + 1);
                                            assert(q2 == pos + 1 + c0.wire().len());
                                        },
                                        _ => {},
                                    }
                                }
                            }
                            Some((built, q2))
                        },
                    }
                } else if tag == 6 {
                    proof {
                        assert forall|v: Message| (v.wf() && prefix_of(buf@, pos as int, v.wire())) implies (v matches Message::Question(c0) && c0.wf() && prefix_of(buf@, p1 as int, c0.wire())) by {
                            lemma_message_split(buf@, pos as int, v);
                            match v {
                                Message::Question(c0) => {
                                    assert(p1 == pos + 1);
                                },
                                _ => {},
                            }
                        }
                    }
                    match <Macced<QuestionMessage> as Wire>::decode(buf, p1) {
                        None => {
                            proof {
                                assert forall|v: Message| !(v.wf() && prefix_of(buf@, pos as int, v.wire())) by {
                                    if v.wf() && prefix_of(buf@, pos as int, v.wire()) {
                                        lemma_message_split(buf@, pos as int, v);
                                        match v {
                                            Message::Question(c0) => {
                                                assert(p1 == pos + 1);
                                            },
                                            _ => {},
                                        }
                                    }
                                }
                            }
                            None
                        },
                        Some((x0, q2)) => {
                            let built = Message::Question(x0);
                            proof {
                                assert(buf@.subrange(pos as int, p1 as int) =~= seq![6u8]);
                                assert(buf@.subrange(pos as int, q2 as int) =~= buf@.subrange(pos as int, p1 as int) + buf@.subrange(p1 as int, q2 as int));
                                assert forall|v: Message| (v.wf() && prefix_of(buf@, pos as int, v.wire())) implies q2 == pos + v.wire().len() && built.wire() == v.wire() && v.veq(&built) by {
                                    lemma_message_split(buf@, pos as int, v);
                                    match v {
                                        Message::Question(c0) => {
                                            assert(p1 == pos + 1);
                                            assert(q2 == pos + 1 + c0.wire().len());
                                        },
                                        _ => {},
                                    }
                                }
                            }
                            Some((built, q2))
                        },
                    }
                } else {
                    proof {
                        assert forall|v: Message| !(v.wf() && prefix_of(buf@, pos as int, v.wire())) by {
                            if v.wf() && prefix_of(buf@, pos as int, v.wire()) {
                                lemma_message_split(buf@, pos as int, v);
                            }
                        }
                    }
                    None
                }
            },
        }
    }
}

/// A file message that carries a full chunk fills one datagram exactly:
/// serialized with its authentication and message tag it is exactly the
/// payload budget of a packet.
pub proof fn lemma_file_message_size(m: Macced<FileMessage>)
    ensures
        (Message::File(m)).wire().len() == crate::MAX_MESSAGE_SIZE,
        (Message::File(m)).wire().len() == crate::FILE_CHUNK_SIZE + 81,
{
    crate::wire::lemma_u32_le_len(m.data.piece);
    assert(m.data.hash.wire().len() == 32);
    assert(m.data.data.wire().len() == crate::FILE_CHUNK_SIZE + 12);
    assert(m.data.wire().len() == 32 + 4 + crate::FILE_CHUNK_SIZE + 12);
    assert(m.wire().len() == m.data.wire().len() + 32);
    assert((Message::File(m)).wire().len() == 1 + m.wire().len());
}

impl QSubmission {
    /// The identity of this submission: submitter, problem and file.
    pub fn submission_id(&self) -> (r: SubmissionId)
        ensures
            r.submitter == self.submitter,
            r.problem_id == self.problem_id,
            r.file_id == self.file_desc.hash,
    {
        SubmissionId {
            submitter: self.submitter,
            problem_id: self.problem_id,
            file_id: self.file_desc.hash,
        }
    }
}

impl EvaluationId {
    /// The public bytes an evaluator's commitment is keyed over: the digest
    /// of this assignment's serialization.
    pub fn get_public_hash_data(&self) -> (r: [u8; 32])
        ensures
            r@ == blake3_of(self.wire()),
    {
        let mut buf: Vec<u8> = Vec::new();
        self.encode(&mut buf);
        blake3_hash(buf.as_slice()).bytes
    }
}

/// The commitment a reveal key makes for an assignment: the keyed blake3 of
/// the assignment's public hash data under that key.
pub open spec fn commitment_of(evaluation_id: EvaluationId, key: Mac) -> Seq<u8> {
    keyed_blake3_of(key.bytes@, blake3_of(evaluation_id.wire()))
}

impl QEvaluation {
    /// A published evaluation from the reveal it will later be checked
    /// against and the score.
    pub fn new(evp: QEvaluationProof, score: SubScore) -> (r: Self)
        ensures
            r.evaluation_id == evp.evaluation_id,
            r.score == score,
            r.detailhs_hash.bytes@ == commitment_of(evp.evaluation_id, evp.detailhs),
    {
        let data = evp.evaluation_id.get_public_hash_data();
        let detailhs_hash = crate::crypto::blake3_keyed(&evp.detailhs.bytes, data.as_slice());
        QEvaluation { evaluation_id: evp.evaluation_id, score, detailhs_hash }
    }
}

impl QEvaluationProof {
    /// The commitment this reveal stands for.
    pub fn hash(&self) -> (r: DetailHash)
        ensures
            r.bytes@ == commitment_of(self.evaluation_id, self.detailhs),
    {
        let data = self.evaluation_id.get_public_hash_data();
        crate::crypto::blake3_keyed(&self.detailhs.bytes, data.as_slice())
    }

    /// Whether this reveal opens the given evaluation's commitment: the
    /// same assignment, and the commitment is the keyed digest this
    /// reveal's key produces.
    pub fn check(&self, ev: &QEvaluation) -> (r: bool)
        ensures
            r == (self.evaluation_id == ev.evaluation_id && ev.detailhs_hash.bytes@
                == commitment_of(ev.evaluation_id, self.detailhs)),
    {
        let ids_equal = self.evaluation_id.submitter_eq(&ev.evaluation_id);
        if !ids_equal {
            return false;
        }
        let data = ev.evaluation_id.get_public_hash_data();
        let p = crate::crypto::blake3_keyed(&self.detailhs.bytes, data.as_slice());
        let r = p.equals(&ev.detailhs_hash);
        proof {
            if ev.detailhs_hash.bytes@ == p.bytes@ {
                assert(ev.detailhs_hash.bytes =~= p.bytes);
            }
        }
        r
    }
}

impl EvaluationId {
    /// Whether two assignments are the same.
    pub fn submitter_eq(&self, o: &EvaluationId) -> (r: bool)
        ensures
            r <==> *self == *o,
    {
        let a = &self.submission_id;
        let b = &o.submission_id;
        a.submitter.equals(&b.submitter) && a.problem_id == b.problem_id && a.file_id.equals(
            &b.file_id,
        ) && self.evaluator.equals(&o.evaluator)
    }
}

/// The serialized bytes of an access policy: a tag byte, then the
/// variant's payload; policy lists carry a 32-bit count.
pub open spec fn id_wire(v: EncKeyId) -> Seq<u8>
    decreases v, 0int,
{
    match v {
        EncKeyId::CustomPublic(x) => seq![0u8] + u32_le(x),
        EncKeyId::IsEntity(e) => seq![1u8] + e.wire(),
        EncKeyId::IsClient(k) => seq![2u8] + k.wire(),
        EncKeyId::ProblemSolved(p) => seq![3u8] + u32_le(p),
        EncKeyId::Or(ids) => seq![4u8] + u32_le(ids@.len() as u32) + id_vec_wire(ids, 0),
        EncKeyId::And(ids) => seq![5u8] + u32_le(ids@.len() as u32) + id_vec_wire(ids, 0),
    }
}

/// The serialized bytes of the policies of a list from index `i` on.
pub open spec fn id_vec_wire(ids: Vec<EncKeyId>, i: int) -> Seq<u8>
    decreases ids, ids@.len() - i,
{
    if i < 0 || i >= ids@.len() {
        Seq::empty()
    } else {
        id_wire(ids@[i]) + id_vec_wire(ids, i + 1)
    }
}

/// Equality of everything two policies carry: same shape, with list
/// contents compared element by element.
pub open spec fn id_veq(a: EncKeyId, b: EncKeyId) -> bool
    decreases a, 0int,
{
    match (a, b) {
        (EncKeyId::CustomPublic(x), EncKeyId::CustomPublic(y)) => x == y,
        (EncKeyId::IsEntity(x), EncKeyId::IsEntity(y)) => x == y,
        (EncKeyId::IsClient(x), EncKeyId::IsClient(y)) => x == y,
        (EncKeyId::ProblemSolved(x), EncKeyId::ProblemSolved(y)) => x == y,
        (EncKeyId::Or(xs), EncKeyId::Or(ys)) => xs@.len() == ys@.len() && id_vec_veq(xs, ys, 0),
        (EncKeyId::And(xs), EncKeyId::And(ys)) => xs@.len() == ys@.len() && id_vec_veq(xs, ys, 0),
        _ => false,
    }
}

/// Elementwise policy equality of two lists from index `i` on.
pub open spec fn id_vec_veq(xs: Vec<EncKeyId>, ys: Vec<EncKeyId>, i: int) -> bool
    decreases xs, xs@.len() - i,
{
    if i < 0 || i >= xs@.len() || i >= ys@.len() {
        true
    } else {
        id_veq(xs@[i], ys@[i]) && id_vec_veq(xs, ys, i + 1)
    }
}

/// Elementwise equality from an index on follows from equality at each
/// index.
pub proof fn lemma_id_vec_veq_pointwise(xs: Vec<EncKeyId>, ys: Vec<EncKeyId>, i: int)
    requires
        0 <= i <= xs@.len(),
        forall|j: int| i <= j < xs@.len() && j < ys@.len() ==> #[trigger] id_veq(xs@[j], ys@[j]),
    ensures
        id_vec_veq(xs, ys, i),
    decreases xs@.len() - i,
{
    if i < xs@.len() && i < ys@.len() {
        lemma_id_vec_veq_pointwise(xs, ys, i + 1);
        assert(id_veq(xs@[i], ys@[i]));
        assert(id_vec_veq(xs, ys, i) == (id_veq(xs@[i], ys@[i]) && id_vec_veq(xs, ys, i + 1)));
    } else {
        assert(i >= xs@.len() || i >= ys@.len());
    }
}

/// Whether a policy can be serialized: every list fits its count.
pub open spec fn id_wf(v: EncKeyId) -> bool
    decreases v, 0int,
{
    match v {
        EncKeyId::CustomPublic(_) => true,
        EncKeyId::IsEntity(_) => true,
        EncKeyId::IsClient(_) => true,
        EncKeyId::ProblemSolved(_) => true,
        EncKeyId::Or(ids) => ids@.len() <= 0xFFFF_FFFF && id_vec_wf(ids, 0),
        EncKeyId::And(ids) => ids@.len() <= 0xFFFF_FFFF && id_vec_wf(ids, 0),
    }
}

/// Whether every policy of a list from index `i` on can be serialized.
pub open spec fn id_vec_wf(ids: Vec<EncKeyId>, i: int) -> bool
    decreases ids, ids@.len() - i,
{
    if i < 0 || i >= ids@.len() {
        true
    } else {
        id_wf(ids@[i]) && id_vec_wf(ids, i + 1)
    }
}

/// List serialization reads only the list's contents, not the vector that
/// holds them.
pub proof fn lemma_id_vec_wire_view(a: Vec<EncKeyId>, b: Vec<EncKeyId>, i: int)
    requires
        a@ == b@,
    ensures
        id_vec_wire(a, i) == id_vec_wire(b, i),
        id_vec_wf(a, i) == id_vec_wf(b, i),
    decreases a@.len() - i,
{
    if 0 <= i < a@.len() {
        lemma_id_vec_wire_view(a, b, i + 1);
    }
}

/// One more element at the end of a list appends its bytes.
pub proof fn lemma_id_vec_wire_snoc(a: Vec<EncKeyId>, b: Vec<EncKeyId>, x: EncKeyId, i: int)
    requires
        b@ == a@.push(x),
        0 <= i <= a@.len(),
    ensures
        id_vec_wire(b, i) == id_vec_wire(a, i) + id_wire(x),
        id_vec_wf(a, i) && id_wf(x) ==> id_vec_wf(b, i),
    decreases a@.len() - i,
{
    if i == a@.len() {
        assert(b@[i] == x);
        assert(id_vec_wire(b, i + 1) == Seq::<u8>::empty());
        assert(id_vec_wire(b, i) == id_wire(x) + Seq::<u8>::empty());
        assert(id_wire(x) + Seq::<u8>::empty() =~= id_wire(x));
        assert(id_vec_wire(a, i) + id_wire(x) =~= id_wire(x));
        assert(id_vec_wf(b, i + 1));
        if id_vec_wf(a, i) && id_wf(x) {
            assert(id_vec_wf(b, i));
        }
    } else {
        lemma_id_vec_wire_snoc(a, b, x, i + 1);
        assert(b@[i] == a@[i]);
        assert(id_wire(a@[i]) + (id_vec_wire(a, i + 1) + id_wire(x)) =~= (id_wire(a@[i])
            + id_vec_wire(a, i + 1)) + id_wire(x));
    }
}

/// Appends a policy's serialization.
pub fn encode_enc_key_id(v: &EncKeyId, out: &mut Vec<u8>)
    requires
        id_wf(*v),
    ensures
        final(out)@ == old(out)@ + id_wire(*v),
    decreases *v, 0int,
{
    match v {
        EncKeyId::CustomPublic(x) => {
            out.push(0);
            x.encode(out);
            assert(out@ =~= old(out)@ + id_wire(*v));
        },
        EncKeyId::IsEntity(e) => {
            out.push(1);
            e.encode(out);
            assert(out@ =~= old(out)@ + id_wire(*v));
        },
        EncKeyId::IsClient(k) => {
            out.push(2);
            k.encode(out);
            assert(out@ =~= old(out)@ + id_wire(*v));
        },
        EncKeyId::ProblemSolved(p) => {
            out.push(3);
            p.encode(out);
            assert(out@ =~= old(out)@ + id_wire(*v));
        },
        EncKeyId::Or(ids) => {
            out.push(4);
            let n: u32 = ids.len() as u32;
            n.encode(out);
            encode_id_list(ids, out);
            assert(out@ =~= old(out)@ + id_wire(*v));
        },
        EncKeyId::And(ids) => {
            out.push(5);
            let n: u32 = ids.len() as u32;
            n.encode(out);
            encode_id_list(ids, out);
            assert(out@ =~= old(out)@ + id_wire(*v));
        },
    }
}

/// Appends the serializations of every policy of a list, in order.
pub fn encode_id_list(ids: &Vec<EncKeyId>, out: &mut Vec<u8>)
    requires
        id_vec_wf(*ids, 0),
    ensures
        final(out)@ == old(out)@ + id_vec_wire(*ids, 0),
    decreases *ids, ids@.len() + 1,
{
    let n = ids.len();
    let mut i: usize = 0;
    #[verifier::loop_isolation(false)]
    while i < n
        invariant
            i <= n,
            out@ + id_vec_wire(*ids, i as int) == old(out)@ + id_vec_wire(*ids, 0),
            id_vec_wf(*ids, i as int),
        decreases n - i,
    {
        let ghost pre = out@;
        encode_enc_key_id(&ids[i], out);
        proof {
            assert(id_vec_wire(*ids, i as int) == id_wire(ids@[i as int]) + id_vec_wire(
                *ids,
                i + 1,
            ));
            assert(pre + (id_wire(ids@[i as int]) + id_vec_wire(*ids, i + 1)) =~= (pre + id_wire(
                ids@[i as int],
            )) + id_vec_wire(*ids, i + 1));
        }
        i += 1;
    }
    proof {
        assert(id_vec_wire(*ids, n as int) == Seq::<u8>::empty());
        assert(out@ + Seq::<u8>::empty() =~= out@);
    }
}

/// Reads one policy.
pub fn decode_enc_key_id(buf: &[u8], pos: usize) -> (r: Option<(EncKeyId, usize)>)
    requires
        pos <= buf@.len(),
    ensures
        (match r {
            Some((v, p)) => {
                &&& pos < p <= buf@.len()
                &&& id_wf(v)
                &&& buf@.subrange(pos as int, p as int) == id_wire(v)
            },
            None => true,
        }),
        forall|v: EncKeyId|
            #![trigger id_wire(v)]
            id_wf(v) && prefix_of(buf@, pos as int, id_wire(v)) ==> {
                &&& r is Some
                &&& r.unwrap().1 == pos + id_wire(v).len()
                &&& id_wire(r.unwrap().0) == id_wire(v)
                &&& id_veq(v, r.unwrap().0)
            },
    decreases buf@.len() - pos, 0int,
{
    proof {
        assert forall|v: EncKeyId| (id_wf(v) && prefix_of(buf@, pos as int, id_wire(v))) implies (
        id_tag(v).wf() && prefix_of(buf@, pos as int, id_tag(v).wire())) by {
            id_head_split(buf@, pos as int, v);
        }
    }
    match u8::decode(buf, pos) {
        None => None,
        Some((tag, p1)) => {
            if tag == 0 {
                proof {
                    assert forall|v: EncKeyId| (id_wf(v) && prefix_of(
                        buf@,
                        pos as int,
                        id_wire(v),
                    )) implies (v matches EncKeyId::CustomPublic(x) && x.wf() && prefix_of(
                        buf@,
                        p1 as int,
                        x.wire(),
                    )) by {
                        id_head_split(buf@, pos as int, v);
                    }
                }
                match u32::decode(buf, p1) {
                    None => None,
                    Some((x, p2)) => {
                        let built = EncKeyId::CustomPublic(x);
                        proof {
                            assert(buf@.subrange(pos as int, p1 as int) =~= seq![0u8]);
                            assert(buf@.subrange(pos as int, p2 as int) =~= buf@.subrange(
                                pos as int,
                                p1 as int,
                            ) + buf@.subrange(p1 as int, p2 as int));
                            assert forall|v: EncKeyId| (id_wf(v) && prefix_of(
                                buf@,
                                pos as int,
                                id_wire(v),
                            )) implies p2 == pos + id_wire(v).len() && id_wire(built) == id_wire(
                                v,
                            ) && id_veq(v, built) by {
                                id_head_split(buf@, pos as int, v);
                            }
                        }
                        Some((built, p2))
                    },
                }
            } else if tag == 1 {
                proof {
                    assert forall|v: EncKeyId| (id_wf(v) && prefix_of(
                        buf@,
                        pos as int,
                        id_wire(v),
                    )) implies (v matches EncKeyId::IsEntity(e) && e.wf() && prefix_of(
                        buf@,
                        p1 as int,
                        e.wire(),
                    )) by {
                        id_head_split(buf@, pos as int, v);
                    }
                }
                match Entity::decode(buf, p1) {
                    None => None,
                    Some((e, p2)) => {
                        let built = EncKeyId::IsEntity(e);
                        proof {
                            assert(buf@.subrange(pos as int, p1 as int) =~= seq![1u8]);
                            assert(buf@.subrange(pos as int, p2 as int) =~= buf@.subrange(
                                pos as int,
                                p1 as int,
                            ) + buf@.subrange(p1 as int, p2 as int));
                            assert forall|v: EncKeyId| (id_wf(v) && prefix_of(
                                buf@,
                                pos as int,
                                id_wire(v),
                            )) implies p2 == pos + id_wire(v).len() && id_wire(built) == id_wire(
                                v,
                            ) && id_veq(v, built) by {
                                id_head_split(buf@, pos as int, v);
                            }
                        }
                        Some((built, p2))
                    },
                }
            } else if tag == 2 {
                proof {
                    assert forall|v: EncKeyId| (id_wf(v) && prefix_of(
                        buf@,
                        pos as int,
                        id_wire(v),
                    )) implies (v matches EncKeyId::IsClient(k) && k.wf() && prefix_of(
                        buf@,
                        p1 as int,
                        k.wire(),
                    )) by {
                        id_head_split(buf@, pos as int, v);
                    }
                }
                match PubSigKey::decode(buf, p1) {
                    None => None,
                    Some((k, p2)) => {
                        let built = EncKeyId::IsClient(k);
                        proof {
                            assert(buf@.subrange(pos as int, p1 as int) =~= seq![2u8]);
                            assert(buf@.subrange(pos as int, p2 as int) =~= buf@.subrange(
                                pos as int,
                                p1 as int,
                            ) + buf@.subrange(p1 as int, p2 as int));
                            assert forall|v: EncKeyId| (id_wf(v) && prefix_of(
                                buf@,
                                pos as int,
                                id_wire(v),
                            )) implies p2 == pos + id_wire(v).len() && id_wire(built) == id_wire(
                                v,
                            ) && id_veq(v, built) by {
                                id_head_split(buf@, pos as int, v);
                            }
                        }
                        Some((built, p2))
                    },
                }
            } else if tag == 3 {
                proof {
                    assert forall|v: EncKeyId| (id_wf(v) && prefix_of(
                        buf@,
                        pos as int,
                        id_wire(v),
                    )) implies (v matches EncKeyId::ProblemSolved(p) && p.wf() && prefix_of(
                        buf@,
                        p1 as int,
                        p.wire(),
                    )) by {
                        id_head_split(buf@, pos as int, v);
                    }
                }
                match u32::decode(buf, p1) {
                    None => None,
                    Some((x, p2)) => {
                        let built = EncKeyId::ProblemSolved(x);
                        proof {
                            assert(buf@.subrange(pos as int, p1 as int) =~= seq![3u8]);
                            assert(buf@.subrange(pos as int, p2 as int) =~= buf@.subrange(
                                pos as int,
                                p1 as int,
                            ) + buf@.subrange(p1 as int, p2 as int));
                            assert forall|v: EncKeyId| (id_wf(v) && prefix_of(
                                buf@,
                                pos as int,
                                id_wire(v),
                            )) implies p2 == pos + id_wire(v).len() && id_wire(built) == id_wire(
                                v,
                            ) && id_veq(v, built) by {
                                id_head_split(buf@, pos as int, v);
                            }
                        }
                        Some((built, p2))
                    },
                }
            } else if tag == 4 || tag == 5 {
                proof {
                    assert forall|v: EncKeyId| (id_wf(v) && prefix_of(
                        buf@,
                        pos as int,
                        id_wire(v),
                    )) implies (id_count(v).wf() && prefix_of(buf@, p1 as int, id_count(v).wire()))
                        by {
                        id_head_split(buf@, pos as int, v);
                    }
                }
                match u32::decode(buf, p1) {
                    None => None,
                    Some((count, p2)) => {
                        proof {
                            assert forall|v: EncKeyId| (id_wf(v) && prefix_of(
                                buf@,
                                pos as int,
                                id_wire(v),
                            )) implies (match v {
                                EncKeyId::Or(ids) => count == ids@.len() as u32 && id_vec_wf(ids, 0)
                                    && prefix_of(buf@, p2 as int, id_vec_wire(ids, 0)),
                                EncKeyId::And(ids) => count == ids@.len() as u32 && id_vec_wf(
                                    ids,
                                    0,
                                ) && prefix_of(buf@, p2 as int, id_vec_wire(ids, 0)),
                                _ => false,
                            }) by {
                                id_head_split(buf@, pos as int, v);
                            }
                        }
                        match decode_id_list(buf, p2, count) {
                            None => None,
                            Some((ids, p3)) => {
                                let built = if tag == 4 {
                                    EncKeyId::Or(ids)
                                } else {
                                    EncKeyId::And(ids)
                                };
                                proof {
                                    assert(buf@.subrange(pos as int, p1 as int) =~= seq![tag]);
                                    assert(buf@.subrange(pos as int, p2 as int) =~= buf@.subrange(
                                        pos as int,
                                        p1 as int,
                                    ) + buf@.subrange(p1 as int, p2 as int));
                                    assert(buf@.subrange(pos as int, p3 as int) =~= buf@.subrange(
                                        pos as int,
                                        p2 as int,
                                    ) + buf@.subrange(p2 as int, p3 as int));
                                    if tag == 4 {
                                        assert(seq![tag] =~= seq![4u8]);
                                    } else {
                                        assert(seq![tag] =~= seq![5u8]);
                                    }
                                    assert forall|v: EncKeyId| (id_wf(v) && prefix_of(
                                        buf@,
                                        pos as int,
                                        id_wire(v),
                                    )) implies p3 == pos + id_wire(v).len() && id_wire(built)
                                        == id_wire(v) && id_veq(v, built) by {
                                        id_head_split(buf@, pos as int, v);
                                    }
                                }
                                Some((built, p3))
                            },
                        }
                    },
                }
            } else {
                proof {
                    assert forall|v: EncKeyId| !(id_wf(v) && prefix_of(
                        buf@,
                        pos as int,
                        id_wire(v),
                    )) by {
                        if id_wf(v) && prefix_of(buf@, pos as int, id_wire(v)) {
                            id_head_split(buf@, pos as int, v);
                        }
                    }
                }
                None
            }
        },
    }
}

/// The tag byte of each policy variant.
pub open spec fn id_tag(v: EncKeyId) -> u8 {
    match v {
        EncKeyId::CustomPublic(_) => 0,
        EncKeyId::IsEntity(_) => 1,
        EncKeyId::IsClient(_) => 2,
        EncKeyId::ProblemSolved(_) => 3,
        EncKeyId::Or(_) => 4,
        EncKeyId::And(_) => 5,
    }
}

/// The list count a policy's serialization carries, where it has one.
pub open spec fn id_count(v: EncKeyId) -> u32 {
    match v {
        EncKeyId::Or(ids) => ids@.len() as u32,
        EncKeyId::And(ids) => ids@.len() as u32,
        _ => 0,
    }
}

/// Splits a policy's serialization standing in a buffer into its parts.
proof fn id_head_split(buf: Seq<u8>, pos: int, v: EncKeyId)
    requires
        prefix_of(buf, pos, id_wire(v)),
    ensures
        buf.subrange(pos, pos + 1) == seq![id_tag(v)],
        prefix_of(buf, pos, id_tag(v).wire()),
        (match v {
            EncKeyId::CustomPublic(x) => prefix_of(buf, pos + 1, u32_le(x)),
            EncKeyId::IsEntity(e) => prefix_of(buf, pos + 1, e.wire()),
            EncKeyId::IsClient(k) => prefix_of(buf, pos + 1, k.wire()),
            EncKeyId::ProblemSolved(p) => prefix_of(buf, pos + 1, u32_le(p)),
            EncKeyId::Or(ids) => prefix_of(buf, pos + 1, u32_le(ids@.len() as u32)) && prefix_of(
                buf,
                pos + 5,
                id_vec_wire(ids, 0),
            ),
            EncKeyId::And(ids) => prefix_of(buf, pos + 1, u32_le(ids@.len() as u32)) && prefix_of(
                buf,
                pos + 5,
                id_vec_wire(ids, 0),
            ),
        }),
{
    match v {
        EncKeyId::CustomPublic(x) => {
            lemma_concat_split(buf, pos, seq![0u8], u32_le(x));
        },
        EncKeyId::IsEntity(e) => {
            lemma_concat_split(buf, pos, seq![1u8], e.wire());
        },
        EncKeyId::IsClient(k) => {
            lemma_concat_split(buf, pos, seq![2u8], k.wire());
        },
        EncKeyId::ProblemSolved(p) => {
            lemma_concat_split(buf, pos, seq![3u8], u32_le(p));
        },
        EncKeyId::Or(ids) => {
            lemma_concat_split(
                buf,
                pos,
                seq![4u8] + u32_le(ids@.len() as u32),
                id_vec_wire(ids, 0),
            );
            lemma_concat_split(buf, pos, seq![4u8], u32_le(ids@.len() as u32));
        },
        EncKeyId::And(ids) => {
            lemma_concat_split(
                buf,
                pos,
                seq![5u8] + u32_le(ids@.len() as u32),
                id_vec_wire(ids, 0),
            );
            lemma_concat_split(buf, pos, seq![5u8], u32_le(ids@.len() as u32));
        },
    }
    assert(id_tag(v).wire() =~= seq![id_tag(v)]);
    assert(buf.subrange(pos, pos + 1) =~= seq![id_tag(v)]);
}

/// Reads `count` policies in order.
pub fn decode_id_list(buf: &[u8], pos: usize, count: u32) -> (r: Option<(Vec<EncKeyId>, usize)>)
    requires
        pos <= buf@.len(),
    ensures
        (match r {
            Some((ids, p)) => {
                &&& pos <= p <= buf@.len()
                &&& ids@.len() == count
                &&& id_vec_wf(ids, 0)
                &&& buf@.subrange(pos as int, p as int) == id_vec_wire(ids, 0)
            },
            None => true,
        }),
        forall|s: Vec<EncKeyId>|
            #![trigger id_vec_wire(s, 0)]
            s@.len() == count && id_vec_wf(s, 0) && prefix_of(buf@, pos as int, id_vec_wire(s, 0))
                ==> {
                &&& r is Some
                &&& r.unwrap().1 == pos + id_vec_wire(s, 0).len()
                &&& id_vec_wire(r.unwrap().0, 0) == id_vec_wire(s, 0)
                &&& r.unwrap().0@.len() == s@.len()
                &&& id_vec_veq(s, r.unwrap().0, 0)
            },
    decreases buf@.len() - pos, 1int,
{
    let mut res: Vec<EncKeyId> = Vec::new();
    let mut cur: usize = pos;
    let mut i: u32 = 0;
    proof {
        assert(buf@.subrange(pos as int, pos as int) =~= id_vec_wire(res, 0));
    }
    loop
        invariant
            i <= count,
            res@.len() == i,
            id_vec_wf(res, 0),
            pos <= cur <= buf@.len(),
            buf@.subrange(pos as int, cur as int) == id_vec_wire(res, 0),
            forall|s: Vec<EncKeyId>|
                #![trigger id_vec_wire(s, 0)]
                s@.len() == count && id_vec_wf(s, 0) && prefix_of(
                    buf@,
                    pos as int,
                    id_vec_wire(s, 0),
                ) ==> {
                    &&& i <= s@.len()
                    &&& prefix_of(buf@, cur as int, id_vec_wire(s, i as int))
                    &&& pos + id_vec_wire(s, 0).len() == cur + id_vec_wire(s, i as int).len()
                    &&& (forall|j: int| 0 <= j < i ==> #[trigger] id_veq(s@[j], res@[j]))
                },
        ensures
            i == count,
            res@.len() == count,
            id_vec_wf(res, 0),
            pos <= cur <= buf@.len(),
            buf@.subrange(pos as int, cur as int) == id_vec_wire(res, 0),
            forall|s: Vec<EncKeyId>|
                #![trigger id_vec_wire(s, 0)]
                s@.len() == count && id_vec_wf(s, 0) && prefix_of(
                    buf@,
                    pos as int,
                    id_vec_wire(s, 0),
                ) ==> cur == pos + id_vec_wire(s, 0).len() && id_vec_veq(s, res, 0),
        decreases count - i,
    {
        if i >= count {
            proof {
                assert forall|s: Vec<EncKeyId>|
                    s@.len() == count && id_vec_wf(s, 0) && prefix_of(
                        buf@,
                        pos as int,
                        id_vec_wire(s, 0),
                    ) implies cur == pos + id_vec_wire(s, 0).len() && id_vec_veq(s, res, 0) by {
                    assert(id_vec_wire(s, i as int) == Seq::<u8>::empty());
                    lemma_id_vec_veq_pointwise(s, res, 0);
                }
            }
            break ;
        }
        proof {
            lemma_id_vec_wf_index(res);
            assert forall|s: Vec<EncKeyId>|
                s@.len() == count && id_vec_wf(s, 0) && prefix_of(
                    buf@,
                    pos as int,
                    id_vec_wire(s, 0),
                ) implies (id_wf(s@[i as int]) && prefix_of(
                buf@,
                cur as int,
                id_wire(s@[i as int]),
            )) by {
                lemma_id_vec_wf_index(s);
                assert(id_vec_wire(s, i as int) == id_wire(s@[i as int]) + id_vec_wire(
                    s,
                    i + 1,
                ));
                lemma_concat_split(
                    buf@,
                    cur as int,
                    id_wire(s@[i as int]),
                    id_vec_wire(s, i + 1),
                );
            }
        }
        match decode_enc_key_id(buf, cur) {
            None => {
                proof {
                    assert forall|s: Vec<EncKeyId>|
                        !(s@.len() == count && id_vec_wf(s, 0) && prefix_of(
                            buf@,
                            pos as int,
                            id_vec_wire(s, 0),
                        )) by {}
                }
                return None;
            },
            Some((x, np)) => {
                let ghost old_res = res;
                res.push(x);
                proof {
                    lemma_id_vec_wire_snoc(old_res, res, x, 0);
                    assert(buf@.subrange(pos as int, np as int) =~= buf@.subrange(
                        pos as int,
                        cur as int,
                    ) + buf@.subrange(cur as int, np as int));
                    assert forall|s: Vec<EncKeyId>|
                        s@.len() == count && id_vec_wf(s, 0) && prefix_of(
                            buf@,
                            pos as int,
                            id_vec_wire(s, 0),
                        ) implies {
                        &&& i + 1 <= s@.len()
                        &&& prefix_of(buf@, np as int, id_vec_wire(s, i + 1))
                        &&& pos + id_vec_wire(s, 0).len() == np + id_vec_wire(s, i + 1).len()
                        &&& (forall|j: int| 0 <= j < i + 1 ==> #[trigger] id_veq(
                            s@[j],
                            res@.push(x)[j],
                        ))
                    } by {
                        lemma_id_vec_wf_index(s);
                        assert(id_vec_wire(s, i as int) == id_wire(s@[i as int]) + id_vec_wire(
                            s,
                            i + 1,
                        ));
                        lemma_concat_split(
                            buf@,
                            cur as int,
                            id_wire(s@[i as int]),
                            id_vec_wire(s, i + 1),
                        );
                        assert(id_veq(s@[i as int], x));
                        assert forall|j: int| 0 <= j < i + 1 implies #[trigger] id_veq(
                            s@[j],
                            res@.push(x)[j],
                        ) by {
                            if j < i {
                                assert(res@.push(x)[j] == res@[j]);
                            } else {
                                assert(res@.push(x)[j] == x);
                            }
                        }
                    }
                }
                cur = np;
                i += 1;
            },
        }
    }
    Some((res, cur))
}

/// Well-formedness of a list gives well-formedness of each element.
pub proof fn lemma_id_vec_wf_index(ids: Vec<EncKeyId>)
    requires
        id_vec_wf(ids, 0),
    ensures
        forall|j: int| 0 <= j < ids@.len() ==> #[trigger] id_wf(ids@[j]),
{
    assert forall|j: int| 0 <= j < ids@.len() implies #[trigger] id_wf(ids@[j]) by {
        lemma_id_vec_wf_step(ids, j);
    }
}

/// Well-formedness of a list from the front reaches index `j`.
proof fn lemma_id_vec_wf_step(ids: Vec<EncKeyId>, j: int)
    requires
        id_vec_wf(ids, 0),
        0 <= j < ids@.len(),
    ensures
        id_wf(ids@[j]),
{
    let mut_unused: int = 0;
    lemma_id_vec_wf_from(ids, 0, j);
}

/// Well-formedness from index `i` on gives well-formedness at any later
/// index.
proof fn lemma_id_vec_wf_from(ids: Vec<EncKeyId>, i: int, j: int)
    requires
        0 <= i <= j < ids@.len(),
        id_vec_wf(ids, i),
    ensures
        id_wf(ids@[j]),
    decreases j - i,
{
    if i < j {
        lemma_id_vec_wf_from(ids, i + 1, j);
    }
}

impl Wire for EncKeyId {
    open spec fn veq(&self, other: &Self) -> bool {
        id_veq(*self, *other)
    }

    open spec fn wire(&self) -> Seq<u8> {
        id_wire(*self)
    }

    open spec fn wf(&self) -> bool {
        id_wf(*self)
    }

    fn encode(&self, out: &mut Vec<u8>) {
        encode_enc_key_id(self, out);
    }

    fn decode(buf: &[u8], pos: usize) -> (r: Option<(Self, usize)>) {
        decode_enc_key_id(buf, pos)
    }
}

} // verus!
