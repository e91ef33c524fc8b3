use crate::crypto::{dh_shared_of, kex_dh, KexSecret, MacKey, PubSigKey};
use crate::envelope::{Macced, Signed};
use crate::message::{
    is_timestamp_valid_at, timestamp_valid_at, EncKeyInfo, FileMessage, KeepAliveInner, MerkleData,
    Message, NetMessage, PeerAddr, QuestionMessage, QueueMessage, RequestMessage,
    SubmissionMessage, Timestamp,
};
use crate::wire::{prefix_of, Wire};
use vstd::prelude::*;

verus! {

/// What handling one handshake frame asks of the host.
#[derive(Clone, Copy, PartialEq, Eq, Structural, Debug)]
pub enum HsAction {
    /// The frame failed validation: drop it silently.
    Drop,
    /// The local key-exchange secret was consumed earlier: the connection
    /// already stands; nothing to do.
    AlreadyFinalized,
    /// A connection was derived: cancel any keep-alive task of a replaced
    /// entry, and start one anew exactly when the count asks for it.
    Finalize { start_keep_alive: bool },
}

/// Whether a received handshake frame passes every check of the inbound
/// policy: its signature verifies under the identity it declares, its
/// timestamp is fresh, it names our contest, and the filter (or an
/// initiation of our own) admits the peer.
pub open spec fn merkle_frame_ok(
    frame: Signed<MerkleData, PubSigKey>,
    own_contest_id: u128,
    now: Timestamp,
    accept: bool,
) -> bool {
    &&& frame.valid(frame.signer)
    &&& timestamp_valid_at(frame.body.timestamp, now)
    &&& frame.body.contest_id == own_contest_id
    &&& accept
}

/// Handles one received handshake frame for one peer and address: the
/// decision core of inbound key exchange. Drops invalid frames; consumes
/// the local one-shot secret exactly once; on consumption derives the
/// connection key by Diffie-Hellman, which both sides compute equal.
///
/// `initting` is the local secret toward this peer and address, where one
/// still stands unconsumed; `conn` is any current connection entry;
/// `ka_refs` is the keep-alive count for the peer; `accept` is the inbound
/// filter's verdict, or true where we were initiating ourselves.
pub fn handshake_step(
    initting: Option<KexSecret>,
    conn: Option<(PeerAddr, MacKey)>,
    ka_refs: u32,
    own_contest_id: u128,
    frame: Signed<MerkleData, PubSigKey>,
    now: Timestamp,
    accept: bool,
    peer_addr: PeerAddr,
) -> (r: (Option<KexSecret>, Option<(PeerAddr, MacKey)>, HsAction))
    ensures
        !merkle_frame_ok(frame, own_contest_id, now, accept) ==> r.0 == initting && r.1 == conn
            && r.2 == HsAction::Drop,
        merkle_frame_ok(frame, own_contest_id, now, accept) && initting is None ==> r.0 is None
            && r.1 == conn && r.2 == HsAction::AlreadyFinalized,
        initting matches Some(ks) ==> (merkle_frame_ok(frame, own_contest_id, now, accept) ==> {
            &&& r.0 is None
            &&& (r.1 matches Some((a, k)) && a == peer_addr && k.bytes@ == dh_shared_of(
                ks.pub_bytes(),
                frame.body.kex.bytes@,
            ) && k.bytes@ == dh_shared_of(frame.body.kex.bytes@, ks.pub_bytes()))
            &&& r.2 == (HsAction::Finalize { start_keep_alive: ka_refs > 0 })
        }),
{
    let declared = frame.signer;
    let sig_ok = frame.check(&declared);
    let ts_ok = is_timestamp_valid_at(frame.body.timestamp, now);
    let contest_ok = frame.body.contest_id == own_contest_id;
    if !(sig_ok && ts_ok && contest_ok && accept) {
        return (initting, conn, HsAction::Drop);
    }
    match initting {
        None => (None, conn, HsAction::AlreadyFinalized),
        Some(ks) => {
            let mac_key = kex_dh(ks, &frame.body.kex);
            (
                None,
                Some((peer_addr, mac_key)),
                HsAction::Finalize { start_keep_alive: ka_refs > 0 },
            )
        },
    }
}

/// What handling one keep-alive frame asks of the host.
#[derive(Clone, Copy, PartialEq, Eq, Structural, Debug)]
pub enum KaAction {
    /// The frame failed validation: drop it silently.
    Drop,
    /// The peer proved the derived key is shared: abort and remove the
    /// outbound key-exchange retransmit toward it.
    StopKexRetransmit,
    /// Valid, but no consumed key exchange is waiting on liveness: keep
    /// everything as it stands.
    Keep,
}

/// Handles one received keep-alive for one peer: valid exactly when the
/// peer's current connection key authenticates it and its timestamp is
/// fresh; where a consumed key exchange was waiting for this proof of
/// liveness, the retransmit loop stops.
///
/// `conn_key` is the peer's current connection key, where a connection
/// stands; `init_consumed` says an initiation toward this peer and address
/// stands whose secret was already consumed.
pub fn keepalive_step(
    conn_key: Option<MacKey>,
    body: Macced<KeepAliveInner>,
    now: Timestamp,
    init_consumed: bool,
) -> (r: KaAction)
    ensures
        r == (match conn_key {
            Some(k) => {
                if body.valid(k) && timestamp_valid_at(body.data.0, now) {
                    if init_consumed {
                        KaAction::StopKexRetransmit
                    } else {
                        KaAction::Keep
                    }
                } else {
                    KaAction::Drop
                }
            },
            None => KaAction::Drop,
        }),
{
    match conn_key {
        None => KaAction::Drop,
        Some(k) => {
            if body.check(&k) && is_timestamp_valid_at(body.data.0, now) {
                if init_consumed {
                    KaAction::StopKexRetransmit
                } else {
                    KaAction::Keep
                }
            } else {
                KaAction::Drop
            }
        },
    }
}

/// One peer's connection: its identity, current address and key, and
/// whether its keep-alive task is live. The identity never changes after
/// the entry is created; address and key may be replaced together by a
/// later successful handshake.
#[derive(Clone, Copy, PartialEq, Eq, Debug)]
pub struct Connection {
    pub peer_id: PubSigKey,
    pub addr: PeerAddr,
    pub mac_key: MacKey,
    pub ka_live: bool,
}

/// The keep-alive count of a peer: the first entry under its key, or zero.
pub open spec fn refs_of(s: Seq<(PubSigKey, u32)>, who: PubSigKey) -> u32
    decreases s.len(),
{
    if s.len() == 0 {
        0u32
    } else if s.first().0 == who {
        s.first().1
    } else {
        refs_of(s.drop_first(), who)
    }
}

/// A peer has a connection entry.
pub open spec fn conn_exists(s: Seq<Connection>, who: PubSigKey) -> bool {
    exists|i: int| 0 <= i < s.len() && s[i].peer_id == who
}

/// The connection table: one entry per connected peer, and the reference
/// counts that say who needs a keep-alive. At all times an entry's
/// keep-alive task is live exactly when its peer's count is positive.
pub struct ConnectionTable {
    pub conns: Vec<Connection>,
    pub ka_refs: Vec<(PubSigKey, u32)>,
}

impl ConnectionTable {
    /// One entry per peer, one count per peer, and liveness tied to the
    /// count: `ka_live` holds exactly where the count is positive.
    pub open spec fn wf(&self) -> bool {
        &&& (forall|i: int, j: int|
            0 <= i < j < self.conns@.len() ==> (#[trigger] self.conns@[i]).peer_id != (
            #[trigger] self.conns@[j]).peer_id)
        &&& (forall|i: int, j: int|
            0 <= i < j < self.ka_refs@.len() ==> (#[trigger] self.ka_refs@[i]).0 != (
            #[trigger] self.ka_refs@[j]).0)
        &&& (forall|i: int|
            0 <= i < self.conns@.len() ==> ((#[trigger] self.conns@[i]).ka_live <==> refs_of(
                self.ka_refs@,
                self.conns@[i].peer_id,
            ) > 0))
    }

    /// An empty table.
    pub fn new() -> (r: Self)
        ensures
            r.wf(),
            r.conns@.len() == 0,
            r.ka_refs@.len() == 0,
    {
        ConnectionTable { conns: Vec::new(), ka_refs: Vec::new() }
    }

    /// The index of a peer's entry, where one stands.
    fn find_conn(&self, who: &PubSigKey) -> (r: Option<usize>)
        ensures
            (match r {
                Some(i) => i < self.conns@.len() && self.conns@[i as int].peer_id == *who,
                None => !conn_exists(self.conns@, *who),
            }),
    {
        let n = self.conns.len();
        let mut i: usize = 0;
        #[verifier::loop_isolation(false)]
        while i < n
            invariant
                i <= n,
                forall|j: int| 0 <= j < i ==> (#[trigger] self.conns@[j]).peer_id != *who,
            decreases n - i,
        {
            if self.conns[i].peer_id.equals(who) {
                return Some(i);
            }
            i += 1;
        }
        None
    }

    /// The peer's current address and key, where it is connected.
    pub fn lookup(&self, who: &PubSigKey) -> (r: Option<(PeerAddr, MacKey)>)
        ensures
            (match r {
                Some((a, k)) => exists|i: int|
                    0 <= i < self.conns@.len() && (#[trigger] self.conns@[i]) == (Connection {
                        peer_id: *who,
                        addr: a,
                        mac_key: k,
                        ka_live: self.conns@[i].ka_live,
                    }),
                None => !conn_exists(self.conns@, *who),
            }),
    {
        match self.find_conn(who) {
            Some(i) => Some((self.conns[i].addr, self.conns[i].mac_key)),
            None => None,
        }
    }

    /// Sets a peer's keep-alive count, keeping one entry per peer.
    fn set_refs(&mut self, who: &PubSigKey, v: u32)
        requires
            forall|i: int, j: int|
                0 <= i < j < old(self).ka_refs@.len() ==> (#[trigger] old(self).ka_refs@[i]).0 != (
                #[trigger] old(self).ka_refs@[j]).0,
        ensures
            final(self).conns == old(self).conns,
            forall|i: int, j: int|
                0 <= i < j < final(self).ka_refs@.len() ==> (#[trigger] final(self).ka_refs@[i]).0
                    != (#[trigger] final(self).ka_refs@[j]).0,
            refs_of(final(self).ka_refs@, *who) == v,
            forall|x: PubSigKey|
                x != *who ==> #[trigger] refs_of(final(self).ka_refs@, x) == refs_of(
                    old(self).ka_refs@,
                    x,
                ),
    {
        let n = self.ka_refs.len();
        let mut i: usize = 0;
        #[verifier::loop_isolation(false)]
        while i < n
            invariant
                i <= n,
                self == old(self),
                forall|j: int| 0 <= j < i ==> (#[trigger] self.ka_refs@[j]).0 != *who,
            decreases n - i,
        {
            if self.ka_refs[i].0.equals(who) {
                let ghost pre = self.ka_refs@;
                self.ka_refs.set(i, (*who, v));
                proof {
                    lemma_refs_update(pre, i as int, *who, v);
                }
                return ;
            }
            i += 1;
        }
        let ghost pre = self.ka_refs@;
        self.ka_refs.push((*who, v));
        proof {
            lemma_refs_push(pre, *who, v);
        }
    }

    /// Installs or replaces a peer's connection after a finalized key
    /// exchange: the address and key are set together, the identity of an
    /// existing entry never changes, and the keep-alive flag follows the
    /// count. The result says whether a keep-alive task must be started.
    pub fn install_connection(&mut self, peer_id: PubSigKey, addr: PeerAddr, mac_key: MacKey) -> (r:
        bool)
        requires
            old(self).wf(),
        ensures
            final(self).wf(),
            final(self).ka_refs == old(self).ka_refs,
            r == (refs_of(old(self).ka_refs@, peer_id) > 0),
            forall|i: int|
                0 <= i < old(self).conns@.len() ==> (#[trigger] final(self).conns@[i]).peer_id
                    == old(self).conns@[i].peer_id,
            conn_exists(old(self).conns@, peer_id) ==> final(self).conns@.len() == old(self).conns@.len() && (forall|i: int|
                0 <= i < old(self).conns@.len() ==> (#[trigger] final(self).conns@[i]) == (if old(self).conns@[i].peer_id == peer_id {
                    Connection { peer_id, addr, mac_key, ka_live: refs_of(old(self).ka_refs@, peer_id) > 0 }
                } else {
                    old(self).conns@[i]
                })),
            !conn_exists(old(self).conns@, peer_id) ==> final(self).conns@ == old(self).conns@.push(
                Connection { peer_id, addr, mac_key, ka_live: refs_of(old(self).ka_refs@, peer_id) > 0 },
            ),
    {
        let refs = self.get_refs(&peer_id);
        let live = refs > 0;
        let entry = Connection { peer_id, addr, mac_key, ka_live: live };
        match self.find_conn(&peer_id) {
            Some(i) => {
                self.conns.set(i, entry);
            },
            None => {
                self.conns.push(entry);
            },
        }
        live
    }

    /// A peer's current keep-alive count.
    pub fn get_refs(&self, who: &PubSigKey) -> (r: u32)
        requires
            forall|i: int, j: int|
                0 <= i < j < self.ka_refs@.len() ==> (#[trigger] self.ka_refs@[i]).0 != (
                #[trigger] self.ka_refs@[j]).0,
        ensures
            r == refs_of(self.ka_refs@, *who),
    {
        let n = self.ka_refs.len();
        let mut i: usize = 0;
        #[verifier::loop_isolation(false)]
        while i < n
            invariant
                i <= n,
                forall|j: int| 0 <= j < i ==> (#[trigger] self.ka_refs@[j]).0 != *who,
            decreases n - i,
        {
            if self.ka_refs[i].0.equals(who) {
                proof {
                    lemma_refs_found(self.ka_refs@, i as int, *who);
                }
                return self.ka_refs[i].1;
            }
            i += 1;
        }
        proof {
            lemma_refs_absent(self.ka_refs@, *who);
        }
        0
    }

    /// Raises a peer's keep-alive count by one: "I need this peer
    /// reachable." The result says whether a keep-alive task must be
    /// started now: exactly on the move from zero to one with a
    /// connection standing.
    pub fn inc_keepalive(&mut self, peer_id: PubSigKey) -> (r: bool)
        requires
            old(self).wf(),
            refs_of(old(self).ka_refs@, peer_id) < 0xFFFF_FFFFu32,
        ensures
            final(self).wf(),
            refs_of(final(self).ka_refs@, peer_id) == refs_of(old(self).ka_refs@, peer_id) + 1,
            forall|x: PubSigKey|
                x != peer_id ==> #[trigger] refs_of(final(self).ka_refs@, x) == refs_of(
                    old(self).ka_refs@,
                    x,
                ),
            final(self).conns@.len() == old(self).conns@.len(),
            forall|i: int|
                0 <= i < old(self).conns@.len() ==> {
                    &&& (#[trigger] final(self).conns@[i]).peer_id == old(self).conns@[i].peer_id
                    &&& final(self).conns@[i].addr == old(self).conns@[i].addr
                    &&& final(self).conns@[i].mac_key == old(self).conns@[i].mac_key
                },
            r == (refs_of(old(self).ka_refs@, peer_id) == 0 && conn_exists(
                old(self).conns@,
                peer_id,
            )),
    {
        let refs = self.get_refs(&peer_id);
        self.set_refs(&peer_id, refs + 1);
        if refs == 0 {
            match self.find_conn(&peer_id) {
                Some(i) => {
                    let c = self.conns[i];
                    let entry = Connection {
                        peer_id: c.peer_id,
                        addr: c.addr,
                        mac_key: c.mac_key,
                        ka_live: true,
                    };
                    self.conns.set(i, entry);
                    proof {
                        lemma_wf_after_ka_change(old(self), self, peer_id, i as int);
                    }
                    true
                },
                None => {
                    proof {
                        lemma_wf_refs_only(old(self), self, peer_id);
                    }
                    false
                },
            }
        } else {
            proof {
                lemma_wf_refs_only(old(self), self, peer_id);
            }
            false
        }
    }

    /// Lowers a peer's keep-alive count by one, not below zero. The result
    /// says whether the peer's keep-alive task must be aborted: exactly on
    /// the move from one to zero with a connection standing.
    pub fn dec_keepalive(&mut self, peer_id: PubSigKey) -> (r: bool)
        requires
            old(self).wf(),
        ensures
            final(self).wf(),
            refs_of(final(self).ka_refs@, peer_id) == (if refs_of(old(self).ka_refs@, peer_id) > 0 {
                refs_of(old(self).ka_refs@, peer_id) - 1
            } else {
                0int
            }),
            forall|x: PubSigKey|
                x != peer_id ==> #[trigger] refs_of(final(self).ka_refs@, x) == refs_of(
                    old(self).ka_refs@,
                    x,
                ),
            final(self).conns@.len() == old(self).conns@.len(),
            forall|i: int|
                0 <= i < old(self).conns@.len() ==> {
                    &&& (#[trigger] final(self).conns@[i]).peer_id == old(self).conns@[i].peer_id
                    &&& final(self).conns@[i].addr == old(self).conns@[i].addr
                    &&& final(self).conns@[i].mac_key == old(self).conns@[i].mac_key
                },
            r == (refs_of(old(self).ka_refs@, peer_id) == 1 && conn_exists(
                old(self).conns@,
                peer_id,
            )),
    {
        let refs = self.get_refs(&peer_id);
        if refs == 0 {
            proof {
                lemma_wf_unchanged(old(self), self);
            }
            return false;
        }
        self.set_refs(&peer_id, refs - 1);
        if refs == 1 {
            match self.find_conn(&peer_id) {
                Some(i) => {
                    let c = self.conns[i];
                    let entry = Connection {
                        peer_id: c.peer_id,
                        addr: c.addr,
                        mac_key: c.mac_key,
                        ka_live: false,
                    };
                    self.conns.set(i, entry);
                    proof {
                        lemma_wf_after_ka_change(old(self), self, peer_id, i as int);
                    }
                    true
                },
                None => {
                    proof {
                        lemma_wf_refs_only(old(self), self, peer_id);
                    }
                    false
                },
            }
        } else {
            proof {
                lemma_wf_refs_only(old(self), self, peer_id);
            }
            false
        }
    }

    /// Reassigns a connected peer's address; the key is kept. The result
    /// says whether the keep-alive task must be restarted at the new
    /// address: exactly when one is live.
    pub fn update_peer_addr(&mut self, peer_id: PubSigKey, addr: PeerAddr) -> (r: bool)
        requires
            old(self).wf(),
        ensures
            final(self).wf(),
            final(self).ka_refs == old(self).ka_refs,
            final(self).conns@.len() == old(self).conns@.len(),
            forall|i: int|
                0 <= i < old(self).conns@.len() ==> (#[trigger] final(self).conns@[i]) == (if old(self).conns@[i].peer_id == peer_id {
                    Connection {
                        peer_id: old(self).conns@[i].peer_id,
                        addr,
                        mac_key: old(self).conns@[i].mac_key,
                        ka_live: old(self).conns@[i].ka_live,
                    }
                } else {
                    old(self).conns@[i]
                }),
            r == (exists|i: int|
                0 <= i < old(self).conns@.len() && (#[trigger] old(self).conns@[i]).peer_id
                    == peer_id && old(self).conns@[i].ka_live),
    {
        match self.find_conn(&peer_id) {
            Some(i) => {
                let c = self.conns[i];
                let entry = Connection {
                    peer_id: c.peer_id,
                    addr,
                    mac_key: c.mac_key,
                    ka_live: c.ka_live,
                };
                self.conns.set(i, entry);
                proof {
                    assert forall|j: int|
                        0 <= j < old(self).conns@.len() && j != i implies old(self).conns@[j].peer_id != peer_id by {
                        if j < i as int {
                            assert(old(self).conns@[j].peer_id != old(self).conns@[i as int].peer_id);
                        }
                    }
                }
                c.ka_live
            },
            None => false,
        }
    }
}

/// The count list updated at its first match keeps uniqueness and moves
/// only that peer's count.
proof fn lemma_refs_update(s: Seq<(PubSigKey, u32)>, i: int, who: PubSigKey, v: u32)
    requires
        0 <= i < s.len(),
        s[i].0 == who,
        forall|j: int| 0 <= j < i ==> (#[trigger] s[j]).0 != who,
    ensures
        refs_of(s.update(i, (who, v)), who) == v,
        forall|x: PubSigKey| x != who ==> #[trigger] refs_of(s.update(i, (who, v)), x) == refs_of(
            s,
            x,
        ),
    decreases i,
{
    let t = s.update(i, (who, v));
    if i == 0 {
        assert(t.first() == (who, v));
        assert forall|x: PubSigKey| x != who implies #[trigger] refs_of(t, x) == refs_of(s, x) by {
            assert(t.drop_first() =~= s.drop_first());
        }
    } else {
        assert(t.first() == s.first());
        assert(t.drop_first() =~= s.drop_first().update(i - 1, (who, v)));
        assert forall|j: int| 0 <= j < i - 1 implies (#[trigger] s.drop_first()[j]).0 != who by {
            assert(s[j + 1] == s.drop_first()[j]);
        }
        assert(s.drop_first()[i - 1] == s[i]);
        lemma_refs_update(s.drop_first(), i - 1, who, v);
        assert(refs_of(t, who) == v) by {
            assert(refs_of(s.drop_first().update(i - 1, (who, v)), who) == v);
        }
        assert forall|x: PubSigKey| x != who implies #[trigger] refs_of(t, x) == refs_of(s, x) by {
            assert(refs_of(s.drop_first().update(i - 1, (who, v)), x) == refs_of(
                s.drop_first(),
                x,
            ));
        }
    }
}

/// Appending a count for an absent peer sets that peer's count and moves
/// no other.
proof fn lemma_refs_push(s: Seq<(PubSigKey, u32)>, who: PubSigKey, v: u32)
    requires
        forall|j: int| 0 <= j < s.len() ==> (#[trigger] s[j]).0 != who,
    ensures
        refs_of(s.push((who, v)), who) == v,
        forall|x: PubSigKey| x != who ==> #[trigger] refs_of(s.push((who, v)), x) == refs_of(s, x),
    decreases s.len(),
{
    let t = s.push((who, v));
    if s.len() == 0 {
        assert(t.first() == (who, v));
        assert forall|x: PubSigKey| x != who implies #[trigger] refs_of(t, x) == refs_of(s, x) by {
            assert(t.drop_first() =~= s);
            assert(refs_of(t, x) == refs_of(t.drop_first(), x));
        }
    } else {
        assert(t.first() == s.first());
        assert(t.drop_first() =~= s.drop_first().push((who, v)));
        assert forall|j: int| 0 <= j < s.drop_first().len() implies (#[trigger] s.drop_first()[j]).0
            != who by {
            assert(s[j + 1] == s.drop_first()[j]);
        }
        lemma_refs_push(s.drop_first(), who, v);
        assert(refs_of(t, who) == v) by {
            assert(refs_of(s.drop_first().push((who, v)), who) == v);
        }
        assert forall|x: PubSigKey| x != who implies #[trigger] refs_of(t, x) == refs_of(s, x) by {
            assert(refs_of(s.drop_first().push((who, v)), x) == refs_of(s.drop_first(), x));
        }
    }
}

/// A scan that found its peer at `i`, having passed no match, reads that
/// entry's count.
proof fn lemma_refs_found(s: Seq<(PubSigKey, u32)>, i: int, who: PubSigKey)
    requires
        0 <= i < s.len(),
        s[i].0 == who,
        forall|j: int| 0 <= j < i ==> (#[trigger] s[j]).0 != who,
    ensures
        refs_of(s, who) == s[i].1,
    decreases i,
{
    if i > 0 {
        assert forall|j: int| 0 <= j < i - 1 implies (#[trigger] s.drop_first()[j]).0 != who by {
            assert(s[j + 1] == s.drop_first()[j]);
        }
        assert(s.drop_first()[i - 1] == s[i]);
        lemma_refs_found(s.drop_first(), i - 1, who);
    }
}

/// A peer with no entry has count zero.
proof fn lemma_refs_absent(s: Seq<(PubSigKey, u32)>, who: PubSigKey)
    requires
        forall|j: int| 0 <= j < s.len() ==> (#[trigger] s[j]).0 != who,
    ensures
        refs_of(s, who) == 0,
    decreases s.len(),
{
    if s.len() > 0 {
        assert forall|j: int| 0 <= j < s.drop_first().len() implies (#[trigger] s.drop_first()[j]).0
            != who by {
            assert(s[j + 1] == s.drop_first()[j]);
        }
        lemma_refs_absent(s.drop_first(), who);
    }
}

/// Nothing moved: the invariant stands.
proof fn lemma_wf_unchanged(pre: &ConnectionTable, post: &ConnectionTable)
    requires
        pre.wf(),
        post == pre,
    ensures
        post.wf(),
{
}

/// After a count change for one peer whose entry's flag was set to match,
/// the invariant stands.
proof fn lemma_wf_after_ka_change(pre: &ConnectionTable, post: &ConnectionTable, who: PubSigKey, i: int)
    requires
        pre.wf(),
        0 <= i < pre.conns@.len(),
        pre.conns@[i].peer_id == who,
        post.conns@.len() == pre.conns@.len(),
        forall|j: int|
            0 <= j < pre.conns@.len() ==> (#[trigger] post.conns@[j]) == (if j == i {
                Connection {
                    peer_id: pre.conns@[j].peer_id,
                    addr: pre.conns@[j].addr,
                    mac_key: pre.conns@[j].mac_key,
                    ka_live: refs_of(post.ka_refs@, who) > 0,
                }
            } else {
                pre.conns@[j]
            }),
        forall|i2: int, j2: int|
            0 <= i2 < j2 < post.ka_refs@.len() ==> (#[trigger] post.ka_refs@[i2]).0 != (
            #[trigger] post.ka_refs@[j2]).0,
        forall|x: PubSigKey|
            x != who ==> #[trigger] refs_of(post.ka_refs@, x) == refs_of(pre.ka_refs@, x),
    ensures
        post.wf(),
{
    assert forall|a: int, b: int|
        0 <= a < b < post.conns@.len() implies (#[trigger] post.conns@[a]).peer_id != (
    #[trigger] post.conns@[b]).peer_id by {
        assert(post.conns@[a].peer_id == pre.conns@[a].peer_id);
        assert(post.conns@[b].peer_id == pre.conns@[b].peer_id);
    }
    assert forall|j: int| 0 <= j < post.conns@.len() implies ((#[trigger] post.conns@[j]).ka_live
        <==> refs_of(post.ka_refs@, post.conns@[j].peer_id) > 0) by {
        if j != i {
            assert(pre.conns@[j].peer_id != who) by {
                if j < i {
                    assert(pre.conns@[j].peer_id != pre.conns@[i].peer_id);
                }
            }
            assert(refs_of(post.ka_refs@, post.conns@[j].peer_id) == refs_of(
                pre.ka_refs@,
                pre.conns@[j].peer_id,
            ));
        }
    }
}

/// After a count change for a peer with no connection entry, the invariant
/// stands.
proof fn lemma_wf_refs_only(pre: &ConnectionTable, post: &ConnectionTable, who: PubSigKey)
    requires
        pre.wf(),
        post.conns == pre.conns,
        forall|i2: int, j2: int|
            0 <= i2 < j2 < post.ka_refs@.len() ==> (#[trigger] post.ka_refs@[i2]).0 != (
            #[trigger] post.ka_refs@[j2]).0,
        forall|x: PubSigKey|
            x != who ==> #[trigger] refs_of(post.ka_refs@, x) == refs_of(pre.ka_refs@, x),
        conn_exists(pre.conns@, who) ==> (refs_of(post.ka_refs@, who) > 0 <==> refs_of(
            pre.ka_refs@,
            who,
        ) > 0),
    ensures
        post.wf(),
{
    assert forall|j: int| 0 <= j < post.conns@.len() implies ((#[trigger] post.conns@[j]).ka_live
        <==> refs_of(post.ka_refs@, post.conns@[j].peer_id) > 0) by {
        assert(pre.conns@[j].ka_live <==> refs_of(pre.ka_refs@, pre.conns@[j].peer_id) > 0);
        if post.conns@[j].peer_id != who {
            assert(refs_of(post.ka_refs@, post.conns@[j].peer_id) == refs_of(
                pre.ka_refs@,
                pre.conns@[j].peer_id,
            ));
        } else {
            assert(conn_exists(pre.conns@, who));
        }
    }
}

/// Where one received datagram goes: to the handshake engine, to the
/// application authenticated as its peer, or nowhere.
#[derive(PartialEq, Eq, Debug)]
pub enum RouteDecision {
    Handshake(NetMessage),
    DeliverQueue(QueueMessage, PubSigKey),
    DeliverFile(FileMessage, PubSigKey),
    DeliverEncKey(EncKeyInfo, PubSigKey),
    DeliverRequest(RequestMessage, PubSigKey),
    DeliverSubmission(SubmissionMessage, PubSigKey),
    DeliverQuestion(QuestionMessage, PubSigKey),
    Drop,
}

/// The routing rule of one parsed message: handshake frames go to the
/// handshake engine; everything else is delivered only when the sender is
/// known and the envelope verifies under its connection key — queue
/// entries moreover only under the server's signature; whatever fails is
/// dropped without an answer.
pub open spec fn route_spec(
    m: Message,
    peer: Option<(PubSigKey, MacKey)>,
    server_psk: PubSigKey,
) -> RouteDecision {
    match m {
        Message::Net(nm) => RouteDecision::Handshake(nm),
        Message::Queue(env) => match peer {
            Some((psk, key)) => {
                if env.valid(key) && env.data.valid(server_psk) {
                    RouteDecision::DeliverQueue(env.data.body, psk)
                } else {
                    RouteDecision::Drop
                }
            },
            None => RouteDecision::Drop,
        },
        Message::File(env) => match peer {
            Some((psk, key)) => {
                if env.valid(key) {
                    RouteDecision::DeliverFile(env.data, psk)
                } else {
                    RouteDecision::Drop
                }
            },
            None => RouteDecision::Drop,
        },
        Message::EncKey(env) => match peer {
            Some((psk, key)) => {
                if env.valid(key) {
                    RouteDecision::DeliverEncKey(env.data, psk)
                } else {
                    RouteDecision::Drop
                }
            },
            None => RouteDecision::Drop,
        },
        Message::Request(env) => match peer {
            Some((psk, key)) => {
                if env.valid(key) {
                    RouteDecision::DeliverRequest(env.data, psk)
                } else {
                    RouteDecision::Drop
                }
            },
            None => RouteDecision::Drop,
        },
        Message::Submission(env) => match peer {
            Some((psk, key)) => {
                if env.valid(key) {
                    RouteDecision::DeliverSubmission(env.data, psk)
                } else {
                    RouteDecision::Drop
                }
            },
            None => RouteDecision::Drop,
        },
        Message::Question(env) => match peer {
            Some((psk, key)) => {
                if env.valid(key) {
                    RouteDecision::DeliverQuestion(env.data, psk)
                } else {
                    RouteDecision::Drop
                }
            },
            None => RouteDecision::Drop,
        },
    }
}

/// Routes one parsed message: exactly the routing rule.
pub fn route_message(m: Message, peer: Option<(PubSigKey, MacKey)>, server_psk: &PubSigKey) -> (r:
    RouteDecision)
    requires
        m.wf(),
    ensures
        r == route_spec(m, peer, *server_psk),
{
    match m {
        Message::Net(nm) => RouteDecision::Handshake(nm),
        Message::Queue(env) => match peer {
            Some((psk, key)) => {
                if env.check(&key) && env.data.check(server_psk) {
                    RouteDecision::DeliverQueue(env.data.body, psk)
                } else {
                    RouteDecision::Drop
                }
            },
            None => RouteDecision::Drop,
        },
        Message::File(env) => match peer {
            Some((psk, key)) => {
                if env.check(&key) {
                    RouteDecision::DeliverFile(env.data, psk)
                } else {
                    RouteDecision::Drop
                }
            },
            None => RouteDecision::Drop,
        },
        Message::EncKey(env) => match peer {
            Some((psk, key)) => {
                if env.check(&key) {
                    RouteDecision::DeliverEncKey(env.data, psk)
                } else {
                    RouteDecision::Drop
                }
            },
            None => RouteDecision::Drop,
        },
        Message::Request(env) => match peer {
            Some((psk, key)) => {
                if env.check(&key) {
                    RouteDecision::DeliverRequest(env.data, psk)
                } else {
                    RouteDecision::Drop
                }
            },
            None => RouteDecision::Drop,
        },
        Message::Submission(env) => match peer {
            Some((psk, key)) => {
                if env.check(&key) {
                    RouteDecision::DeliverSubmission(env.data, psk)
                } else {
                    RouteDecision::Drop
                }
            },
            None => RouteDecision::Drop,
        },
        Message::Question(env) => match peer {
            Some((psk, key)) => {
                if env.check(&key) {
                    RouteDecision::DeliverQuestion(env.data, psk)
                } else {
                    RouteDecision::Drop
                }
            },
            None => RouteDecision::Drop,
        },
    }
}

/// Routes one received datagram: parses it and applies the routing rule.
/// An undecodable datagram is dropped; a decodable one is routed as the
/// message standing at its start, whose serialization the decision's
/// payload carries.
pub fn route_datagram(buf: &[u8], peer: Option<(PubSigKey, MacKey)>, server_psk: &PubSigKey) -> (r:
    RouteDecision)
    ensures
        (match r {
            RouteDecision::Drop => true,
            _ => exists|m: Message|
                #![trigger m.wire()]
                m.wf() && prefix_of(buf@, 0, m.wire()) && r == route_spec(m, peer, *server_psk),
        }),
        forall|m: Message|
            #![trigger m.wire()]
            m.wf() && prefix_of(buf@, 0, m.wire()) && !(route_spec(m, peer, *server_psk)
                is Drop) ==> !(r is Drop),
{
    match Message::decode(buf, 0) {
        None => RouteDecision::Drop,
        Some((m, _used)) => {
            proof {
                assert(prefix_of(buf@, 0, m.wire())) by {
                    assert(buf@.subrange(0, m.wire().len() as int) == m.wire());
                }
                assert forall|m2: Message|
                    m2.wf() && prefix_of(buf@, 0, m2.wire()) && !(route_spec(
                        m2,
                        peer,
                        *server_psk,
                    ) is Drop) implies !(route_spec(m, peer, *server_psk) is Drop) by {
                    assert(m.wire() == m2.wire());
                    lemma_route_drop_wire(m, m2, peer, *server_psk);
                }
            }
            route_message(m, peer, server_psk)
        },
    }
}

/// Whether the routing rule drops a message depends only on its
/// serialization: envelope validity is a function of the serialized
/// payload.
proof fn lemma_route_drop_wire(
    a: Message,
    b: Message,
    peer: Option<(PubSigKey, MacKey)>,
    server_psk: PubSigKey,
)
    requires
        a.wire() == b.wire(),
    ensures
        route_spec(a, peer, server_psk) is Drop <==> route_spec(b, peer, server_psk) is Drop,
{
    lemma_message_wire_same_variant(a, b);
}

/// Messages with the same serialization are the same variant with
/// byte-identical envelope parts.
proof fn lemma_message_wire_same_variant(a: Message, b: Message)
    requires
        a.wire() == b.wire(),
    ensures
        (match (a, b) {
            (Message::Net(_), Message::Net(_)) => true,
            (Message::Queue(x), Message::Queue(y)) => x.data.payload_wire()
                == y.data.payload_wire() && x.data.signature == y.data.signature && x.data.wire()
                == y.data.wire() && x.mac == y.mac,
            (Message::File(x), Message::File(y)) => x.data.wire() == y.data.wire() && x.mac
                == y.mac,
            (Message::EncKey(x), Message::EncKey(y)) => x.data.wire() == y.data.wire() && x.mac
                == y.mac,
            (Message::Request(x), Message::Request(y)) => x.data.wire() == y.data.wire() && x.mac
                == y.mac,
            (Message::Submission(x), Message::Submission(y)) => x.data.wire() == y.data.wire()
                && x.mac == y.mac,
            (Message::Question(x), Message::Question(y)) => x.data.wire() == y.data.wire() && x.mac
                == y.mac,
            _ => false,
        }),
{
    assert(a.wire()[0] == crate::message::message_tag(a));
    assert(b.wire()[0] == crate::message::message_tag(b));
    lemma_macced_wire_parts(a, b);
}

proof fn lemma_macced_wire_parts(a: Message, b: Message)
    requires
        a.wire() == b.wire(),
        crate::message::message_tag(a) == crate::message::message_tag(b),
    ensures
        (match (a, b) {
            (Message::Net(_), Message::Net(_)) => true,
            (Message::Queue(x), Message::Queue(y)) => x.data.payload_wire()
                == y.data.payload_wire() && x.data.signature == y.data.signature && x.data.wire()
                == y.data.wire() && x.mac == y.mac,
            (Message::File(x), Message::File(y)) => x.data.wire() == y.data.wire() && x.mac
                == y.mac,
            (Message::EncKey(x), Message::EncKey(y)) => x.data.wire() == y.data.wire() && x.mac
                == y.mac,
            (Message::Request(x), Message::Request(y)) => x.data.wire() == y.data.wire() && x.mac
                == y.mac,
            (Message::Submission(x), Message::Submission(y)) => x.data.wire() == y.data.wire()
                && x.mac == y.mac,
            (Message::Question(x), Message::Question(y)) => x.data.wire() == y.data.wire() && x.mac
                == y.mac,
            _ => false,
        }),
{
    match (a, b) {
        (Message::Queue(x), Message::Queue(y)) => {
            assert(x.data.wire() + x.mac.bytes@ =~= a.wire().skip(1));
            assert(y.data.wire() + y.mac.bytes@ =~= b.wire().skip(1));
            lemma_eq_concat_eq_parts(x.data.wire(), x.mac.bytes@, y.data.wire(), y.mac.bytes@);
            assert(x.mac.bytes =~= y.mac.bytes);
            assert(x.data.payload_wire() + x.data.signature.bytes@ =~= x.data.wire());
            assert(y.data.payload_wire() + y.data.signature.bytes@ =~= y.data.wire());
            lemma_eq_concat_eq_parts(
                x.data.payload_wire(),
                x.data.signature.bytes@,
                y.data.payload_wire(),
                y.data.signature.bytes@,
            );
            assert(x.data.signature.bytes =~= y.data.signature.bytes);
        },
        (Message::File(x), Message::File(y)) => {
            assert(x.data.wire() + x.mac.bytes@ =~= a.wire().skip(1));
            assert(y.data.wire() + y.mac.bytes@ =~= b.wire().skip(1));
            lemma_eq_concat_eq_parts(x.data.wire(), x.mac.bytes@, y.data.wire(), y.mac.bytes@);
            assert(x.mac.bytes =~= y.mac.bytes);
        },
        (Message::EncKey(x), Message::EncKey(y)) => {
            assert(x.data.wire() + x.mac.bytes@ =~= a.wire().skip(1));
            assert(y.data.wire() + y.mac.bytes@ =~= b.wire().skip(1));
            lemma_eq_concat_eq_parts(x.data.wire(), x.mac.bytes@, y.data.wire(), y.mac.bytes@);
            assert(x.mac.bytes =~= y.mac.bytes);
        },
        (Message::Request(x), Message::Request(y)) => {
            assert(x.data.wire() + x.mac.bytes@ =~= a.wire().skip(1));
            assert(y.data.wire() + y.mac.bytes@ =~= b.wire().skip(1));
            lemma_eq_concat_eq_parts(x.data.wire(), x.mac.bytes@, y.data.wire(), y.mac.bytes@);
            assert(x.mac.bytes =~= y.mac.bytes);
        },
        (Message::Submission(x), Message::Submission(y)) => {
            assert(x.data.wire() + x.mac.bytes@ =~= a.wire().skip(1));
            assert(y.data.wire() + y.mac.bytes@ =~= b.wire().skip(1));
            lemma_eq_concat_eq_parts(x.data.wire(), x.mac.bytes@, y.data.wire(), y.mac.bytes@);
            assert(x.mac.bytes =~= y.mac.bytes);
        },
        (Message::Question(x), Message::Question(y)) => {
            assert(x.data.wire() + x.mac.bytes@ =~= a.wire().skip(1));
            assert(y.data.wire() + y.mac.bytes@ =~= b.wire().skip(1));
            lemma_eq_concat_eq_parts(x.data.wire(), x.mac.bytes@, y.data.wire(), y.mac.bytes@);
            assert(x.mac.bytes =~= y.mac.bytes);
        },
        _ => {},
    }
}

/// Two equal concatenations whose second parts have equal length split
/// into equal parts.
proof fn lemma_eq_concat_eq_parts(a1: Seq<u8>, a2: Seq<u8>, b1: Seq<u8>, b2: Seq<u8>)
    requires
        a1 + a2 == b1 + b2,
        a2.len() == b2.len(),
    ensures
        a1 == b1,
        a2 == b2,
{
    assert((a1 + a2).len() == (b1 + b2).len());
    assert((a1 + a2).len() == a1.len() + a2.len());
    assert((b1 + b2).len() == b1.len() + b2.len());
    assert(a1.len() == b1.len());
    assert(a1 =~= b1) by {
        assert forall|i: int| 0 <= i < a1.len() implies a1[i] == b1[i] by {
            assert((a1 + a2)[i] == a1[i]);
            assert((b1 + b2)[i] == b1[i]);
        }
    }
    assert(a2 =~= b2) by {
        assert forall|i: int| 0 <= i < a2.len() implies a2[i] == b2[i] by {
            assert((a1 + a2)[a1.len() + i] == a2[i]);
            assert((b1 + b2)[b1.len() + i] == b2[i]);
        }
    }
}

/// One outbound application message, before its envelopes.
#[derive(PartialEq, Eq, Debug)]
pub enum AppSend {
    Queue(QueueMessage),
    File(FileMessage),
    EncKey(EncKeyInfo),
    Request(RequestMessage),
    Submission(SubmissionMessage),
    Question(QuestionMessage),
}

/// Whether an outbound payload can be serialized.
pub open spec fn app_send_wf(m: &AppSend) -> bool {
    match m {
        AppSend::Queue(x) => x.wf(),
        AppSend::File(x) => x.wf(),
        AppSend::EncKey(x) => x.wf(),
        AppSend::Request(x) => x.wf(),
        AppSend::Submission(x) => x.wf(),
        AppSend::Question(x) => x.wf(),
    }
}

/// Wraps one outbound message in the envelope chain its receiver's router
/// verifies: everything is authenticated under the connection key, and a
/// queue entry is moreover signed, as only the server sends those. The
/// caller looks the key up first; a peer without one is not connected.
pub fn seal_message(m: AppSend, mac_key: &MacKey, ssk: &crate::crypto::SecSigKey) -> (r: Message)
    requires
        app_send_wf(&m),
    ensures
        (match m {
            AppSend::Queue(x) => r matches Message::Queue(env) && env.valid(*mac_key)
                && env.data.body == x && (forall|pk: PubSigKey|
                pk.bytes@ == crate::crypto::ed_pub_of(ssk.bytes@) ==> #[trigger] env.data.valid(
                    pk,
                )),
            AppSend::File(x) => r matches Message::File(env) && env.valid(*mac_key) && env.data
                == x,
            AppSend::EncKey(x) => r matches Message::EncKey(env) && env.valid(*mac_key)
                && env.data == x,
            AppSend::Request(x) => r matches Message::Request(env) && env.valid(*mac_key)
                && env.data == x,
            AppSend::Submission(x) => r matches Message::Submission(env) && env.valid(*mac_key)
                && env.data == x,
            AppSend::Question(x) => r matches Message::Question(env) && env.valid(*mac_key)
                && env.data == x,
        }),
{
    match m {
        AppSend::Queue(x) => Message::Queue(Macced::new(Signed::new((x, ()), ssk), mac_key)),
        AppSend::File(x) => Message::File(Macced::new(x, mac_key)),
        AppSend::EncKey(x) => Message::EncKey(Macced::new(x, mac_key)),
        AppSend::Request(x) => Message::Request(Macced::new(x, mac_key)),
        AppSend::Submission(x) => Message::Submission(Macced::new(x, mac_key)),
        AppSend::Question(x) => Message::Question(Macced::new(x, mac_key)),
    }
}

/// The initiation standing toward one peer and address: none at all, one
/// whose one-shot secret still waits, or one whose secret was consumed by
/// an earlier finalization.
pub enum InitEntry {
    Absent,
    Pending(KexSecret),
    Consumed,
}

/// Handles one received handshake frame with the full initiation policy
/// of the inbound side: where no initiation stood toward the peer, a
/// fresh one-shot secret is minted on the spot — the symmetric
/// finalization — and the retransmit loop toward the peer must be
/// spawned, which the extra flag of the result says. The rest is
/// `handshake_step`: invalid frames drop, a waiting secret is consumed
/// exactly once, a consumed one finalizes nothing twice.
pub fn merkle_step(
    entry: InitEntry,
    conn: Option<(PeerAddr, MacKey)>,
    ka_refs: u32,
    own_contest_id: u128,
    frame: Signed<MerkleData, PubSigKey>,
    now: Timestamp,
    accept: bool,
    peer_addr: PeerAddr,
) -> (r: (InitEntry, Option<(PeerAddr, MacKey)>, HsAction, bool))
    ensures
        !merkle_frame_ok(frame, own_contest_id, now, accept) ==> r.0 == entry && r.1 == conn
            && r.2 == HsAction::Drop && r.3 == false,
        (merkle_frame_ok(frame, own_contest_id, now, accept) && entry is Consumed) ==> r.0
            is Consumed && r.1 == conn && r.2 == HsAction::AlreadyFinalized && r.3 == false,
        entry matches InitEntry::Pending(ks) ==> (merkle_frame_ok(
            frame,
            own_contest_id,
            now,
            accept,
        ) ==> {
            &&& r.0 is Consumed
            &&& (r.1 matches Some((a, k)) && a == peer_addr && k.bytes@ == dh_shared_of(
                ks.pub_bytes(),
                frame.body.kex.bytes@,
            ) && k.bytes@ == dh_shared_of(frame.body.kex.bytes@, ks.pub_bytes()))
            &&& r.2 == (HsAction::Finalize { start_keep_alive: ka_refs > 0 })
            &&& r.3 == false
        }),
        (merkle_frame_ok(frame, own_contest_id, now, accept) && entry is Absent) ==> {
            &&& r.0 is Consumed
            &&& (r.1 matches Some((a, k)) && a == peer_addr && (exists|pb: Seq<u8>|
                k.bytes@ == dh_shared_of(pb, frame.body.kex.bytes@) && k.bytes@ == #[trigger] dh_shared_of(
                    frame.body.kex.bytes@,
                    pb,
                )))
            &&& r.2 == (HsAction::Finalize { start_keep_alive: ka_refs > 0 })
            &&& r.3 == true
        },
{
    match entry {
        InitEntry::Consumed => {
            let (_, c2, act) = handshake_step(
                None,
                conn,
                ka_refs,
                own_contest_id,
                frame,
                now,
                accept,
                peer_addr,
            );
            (InitEntry::Consumed, c2, act, false)
        },
        InitEntry::Pending(ks) => {
            let (left, c2, act) = handshake_step(
                Some(ks),
                conn,
                ka_refs,
                own_contest_id,
                frame,
                now,
                accept,
                peer_addr,
            );
            let e2 = match left {
                None => InitEntry::Consumed,
                Some(ks2) => InitEntry::Pending(ks2),
            };
            let out = match act {
                HsAction::Drop => e2,
                _ => InitEntry::Consumed,
            };
            (out, c2, act, false)
        },
        InitEntry::Absent => {
            // symmetric finalization: the peer reached us first, so mint
            // the fresh one-shot secret here and answer with our own
            // retransmit loop
            let fresh = crate::crypto::kex_generate();
            let (left, c2, act) = handshake_step(
                Some(fresh),
                conn,
                ka_refs,
                own_contest_id,
                frame,
                now,
                accept,
                peer_addr,
            );
            match act {
                HsAction::Drop => {
                    // an invalid frame mints nothing: the fresh secret is
                    // discarded with the frame
                    (InitEntry::Absent, c2, HsAction::Drop, false)
                },
                _ => (InitEntry::Consumed, c2, act, true),
            }
        },
    }
}

} // verus!
