use crate::crypto::PubSigKey;
use crate::message::{Entity, PeerAddr};
use vstd::prelude::*;

verus! {

/// Whether a value stands in a list.
pub open spec fn list_has<T>(s: Seq<T>, x: T) -> bool {
    exists|i: int| 0 <= i < s.len() && s[i] == x
}

/// A list read as an allow-list or a deny-list.
pub enum WBList<T> {
    Whitelist(Vec<T>),
    Blacklist(Vec<T>),
}

/// Whether a list admits a value: on an allow-list it must stand, on a
/// deny-list it must not.
pub open spec fn wb_admits<T>(l: &WBList<T>, x: T) -> bool {
    match l {
        WBList::Whitelist(v) => list_has(v@, x),
        WBList::Blacklist(v) => !list_has(v@, x),
    }
}

impl<T> WBList<T> {
    /// The deny-list with nothing on it.
    pub fn new_accept_all() -> (r: Self)
        ensures
            forall|x: T| #[trigger] wb_admits(&r, x),
    {
        let v: Vec<T> = Vec::new();
        proof {
            assert forall|x: T| !list_has(v@, x) by {
                if list_has(v@, x) {
                    let i = choose|i: int| 0 <= i < v@.len() && v@[i] == x;
                    assert(false);
                }
            }
        }
        WBList::Blacklist(v)
    }

    /// The allow-list with nothing on it.
    pub fn new_reject_all() -> (r: Self)
        ensures
            forall|x: T| !#[trigger] wb_admits(&r, x),
    {
        WBList::Whitelist(Vec::new())
    }
}

impl WBList<PubSigKey> {
    /// Whether the list admits a key.
    pub fn accept(&self, t: &PubSigKey) -> (r: bool)
        ensures
            r == wb_admits(self, *t),
    {
        let found = match self {
            WBList::Whitelist(v) => key_list_has(v, t),
            WBList::Blacklist(v) => key_list_has(v, t),
        };
        match self {
            WBList::Whitelist(_) => found,
            WBList::Blacklist(_) => !found,
        }
    }
}

impl WBList<PeerAddr> {
    /// Whether the list admits an address.
    pub fn accept(&self, t: &PeerAddr) -> (r: bool)
        ensures
            r == wb_admits(self, *t),
    {
        let found = match self {
            WBList::Whitelist(v) => addr_list_has(v, t),
            WBList::Blacklist(v) => addr_list_has(v, t),
        };
        match self {
            WBList::Whitelist(_) => found,
            WBList::Blacklist(_) => !found,
        }
    }
}

/// Whether a key stands in a list.
fn key_list_has(v: &Vec<PubSigKey>, t: &PubSigKey) -> (r: bool)
    ensures
        r == list_has(v@, *t),
{
    let n = v.len();
    let mut i: usize = 0;
    #[verifier::loop_isolation(false)]
    while i < n
        invariant
            i <= n,
            forall|j: int| 0 <= j < i ==> v@[j] != *t,
        decreases n - i,
    {
        if v[i].equals(t) {
            return true;
        }
        i += 1;
    }
    false
}

/// Whether an address stands in a list.
fn addr_list_has(v: &Vec<PeerAddr>, t: &PeerAddr) -> (r: bool)
    ensures
        r == list_has(v@, *t),
{
    let n = v.len();
    let mut i: usize = 0;
    #[verifier::loop_isolation(false)]
    while i < n
        invariant
            i <= n,
            forall|j: int| 0 <= j < i ==> v@[j] != *t,
        decreases n - i,
    {
        if v[i].equals(t) {
            return true;
        }
        i += 1;
    }
    false
}

/// The policy for one role: a key list and an address list, both of which
/// must admit a peer.
pub struct SingleFilter {
    pub psk_list: WBList<PubSigKey>,
    pub addr_list: WBList<PeerAddr>,
}

/// Whether one role's policy admits a peer.
pub open spec fn single_admits(f: &SingleFilter, psk: PubSigKey, addr: PeerAddr) -> bool {
    wb_admits(&f.psk_list, psk) && wb_admits(&f.addr_list, addr)
}

impl SingleFilter {
    /// Admits a peer exactly when both its lists do.
    pub fn accept(&self, psk: &PubSigKey, addr: &PeerAddr) -> (r: bool)
        ensures
            r == single_admits(self, *psk, *addr),
    {
        self.psk_list.accept(psk) && self.addr_list.accept(addr)
    }

    /// Admits exactly the keys on the given allow-list, from any address.
    pub fn new_psk(psk_white_list: Vec<PubSigKey>) -> (r: Self)
        ensures
            forall|psk: PubSigKey, addr: PeerAddr| #[trigger]
                single_admits(&r, psk, addr) == list_has(psk_white_list@, psk),
    {
        let keys = psk_white_list;
        let ghost keys_view = keys@;
        let r = SingleFilter {
            psk_list: WBList::Whitelist(keys),
            addr_list: WBList::<PeerAddr>::new_accept_all(),
        };
        r
    }

    /// Admits every peer.
    pub fn new_accept_all() -> (r: Self)
        ensures
            forall|psk: PubSigKey, addr: PeerAddr| #[trigger] single_admits(&r, psk, addr),
    {
        SingleFilter {
            psk_list: WBList::<PubSigKey>::new_accept_all(),
            addr_list: WBList::<PeerAddr>::new_accept_all(),
        }
    }

    /// Admits no peer.
    pub fn new_reject_all() -> (r: Self)
        ensures
            forall|psk: PubSigKey, addr: PeerAddr| !#[trigger] single_admits(&r, psk, addr),
    {
        SingleFilter {
            psk_list: WBList::<PubSigKey>::new_reject_all(),
            addr_list: WBList::<PeerAddr>::new_reject_all(),
        }
    }
}

/// The inbound policy: one role policy per entity a peer may claim.
pub struct Filter {
    pub server: SingleFilter,
    pub worker: SingleFilter,
    pub participant: SingleFilter,
    pub spectator: SingleFilter,
}

/// Whether the policy admits a peer claiming the given role.
pub open spec fn filter_admits(f: &Filter, psk: PubSigKey, addr: PeerAddr, entity: Entity) -> bool {
    match entity {
        Entity::Server => single_admits(&f.server, psk, addr),
        Entity::Worker => single_admits(&f.worker, psk, addr),
        Entity::Participant => single_admits(&f.participant, psk, addr),
        Entity::Spectator => single_admits(&f.spectator, psk, addr),
    }
}

impl Filter {
    /// Admits a peer exactly when the policy for its claimed role does.
    pub fn accept(&self, psk: &PubSigKey, addr: &PeerAddr, entity: Entity) -> (r: bool)
        ensures
            r == filter_admits(self, *psk, *addr, entity),
    {
        match entity {
            Entity::Server => self.server.accept(psk, addr),
            Entity::Worker => self.worker.accept(psk, addr),
            Entity::Participant => self.participant.accept(psk, addr),
            Entity::Spectator => self.spectator.accept(psk, addr),
        }
    }

    /// A server's open policy: all participants and spectators, exactly
    /// the allow-listed workers, and no inbound servers.
    pub fn open_server(worker_white_list: Vec<PubSigKey>) -> (r: Self)
        ensures
            forall|psk: PubSigKey, addr: PeerAddr|
                !#[trigger] filter_admits(&r, psk, addr, Entity::Server),
            forall|psk: PubSigKey, addr: PeerAddr| #[trigger]
                filter_admits(&r, psk, addr, Entity::Worker) == list_has(
                    worker_white_list@,
                    psk,
                ),
            forall|psk: PubSigKey, addr: PeerAddr| #[trigger]
                filter_admits(&r, psk, addr, Entity::Participant),
            forall|psk: PubSigKey, addr: PeerAddr| #[trigger]
                filter_admits(&r, psk, addr, Entity::Spectator),
    {
        Filter {
            server: SingleFilter::new_reject_all(),
            worker: SingleFilter::new_psk(worker_white_list),
            participant: SingleFilter::new_accept_all(),
            spectator: SingleFilter::new_accept_all(),
        }
    }

    /// A client's policy: nothing inbound is accepted; clients only
    /// connect outward.
    pub fn client_mode() -> (r: Self)
        ensures
            forall|psk: PubSigKey, addr: PeerAddr, entity: Entity|
                !#[trigger] filter_admits(&r, psk, addr, entity),
    {
        Filter {
            server: SingleFilter::new_reject_all(),
            worker: SingleFilter::new_reject_all(),
            participant: SingleFilter::new_reject_all(),
            spectator: SingleFilter::new_reject_all(),
        }
    }
}

} // verus!
