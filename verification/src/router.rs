//! The router: binds peer identities to the networks they may use and,
//! once a peer has connected, routes destinations to its connection.
//!
//! Connections are known to the router by number. A connection is live from
//! `connect` until `release`; routes to a released connection stay in the
//! table and are passed over by `lookup`.

use crate::addr::{IpAddr, Prefix};
use crate::allowed_ips::{
    is_most_specific, lemma_most_specific_exists, lemma_most_specific_unique, longest_match,
    most_specific, AllowedIps,
};
use vstd::prelude::*;

verus! {

/// The certificate chain that a peer presented, each certificate as its
/// bytes. Two identities are the same where they hold the same certificates
/// in the same order.
pub type PeerIdentity = Vec<Vec<u8>>;

/// The number by which the router knows a connection.
pub type ConnId = usize;

/// A peer known from configuration: its identity and the networks it may use.
pub struct PeerRecord {
    identity: PeerIdentity,
    allowed: AllowedIps<()>,
}

/// What the router keeps of a connection.
#[derive(Clone, Copy)]
pub struct ConnState {
    live: bool,
    peer: Option<usize>,
}

/// The routing table: static permissions by peer and live routes by network.
pub struct Router {
    peers: Vec<PeerRecord>,
    routes: AllowedIps<ConnId>,
    conns: Vec<ConnState>,
}

/// The networks that a list of addresses with prefix lengths names.
pub open spec fn prefixes_of(cidrs: Seq<(IpAddr, u8)>) -> Set<Prefix> {
    Set::new(
        |k: Prefix|
            exists|i: int|
                0 <= i < cidrs.len() && Prefix::of((#[trigger] cidrs[i]).0, cidrs[i].1 as nat) == k,
    )
}

/// The routes `m` with every network of `keys` bound to `id`.
pub open spec fn overwrite(m: Map<Prefix, ConnId>, keys: Set<Prefix>, id: ConnId) -> Map<
    Prefix,
    ConnId,
> {
    Map::new(
        |k: Prefix| m.dom().contains(k) || keys.contains(k),
        |k: Prefix|
            if keys.contains(k) {
                id
            } else {
                m[k]
            },
    )
}

/// Whether two identities hold the same certificates in the same order.
pub fn same_identity(a: &PeerIdentity, b: &PeerIdentity) -> (r: bool)
    ensures
        r == (a.deep_view() == b.deep_view()),
{
    if a.len() != b.len() {
        assert(a.deep_view().len() != b.deep_view().len());
        return false;
    }
    let mut i: usize = 0;
    while i < a.len()
        invariant
            i <= a.len(),
            a.len() == b.len(),
            forall|j: int| 0 <= j < i ==> a[j]@ == b[j]@,
        decreases a.len() - i,
    {
        if !same_bytes(&a[i], &b[i]) {
            assert(a.deep_view()[i as int] == a[i as int]@);
            assert(b.deep_view()[i as int] == b[i as int]@);
            return false;
        }
        i += 1;
    }
    assert(a.deep_view() =~= b.deep_view()) by {
        assert forall|j: int| 0 <= j < a.len() implies a.deep_view()[j] == b.deep_view()[j] by {
            assert(a.deep_view()[j] == a[j]@);
            assert(b.deep_view()[j] == b[j]@);
        }
    }
    true
}

/// Whether two byte strings are equal.
fn same_bytes(a: &Vec<u8>, b: &Vec<u8>) -> (r: bool)
    ensures
        r == (a@ == b@),
{
    if a.len() != b.len() {
        return false;
    }
    let mut i: usize = 0;
    while i < a.len()
        invariant
            i <= a.len(),
            a.len() == b.len(),
            forall|j: int| 0 <= j < i ==> a[j] == b[j],
        decreases a.len() - i,
    {
        if a[i] != b[i] {
            return false;
        }
        i += 1;
    }
    assert(a@ =~= b@);
    true
}

impl Router {
    /// The number of peers known.
    pub closed spec fn peer_count(&self) -> nat {
        self.peers@.len()
    }

    /// The identity of the peer at position `p`.
    pub closed spec fn peer_identity(&self, p: int) -> Seq<Seq<u8>> {
        self.peers@[p].identity.deep_view()
    }

    /// The networks that the peer at position `p` may use.
    pub closed spec fn peer_networks(&self, p: int) -> Set<Prefix> {
        self.peers@[p].allowed@.dom()
    }

    /// Whether a peer with this identity is known.
    pub open spec fn knows(&self, identity: Seq<Seq<u8>>) -> bool {
        exists|p: int| 0 <= p < self.peer_count() && #[trigger] self.peer_identity(p) == identity
    }

    /// The networks that the peer with this identity may use: the static
    /// permissions. Empty where the identity is not known.
    pub open spec fn permitted(&self, identity: Seq<Seq<u8>>) -> Set<Prefix> {
        if self.knows(identity) {
            self.peer_networks(
                choose|p: int|
                    0 <= p < self.peer_count() && #[trigger] self.peer_identity(p) == identity,
            )
        } else {
            Set::empty()
        }
    }

    /// The live routes: each network installed, with the connection it was
    /// last installed for.
    pub closed spec fn routes(&self) -> Map<Prefix, ConnId> {
        self.routes@
    }

    /// The number of connections handed to the router so far.
    pub closed spec fn conn_count(&self) -> nat {
        self.conns@.len()
    }

    /// Whether connection `id` was handed to the router and not released.
    pub closed spec fn is_live(&self, id: ConnId) -> bool {
        id < self.conns@.len() && self.conns@[id as int].live
    }

    /// The identity that connection `id` was bound to, if it was a known one.
    pub closed spec fn conn_peer(&self, id: ConnId) -> Option<Seq<Seq<u8>>> {
        if id < self.conns@.len() {
            match self.conns@[id as int].peer {
                Some(p) => Some(self.peers@[p as int].identity.deep_view()),
                None => None,
            }
        } else {
            None
        }
    }

    /// The connection that serves `ip`: that of the most specific live route
    /// containing `ip`, where that connection is live.
    pub open spec fn route_of(&self, ip: IpAddr) -> Option<ConnId> {
        match longest_match(self.routes(), ip) {
            Some(id) => if self.is_live(id) {
                Some(id)
            } else {
                None
            },
            None => None,
        }
    }

    /// The router's invariant: no identity is known twice, and every live
    /// route leads to a connection of a peer whose static permissions hold
    /// the route's network.
    pub closed spec fn wf(&self) -> bool {
        &&& self.routes.wf()
        &&& forall|p: int| 0 <= p < self.peers@.len() ==> (#[trigger] self.peers@[p]).allowed.wf()
        &&& forall|p: int, q: int|
            0 <= p < q < self.peers@.len() ==> (#[trigger] self.peers@[p]).identity.deep_view() != (
            #[trigger] self.peers@[q]).identity.deep_view()
        &&& forall|c: int|
            0 <= c < self.conns@.len() ==> ((#[trigger] self.conns@[c]).peer matches Some(p) ==> p
                < self.peers@.len())
        &&& forall|k: Prefix| #[trigger]
            self.routes@.dom().contains(k) ==> {
                &&& self.routes@[k] < self.conns@.len()
                &&& self.conns@[self.routes@[k] as int].peer matches Some(p)
                &&& self.peers@[p as int].allowed@.dom().contains(k)
            }
    }

    /// Every live route is for a network that the static permissions of the
    /// connection's peer hold.
    pub proof fn lemma_routes_are_permitted(&self, k: Prefix)
        requires
            self.wf(),
            self.routes().dom().contains(k),
        ensures
            self.conn_peer(self.routes()[k]) matches Some(identity) && self.permitted(
                identity,
            ).contains(k),
    {
        let c = self.routes@[k];
        let p = self.conns@[c as int].peer->0;
        self.lemma_permitted(p as int);
    }

    /// Every live route leads to a connection that was handed to the router.
    pub proof fn lemma_routes_in_range(&self, k: Prefix)
        requires
            self.wf(),
            self.routes().dom().contains(k),
        ensures
            self.routes()[k] < self.conn_count(),
    {
    }

    /// The static permissions of a known identity are those of its one peer.
    pub proof fn lemma_permitted(&self, p: int)
        requires
            self.wf(),
            0 <= p < self.peer_count(),
        ensures
            self.knows(self.peer_identity(p)),
            self.permitted(self.peer_identity(p)) == self.peer_networks(p),
    {
        let identity = self.peer_identity(p);
        let q = choose|q: int|
            0 <= q < self.peer_count() && #[trigger] self.peer_identity(q) == identity;
        assert(self.peers@[q].identity.deep_view() == self.peers@[p].identity.deep_view());
        if q < p {
            assert(false);
        }
        if p < q {
            assert(false);
        }
    }

    /// An identity is known alike, with the same static permissions, in two
    /// routers whose peers agree wherever that identity stands.
    proof fn lemma_permitted_frame(&self, before: Router, identity: Seq<Seq<u8>>)
        requires
            self.wf(),
            before.wf(),
            before.peer_count() <= self.peer_count(),
            forall|q: int|
                0 <= q < before.peer_count() ==> #[trigger] self.peer_identity(q)
                    == before.peer_identity(q),
            forall|q: int|
                0 <= q < before.peer_count() && before.peer_identity(q) == identity
                    ==> #[trigger] self.peer_networks(q) == before.peer_networks(q),
            forall|q: int|
                before.peer_count() <= q < self.peer_count() ==> #[trigger] self.peer_identity(q)
                    != identity,
        ensures
            self.knows(identity) == before.knows(identity),
            self.permitted(identity) == before.permitted(identity),
    {
        if before.knows(identity) {
            let q = choose|q: int|
                0 <= q < before.peer_count() && #[trigger] before.peer_identity(q) == identity;
            assert(self.peer_identity(q) == identity);
            assert(self.peer_networks(q) == before.peer_networks(q));
            self.lemma_permitted(q);
            before.lemma_permitted(q);
        }
        if self.knows(identity) {
            let q = choose|q: int|
                0 <= q < self.peer_count() && #[trigger] self.peer_identity(q) == identity;
            assert(q < before.peer_count());
            assert(before.peer_identity(q) == identity);
        }
    }

    /// A router that knows no peer and no connection.
    pub fn new() -> (r: Self)
        ensures
            r.wf(),
            r.peer_count() == 0,
            r.conn_count() == 0,
            r.routes() == Map::<Prefix, ConnId>::empty(),
    {
        Router { peers: Vec::new(), routes: AllowedIps::new(), conns: Vec::new() }
    }

    /// The position of the peer with this identity, if it is known.
    fn find_peer(&self, identity: &PeerIdentity) -> (r: Option<usize>)
        requires
            self.wf(),
        ensures
            match r {
                Some(p) => p < self.peer_count() && self.peer_identity(p as int)
                    == identity.deep_view(),
                None => !self.knows(identity.deep_view()),
            },
    {
        let mut i: usize = 0;
        while i < self.peers.len()
            invariant
                i <= self.peers.len(),
                forall|j: int| 0 <= j < i ==> self.peer_identity(j) != identity.deep_view(),
            decreases self.peers.len() - i,
        {
            if same_identity(&self.peers[i].identity, identity) {
                return Some(i);
            }
            i += 1;
        }
        None
    }

    /// Registers networks that the peer with identity `key` may use.
    ///
    /// A peer registered before keeps its networks and gains the new ones.
    /// Live routes and connections are left as they are.
    pub fn add_peer(&mut self, key: PeerIdentity, cidrs: Vec<(IpAddr, u8)>)
        requires
            old(self).wf(),
            forall|i: int| 0 <= i < cidrs.len() ==> (#[trigger] cidrs[i]).1 <= cidrs[i].0.width(),
        ensures
            final(self).wf(),
            peer_added(*old(self), key.deep_view(), cidrs@, *final(self)),
    {
        let ghost before = *self;
        let ghost identity = key.deep_view();
        let p = match self.find_peer(&key) {
            Some(p) => p,
            None => {
                let p = self.peers.len();
                self.peers.push(PeerRecord { identity: key, allowed: AllowedIps::new() });
                proof {
                    assert forall|q: int| 0 <= q < p implies (#[trigger] self.peers@[q])
                        == before.peers@[q] by {}
                    assert forall|q: int, r: int| 0 <= q < r < self.peers@.len() implies (
                    #[trigger] self.peers@[q]).identity.deep_view() != (
                    #[trigger] self.peers@[r]).identity.deep_view() by {
                        if r == p {
                            assert(before.peer_identity(q) != identity);
                        } else {
                            assert(before.peers@[q].identity.deep_view()
                                != before.peers@[r].identity.deep_view());
                        }
                    }
                    assert forall|k: Prefix| #[trigger]
                        self.routes@.dom().contains(k) implies {
                        &&& self.routes@[k] < self.conns@.len()
                        &&& self.conns@[self.routes@[k] as int].peer matches Some(q)
                        &&& self.peers@[q as int].allowed@.dom().contains(k)
                    } by {
                        assert(before.routes@.dom().contains(k));
                    }
                }
                p
            },
        };
        assert(self.peers@[p as int].identity.deep_view() == identity);
        let ghost start = self.peers@[p as int].allowed@.dom();
        assert(start == before.permitted(identity)) by {
            if before.knows(identity) {
                before.lemma_permitted(p as int);
            } else {
                assert(start =~= Set::<Prefix>::empty());
            }
        }
        let ghost mid = *self;
        assert(mid.wf());
        let mut i: usize = 0;
        while i < cidrs.len()
            invariant
                i <= cidrs.len(),
                p < self.peers@.len(),
                self.wf(),
                self.peers@.len() == mid.peers@.len(),
                self.routes == mid.routes,
                self.conns == mid.conns,
                forall|q: int|
                    0 <= q < self.peers@.len() ==> (#[trigger] self.peers@[q]).identity
                        == mid.peers@[q].identity,
                forall|q: int|
                    0 <= q < self.peers@.len() && q != p ==> (#[trigger] self.peers@[q]).allowed
                        == mid.peers@[q].allowed,
                forall|j: int|
                    0 <= j < cidrs.len() ==> (#[trigger] cidrs[j]).1 <= cidrs[j].0.width(),
                self.peers@[p as int].allowed@.dom() == start.union(
                    prefixes_of(cidrs@.subrange(0, i as int)),
                ),
            decreases cidrs.len() - i,
        {
            let (ip, len) = cidrs[i];
            let ghost prev = *self;
            self.peers[p].allowed.insert(ip, len, ());
            proof {
                let k = Prefix::of(ip, len as nat);
                let upto = prefixes_of(cidrs@.subrange(0, i as int));
                let next = prefixes_of(cidrs@.subrange(0, i + 1));
                assert(next =~= upto.insert(k)) by {
                    assert forall|x: Prefix| next.contains(x) <==> upto.insert(k).contains(x) by {
                        let a = cidrs@.subrange(0, i as int);
                        let b = cidrs@.subrange(0, i + 1);
                        if next.contains(x) {
                            let j = choose|j: int|
                                0 <= j < b.len() && Prefix::of((#[trigger] b[j]).0, b[j].1 as nat)
                                    == x;
                            if j < i {
                                assert(Prefix::of(a[j].0, a[j].1 as nat) == x);
                            }
                        }
                        if upto.contains(x) {
                            let j = choose|j: int|
                                0 <= j < a.len() && Prefix::of((#[trigger] a[j]).0, a[j].1 as nat)
                                    == x;
                            assert(Prefix::of(b[j].0, b[j].1 as nat) == x);
                        }
                        if x == k {
                            assert(Prefix::of(b[i as int].0, b[i as int].1 as nat) == x);
                        }
                    }
                }
                assert(self.peers@[p as int].allowed@.dom() =~= start.union(next));
                assert forall|k2: Prefix| #[trigger]
                    self.routes@.dom().contains(k2) implies {
                    &&& self.routes@[k2] < self.conns@.len()
                    &&& self.conns@[self.routes@[k2] as int].peer matches Some(q)
                    &&& self.peers@[q as int].allowed@.dom().contains(k2)
                } by {
                    assert(prev.routes@.dom().contains(k2));
                    let q = prev.conns@[prev.routes@[k2] as int].peer->0;
                    assert(prev.peers@[q as int].allowed@.dom().contains(k2));
                }
            }
            i += 1;
        }
        proof {
            assert(cidrs@.subrange(0, cidrs.len() as int) =~= cidrs@);
            self.lemma_permitted(p as int);
            assert forall|q: int| 0 <= q < before.peer_count() implies #[trigger] self.peer_identity(
                q,
            ) == before.peer_identity(q) by {
                assert(self.peers@[q].identity == mid.peers@[q].identity);
            }
            assert forall|other: Seq<Seq<u8>>| other != identity implies #[trigger] self.knows(
                other,
            ) == before.knows(other) by {
                assert forall|q: int|
                    0 <= q < before.peer_count() && before.peer_identity(q)
                        == other implies #[trigger] self.peer_networks(q) == before.peer_networks(
                    q,
                ) by {
                    assert(q != p);
                    assert(self.peers@[q].allowed == mid.peers@[q].allowed);
                }
                self.lemma_permitted_frame(before, other);
            }
            assert forall|other: Seq<Seq<u8>>| other != identity implies #[trigger] self.permitted(
                other,
            ) == before.permitted(other) by {
                assert forall|q: int|
                    0 <= q < before.peer_count() && before.peer_identity(q)
                        == other implies #[trigger] self.peer_networks(q) == before.peer_networks(
                    q,
                ) by {
                    assert(q != p);
                    assert(self.peers@[q].allowed == mid.peers@[q].allowed);
                }
                self.lemma_permitted_frame(before, other);
            }
            assert(self.knows(identity));
            assert forall|id: ConnId| #[trigger] self.conn_peer(id) == before.conn_peer(id) by {
                if id < self.conns@.len() {
                    if let Some(q) = self.conns@[id as int].peer {
                        assert(self.peers@[q as int].identity == mid.peers@[q as int].identity);
                    }
                }
            }
        }
    }

    /// Takes in a new connection and installs its routes.
    ///
    /// The connection gets the next number and is live. Where `identity` is
    /// that of a known peer, each network of the peer's static permissions
    /// is routed to the connection, displacing the route that the network
    /// had. Where the peer presented no identity or an unknown one, no route
    /// changes: the connection can be used but nothing is routed to it.
    pub fn connect(&mut self, identity: Option<&PeerIdentity>) -> (id: ConnId)
        requires
            old(self).wf(),
        ensures
            final(self).wf(),
            connected(*old(self), identity_view(identity), *final(self), id),
    {
        let ghost before = *self;
        let id = self.conns.len();
        let found = match identity {
            Some(key) => self.find_peer(key),
            None => None,
        };
        match found {
            None => {
                self.conns.push(ConnState { live: true, peer: None });
                proof {
                    assert(self.routes() =~= overwrite(before.routes(), Set::empty(), id));
                    self.lemma_push_conn(before, id, None);
                }
                id
            },
            Some(p) => {
                self.conns.push(ConnState { live: true, peer: Some(p) });
                proof {
                    self.lemma_push_conn(before, id, Some(p));
                    before.lemma_permitted(p as int);
                }
                let ghost mid = *self;
                let list = self.peers[p].allowed.entries();
                let ghost keys = self.peers@[p as int].allowed@.dom();
                let mut i: usize = 0;
                while i < list.len()
                    invariant
                        i <= list.len(),
                        self.wf(),
                        self.peers == mid.peers,
                        self.conns == mid.conns,
                        p < self.peers@.len(),
                        id < self.conns@.len(),
                        self.conns@[id as int].peer == Some(p),
                        keys == self.peers@[p as int].allowed@.dom(),
                        forall|j: int|
                            0 <= j < list.len() ==> {
                                &&& (#[trigger] list[j]).2 <= list[j].1.width()
                                &&& keys.contains(Prefix::of(list[j].1, list[j].2 as nat))
                            },
                        self.routes@ == overwrite(
                            before.routes@,
                            Set::new(
                                |k: Prefix|
                                    exists|j: int|
                                        0 <= j < i && Prefix::of(
                                            (#[trigger] list[j]).1,
                                            list[j].2 as nat,
                                        ) == k,
                            ),
                            id,
                        ),
                    decreases list.len() - i,
                {
                    let (_, ip, len) = list[i];
                    let ghost prev = *self;
                    let ghost k = Prefix::of(ip, len as nat);
                    self.routes.insert(ip, len, id);
                    proof {
                        let upto = Set::new(
                            |k: Prefix|
                                exists|j: int|
                                    0 <= j < i && Prefix::of(
                                        (#[trigger] list[j]).1,
                                        list[j].2 as nat,
                                    ) == k,
                        );
                        let next = Set::new(
                            |k: Prefix|
                                exists|j: int|
                                    0 <= j < i + 1 && Prefix::of(
                                        (#[trigger] list[j]).1,
                                        list[j].2 as nat,
                                    ) == k,
                        );
                        assert(next =~= upto.insert(k)) by {
                            assert(Prefix::of(list[i as int].1, list[i as int].2 as nat) == k);
                        }
                        assert(self.routes@ =~= overwrite(before.routes@, next, id));
                        assert forall|k2: Prefix| #[trigger]
                            self.routes@.dom().contains(k2) implies {
                            &&& self.routes@[k2] < self.conns@.len()
                            &&& self.conns@[self.routes@[k2] as int].peer matches Some(q)
                            &&& self.peers@[q as int].allowed@.dom().contains(k2)
                        } by {
                            if k2 != k {
                                assert(prev.routes@.dom().contains(k2));
                            }
                        }
                    }
                    i += 1;
                }
                proof {
                    let all = Set::new(
                        |k: Prefix|
                            exists|j: int|
                                0 <= j < list.len() && Prefix::of(
                                    (#[trigger] list[j]).1,
                                    list[j].2 as nat,
                                ) == k,
                    );
                    assert(all =~= keys);
                    assert forall|key: Seq<Seq<u8>>| #[trigger]
                        self.knows(key) == before.knows(key) by {
                        self.lemma_permitted_frame(before, key);
                    }
                    assert forall|key: Seq<Seq<u8>>| #[trigger]
                        self.permitted(key) == before.permitted(key) by {
                        self.lemma_permitted_frame(before, key);
                    }
                }
                id
            },
        }
    }

    /// What pushing one connection changes in the router's view.
    proof fn lemma_push_conn(&self, before: Router, id: ConnId, peer: Option<usize>)
        requires
            before.wf(),
            id == before.conns@.len(),
            self.peers == before.peers,
            self.routes == before.routes,
            self.conns@ == before.conns@.push(ConnState { live: true, peer }),
            peer matches Some(p) ==> p < before.peers@.len(),
        ensures
            self.wf(),
            self.conn_count() == before.conn_count() + 1,
            self.is_live(id),
            forall|other: ConnId|
                other != id ==> #[trigger] self.is_live(other) == before.is_live(other),
            forall|other: ConnId|
                other != id ==> #[trigger] self.conn_peer(other) == before.conn_peer(other),
            self.conn_peer(id) == match peer {
                Some(p) => Some(before.peer_identity(p as int)),
                None => None,
            },
            forall|identity: Seq<Seq<u8>>| #[trigger] self.knows(identity) == before.knows(identity),
            forall|identity: Seq<Seq<u8>>| #[trigger]
                self.permitted(identity) == before.permitted(identity),
    {
        assert forall|k: Prefix| #[trigger] self.routes@.dom().contains(k) implies {
            &&& self.routes@[k] < self.conns@.len()
            &&& self.conns@[self.routes@[k] as int].peer matches Some(q)
            &&& self.peers@[q as int].allowed@.dom().contains(k)
        } by {
            assert(before.routes@.dom().contains(k));
        }
        assert forall|identity: Seq<Seq<u8>>| #[trigger]
            self.knows(identity) == before.knows(identity) by {
            self.lemma_permitted_frame(before, identity);
        }
        assert forall|identity: Seq<Seq<u8>>| #[trigger]
            self.permitted(identity) == before.permitted(identity) by {
            self.lemma_permitted_frame(before, identity);
        }
    }

    /// Forgets that connection `id` is live: the connection was dropped.
    ///
    /// Its routes stay in the table, and `lookup` passes over them.
    pub fn release(&mut self, id: ConnId)
        requires
            old(self).wf(),
        ensures
            final(self).wf(),
            released(*old(self), id, *final(self)),
    {
        let ghost before = *self;
        if id < self.conns.len() {
            let state = self.conns[id];
            self.conns.set(id, ConnState { live: false, peer: state.peer });
            proof {
                assert forall|k: Prefix| #[trigger] self.routes@.dom().contains(k) implies {
                    &&& self.routes@[k] < self.conns@.len()
                    &&& self.conns@[self.routes@[k] as int].peer matches Some(q)
                    &&& self.peers@[q as int].allowed@.dom().contains(k)
                } by {
                    assert(before.routes@.dom().contains(k));
                }
                assert forall|identity: Seq<Seq<u8>>| #[trigger]
                    self.knows(identity) == before.knows(identity) by {
                    self.lemma_permitted_frame(before, identity);
                }
                assert forall|identity: Seq<Seq<u8>>| #[trigger]
                    self.permitted(identity) == before.permitted(identity) by {
                    self.lemma_permitted_frame(before, identity);
                }
                assert forall|other: ConnId| #[trigger]
                    self.conn_peer(other) == before.conn_peer(other) by {}
            }
        }
    }

    /// The live connection that serves `ip`, by longest-prefix match on the
    /// live routes. Nothing where no route contains `ip`, or where the most
    /// specific route leads to a connection that was released.
    pub fn lookup(&self, ip: IpAddr) -> (r: Option<ConnId>)
        requires
            self.wf(),
        ensures
            r == self.route_of(ip),
            r matches Some(id) ==> self.conn_peer(id) matches Some(identity) && exists|k: Prefix|
                #[trigger] self.permitted(identity).contains(k) && k.contains(ip),
    {
        match self.routes.get(ip) {
            Some(id) => {
                proof {
                    let k = crate::allowed_ips::most_specific(self.routes@.dom(), ip)->0;
                    assert(self.routes@.dom().contains(k));
                    self.lemma_routes_are_permitted(k);
                }
                if self.conns[*id].live {
                    Some(*id)
                } else {
                    None
                }
            },
            None => None,
        }
    }
}

/// What `add_peer` does: in `after` the identity is known and may use the
/// networks it could use before and those of `cidrs`; every other identity,
/// every route and every connection is as in `before`.
pub open spec fn peer_added(
    before: Router,
    identity: Seq<Seq<u8>>,
    cidrs: Seq<(IpAddr, u8)>,
    after: Router,
) -> bool {
    &&& after.knows(identity)
    &&& after.permitted(identity) == before.permitted(identity).union(prefixes_of(cidrs))
    &&& forall|other: Seq<Seq<u8>>|
        other != identity ==> #[trigger] after.knows(other) == before.knows(other)
    &&& forall|other: Seq<Seq<u8>>|
        other != identity ==> #[trigger] after.permitted(other) == before.permitted(other)
    &&& after.routes() == before.routes()
    &&& after.conn_count() == before.conn_count()
    &&& forall|id: ConnId| #[trigger] after.is_live(id) == before.is_live(id)
    &&& forall|id: ConnId| #[trigger] after.conn_peer(id) == before.conn_peer(id)
}

impl Default for Router {
    /// A router that knows no peer and no connection.
    fn default() -> (r: Self)
        ensures
            r.wf(),
            r.peer_count() == 0,
            r.conn_count() == 0,
            r.routes() == Map::<Prefix, ConnId>::empty(),
    {
        Router::new()
    }
}

/// The identity that a connecting peer presented, as sequences of bytes.
pub open spec fn identity_view(identity: Option<&PeerIdentity>) -> Option<Seq<Seq<u8>>> {
    match identity {
        Some(key) => Some(key.deep_view()),
        None => None,
    }
}

/// What `connect` does: `after` is `before` with one connection more, `id`,
/// which is live, and with every network of the identity's static
/// permissions routed to `id`.
pub open spec fn connected(
    before: Router,
    identity: Option<Seq<Seq<u8>>>,
    after: Router,
    id: ConnId,
) -> bool {
    &&& id == before.conn_count()
    &&& after.conn_count() == before.conn_count() + 1
    &&& after.is_live(id)
    &&& forall|other: ConnId| other != id ==> #[trigger] after.is_live(other) == before.is_live(other)
    &&& forall|other: ConnId|
        other != id ==> #[trigger] after.conn_peer(other) == before.conn_peer(other)
    &&& after.conn_peer(id) == match identity {
        Some(key) => if before.knows(key) {
            Some(key)
        } else {
            None
        },
        None => None,
    }
    &&& forall|key: Seq<Seq<u8>>| #[trigger] after.knows(key) == before.knows(key)
    &&& forall|key: Seq<Seq<u8>>| #[trigger] after.permitted(key) == before.permitted(key)
    &&& after.routes() == overwrite(before.routes(), granted(before, identity), id)
}

/// What `release` does: `after` is `before` with connection `id` no longer
/// live, and nothing else changed.
pub open spec fn released(before: Router, id: ConnId, after: Router) -> bool {
    &&& after.conn_count() == before.conn_count()
    &&& !after.is_live(id)
    &&& forall|other: ConnId| other != id ==> #[trigger] after.is_live(other) == before.is_live(other)
    &&& forall|other: ConnId| #[trigger] after.conn_peer(other) == before.conn_peer(other)
    &&& forall|key: Seq<Seq<u8>>| #[trigger] after.knows(key) == before.knows(key)
    &&& forall|key: Seq<Seq<u8>>| #[trigger] after.permitted(key) == before.permitted(key)
    &&& after.routes() == before.routes()
}

/// The networks that `connect` routes to the new connection: the static
/// permissions of the identity presented, or none where none was presented.
pub open spec fn granted(before: Router, identity: Option<Seq<Seq<u8>>>) -> Set<Prefix> {
    match identity {
        Some(key) => before.permitted(key),
        None => Set::empty(),
    }
}

/// Once a peer has connected, its connection serves every address that one
/// of the peer's networks contains, unless a more specific route of the
/// table contains the address too.
pub proof fn lemma_connected_peer_is_routed(
    before: Router,
    identity: Option<Seq<Seq<u8>>>,
    after: Router,
    id: ConnId,
    ip: IpAddr,
    k: Prefix,
)
    requires
        connected(before, identity, after, id),
        granted(before, identity).contains(k),
        k.contains(ip),
        forall|other: Prefix| #[trigger]
            after.routes().dom().contains(other) && other.contains(ip) ==> other.len <= k.len,
    ensures
        after.route_of(ip) == Some(id),
{
    assert(is_most_specific(after.routes().dom(), ip, k));
    lemma_most_specific_unique(after.routes().dom(), ip, k);
}

/// A connect leaves the route of an address as it was where none of the
/// networks it installs contains the address.
pub proof fn lemma_connect_keeps_other_routes(
    before: Router,
    identity: Option<Seq<Seq<u8>>>,
    after: Router,
    id: ConnId,
    ip: IpAddr,
)
    requires
        connected(before, identity, after, id),
        forall|k: Prefix| #[trigger] granted(before, identity).contains(k) ==> !k.contains(ip),
        before.wf(),
    ensures
        after.route_of(ip) == before.route_of(ip),
{
    let old_dom = before.routes().dom();
    let new_dom = after.routes().dom();
    let g = granted(before, identity);
    assert forall|k: Prefix| new_dom.contains(k) <==> old_dom.contains(k) || g.contains(k) by {}
    assert forall|k: Prefix| old_dom.contains(k) implies before.routes()[k] != id by {
        before.lemma_routes_in_range(k);
    }
    match most_specific(old_dom, ip) {
        Some(k) => {
            assert(is_most_specific(new_dom, ip, k)) by {
                assert forall|other: Prefix| #[trigger]
                    new_dom.contains(other) && other.contains(ip) implies other.len <= k.len by {
                    assert(old_dom.contains(other));
                }
            }
            lemma_most_specific_unique(new_dom, ip, k);
        },
        None => {
            if most_specific(new_dom, ip) is Some {
                let k = most_specific(new_dom, ip)->0;
                assert(old_dom.contains(k));
                lemma_most_specific_exists(old_dom, ip, k);
            }
        },
    }
}

/// Once a connection is released, no address is routed to it, and every
/// address that another connection served is served as before.
pub proof fn lemma_released_is_unrouted(before: Router, id: ConnId, after: Router, ip: IpAddr)
    requires
        released(before, id, after),
    ensures
        after.route_of(ip) == if before.route_of(ip) == Some(id) {
            None
        } else {
            before.route_of(ip)
        },
        after.route_of(ip) != Some(id),
{
}

} // verus!
