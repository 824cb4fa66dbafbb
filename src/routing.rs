//! The routing table: known peers ordered by XOR distance from the local
//! node, then by connection age, then by key bytes, with one occupancy
//! counter per distance.

use vstd::prelude::*;

use crate::crypto::sha512_of;
use crate::{log2_xor_dist, xor_dist, Peer, PeerId};

verus! {

/// Number of possible distances, `0..=512`.
pub const NUM_DISTANCES: usize = 513;

/// One routing-table entry.
pub struct Route {
    /// Log2 XOR distance from the peer to the local node.
    pub dist: u16,
    /// Nanoseconds from the table's epoch to the connection.
    pub created: u64,
    pub peer: Peer,
}

/// Lexicographic order on byte strings of equal length, from index `i` on.
pub open spec fn key_lt_from(a: Seq<u8>, b: Seq<u8>, i: int) -> bool
    decreases a.len() - i,
{
    if i < 0 || i >= a.len() || i >= b.len() {
        false
    } else if a[i] != b[i] {
        a[i] < b[i]
    } else {
        key_lt_from(a, b, i + 1)
    }
}

pub open spec fn key_lt(a: Seq<u8>, b: Seq<u8>) -> bool {
    key_lt_from(a, b, 0)
}

/// The total order on routes: by distance, then creation, then key bytes.
pub open spec fn route_lt(a: Route, b: Route) -> bool {
    a.dist < b.dist || (a.dist == b.dist && (a.created < b.created || (a.created == b.created
        && key_lt(a.peer.key(), b.peer.key()))))
}

/// Two routes that agree on distance, creation and key bytes.
pub open spec fn route_same(a: Route, b: Route) -> bool {
    a.dist == b.dist && a.created == b.created && a.peer.key() == b.peer.key()
}

/// Number of routes at distance `d`.
pub open spec fn count_dist(s: Seq<Route>, d: int) -> nat
    decreases s.len(),
{
    if s.len() == 0 {
        0
    } else {
        (if s[0].dist == d {
            1nat
        } else {
            0nat
        }) + count_dist(s.subrange(1, s.len() as int), d)
    }
}

pub open spec fn sorted(s: Seq<Route>) -> bool {
    forall|i: int, j: int| 0 <= i < j < s.len() ==> #[trigger] route_lt(s[i], s[j])
}

/// The distance of a peer from the local node `host`.
pub open spec fn peer_dist(host: Seq<u8>, peer: Peer) -> nat {
    xor_dist(host, sha512_of(peer.key()))
}

/// The peers known to one local node.
pub struct RoutingTable {
    host: PeerId,
    neighbours: Vec<usize>,
    routes: Vec<Route>,
}

impl RoutingTable {
    /// The local node's identifier.
    pub closed spec fn host_view(&self) -> Seq<u8> {
        self.host.0@
    }

    /// The routes, in table order.
    pub closed spec fn routes_view(&self) -> Seq<Route> {
        self.routes@
    }

    pub closed spec fn wf(&self) -> bool {
        &&& self.host.0@.len() == 64
        &&& self.neighbours@.len() == NUM_DISTANCES
        &&& sorted(self.routes@)
        &&& forall|i: int|
            0 <= i < self.routes@.len() ==> #[trigger] self.routes@[i].dist as nat == peer_dist(
                self.host.0@,
                self.routes@[i].peer,
            )
        &&& forall|d: int|
            0 <= d < NUM_DISTANCES ==> #[trigger] self.neighbours@[d] as nat == count_dist(
                self.routes@,
                d,
            )
    }

    /// An empty table for the local node `host`.
    pub fn new(host: PeerId) -> (r: Self)
        ensures
            r.wf(),
            r.host_view() == host.0@,
            r.routes_view().len() == 0,
    {
        let neighbours = vec![0usize; NUM_DISTANCES];
        RoutingTable { host, neighbours, routes: Vec::new() }
    }

    /// The number of routes.
    pub fn len(&self) -> (r: usize)
        ensures
            r == self.routes_view().len(),
    {
        self.routes.len()
    }

    /// The route at index `i`.
    pub fn route(&self, i: usize) -> (r: &Route)
        requires
            i < self.routes_view().len(),
        ensures
            *r == self.routes_view()[i as int],
    {
        &self.routes[i]
    }

    /// The occupancy counter at `dist`; zero past the largest distance.
    pub fn count(&self, dist: u16) -> (r: usize)
        requires
            self.wf(),
        ensures
            r == count_dist(self.routes_view(), dist as int),
    {
        if dist as usize >= NUM_DISTANCES {
            proof {
                self.lemma_dist_bound();
                lemma_count_absent(self.routes@, dist as int);
            }
            return 0;
        }
        self.neighbours[dist as usize]
    }

    /// Adds a peer that connected `created` nanoseconds after the table's
    /// epoch. A route equal to the new one in distance, creation and key is
    /// replaced, and its peer handed back to be disconnected.
    pub fn insert(&mut self, peer: Peer, created: u64) -> (r: Result<(), Peer>)
        requires
            old(self).wf(),
            old(self).routes_view().len() < usize::MAX,
        ensures
            final(self).wf(),
            final(self).host_view() == old(self).host_view(),
            ({
                let nr = Route {
                    dist: peer_dist(old(self).host_view(), peer) as u16,
                    created,
                    peer,
                };
                let old_routes = old(self).routes_view();
                let new_routes = final(self).routes_view();
                &&& (r is Err <==> exists|i: int|
                    0 <= i < old_routes.len() && #[trigger] route_same(old_routes[i], nr))
                &&& r matches Err(p) ==> exists|i: int|
                    0 <= i < old_routes.len() && #[trigger] route_same(old_routes[i], nr)
                        && p == old_routes[i].peer && new_routes == old_routes.update(i, nr)
                &&& r is Ok ==> exists|i: int|
                    0 <= i <= old_routes.len() && new_routes == #[trigger] old_routes.insert(i, nr)
                &&& forall|d: int|
                    #[trigger] count_dist(new_routes, d) == count_dist(old_routes, d) + if r is Ok
                        && d == nr.dist {
                        1int
                    } else {
                        0int
                    }
            }),
    {
        let id = peer.id();
        let dist = log2_xor_dist(&self.host, &id);
        let new_route = Route { dist, created, peer };
        let ghost nr = new_route;
        let ghost old_routes = self.routes@;
        let mut i: usize = 0;
        while i < self.routes.len() && route_less(&self.routes[i], &new_route)
            invariant
                self.wf(),
                self.routes@ == old_routes,
                new_route == nr,
                0 <= i <= self.routes@.len(),
                forall|j: int| 0 <= j < i ==> route_lt(#[trigger] self.routes@[j], nr),
            decreases self.routes@.len() - i,
        {
            i = i + 1;
        }
        proof {
            assert forall|j: int| 0 <= j < i implies !route_same(#[trigger] old_routes[j], nr) by {
                lemma_route_lt_not_same(old_routes[j], nr);
            }
            if i < old_routes.len() {
                assert forall|j: int| i < j < old_routes.len() implies !route_same(
                    #[trigger] old_routes[j],
                    nr,
                ) by {
                    assert(route_lt(old_routes[i as int], old_routes[j]));
                    assert(!route_lt(old_routes[i as int], nr));
                    lemma_route_total(old_routes[i as int], nr);
                    if route_same(old_routes[i as int], nr) {
                        lemma_route_lt_same(old_routes[i as int], nr, old_routes[j]);
                    } else {
                        lemma_route_trans(nr, old_routes[i as int], old_routes[j]);
                    }
                    lemma_route_lt_not_same(nr, old_routes[j]);
                }
            }
        }
        if i < self.routes.len() && route_equal(&self.routes[i], &new_route) {
            let prev = self.routes.remove(i);
            self.routes.insert(i, new_route);
            proof {
                let s = old_routes;
                assert(self.routes@ =~= s.update(i as int, nr));
                assert forall|d: int| #[trigger] count_dist(self.routes@, d) == count_dist(s, d) by {
                    lemma_count_update(s, i as int, nr, d);
                }
                self.lemma_wf_after(old_routes, nr);
            }
            return Err(prev.peer);
        }
        proof {
            if i < old_routes.len() {
                lemma_route_total(old_routes[i as int], nr);
            }
            lemma_count_le_len(old_routes, dist as int);
            assert forall|a: int, b: int|
                0 <= a < b < old_routes.len() + 1 implies #[trigger] route_lt(
                old_routes.insert(i as int, nr)[a],
                old_routes.insert(i as int, nr)[b],
            ) by {
                let s = old_routes.insert(i as int, nr);
                if b < i {
                } else if b == i {
                } else if a < i {
                    assert(route_lt(old_routes[a], nr));
                    assert(route_lt(nr, old_routes[i as int]));
                    lemma_route_trans(old_routes[a], nr, old_routes[i as int]);
                    if i as int != b - 1 {
                        assert(route_lt(old_routes[i as int], old_routes[b - 1]));
                        lemma_route_trans(old_routes[a], old_routes[i as int], old_routes[b - 1]);
                    }
                } else if a == i {
                    if i as int != b - 1 {
                        assert(route_lt(old_routes[i as int], old_routes[b - 1]));
                        lemma_route_trans(nr, old_routes[i as int], old_routes[b - 1]);
                    }
                } else {
                    assert(route_lt(old_routes[a - 1], old_routes[b - 1]));
                }
            }
        }
        let d = dist as usize;
        let c = self.neighbours[d];
        self.neighbours.set(d, c + 1);
        self.routes.insert(i, new_route);
        proof {
            assert forall|e: int| #[trigger] count_dist(self.routes@, e) == count_dist(old_routes, e)
                + if e == nr.dist {
                1int
            } else {
                0int
            } by {
                lemma_count_insert(old_routes, i as int, nr, e);
            }
            assert forall|e: int| 0 <= e < NUM_DISTANCES implies #[trigger] self.neighbours@[e] as nat
                == count_dist(self.routes@, e) by {
                lemma_count_insert(old_routes, i as int, nr, e);
            }
            assert forall|j: int| 0 <= j < self.routes@.len() implies #[trigger] self.routes@[j].dist as nat
                == peer_dist(self.host.0@, self.routes@[j].peer) by {
                if j < i {
                    assert(self.routes@[j] == old_routes[j]);
                } else if j > i {
                    assert(self.routes@[j] == old_routes[j - 1]);
                }
            }
        }
        Ok(())
    }

    /// Removes the first route of `peer`, as when it disconnected, and
    /// hands it back; `None`, with nothing changed, if the table holds no
    /// route of that peer.
    pub fn remove(&mut self, peer: &Peer) -> (r: Option<Route>)
        requires
            old(self).wf(),
        ensures
            final(self).wf(),
            final(self).host_view() == old(self).host_view(),
            r is None <==> forall|j: int|
                0 <= j < old(self).routes_view().len() ==> #[trigger] old(self).routes_view()[j].peer.key()
                    != peer.key(),
            r is None ==> final(self).routes_view() == old(self).routes_view(),
            r matches Some(rt) ==> exists|i: int|
                0 <= i < old(self).routes_view().len() && #[trigger] old(self).routes_view()[i] == rt
                    && rt.peer.key() == peer.key() && (forall|j: int|
                    0 <= j < i ==> #[trigger] old(self).routes_view()[j].peer.key() != peer.key())
                    && final(self).routes_view() == old(self).routes_view().remove(i),
            forall|d: int|
                #[trigger] count_dist(final(self).routes_view(), d) == count_dist(
                    old(self).routes_view(),
                    d,
                ) - match r {
                    Some(rt) => if rt.dist == d {
                        1int
                    } else {
                        0int
                    },
                    None => 0int,
                },
    {
        let ghost old_routes = self.routes@;
        let ghost old_host = self.host.0@;
        assert(old_host == old(self).host_view());
        let n = self.routes.len();
        let mut i: usize = 0;
        while i < n
            invariant
                self.wf(),
                self.routes@ == old_routes,
                self.host.0@ == old_host,
                old_routes == old(self).routes_view(),
                old_host == old(self).host_view(),
                n == old_routes.len(),
                0 <= i <= n,
                forall|j: int| 0 <= j < i ==> #[trigger] old_routes[j].peer.key() != peer.key(),
            decreases n - i,
        {
            if key_compare(&self.routes[i].peer.0.0, &peer.0.0) == 0 {
                let rt = self.routes.remove(i);
                let d = rt.dist as usize;
                proof {
                    let s = old_routes;
                    let t = s.remove(i as int);
                    assert(s =~= t.insert(i as int, rt));
                    assert forall|e: int| #[trigger] count_dist(t, e) == count_dist(s, e) - if rt.dist
                        == e {
                        1int
                    } else {
                        0int
                    } by {
                        lemma_count_insert(t, i as int, rt, e);
                    }
                    assert(rt.dist as nat == peer_dist(self.host.0@, s[i as int].peer));
                    crate::lemma_xor_dist_le(self.host.0@, sha512_of(rt.peer.key()));
                    assert(count_dist(s, d as int) >= 1) by {
                        lemma_count_insert(t, i as int, rt, d as int);
                    }
                    assert(self.neighbours@[d as int] as nat == count_dist(s, d as int));
                }
                let c = self.neighbours[d];
                self.neighbours.set(d, c - 1);
                proof {
                    let s = old_routes;
                    let t = self.routes@;
                    assert forall|a: int, b: int| 0 <= a < b < t.len() implies #[trigger] route_lt(
                        t[a],
                        t[b],
                    ) by {
                        let a2 = if a < i { a } else { a + 1 };
                        let b2 = if b < i { b } else { b + 1 };
                        assert(route_lt(s[a2], s[b2]));
                    }
                    assert forall|j: int| 0 <= j < t.len() implies #[trigger] t[j].dist as nat
                        == peer_dist(self.host.0@, t[j].peer) by {
                        if j < i {
                            assert(t[j] == s[j]);
                        } else {
                            assert(t[j] == s[j + 1]);
                        }
                    }
                }
                proof {
                    assert(self.host.0@ == old_host);
                    assert(old(self).routes_view()[i as int].peer.key() == peer.key());
                }
                return Some(rt);
            }
            i = i + 1;
        }
        None
    }

    proof fn lemma_dist_bound(&self)
        requires
            self.wf(),
        ensures
            forall|j: int| 0 <= j < self.routes@.len() ==> #[trigger] self.routes@[j].dist <= 512,
    {
        assert forall|j: int| 0 <= j < self.routes@.len() implies #[trigger] self.routes@[j].dist
            <= 512 by {
            crate::lemma_xor_dist_le(self.host.0@, sha512_of(self.routes@[j].peer.key()));
        }
    }

    proof fn lemma_wf_after(&self, old_routes: Seq<Route>, nr: Route)
        requires
            self.host.0@.len() == 64,
            self.neighbours@.len() == NUM_DISTANCES,
            exists|i: int|
                0 <= i < old_routes.len() && route_same(old_routes[i], nr) && self.routes@
                    == old_routes.update(i, nr),
            sorted(old_routes),
            nr.dist as nat == peer_dist(self.host.0@, nr.peer),
            forall|i: int|
                0 <= i < old_routes.len() ==> #[trigger] old_routes[i].dist as nat == peer_dist(
                    self.host.0@,
                    old_routes[i].peer,
                ),
            forall|d: int|
                0 <= d < NUM_DISTANCES ==> #[trigger] self.neighbours@[d] as nat == count_dist(
                    old_routes,
                    d,
                ),
        ensures
            self.wf(),
    {
        let i = choose|i: int|
            0 <= i < old_routes.len() && route_same(old_routes[i], nr) && self.routes@
                == old_routes.update(i, nr);
        assert forall|a: int, b: int|
            0 <= a < b < self.routes@.len() implies #[trigger] route_lt(
            self.routes@[a],
            self.routes@[b],
        ) by {
            assert(route_lt(old_routes[a], old_routes[b]));
            if a == i {
                lemma_route_same_sym(old_routes[i], nr);
                lemma_route_lt_same(nr, old_routes[i], old_routes[b]);
            }
            if b == i {
                lemma_route_lt_same_right(old_routes[a], old_routes[i], nr);
            }
        }
        assert forall|d: int| 0 <= d < NUM_DISTANCES implies #[trigger] self.neighbours@[d] as nat
            == count_dist(self.routes@, d) by {
            lemma_count_update(old_routes, i, nr, d);
        }
    }

    /// Index of the eviction candidate at distance `dist`: the last route of
    /// that bucket, the one with the latest creation. `None` if the bucket
    /// is empty.
    pub fn last_k(&self, dist: u16) -> (r: Option<usize>)
        requires
            self.wf(),
        ensures
            r is None <==> forall|j: int|
                0 <= j < self.routes_view().len() ==> #[trigger] self.routes_view()[j].dist != dist,
            r matches Some(i) ==> {
                &&& i < self.routes_view().len()
                &&& self.routes_view()[i as int].dist == dist
                &&& forall|j: int|
                    i < j < self.routes_view().len() ==> #[trigger] self.routes_view()[j].dist
                        != dist
                &&& forall|j: int|
                    0 <= j < self.routes_view().len() && #[trigger] self.routes_view()[j].dist
                        == dist ==> self.routes_view()[j].created <= self.routes_view()[i as int].created
            },
    {
        if dist as usize >= NUM_DISTANCES || self.neighbours[dist as usize] == 0 {
            proof {
                self.lemma_dist_bound();
                lemma_count_absent(self.routes@, dist as int);
            }
            return None;
        }
        // first index whose distance is beyond `dist`
        let mut lo: usize = 0;
        let mut hi: usize = self.routes.len();
        while lo < hi
            invariant
                self.wf(),
                0 <= lo <= hi <= self.routes@.len(),
                forall|j: int| 0 <= j < lo ==> #[trigger] self.routes@[j].dist <= dist,
                forall|j: int| hi <= j < self.routes@.len() ==> #[trigger] self.routes@[j].dist > dist,
            decreases hi - lo,
        {
            let mid = lo + (hi - lo) / 2;
            if self.routes[mid].dist <= dist {
                proof {
                    assert forall|j: int| 0 <= j < mid + 1 implies #[trigger] self.routes@[j].dist
                        <= dist by {
                        if j < mid {
                            assert(route_lt(self.routes@[j], self.routes@[mid as int]));
                        }
                    }
                }
                lo = mid + 1;
            } else {
                proof {
                    assert forall|j: int| mid <= j < self.routes@.len() implies #[trigger] self.routes@[j].dist
                        > dist by {
                        if j > mid {
                            assert(route_lt(self.routes@[mid as int], self.routes@[j]));
                        }
                    }
                }
                hi = mid;
            }
        }
        if lo == 0 || self.routes[lo - 1].dist != dist {
            proof {
                assert forall|j: int| 0 <= j < self.routes@.len() implies #[trigger] self.routes@[j].dist
                    != dist by {
                    if j < lo - 1 {
                        assert(route_lt(self.routes@[j], self.routes@[lo - 1]));
                    }
                }
            }
            return None;
        }
        let last = lo - 1;
        proof {
            assert(self.routes@[last as int].dist == dist);
            assert(self.routes_view()[last as int].dist == dist);
            assert forall|j: int|
                0 <= j < self.routes@.len() && #[trigger] self.routes@[j].dist == dist implies self.routes@[j].created
                <= self.routes@[last as int].created by {
                if j < last {
                    assert(route_lt(self.routes@[j], self.routes@[last as int]));
                }
            }
        }
        Some(last)
    }
}

/// Exec form of `route_lt`.
fn route_less(a: &Route, b: &Route) -> (r: bool)
    ensures
        r == route_lt(*a, *b),
{
    if a.dist != b.dist {
        return a.dist < b.dist;
    }
    if a.created != b.created {
        return a.created < b.created;
    }
    key_compare(&a.peer.0.0, &b.peer.0.0) < 0
}

/// Exec form of `route_same`.
fn route_equal(a: &Route, b: &Route) -> (r: bool)
    ensures
        r == route_same(*a, *b),
{
    a.dist == b.dist && a.created == b.created && key_compare(&a.peer.0.0, &b.peer.0.0) == 0
}

/// Three-way comparison of two keys by their bytes.
pub(crate) fn key_compare(a: &[u8; 32], b: &[u8; 32]) -> (r: i8)
    ensures
        r < 0 <==> key_lt(a@, b@),
        r == 0 <==> a@ == b@,
        r > 0 <==> key_lt(b@, a@),
{
    let mut i: usize = 0;
    while i < 32
        invariant
            0 <= i <= 32,
            a@.len() == 32,
            b@.len() == 32,
            forall|t: int| 0 <= t < i ==> a@[t] == b@[t],
            key_lt(a@, b@) == key_lt_from(a@, b@, i as int),
            key_lt(b@, a@) == key_lt_from(b@, a@, i as int),
        decreases 32 - i,
    {
        if a[i] != b[i] {
            if a[i] < b[i] {
                return -1;
            } else {
                return 1;
            }
        }
        i = i + 1;
    }
    proof {
        assert(a@ =~= b@);
    }
    0
}

proof fn lemma_key_lt_irrefl(a: Seq<u8>, b: Seq<u8>, i: int)
    requires
        a == b,
    ensures
        !key_lt_from(a, b, i),
    decreases a.len() - i,
{
    if 0 <= i < a.len() {
        lemma_key_lt_irrefl(a, b, i + 1);
    }
}

proof fn lemma_key_lt_asym(a: Seq<u8>, b: Seq<u8>, i: int)
    ensures
        key_lt_from(a, b, i) ==> !key_lt_from(b, a, i),
    decreases a.len() - i,
{
    if 0 <= i < a.len() && i < b.len() && a[i] == b[i] {
        lemma_key_lt_asym(a, b, i + 1);
    }
}

proof fn lemma_key_lt_trans(a: Seq<u8>, b: Seq<u8>, c: Seq<u8>, i: int)
    requires
        a.len() == b.len() == c.len(),
        key_lt_from(a, b, i),
        key_lt_from(b, c, i),
    ensures
        key_lt_from(a, c, i),
    decreases a.len() - i,
{
    if a[i] == b[i] && b[i] == c[i] {
        lemma_key_lt_trans(a, b, c, i + 1);
    }
}

proof fn lemma_key_lt_total(a: Seq<u8>, b: Seq<u8>, i: int)
    requires
        a.len() == b.len(),
        0 <= i <= a.len(),
        forall|t: int| 0 <= t < i ==> a[t] == b[t],
        !key_lt_from(a, b, i),
        !key_lt_from(b, a, i),
    ensures
        a == b,
    decreases a.len() - i,
{
    if i < a.len() {
        lemma_key_lt_total(a, b, i + 1);
    } else {
        assert(a =~= b);
    }
}

proof fn lemma_route_lt_not_same(a: Route, b: Route)
    requires
        route_lt(a, b),
    ensures
        !route_same(a, b),
        !route_same(b, a),
{
    if route_same(a, b) {
        lemma_key_lt_irrefl(a.peer.key(), b.peer.key(), 0);
    }
}

proof fn lemma_route_same_sym(a: Route, b: Route)
    ensures
        route_same(a, b) == route_same(b, a),
{
}

/// Of two routes, one is below the other or they agree.
proof fn lemma_route_total(a: Route, b: Route)
    requires
        a.peer.key().len() == 32,
        b.peer.key().len() == 32,
    ensures
        route_lt(a, b) || route_lt(b, a) || route_same(a, b),
        route_lt(a, b) ==> !route_lt(b, a),
{
    lemma_key_lt_asym(a.peer.key(), b.peer.key(), 0);
    if !key_lt(a.peer.key(), b.peer.key()) && !key_lt(b.peer.key(), a.peer.key()) {
        lemma_key_lt_total(a.peer.key(), b.peer.key(), 0);
    }
}

proof fn lemma_route_trans(a: Route, b: Route, c: Route)
    requires
        a.peer.key().len() == 32,
        b.peer.key().len() == 32,
        c.peer.key().len() == 32,
        route_lt(a, b),
        route_lt(b, c),
    ensures
        route_lt(a, c),
{
    if a.dist == b.dist && b.dist == c.dist && a.created == b.created && b.created == c.created {
        lemma_key_lt_trans(a.peer.key(), b.peer.key(), c.peer.key(), 0);
    }
}

proof fn lemma_route_lt_same(a: Route, b: Route, c: Route)
    requires
        route_same(a, b),
        route_lt(a, c),
    ensures
        route_lt(b, c),
{
}

proof fn lemma_route_lt_same_right(a: Route, b: Route, c: Route)
    requires
        route_same(b, c),
        route_lt(a, b),
    ensures
        route_lt(a, c),
{
}

proof fn lemma_count_insert(s: Seq<Route>, i: int, r: Route, d: int)
    requires
        0 <= i <= s.len(),
    ensures
        count_dist(s.insert(i, r), d) == count_dist(s, d) + if r.dist == d {
            1nat
        } else {
            0nat
        },
    decreases s.len(),
{
    let t = s.insert(i, r);
    assert(t.len() > 0);
    let tail = t.subrange(1, t.len() as int);
    assert(count_dist(t, d) == (if t[0].dist == d {
        1nat
    } else {
        0nat
    }) + count_dist(tail, d));
    if i == 0 {
        assert(t[0] == r);
        assert(tail =~= s);
    } else {
        assert(t[0] == s[0]);
        let st = s.subrange(1, s.len() as int);
        assert(tail =~= st.insert(i - 1, r));
        lemma_count_insert(st, i - 1, r, d);
    }
}

proof fn lemma_count_update(s: Seq<Route>, i: int, r: Route, d: int)
    requires
        0 <= i < s.len(),
        s[i].dist == r.dist,
    ensures
        count_dist(s.update(i, r), d) == count_dist(s, d),
    decreases s.len(),
{
    let t = s.update(i, r);
    let tail = t.subrange(1, t.len() as int);
    let st = s.subrange(1, s.len() as int);
    assert(count_dist(t, d) == (if t[0].dist == d {
        1nat
    } else {
        0nat
    }) + count_dist(tail, d));
    if i == 0 {
        assert(tail =~= st);
    } else {
        assert(t[0] == s[0]);
        assert(tail =~= st.update(i - 1, r));
        lemma_count_update(st, i - 1, r, d);
    }
}

proof fn lemma_count_le_len(s: Seq<Route>, d: int)
    ensures
        count_dist(s, d) <= s.len(),
    decreases s.len(),
{
    if s.len() > 0 {
        lemma_count_le_len(s.subrange(1, s.len() as int), d);
    }
}

/// A distance is counted zero times exactly when no route lies at it.
proof fn lemma_count_absent(s: Seq<Route>, d: int)
    ensures
        count_dist(s, d) == 0 <==> forall|j: int| 0 <= j < s.len() ==> #[trigger] s[j].dist != d,
    decreases s.len(),
{
    if s.len() > 0 {
        let t = s.subrange(1, s.len() as int);
        lemma_count_absent(t, d);
        if count_dist(s, d) == 0 {
            assert forall|j: int| 0 <= j < s.len() implies #[trigger] s[j].dist != d by {
                if j > 0 {
                    assert(s[j] == t[j - 1]);
                }
            }
        }
        if forall|j: int| 0 <= j < s.len() ==> #[trigger] s[j].dist != d {
            assert forall|j: int| 0 <= j < t.len() implies #[trigger] t[j].dist != d by {
                assert(t[j] == s[j + 1]);
            }
        }
    }
}

} // verus!
